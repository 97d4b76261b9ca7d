//! Screen layout: how the terminal is divided between header, meters,
//! history graphs, the job table and the footer, and which table columns fit.

use vstd::prelude::*;

verus! {

/// A rectangle of terminal cells.
#[derive(Clone, Copy, Debug, PartialEq, Eq, Structural)]
pub struct Area {
    pub x: u16,
    pub y: u16,
    pub width: u16,
    pub height: u16,
}

/// A size request for one band of a split.
#[derive(Clone, Copy, Debug, PartialEq, Eq, Structural)]
pub enum Extent {
    /// Exactly this many cells.
    Length(u16),
    /// At least this many cells, taking what is left.
    Min(u16),
}

/// How much the screen can show.
#[derive(Clone, Copy, Debug, PartialEq, Eq, Structural)]
pub enum LayoutMode {
    Full,
    Compact,
    Minimal,
}

/// The bands of the main screen.
#[derive(Clone, Copy, Debug, PartialEq, Eq, Structural)]
pub struct MainLayout {
    pub mode: LayoutMode,
    pub header: Area,
    pub meters: Area,
    pub histories: Option<Area>,
    pub processes: Area,
    pub footer: Area,
}

/// A band of a vertical split of `area`: as wide as the area, at its left
/// edge, and within its rows.
pub open spec fn band_in(area: Area, band: Area) -> bool {
    &&& band.x == area.x
    &&& band.width == area.width
    &&& area.y <= band.y
    &&& band.y + band.height <= area.y + area.height
}

/// `ratatui::layout::Layout::split` with a vertical direction: one band per
/// constraint, each as wide as the area and within its rows (the solver's
/// required constraints keep every edge between the area's top and bottom).
/// Where in the area each band lies is left to the solver and not stated:
/// when the lengths asked for do not fit, more than one split is equally
/// good, and which one the solver reaches is not fixed by the source.
#[verifier::external_body]
fn split_vertical(area: Area, constraints: &Vec<Extent>) -> (bands: Vec<Area>)
    ensures
        bands.len() == constraints.len(),
        forall|i: int| 0 <= i < bands@.len() ==> #[trigger] band_in(area, bands@[i]),
{
    let rects = ratatui::layout::Layout::default()
        .direction(ratatui::layout::Direction::Vertical)
        .constraints(constraints.iter().map(|c| match c {
            Extent::Length(n) => ratatui::layout::Constraint::Length(*n),
            Extent::Min(n) => ratatui::layout::Constraint::Min(*n),
        }))
        .split(ratatui::layout::Rect { x: area.x, y: area.y, width: area.width, height: area.height });
    rects.iter().map(|r| Area { x: r.x, y: r.y, width: r.width, height: r.height }).collect()
}

/// Narrow or short terminals get the minimal layout; short ones the compact one.
pub open spec fn spec_layout_mode(area: Area) -> LayoutMode {
    if area.width < 50 || area.height < 22 {
        LayoutMode::Minimal
    } else if area.height < 34 {
        LayoutMode::Compact
    } else {
        LayoutMode::Full
    }
}

/// Picks the layout for a terminal area.
pub fn layout_mode(area: Area) -> (m: LayoutMode)
    ensures
        m == spec_layout_mode(area),
{
    if area.width < 50 || area.height < 22 {
        LayoutMode::Minimal
    } else if area.height < 34 {
        LayoutMode::Compact
    } else {
        LayoutMode::Full
    }
}

/// The height the job table asks for: three rows when there is no job (a
/// collapsed panel), else one row per job plus border and header, between
/// four and the mode's maximum. The job count is taken as `u16`, as the
/// monitor does.
pub open spec fn desired_table_height(mode: LayoutMode, process_count: usize) -> int {
    let maximum = if mode == LayoutMode::Full { 10int } else { 6int };
    let wanted = (process_count as u16) + 3;
    let wanted = if wanted > u16::MAX { u16::MAX as int } else { wanted };
    if process_count == 0 {
        3
    } else if wanted < 4 {
        4
    } else if wanted > maximum {
        maximum
    } else {
        wanted
    }
}

/// The bands the main screen asks for, top to bottom. The minimal layout
/// has no history graphs; the others give the graphs a minimum height and
/// the job table at most what is left.
pub open spec fn main_constraints(area: Area, process_count: usize) -> Seq<Extent> {
    let mode = spec_layout_mode(area);
    let footer: u16 = if area.height > 0 { 1 } else { 0 };
    if mode == LayoutMode::Minimal {
        let header: u16 = if area.height <= 4 { 1 } else if area.height <= 9 { 2 } else { 3 };
        let meters: u16 = if area.height <= 3 { 0 } else if area.height <= 9 { 3 } else { 5 };
        seq![Extent::Length(header), Extent::Length(meters), Extent::Min(0), Extent::Length(footer)]
    } else {
        let graphs: u16 = if mode == LayoutMode::Full { 12 } else { 9 };
        let reserved = 3 + 5 + graphs + footer;
        let available = if area.height >= reserved { area.height - reserved } else { 0 };
        let desired = desired_table_height(mode, process_count);
        let table = if desired < available { desired } else { available };
        seq![Extent::Length(3), Extent::Length(5), Extent::Min(graphs), Extent::Length(table as u16), Extent::Length(footer)]
    }
}

/// The bands the main screen asks for (see `main_constraints`).
pub fn layout_constraints(area: Area, process_count: usize) -> (c: Vec<Extent>)
    ensures
        c@ == main_constraints(area, process_count),
{
    let mode = layout_mode(area);
    let footer: u16 = if area.height > 0 { 1 } else { 0 };
    if mode == LayoutMode::Minimal {
        let header: u16 = if area.height <= 4 { 1 } else if area.height <= 9 { 2 } else { 3 };
        let meters: u16 = if area.height <= 3 { 0 } else if area.height <= 9 { 3 } else { 5 };
        let constraints = vec![Extent::Length(header), Extent::Length(meters), Extent::Min(0), Extent::Length(footer)];
        assert(constraints@ == main_constraints(area, process_count));
        return constraints;
    }
    let graphs: u16 = if mode == LayoutMode::Full { 12 } else { 9 };
    let maximum: u16 = if mode == LayoutMode::Full { 10 } else { 6 };
    let desired: u16 = if process_count == 0 {
        3
    } else {
        let wanted = (process_count as u16).saturating_add(3);
        if wanted < 4 { 4 } else if wanted > maximum { maximum } else { wanted }
    };
    let available = area.height.saturating_sub(3 + 5 + graphs + footer);
    let table = if desired < available { desired } else { available };
    let constraints = vec![Extent::Length(3), Extent::Length(5), Extent::Min(graphs), Extent::Length(table), Extent::Length(footer)];
    assert(constraints@ == main_constraints(area, process_count));
    constraints
}

/// The number of bands a layout mode divides the screen into.
pub open spec fn band_count(mode: LayoutMode) -> nat {
    if mode == LayoutMode::Minimal { 4 } else { 5 }
}

/// The main screen's layout from its bands: header, meters, history graphs
/// (none in the minimal layout), job table and footer, top to bottom.
pub open spec fn layout_of(mode: LayoutMode, bands: Seq<Area>) -> MainLayout {
    if mode == LayoutMode::Minimal {
        MainLayout { mode, header: bands[0], meters: bands[1], histories: None, processes: bands[2], footer: bands[3] }
    } else {
        MainLayout { mode, header: bands[0], meters: bands[1], histories: Some(bands[2]), processes: bands[3], footer: bands[4] }
    }
}

/// Names the bands of a split screen (see `layout_of`).
pub fn layout_from_bands(mode: LayoutMode, bands: &Vec<Area>) -> (l: MainLayout)
    requires
        bands.len() == band_count(mode),
    ensures
        l == layout_of(mode, bands@),
{
    if mode == LayoutMode::Minimal {
        MainLayout { mode, header: bands[0], meters: bands[1], histories: None, processes: bands[2], footer: bands[3] }
    } else {
        MainLayout { mode, header: bands[0], meters: bands[1], histories: Some(bands[2]), processes: bands[3], footer: bands[4] }
    }
}

/// The bands of a split of `area` for `constraints`, as far as the split is
/// fixed: one per constraint, each within the area.
pub open spec fn is_split(area: Area, constraints: Seq<Extent>, bands: Seq<Area>) -> bool {
    &&& bands.len() == constraints.len()
    &&& forall|i: int| 0 <= i < bands.len() ==> #[trigger] band_in(area, bands[i])
}

/// Divides the screen for a job table of `process_count` rows: Ratatui's
/// solver splits the area for `main_constraints`, and the bands are named
/// by `layout_of`.
pub fn main_layout(area: Area, process_count: usize) -> (l: MainLayout)
    ensures
        exists|bands: Seq<Area>| is_split(area, main_constraints(area, process_count), bands)
            && l == layout_of(spec_layout_mode(area), bands),
{
    let mode = layout_mode(area);
    let constraints = layout_constraints(area, process_count);
    let bands = split_vertical(area, &constraints);
    assert(is_split(area, main_constraints(area, process_count), bands@));
    layout_from_bands(mode, &bands)
}

/// In the full and compact layouts the screen asks, top to bottom, for a
/// three-row header, five rows of meters, the history graphs' minimum
/// (twelve rows in the full layout, nine in the compact one), the job table
/// and a one-row footer. The job table asks for one row per job plus three
/// for its border and header, at most ten rows in the full layout and six
/// in the compact one, and never more than the other bands leave; with no
/// job it asks for three rows.
pub proof fn lemma_table_band(area: Area, process_count: usize)
    requires
        area.width >= 50,
        area.height >= 22,
        process_count <= 65532,
    ensures
        ({
            let c = main_constraints(area, process_count);
            let full = area.height >= 34;
            let graphs: int = if full { 12 } else { 9 };
            let maximum: int = if full { 10 } else { 6 };
            let left: int = area.height - (3 + 5 + graphs + 1);
            let wanted: int = if process_count == 0 {
                3
            } else if process_count + 3 <= maximum {
                process_count + 3
            } else {
                maximum
            };
            let table: int = if wanted <= left { wanted } else { left };
            &&& c.len() == 5
            &&& c[0] == Extent::Length(3)
            &&& c[1] == Extent::Length(5)
            &&& c[2] matches Extent::Min(g) && g == graphs
            &&& c[3] matches Extent::Length(t) && t == table
            &&& c[4] == Extent::Length(1)
        }),
{
}

/// More jobs never make the job table ask for fewer rows.
pub proof fn lemma_table_band_grows(area: Area, fewer: usize, more: usize)
    requires
        fewer <= more <= 65532,
    ensures
        main_constraints(area, fewer).len() == main_constraints(area, more).len(),
        main_constraints(area, fewer).len() == 5 ==> (main_constraints(area, fewer)[3] matches Extent::Length(a)
            && main_constraints(area, more)[3] matches Extent::Length(b) && a <= b),
{
}

/// In the minimal layout the screen asks for a header of one row (at most
/// four rows of screen), two (at most nine) or three, meters of no row (at
/// most three rows of screen), three (at most nine) or five, the job table
/// with whatever is left, and a one-row footer when there is any row.
pub proof fn lemma_minimal_bands(area: Area, process_count: usize)
    requires
        area.width < 50 || area.height < 22,
    ensures
        ({
            let c = main_constraints(area, process_count);
            let h = area.height;
            &&& c.len() == 4
            &&& c[0] == Extent::Length(if h <= 4 { 1 } else if h <= 9 { 2 } else { 3 })
            &&& c[1] == Extent::Length(if h <= 3 { 0 } else if h <= 9 { 3 } else { 5 })
            &&& c[2] == Extent::Min(0)
            &&& c[3] == Extent::Length(if h == 0 { 0 } else { 1 })
        }),
{
}

/// A dialog of at most `width` by `height` cells, at least one cell each way,
/// leaving a one-cell margin when it can, centred in `area`.
pub open spec fn centered_area(area: Area, width: u16, height: u16) -> Area {
    let room_w: int = if area.width >= 2 { area.width - 2 } else { 0 };
    let room_h: int = if area.height >= 2 { area.height - 2 } else { 0 };
    let w: int = if width < room_w { width as int } else { room_w };
    let w: int = if w < 1 { 1 } else { w };
    let h: int = if height < room_h { height as int } else { room_h };
    let h: int = if h < 1 { 1 } else { h };
    let free_w: int = if area.width >= w { area.width - w } else { 0 };
    let free_h: int = if area.height >= h { area.height - h } else { 0 };
    Area { x: (area.x + free_w / 2) as u16, y: (area.y + free_h / 2) as u16, width: w as u16, height: h as u16 }
}

/// The dialog's position stays on the `u16` grid.
pub open spec fn centered_fits(area: Area, width: u16, height: u16) -> bool {
    let room_w: int = if area.width >= 2 { area.width - 2 } else { 0 };
    let room_h: int = if area.height >= 2 { area.height - 2 } else { 0 };
    let w: int = if width < room_w { width as int } else { room_w };
    let w: int = if w < 1 { 1 } else { w };
    let h: int = if height < room_h { height as int } else { room_h };
    let h: int = if h < 1 { 1 } else { h };
    let free_w: int = if area.width >= w { area.width - w } else { 0 };
    let free_h: int = if area.height >= h { area.height - h } else { 0 };
    area.x + free_w / 2 <= u16::MAX && area.y + free_h / 2 <= u16::MAX
}


/// A dialog fits its area and sits in its middle: it is at least one cell
/// each way and no larger than asked, keeps a one-cell margin on each side
/// when the area has room for it, and the space left of it is the space
/// right of it, or one cell less (likewise above and below).
pub proof fn lemma_dialog_centered(area: Area, width: u16, height: u16)
    requires
        centered_fits(area, width, height),
        area.width >= 1,
        area.height >= 1,
    ensures
        ({
            let r = centered_area(area, width, height);
            let left = r.x - area.x;
            let right = area.x + area.width - (r.x + r.width);
            let top = r.y - area.y;
            let bottom = area.y + area.height - (r.y + r.height);
            &&& 1 <= r.width <= area.width
            &&& 1 <= r.height <= area.height
            &&& width >= 1 ==> r.width <= width
            &&& height >= 1 ==> r.height <= height
            &&& area.width >= 3 ==> left >= 1 && right >= 1
            &&& area.height >= 3 ==> top >= 1 && bottom >= 1
            &&& left <= right <= left + 1
            &&& top <= bottom <= top + 1
        }),
{
}

/// Centres a dialog in `area` (see `centered_area`).
pub fn centered(area: Area, width: u16, height: u16) -> (r: Area)
    requires
        centered_fits(area, width, height),
    ensures
        r == centered_area(area, width, height),
{
    let room_w = area.width.saturating_sub(2);
    let room_h = area.height.saturating_sub(2);
    let w = if width < room_w { width } else { room_w };
    let w = if w < 1 { 1 } else { w };
    let h = if height < room_h { height } else { room_h };
    let h = if h < 1 { 1 } else { h };
    Area {
        x: area.x + area.width.saturating_sub(w) / 2,
        y: area.y + area.height.saturating_sub(h) / 2,
        width: w,
        height: h,
    }
}

/// How many columns the job table shows.
#[derive(Clone, Copy, Debug, PartialEq, Eq, Structural)]
pub enum TableDensity {
    Full,
    Medium,
    Narrow,
    Tiny,
}

/// The columns of the job table: their widths and headers.
#[derive(Clone, Debug)]
pub struct TableSchema {
    pub density: TableDensity,
    pub widths: Vec<Extent>,
    pub headers: Vec<&'static str>,
}

/// The table density for a layout mode and a width: all columns need the
/// full layout and 105 cells, then 78, 54, and the rest.
pub open spec fn table_density(mode: LayoutMode, width: u16) -> TableDensity {
    if mode == LayoutMode::Full && width >= 105 {
        TableDensity::Full
    } else if width >= 78 {
        TableDensity::Medium
    } else if width >= 54 {
        TableDensity::Narrow
    } else {
        TableDensity::Tiny
    }
}

/// The column headers of a density.
pub open spec fn table_headers(d: TableDensity) -> Seq<&'static str> {
    match d {
        TableDensity::Full => seq!["", "PID", "GPU ms/s", "CPU", "UMEM", "TIME", "COMMAND"],
        TableDensity::Medium => seq!["", "PID", "GPU ms/s", "CPU", "UMEM", "COMMAND"],
        TableDensity::Narrow => seq!["", "PID", "GPU ms/s", "CPU", "COMMAND"],
        TableDensity::Tiny => seq!["", "PID", "ACTIVITY", "COMMAND"],
    }
}

/// The column widths of a density; the command column takes the rest.
pub open spec fn table_widths(d: TableDensity) -> Seq<Extent> {
    match d {
        TableDensity::Full => seq![Extent::Length(1), Extent::Length(7), Extent::Length(10), Extent::Length(7),
            Extent::Length(10), Extent::Length(10), Extent::Min(15)],
        TableDensity::Medium => seq![Extent::Length(1), Extent::Length(7), Extent::Length(10), Extent::Length(7),
            Extent::Length(10), Extent::Min(12)],
        TableDensity::Narrow => seq![Extent::Length(1), Extent::Length(7), Extent::Length(10), Extent::Length(7),
            Extent::Min(10)],
        TableDensity::Tiny => seq![Extent::Length(1), Extent::Length(7), Extent::Length(8), Extent::Min(8)],
    }
}

/// The job table columns that fit the layout and width.
pub fn table_schema(mode: LayoutMode, width: u16) -> (t: TableSchema)
    ensures
        t.density == table_density(mode, width),
        t.headers@ == table_headers(t.density),
        t.widths@ == table_widths(t.density),
{
    if mode == LayoutMode::Full && width >= 105 {
        let t = TableSchema {
            density: TableDensity::Full,
            widths: vec![Extent::Length(1), Extent::Length(7), Extent::Length(10), Extent::Length(7),
                Extent::Length(10), Extent::Length(10), Extent::Min(15)],
            headers: vec!["", "PID", "GPU ms/s", "CPU", "UMEM", "TIME", "COMMAND"],
        };
        assert(t.widths@ == table_widths(TableDensity::Full));
        assert(t.headers@ == table_headers(TableDensity::Full));
        t
    } else if width >= 78 {
        let t = TableSchema {
            density: TableDensity::Medium,
            widths: vec![Extent::Length(1), Extent::Length(7), Extent::Length(10), Extent::Length(7),
                Extent::Length(10), Extent::Min(12)],
            headers: vec!["", "PID", "GPU ms/s", "CPU", "UMEM", "COMMAND"],
        };
        assert(t.widths@ == table_widths(TableDensity::Medium));
        assert(t.headers@ == table_headers(TableDensity::Medium));
        t
    } else if width >= 54 {
        let t = TableSchema {
            density: TableDensity::Narrow,
            widths: vec![Extent::Length(1), Extent::Length(7), Extent::Length(10), Extent::Length(7),
                Extent::Min(10)],
            headers: vec!["", "PID", "GPU ms/s", "CPU", "COMMAND"],
        };
        assert(t.widths@ == table_widths(TableDensity::Narrow));
        assert(t.headers@ == table_headers(TableDensity::Narrow));
        t
    } else {
        let t = TableSchema {
            density: TableDensity::Tiny,
            widths: vec![Extent::Length(1), Extent::Length(7), Extent::Length(8), Extent::Min(8)],
            headers: vec!["", "PID", "ACTIVITY", "COMMAND"],
        };
        assert(t.widths@ == table_widths(TableDensity::Tiny));
        assert(t.headers@ == table_headers(TableDensity::Tiny));
        t
    }
}


/// The cells a band asks for at least.
pub open spec fn least_cells(e: Extent) -> int {
    match e {
        Extent::Length(n) => n as int,
        Extent::Min(n) => n as int,
    }
}

/// The cells a row of columns asks for at least, with one cell between
/// neighbouring columns.
pub open spec fn row_cells(widths: Seq<Extent>) -> int
    decreases widths.len(),
{
    if widths.len() == 0 {
        0
    } else if widths.len() == 1 {
        least_cells(widths[0])
    } else {
        row_cells(widths.drop_last()) + 1 + least_cells(widths.last())
    }
}

/// The job table's columns fit the width they are chosen for: every
/// density but the tiny one (the fallback for any width) is chosen only
/// where all its columns, one cell apart, fit. Every density has a header
/// per column, starts with the mark and PID columns and ends with the
/// command column, which takes what is left; only the full density shows
/// the run time.
pub proof fn lemma_table_columns_fit(mode: LayoutMode, width: u16)
    ensures
        ({
            let d = table_density(mode, width);
            let w = table_widths(d);
            let h = table_headers(d);
            &&& d != TableDensity::Tiny ==> row_cells(w) <= width
            &&& w.len() == h.len()
            &&& h[0] == "" && h[1] == "PID" && h[h.len() - 1] == "COMMAND"
            &&& w[w.len() - 1] is Min
            &&& h.contains("TIME") <==> (mode == LayoutMode::Full && width >= 105)
        }),
{
    reveal_with_fuel(row_cells, 8);
    let d = table_density(mode, width);
    let h = table_headers(d);
    if h.contains("TIME") {
        let i = choose|i: int| 0 <= i < h.len() && h[i] == "TIME";
        reveal_strlit("TIME");
        reveal_strlit("");
        reveal_strlit("PID");
        reveal_strlit("GPU ms/s");
        reveal_strlit("CPU");
        reveal_strlit("UMEM");
        reveal_strlit("COMMAND");
        reveal_strlit("ACTIVITY");
    }
    if mode == LayoutMode::Full && width >= 105 {
        assert(h[5] == "TIME");
    }
}

/// `a - b`, or nothing when `b` is larger.
pub open spec fn less(a: u16, b: u16) -> int {
    if a >= b { a - b } else { 0 }
}

/// Where the signal dialog in `area` lists the signals: inside the border,
/// below the title line.
pub open spec fn signal_list_area(area: Area) -> Area {
    Area { x: (area.x + 1) as u16, y: (area.y + 2) as u16, width: less(area.width, 2) as u16, height: less(area.height, 4) as u16 }
}

/// Where the signal dialog in `area` shows its key help: one line above the
/// bottom border.
pub open spec fn signal_footer_area(area: Area) -> Area {
    Area { x: (area.x + 2) as u16, y: (area.y + less(area.height, 2)) as u16, width: less(area.width, 4) as u16, height: 1 }
}

/// The signal dialog's list and footer areas (see `signal_list_area` and
/// `signal_footer_area`).
pub fn signal_layout(area: Area) -> (r: (Area, Area))
    requires
        area.x + 2 <= u16::MAX,
        area.y + 2 <= u16::MAX,
        area.y + less(area.height, 2) <= u16::MAX,
    ensures
        r.0 == signal_list_area(area),
        r.1 == signal_footer_area(area),
{
    let list = Area {
        x: area.x + 1,
        y: area.y + 2,
        width: area.width.saturating_sub(2),
        height: area.height.saturating_sub(4),
    };
    let footer = Area {
        x: area.x + 2,
        y: area.y + area.height.saturating_sub(2),
        width: area.width.saturating_sub(4),
        height: 1,
    };
    (list, footer)
}

} // verus!
