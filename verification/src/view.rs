//! The interactive state of the monitor and how each key press changes it.

use std::collections::HashSet;
use vstd::prelude::*;
use crate::listing::{ProcessKeys, is_table, lemma_table_unique, table, visible};
use crate::model::{Screen, SortKey};
use crate::text::{decimal, lowercase, push_decimal, push_signed, push_str, signed_decimal};

verus! {

broadcast use vstd::std_specs::hash::group_hash_axioms;

/// A process that a confirmed signal is meant for: its PID and its start
/// time in whole seconds since the epoch, when known.
pub type SignalTarget = (i32, Option<u64>);

/// Everything the user can change on screen.
#[derive(Debug)]
pub struct ViewState {
    pub screen: Screen,
    pub selected: usize,
    pub selected_pid: Option<i32>,
    pub sort_key: SortKey,
    pub filter: String,
    pub editing_filter: bool,
    pub tree: bool,
    pub marked: HashSet<i32>,
    pub signal_index: usize,
    pub signal_targets: Vec<SignalTarget>,
    pub refresh_rate_index: usize,
    pub message: Option<String>,
}

/// The mathematical content of a view state.
pub struct ViewModel {
    pub screen: Screen,
    pub selected: usize,
    pub selected_pid: Option<i32>,
    pub sort_key: SortKey,
    pub filter: Seq<char>,
    pub editing_filter: bool,
    pub tree: bool,
    pub marked: Set<i32>,
    pub signal_index: usize,
    pub signal_targets: Seq<SignalTarget>,
    pub refresh_rate_index: usize,
    pub message: Option<Seq<char>>,
}

/// The text of an optional message.
pub open spec fn message_view(m: Option<String>) -> Option<Seq<char>> {
    match m {
        Some(s) => Some(s@),
        None => None,
    }
}

impl View for ViewState {
    type V = ViewModel;

    open spec fn view(&self) -> ViewModel {
        ViewModel {
            screen: self.screen,
            selected: self.selected,
            selected_pid: self.selected_pid,
            sort_key: self.sort_key,
            filter: self.filter@,
            editing_filter: self.editing_filter,
            tree: self.tree,
            marked: self.marked@,
            signal_index: self.signal_index,
            signal_targets: self.signal_targets@,
            refresh_rate_index: self.refresh_rate_index,
            message: message_view(self.message),
        }
    }
}

impl Default for ViewState {
    fn default() -> (v: Self)
        ensures
            v.screen == Screen::Main,
            v.selected == 0,
            v.selected_pid is None,
            v.sort_key == SortKey::Cpu,
            v.filter@ == Seq::<char>::empty(),
            !v.editing_filter,
            !v.tree,
            v.marked@ == Set::<i32>::empty(),
            v.signal_index == 0,
            v.signal_targets@ == Seq::<SignalTarget>::empty(),
            v.refresh_rate_index == 1,
            v.message is None,
    {
        ViewState {
            screen: Screen::Main,
            selected: 0,
            selected_pid: None,
            sort_key: SortKey::Cpu,
            filter: String::new(),
            editing_filter: false,
            tree: false,
            marked: HashSet::new(),
            signal_index: 0,
            signal_targets: Vec::new(),
            refresh_rate_index: 1,
            message: None,
        }
    }
}

/// The UI refresh periods the `r` key cycles through, in milliseconds.
pub open spec fn refresh_period(index: usize) -> u64 {
    let i = index % 4;
    if i == 0 { 100 } else if i == 1 { 200 } else if i == 2 { 500 } else { 1000 }
}

/// The current UI refresh period in milliseconds.
pub fn refresh_millis(view: &ViewState) -> (ms: u64)
    ensures
        ms == refresh_period(view.refresh_rate_index),
{
    let i = view.refresh_rate_index % 4;
    if i == 0 { 100 } else if i == 1 { 200 } else if i == 2 { 500 } else { 1000 }
}

/// The job table of the view: its filter and sort order applied to `rows`.
pub open spec fn view_table(v: ViewModel, rows: Seq<ProcessKeys>) -> Seq<usize> {
    table(rows, lowercase(v.filter), v.sort_key)
}

/// Some row has this PID.
pub open spec fn has_pid(rows: Seq<ProcessKeys>, pid: i32) -> bool {
    exists|i: int| 0 <= i < rows.len() && #[trigger] rows[i].pid == pid
}

/// `i` is the first row with this PID.
pub open spec fn is_first_with_pid(rows: Seq<ProcessKeys>, pid: i32, i: int) -> bool {
    &&& 0 <= i < rows.len()
    &&& rows[i].pid == pid
    &&& forall|j: int| 0 <= j < i ==> #[trigger] rows[j].pid != pid
}

/// The first row with this PID.
pub open spec fn first_with_pid(rows: Seq<ProcessKeys>, pid: i32) -> int {
    choose|i: int| is_first_with_pid(rows, pid, i)
}

/// The selected row: the row with the remembered PID if there still is one,
/// else the row at the selected position of the table.
pub open spec fn selection(v: ViewModel, rows: Seq<ProcessKeys>) -> Option<int> {
    if v.selected_pid is Some && has_pid(rows, v.selected_pid->0) {
        Some(first_with_pid(rows, v.selected_pid->0))
    } else {
        let t = view_table(v, rows);
        if v.selected < t.len() { Some(t[v.selected as int] as int) } else { None }
    }
}

/// `pos` is the first table position that shows this PID.
pub open spec fn is_first_table_pos(rows: Seq<ProcessKeys>, t: Seq<usize>, pid: i32, pos: int) -> bool {
    &&& 0 <= pos < t.len()
    &&& rows[t[pos] as int].pid == pid
    &&& forall|j: int| 0 <= j < pos ==> rows[#[trigger] t[j] as int].pid != pid
}

/// The table shows this PID somewhere.
pub open spec fn table_has_pid(rows: Seq<ProcessKeys>, t: Seq<usize>, pid: i32) -> bool {
    exists|pos: int| 0 <= pos < t.len() && rows[#[trigger] t[pos] as int].pid == pid
}

/// The view with the selection fitted to the current table: kept on the same
/// PID when it is still listed, else clamped to the last row and pinned to
/// that row's PID, and reset when the table is empty.
pub open spec fn normalized(v: ViewModel, rows: Seq<ProcessKeys>) -> ViewModel {
    let t = view_table(v, rows);
    if t.len() == 0 {
        ViewModel { selected: 0, selected_pid: None, ..v }
    } else if v.selected_pid is Some && table_has_pid(rows, t, v.selected_pid->0) {
        ViewModel { selected: (choose|pos: int| is_first_table_pos(rows, t, v.selected_pid->0, pos)) as usize, ..v }
    } else {
        let s = if v.selected < t.len() { v.selected } else { (t.len() - 1) as usize };
        ViewModel { selected: s, selected_pid: Some(rows[t[s as int] as int].pid), ..v }
    }
}

/// The view after moving the selection by `delta` rows, clamped to the table.
pub open spec fn moved(v: ViewModel, rows: Seq<ProcessKeys>, delta: int) -> ViewModel {
    let t = view_table(v, rows);
    if t.len() == 0 {
        v
    } else {
        let target = (v.selected as isize) as int + delta;
        let next = if target < 0 { 0 } else if target > t.len() - 1 { t.len() - 1 } else { target };
        ViewModel { selected: next as usize, selected_pid: Some(rows[t[next] as int].pid), message: None, ..v }
    }
}

/// The view with the selected job marked, or unmarked when it was marked.
pub open spec fn toggled(v: ViewModel, rows: Seq<ProcessKeys>) -> Set<i32> {
    match selection(v, rows) {
        None => v.marked,
        Some(i) => {
            let pid = rows[i].pid;
            if v.marked.contains(pid) { v.marked.remove(pid) } else { v.marked.insert(pid) }
        },
    }
}

/// The marked rows, in table-input order, as signal targets.
pub open spec fn marked_targets(rows: Seq<ProcessKeys>, marked: Set<i32>) -> Seq<SignalTarget>
    decreases rows.len(),
{
    if rows.len() == 0 {
        Seq::empty()
    } else {
        let rest = marked_targets(rows.drop_last(), marked);
        let r = rows.last();
        if marked.contains(r.pid) { rest.push((r.pid, r.start_secs)) } else { rest }
    }
}

/// The targets without PID 1 and below and without the monitor itself.
pub open spec fn safe_targets(s: Seq<SignalTarget>, self_pid: i32) -> Seq<SignalTarget>
    decreases s.len(),
{
    if s.len() == 0 {
        Seq::empty()
    } else {
        let rest = safe_targets(s.drop_last(), self_pid);
        let t = s.last();
        if t.0 > 1 && t.0 != self_pid { rest.push(t) } else { rest }
    }
}

/// The signal candidates: the marked jobs, or the selected job when none is marked.
pub open spec fn signal_candidates(v: ViewModel, rows: Seq<ProcessKeys>) -> Seq<SignalTarget> {
    if v.marked.is_empty() {
        match selection(v, rows) {
            Some(i) => seq![(rows[i].pid, rows[i].start_secs)],
            None => Seq::empty(),
        }
    } else {
        marked_targets(rows, v.marked)
    }
}

/// The message shown when no job can be signalled.
pub open spec fn no_target_message() -> Seq<char> {
    "no safe signal target selected"@
}

/// The view after asking for the signal menu.
pub open spec fn with_signal_menu(v: ViewModel, rows: Seq<ProcessKeys>, self_pid: i32) -> ViewModel {
    let targets = safe_targets(signal_candidates(v, rows), self_pid);
    if targets.len() == 0 {
        ViewModel { message: Some(no_target_message()), ..v }
    } else {
        ViewModel { signal_targets: targets, signal_index: 0, screen: Screen::Signal, ..v }
    }
}


fn find_pid(rows: &[ProcessKeys], pid: i32) -> (r: Option<usize>)
    ensures
        r matches Some(i) ==> is_first_with_pid(rows@, pid, i as int) && first_with_pid(rows@, pid) == i as int,
        r is None ==> !has_pid(rows@, pid),
{
    let mut i: usize = 0;
    while i < rows.len()
        invariant
            i <= rows.len(),
            forall|j: int| 0 <= j < i ==> #[trigger] rows@[j].pid != pid,
        decreases rows.len() - i,
    {
        if rows[i].pid == pid {
            proof {
                assert(is_first_with_pid(rows@, pid, i as int));
                let c = first_with_pid(rows@, pid);
                assert(is_first_with_pid(rows@, pid, c));
                if c < i {
                    assert(rows@[c].pid != pid);
                } else if c > i {
                    assert(rows@[i as int].pid != pid);
                }
            }
            return Some(i);
        }
        i = i + 1;
    }
    None
}

fn table_pos(rows: &[ProcessKeys], order: &Vec<usize>, pid: i32) -> (r: Option<usize>)
    requires
        forall|k: int| 0 <= k < order.len() ==> #[trigger] order@[k] < rows.len(),
    ensures
        r matches Some(p) ==> is_first_table_pos(rows@, order@, pid, p as int)
            && (choose|pos: int| is_first_table_pos(rows@, order@, pid, pos)) == p as int,
        r is None ==> !table_has_pid(rows@, order@, pid),
{
    let mut k: usize = 0;
    while k < order.len()
        invariant
            k <= order.len(),
            forall|k: int| 0 <= k < order.len() ==> #[trigger] order@[k] < rows.len(),
            forall|j: int| 0 <= j < k ==> rows@[#[trigger] order@[j] as int].pid != pid,
        decreases order.len() - k,
    {
        if rows[order[k]].pid == pid {
            proof {
                assert(is_first_table_pos(rows@, order@, pid, k as int));
                let c = choose|pos: int| is_first_table_pos(rows@, order@, pid, pos);
                assert(is_first_table_pos(rows@, order@, pid, c));
                if c < k {
                    assert(rows@[order@[c] as int].pid != pid);
                } else if c > k {
                    assert(rows@[order@[k as int] as int].pid != pid);
                }
            }
            return Some(k);
        }
        k = k + 1;
    }
    None
}

/// The row that the view selects, if any.
pub fn selected_process(view: &ViewState, rows: &[ProcessKeys]) -> (r: Option<usize>)
    ensures
        match r {
            Some(i) => selection(view@, rows@) == Some(i as int) && i < rows.len(),
            None => selection(view@, rows@) is None,
        },
{
    match view.selected_pid {
        Some(pid) => match find_pid(rows, pid) {
            Some(i) => {
                return Some(i);
            },
            None => {},
        },
        None => {},
    }
    let items = visible(rows, view.filter.as_str(), view.sort_key);
    proof {
        assert(forall|k: int| 0 <= k < items.len() ==> items@.contains(#[trigger] items@[k]));
    }
    if view.selected < items.len() {
        Some(items[view.selected])
    } else {
        None
    }
}

/// Fits the selection to the current table (see `normalized`).
pub fn normalize_selection(view: &mut ViewState, rows: &[ProcessKeys])
    ensures
        final(view)@ == normalized(old(view)@, rows@),
{
    let items = visible(rows, view.filter.as_str(), view.sort_key);
    proof {
        assert(forall|k: int| 0 <= k < items.len() ==> items@.contains(#[trigger] items@[k]));
    }
    if items.len() == 0 {
        view.selected = 0;
        view.selected_pid = None;
        return;
    }
    match view.selected_pid {
        Some(pid) => match table_pos(rows, &items, pid) {
            Some(index) => {
                view.selected = index;
                return;
            },
            None => {},
        },
        None => {},
    }
    view.selected = if view.selected < items.len() { view.selected } else { items.len() - 1 };
    view.selected_pid = Some(rows[items[view.selected]].pid);
}

/// Moves the selection by `delta` rows, within the table (see `moved`).
pub fn move_selection(view: &mut ViewState, rows: &[ProcessKeys], delta: isize)
    requires
        isize::MIN <= (old(view).selected as isize) as int + delta <= isize::MAX,
    ensures
        final(view)@ == moved(old(view)@, rows@, delta as int),
{
    let items = visible(rows, view.filter.as_str(), view.sort_key);
    proof {
        assert(forall|k: int| 0 <= k < items.len() ==> items@.contains(#[trigger] items@[k]));
    }
    if items.len() == 0 {
        return;
    }
    let target: isize = view.selected as isize + delta;
    let last: i128 = items.len() as i128 - 1;
    let next: usize = if target < 0 { 0 } else if target as i128 > last { items.len() - 1 } else { target as usize };
    view.selected = next;
    view.selected_pid = Some(rows[items[next]].pid);
    view.message = None;
}

/// Marks the selected job, or unmarks it when it was marked.
pub fn toggle_mark(view: &mut ViewState, rows: &[ProcessKeys])
    ensures
        final(view)@ == (ViewModel { marked: toggled(old(view)@, rows@), ..old(view)@ }),
{
    match selected_process(view, rows) {
        None => {},
        Some(i) => {
            let pid = rows[i].pid;
            let ghost before = view.marked@;
            if !view.marked.remove(&pid) {
                assert(view.marked@ =~= before);
                view.marked.insert(pid);
            }
            assert(view.marked@ =~= toggled(old(view)@, rows@));
        },
    }
}

fn collect_marked(rows: &[ProcessKeys], marked: &HashSet<i32>) -> (targets: Vec<SignalTarget>)
    ensures
        targets@ == marked_targets(rows@, marked@),
{
    let mut targets: Vec<SignalTarget> = Vec::new();
    for i in 0..rows.len()
        invariant
            targets@ == marked_targets(rows@.take(i as int), marked@),
    {
        assert(rows@.take(i + 1).drop_last() == rows@.take(i as int));
        if marked.contains(&rows[i].pid) {
            targets.push((rows[i].pid, rows[i].start_secs));
        }
    }
    assert(rows@.take(rows@.len() as int) == rows@);
    targets
}

fn keep_safe(candidates: Vec<SignalTarget>, self_pid: i32) -> (targets: Vec<SignalTarget>)
    ensures
        targets@ == safe_targets(candidates@, self_pid),
{
    let mut targets: Vec<SignalTarget> = Vec::new();
    for i in 0..candidates.len()
        invariant
            targets@ == safe_targets(candidates@.take(i as int), self_pid),
    {
        assert(candidates@.take(i + 1).drop_last() == candidates@.take(i as int));
        let t = candidates[i];
        if t.0 > 1 && t.0 != self_pid {
            targets.push(t);
        }
    }
    assert(candidates@.take(candidates@.len() as int) == candidates@);
    targets
}

/// Opens the signal confirmation for the marked jobs, or for the selected
/// job when none is marked; PID 1 and below and `self_pid` are never
/// targets (see `with_signal_menu`).
pub fn open_signal_menu(view: &mut ViewState, rows: &[ProcessKeys], self_pid: i32)
    ensures
        final(view)@ == with_signal_menu(old(view)@, rows@, self_pid),
{
    let candidates: Vec<SignalTarget> = if view.marked.is_empty() {
        match selected_process(view, rows) {
            Some(i) => {
                let v = vec![(rows[i].pid, rows[i].start_secs)];
                assert(v@ == seq![(rows@[i as int].pid, rows@[i as int].start_secs)]);
                v
            },
            None => Vec::new(),
        }
    } else {
        collect_marked(rows, &view.marked)
    };
    let targets = keep_safe(candidates, self_pid);
    if targets.len() == 0 {
        let mut message = String::new();
        push_str(&mut message, "no safe signal target selected");
        assert(message@ == no_target_message());
        view.message = Some(message);
        return;
    }
    view.signal_targets = targets;
    view.signal_index = 0;
    view.screen = Screen::Signal;
}

/// Records the outcome of a confirmed signal and returns to the main screen
/// with no job marked.
pub fn finish_signal(view: &mut ViewState, message: String)
    ensures
        final(view)@ == (ViewModel { message: Some(message@), screen: Screen::Main, marked: Set::empty(), ..old(view)@ }),
{
    view.message = Some(message);
    view.screen = Screen::Main;
    view.marked.clear();
}

/// A signal goes to a target only while the process under its PID is the
/// one that was chosen: both start times (in whole seconds) are known and
/// equal. A reused PID, or a process that is gone, is skipped.
pub fn same_process(expected_start: Option<u64>, current_start: Option<u64>) -> (r: bool)
    ensures
        r == (expected_start is Some && current_start is Some && expected_start->0 == current_start->0),
{
    match (expected_start, current_start) {
        (Some(expected), Some(current)) => expected == current,
        _ => false,
    }
}

/// How many targets a signal reached, and how many were skipped (the
/// process under the PID was no longer the chosen one) or failed.
#[derive(Clone, Copy, Debug, PartialEq, Eq, Structural)]
pub struct SignalCounts {
    pub sent: u64,
    pub skipped: u64,
}

impl SignalCounts {
    /// No target handled yet.
    pub fn new() -> (c: Self)
        ensures
            c == (SignalCounts { sent: 0, skipped: 0 }),
    {
        SignalCounts { sent: 0, skipped: 0 }
    }

    /// Counts one target: `delivered` when it was still the chosen process
    /// and the kernel accepted the signal, else it was skipped or failed.
    pub fn record(&mut self, delivered: bool)
        requires
            old(self).sent + old(self).skipped < u64::MAX,
        ensures
            final(self).sent + final(self).skipped == old(self).sent + old(self).skipped + 1,
            *final(self) == (if delivered {
                SignalCounts { sent: (old(self).sent + 1) as u64, ..*old(self) }
            } else {
                SignalCounts { skipped: (old(self).skipped + 1) as u64, ..*old(self) }
            }),
    {
        if delivered {
            self.sent = self.sent + 1;
        } else {
            self.skipped = self.skipped + 1;
        }
    }

    /// Whether one more target can be counted.
    pub fn can_record(&self) -> (r: bool)
        ensures
            r == (self.sent + self.skipped < u64::MAX),
    {
        self.sent < u64::MAX && self.skipped < u64::MAX - self.sent
    }

    /// The outcome's text (see `report_text`).
    pub fn report(&self, signal: i32) -> (r: String)
        ensures
            r@ == report_text(signal, self.sent, self.skipped),
    {
        signal_report(signal, self.sent, self.skipped)
    }
}

/// The text of a signal's outcome.
pub open spec fn report_text(signal: i32, sent: u64, skipped: u64) -> Seq<char> {
    "signal "@ + signed_decimal(signal as int) + ": sent "@ + decimal(sent as nat) + ", skipped/failed "@
        + decimal(skipped as nat)
}

/// Reports how many targets a signal reached and how many were skipped or
/// failed.
pub fn signal_report(signal: i32, sent: u64, skipped: u64) -> (r: String)
    ensures
        r@ == report_text(signal, sent, skipped),
{
    let mut r = String::new();
    push_str(&mut r, "signal ");
    push_signed(&mut r, signal as i64);
    push_str(&mut r, ": sent ");
    push_decimal(&mut r, sent);
    push_str(&mut r, ", skipped/failed ");
    push_decimal(&mut r, skipped);
    r
}


/// A key as the terminal reports it.
#[derive(Clone, Copy, Debug, PartialEq, Eq, Structural)]
pub enum KeyCode {
    Char(char),
    Esc,
    Enter,
    Up,
    Down,
    PageUp,
    PageDown,
    Backspace,
    Other,
}

/// The Control modifier bit.
pub const CONTROL: u8 = 2;

/// The Alt modifier bit.
pub const ALT: u8 = 4;

/// A key event: the key, the modifier bits held with it (Shift 1, Control 2,
/// Alt 4, Super 8, Hyper 16, Meta 32) and whether it is a release.
#[derive(Clone, Copy, Debug, PartialEq, Eq, Structural)]
pub struct Key {
    pub code: KeyCode,
    pub modifiers: u8,
    pub release: bool,
}

/// What the event loop has to do after a key.
#[derive(Clone, Copy, Debug, PartialEq, Eq, Structural)]
pub enum KeyAction {
    /// Redraw and wait for the next event.
    Continue,
    /// Leave the monitor.
    Quit,
    /// Send the confirmed signal to `signal_targets`, then call `finish_signal`.
    SendSignal,
}

/// The view after a key while the filter is being edited.
pub open spec fn after_filter_key(v: ViewModel, key: Key) -> ViewModel {
    match key.code {
        KeyCode::Esc => ViewModel { editing_filter: false, ..v },
        KeyCode::Enter => ViewModel { editing_filter: false, selected: 0, selected_pid: None, ..v },
        KeyCode::Backspace => ViewModel {
            filter: if v.filter.len() > 0 { v.filter.drop_last() } else { v.filter },
            selected: 0,
            selected_pid: None,
            ..v
        },
        KeyCode::Char(c) => if key.modifiers & CONTROL == 0 && key.modifiers & ALT == 0 {
            ViewModel { filter: v.filter.push(c), selected: 0, selected_pid: None, ..v }
        } else {
            v
        },
        _ => v,
    }
}

/// `String::pop`: removes the last character, if any.
#[verifier::external_body]
fn pop_char(s: &mut String)
    ensures
        final(s)@ == if old(s)@.len() > 0 { old(s)@.drop_last() } else { old(s)@ },
{
    s.pop();
}

/// Applies a key to the filter being edited (see `after_filter_key`).
pub fn handle_filter_key(key: Key, view: &mut ViewState) -> (quit: bool)
    ensures
        !quit,
        final(view)@ == after_filter_key(old(view)@, key),
{
    match key.code {
        KeyCode::Esc => {
            view.editing_filter = false;
        },
        KeyCode::Enter => {
            view.editing_filter = false;
            view.selected = 0;
            view.selected_pid = None;
        },
        KeyCode::Backspace => {
            pop_char(&mut view.filter);
            view.selected = 0;
            view.selected_pid = None;
        },
        KeyCode::Char(c) => {
            if key.modifiers & CONTROL == 0 && key.modifiers & ALT == 0 {
                crate::text::push_char(&mut view.filter, c);
                view.selected = 0;
                view.selected_pid = None;
            }
        },
        _ => {},
    }
    false
}

/// Half a screen, and at least one row.
pub open spec fn page_rows(height: u16) -> int {
    if height / 2 > 0 { (height / 2) as int } else { 1 }
}

/// The rows a key moves the selection by on the main screen, if it moves it.
pub open spec fn move_delta(key: Key, height: u16) -> Option<int> {
    match key.code {
        KeyCode::Down => Some(1),
        KeyCode::Char(c) => if c == 'j' { Some(1) } else { None },
        KeyCode::Up => Some(-1),
        KeyCode::PageDown => Some(page_rows(height)),
        KeyCode::PageUp => Some(-page_rows(height)),
        _ => None,
    }
}

/// The message after the `g` key.
pub open spec fn gpu_sort_message() -> Seq<char> {
    "per-process GPU data unavailable; rows remain PID ordered"@
}

/// The message after the `r` key.
pub open spec fn refresh_message(ms: u64) -> Seq<char> {
    "UI refresh: "@ + decimal(ms as nat) + " ms"@
}

/// A view with a new sort order and the selection reset.
pub open spec fn sorted_by(v: ViewModel, key: SortKey) -> ViewModel {
    ViewModel { sort_key: key, selected: 0, selected_pid: None, ..v }
}

/// The outcome of a key on the main screen.
pub open spec fn after_main_key(v: ViewModel, key: Key, rows: Seq<ProcessKeys>, height: u16, self_pid: i32) -> (KeyAction, ViewModel) {
    if move_delta(key, height) is Some {
        (KeyAction::Continue, moved(v, rows, move_delta(key, height)->0))
    } else {
        match key.code {
            KeyCode::Char(c) => {
                if c == 'q' && (key.modifiers == 0 || key.modifiers == CONTROL) {
                    (KeyAction::Quit, v)
                } else if c == '?' || c == 'h' {
                    (KeyAction::Continue, ViewModel { screen: Screen::Help, ..v })
                } else if c == 'c' {
                    (KeyAction::Continue, sorted_by(v, SortKey::Cpu))
                } else if c == 'm' {
                    (KeyAction::Continue, sorted_by(v, SortKey::Memory))
                } else if c == 'p' {
                    (KeyAction::Continue, sorted_by(v, SortKey::Pid))
                } else if c == 'g' {
                    (KeyAction::Continue, ViewModel { sort_key: SortKey::Gpu, message: Some(gpu_sort_message()), ..v })
                } else if c == '/' {
                    (KeyAction::Continue, ViewModel { editing_filter: true, ..v })
                } else if c == 't' {
                    (KeyAction::Continue, ViewModel { tree: !v.tree, selected: 0, selected_pid: None, ..v })
                } else if c == 'k' {
                    (KeyAction::Continue, with_signal_menu(v, rows, self_pid))
                } else if c == ' ' {
                    (KeyAction::Continue, ViewModel { marked: toggled(v, rows), ..v })
                } else if c == 'r' {
                    let index = ((v.refresh_rate_index + 1) % 4) as usize;
                    (KeyAction::Continue, ViewModel {
                        refresh_rate_index: index,
                        message: Some(refresh_message(refresh_period(index))),
                        ..v
                    })
                } else {
                    (KeyAction::Continue, v)
                }
            },
            KeyCode::Enter => if selection(v, rows) is Some {
                (KeyAction::Continue, ViewModel { screen: Screen::Detail, ..v })
            } else {
                (KeyAction::Continue, v)
            },
            _ => (KeyAction::Continue, v),
        }
    }
}

/// The outcome of a key: what the loop must do, and the new view.
pub open spec fn after_key(v: ViewModel, key: Key, rows: Seq<ProcessKeys>, height: u16, self_pid: i32) -> (KeyAction, ViewModel) {
    if key.release {
        (KeyAction::Continue, v)
    } else if v.editing_filter {
        (KeyAction::Continue, after_filter_key(v, key))
    } else {
        match v.screen {
            Screen::Help | Screen::Detail => {
                let closes = match key.code {
                    KeyCode::Esc | KeyCode::Enter => true,
                    KeyCode::Char(c) => c == 'q' || c == '?',
                    _ => false,
                };
                (KeyAction::Continue, if closes { ViewModel { screen: Screen::Main, ..v } } else { v })
            },
            Screen::Signal => match key.code {
                KeyCode::Esc => (KeyAction::Continue, ViewModel { screen: Screen::Main, ..v }),
                KeyCode::Up => (KeyAction::Continue, ViewModel {
                    signal_index: if v.signal_index > 0 { (v.signal_index - 1) as usize } else { 0 }, ..v }),
                KeyCode::Down => (KeyAction::Continue, ViewModel {
                    signal_index: if v.signal_index < 2 { (v.signal_index + 1) as usize } else { 2 }, ..v }),
                KeyCode::Char(c) => if c == 'q' {
                    (KeyAction::Continue, ViewModel { screen: Screen::Main, ..v })
                } else if c == 'k' {
                    (KeyAction::Continue, ViewModel {
                        signal_index: if v.signal_index > 0 { (v.signal_index - 1) as usize } else { 0 }, ..v })
                } else if c == 'j' {
                    (KeyAction::Continue, ViewModel {
                        signal_index: if v.signal_index < 2 { (v.signal_index + 1) as usize } else { 2 }, ..v })
                } else {
                    (KeyAction::Continue, v)
                },
                KeyCode::Enter => (KeyAction::SendSignal, v),
                _ => (KeyAction::Continue, v),
            },
            Screen::Main => after_main_key(v, key, rows, height, self_pid),
        }
    }
}

/// The selection can move by the key's rows without overflowing.
pub open spec fn move_fits(v: ViewModel, key: Key, height: u16) -> bool {
    move_delta(key, height) matches Some(d) ==> isize::MIN <= (v.selected as isize) as int + d <= isize::MAX
}

/// A key moves the selection only when it is pressed on the main screen
/// while no filter is being typed; only then must the move fit.
pub open spec fn key_fits(v: ViewModel, key: Key, height: u16) -> bool {
    !key.release && !v.editing_filter && v.screen == Screen::Main ==> move_fits(v, key, height)
}

/// Whether `handle_key` can take this key: a move keeps the selection
/// within `isize` (see `key_fits`).
pub fn can_handle_key(key: Key, view: &ViewState, height: u16) -> (r: bool)
    ensures
        r == key_fits(view@, key, height),
{
    if key.release || view.editing_filter || view.screen != Screen::Main {
        return true;
    }
    let page: i64 = if height / 2 > 0 { (height / 2) as i64 } else { 1 };
    let delta: i64 = match key.code {
        KeyCode::Down => 1,
        KeyCode::Char(c) => if c == 'j' { 1 } else { return true },
        KeyCode::Up => -1,
        KeyCode::PageDown => page,
        KeyCode::PageUp => -page,
        _ => return true,
    };
    let start: i128 = (view.selected as isize) as i128;
    let target: i128 = start + delta as i128;
    (isize::MIN as i128) <= target && target <= (isize::MAX as i128)
}

/// Applies a key to the view and says what the event loop has to do next
/// (see `after_key`).
pub fn handle_key(key: Key, view: &mut ViewState, rows: &[ProcessKeys], height: u16, self_pid: i32) -> (action: KeyAction)
    requires
        key_fits(old(view)@, key, height),
    ensures
        (action, final(view)@) == after_key(old(view)@, key, rows@, height, self_pid),
{
    if key.release {
        return KeyAction::Continue;
    }
    if view.editing_filter {
        handle_filter_key(key, view);
        return KeyAction::Continue;
    }
    match view.screen {
        Screen::Help | Screen::Detail => {
            let closes = match key.code {
                KeyCode::Esc | KeyCode::Enter => true,
                KeyCode::Char(c) => c == 'q' || c == '?',
                _ => false,
            };
            if closes {
                view.screen = Screen::Main;
            }
            return KeyAction::Continue;
        },
        Screen::Signal => {
            let up = match key.code {
                KeyCode::Up => true,
                KeyCode::Char(c) => c == 'k',
                _ => false,
            };
            let down = match key.code {
                KeyCode::Down => true,
                KeyCode::Char(c) => c == 'j',
                _ => false,
            };
            let close = match key.code {
                KeyCode::Esc => true,
                KeyCode::Char(c) => c == 'q',
                _ => false,
            };
            if close {
                view.screen = Screen::Main;
            } else if up {
                view.signal_index = if view.signal_index > 0 { view.signal_index - 1 } else { 0 };
            } else if down {
                view.signal_index = if view.signal_index < 2 { view.signal_index + 1 } else { 2 };
            } else if key.code == KeyCode::Enter {
                return KeyAction::SendSignal;
            }
            return KeyAction::Continue;
        },
        Screen::Main => {},
    }
    let page: isize = if height / 2 > 0 { (height / 2) as isize } else { 1 };
    match key.code {
        KeyCode::Down => {
            move_selection(view, rows, 1);
            return KeyAction::Continue;
        },
        KeyCode::Up => {
            move_selection(view, rows, -1);
            return KeyAction::Continue;
        },
        KeyCode::PageDown => {
            move_selection(view, rows, page);
            return KeyAction::Continue;
        },
        KeyCode::PageUp => {
            move_selection(view, rows, -page);
            return KeyAction::Continue;
        },
        KeyCode::Enter => {
            if selected_process(view, rows).is_some() {
                view.screen = Screen::Detail;
            }
            return KeyAction::Continue;
        },
        KeyCode::Char(c) => {
            if c == 'j' {
                move_selection(view, rows, 1);
            } else if c == 'q' && (key.modifiers == 0 || key.modifiers == CONTROL) {
                return KeyAction::Quit;
            } else if c == '?' || c == 'h' {
                view.screen = Screen::Help;
            } else if c == 'c' || c == 'm' || c == 'p' {
                view.sort_key = if c == 'c' { SortKey::Cpu } else if c == 'm' { SortKey::Memory } else { SortKey::Pid };
                view.selected = 0;
                view.selected_pid = None;
            } else if c == 'g' {
                view.sort_key = SortKey::Gpu;
                let mut message = String::new();
                push_str(&mut message, "per-process GPU data unavailable; rows remain PID ordered");
                view.message = Some(message);
            } else if c == '/' {
                view.editing_filter = true;
            } else if c == 't' {
                view.tree = !view.tree;
                view.selected = 0;
                view.selected_pid = None;
            } else if c == 'k' {
                open_signal_menu(view, rows, self_pid);
            } else if c == ' ' {
                toggle_mark(view, rows);
            } else if c == 'r' {
                view.refresh_rate_index = (view.refresh_rate_index % 4 + 1) % 4;
                let mut message = String::new();
                push_str(&mut message, "UI refresh: ");
                push_decimal(&mut message, refresh_millis(view));
                push_str(&mut message, " ms");
                view.message = Some(message);
            }
            return KeyAction::Continue;
        },
        _ => {
            return KeyAction::Continue;
        },
    }
}

/// The footer line: the filter being typed, else the last message, else the
/// key help with the refresh period.
pub open spec fn footer_line(v: ViewModel) -> Seq<char> {
    if v.editing_filter {
        " filter: "@ + v.filter + "_"@
    } else {
        match v.message {
            Some(m) => " "@ + m,
            None => " q quit  ? help  / filter  sort[g/p]  detail[Enter]  signal[k]  refresh[r] "@
                + decimal(refresh_period(v.refresh_rate_index) as nat) + "ms"@,
        }
    }
}

/// The footer line (see `footer_line`).
pub fn footer_text(view: &ViewState) -> (t: String)
    ensures
        t@ == footer_line(view@),
{
    let mut t = String::new();
    if view.editing_filter {
        push_str(&mut t, " filter: ");
        push_str(&mut t, view.filter.as_str());
        push_str(&mut t, "_");
        return t;
    }
    match &view.message {
        Some(m) => {
            push_str(&mut t, " ");
            push_str(&mut t, m.as_str());
        },
        None => {
            push_str(&mut t, " q quit  ? help  / filter  sort[g/p]  detail[Enter]  signal[k]  refresh[r] ");
            push_decimal(&mut t, refresh_millis(view));
            push_str(&mut t, "ms");
        },
    }
    t
}

/// Marking a job twice leaves the marks as they were: the second key press
/// unmarks what the first one marked, and the other way round.
pub proof fn lemma_toggle_twice(v: ViewModel, rows: Seq<ProcessKeys>)
    ensures
        toggled(ViewModel { marked: toggled(v, rows), ..v }, rows) == v.marked,
{
    let w = ViewModel { marked: toggled(v, rows), ..v };
    assert(selection(w, rows) == selection(v, rows));
    match selection(v, rows) {
        None => {},
        Some(i) => {
            let pid = rows[i].pid;
            if v.marked.contains(pid) {
                assert(v.marked.remove(pid).insert(pid) =~= v.marked);
            } else {
                assert(v.marked.insert(pid).remove(pid) =~= v.marked);
            }
        },
    }
}

proof fn lemma_safe_targets(s: Seq<SignalTarget>, self_pid: i32)
    ensures
        forall|i: int| 0 <= i < safe_targets(s, self_pid).len() ==> #[trigger] safe_targets(s, self_pid)[i].0 > 1
            && safe_targets(s, self_pid)[i].0 != self_pid,
    decreases s.len(),
{
    if s.len() > 0 {
        lemma_safe_targets(s.drop_last(), self_pid);
        let rest = safe_targets(s.drop_last(), self_pid);
        assert forall|i: int| 0 <= i < safe_targets(s, self_pid).len() implies #[trigger] safe_targets(s, self_pid)[i].0 > 1
            && safe_targets(s, self_pid)[i].0 != self_pid by {
            if i < rest.len() {
                assert(safe_targets(s, self_pid)[i] == rest[i]);
            }
        }
    }
}

/// A signal is never aimed at PID 1 or below, nor at the monitor itself:
/// every target of the signal menu is a safe one.
pub proof fn lemma_signal_targets_safe(v: ViewModel, rows: Seq<ProcessKeys>, self_pid: i32)
    ensures
        forall|i: int| 0 <= i < with_signal_menu(v, rows, self_pid).signal_targets.len()
            && with_signal_menu(v, rows, self_pid).screen == Screen::Signal && v.screen != Screen::Signal
            ==> #[trigger] with_signal_menu(v, rows, self_pid).signal_targets[i].0 > 1
                && with_signal_menu(v, rows, self_pid).signal_targets[i].0 != self_pid,
{
    lemma_safe_targets(signal_candidates(v, rows), self_pid);
}

/// The `r` key cycles through the refresh periods: four presses on the main
/// screen bring back the period the view had.
pub proof fn lemma_refresh_cycles(v: ViewModel, rows: Seq<ProcessKeys>, height: u16, self_pid: i32)
    requires
        v.screen == Screen::Main,
        !v.editing_filter,
    ensures
        ({
            let r = Key { code: KeyCode::Char('r'), modifiers: 0, release: false };
            let v1 = after_key(v, r, rows, height, self_pid).1;
            let v2 = after_key(v1, r, rows, height, self_pid).1;
            let v3 = after_key(v2, r, rows, height, self_pid).1;
            let v4 = after_key(v3, r, rows, height, self_pid).1;
            refresh_period(v4.refresh_rate_index) == refresh_period(v.refresh_rate_index)
        }),
{
}

proof fn lemma_first_table_pos(rows: Seq<ProcessKeys>, t: Seq<usize>, pid: i32, pos: int)
    requires
        0 <= pos < t.len(),
        rows[t[pos] as int].pid == pid,
    ensures
        exists|p: int| is_first_table_pos(rows, t, pid, p),
    decreases pos,
{
    if exists|j: int| 0 <= j < pos && rows[#[trigger] t[j] as int].pid == pid {
        let j = choose|j: int| 0 <= j < pos && rows[#[trigger] t[j] as int].pid == pid;
        lemma_first_table_pos(rows, t, pid, j);
    } else {
        assert(is_first_table_pos(rows, t, pid, pos));
    }
}

/// After the selection is fitted to a non-empty job table `order`, it is a
/// position of the table and remembers the PID shown there.
pub proof fn lemma_normalized_selection(v: ViewModel, rows: Seq<ProcessKeys>, order: Seq<usize>)
    requires
        is_table(rows, lowercase(v.filter), v.sort_key, order),
        0 < order.len() <= usize::MAX,
    ensures
        ({
            let n = normalized(v, rows);
            &&& n.selected < order.len()
            &&& n.selected_pid == Some(rows[order[n.selected as int] as int].pid)
        }),
{
    let t = view_table(v, rows);
    assert(is_table(rows, lowercase(v.filter), v.sort_key, t));
    lemma_table_unique(rows, lowercase(v.filter), v.sort_key, t, order);
    if v.selected_pid is Some && table_has_pid(rows, t, v.selected_pid->0) {
        let pid = v.selected_pid->0;
        let pos = choose|pos: int| 0 <= pos < t.len() && rows[#[trigger] t[pos] as int].pid == pid;
        lemma_first_table_pos(rows, t, pid, pos);
        let first = choose|p: int| is_first_table_pos(rows, t, pid, p);
        assert(is_first_table_pos(rows, t, pid, first));
    }
}

/// The signal dialog offers three signals, and no key moves its choice past
/// them: a choice among the three stays among the three.
pub proof fn lemma_signal_choice_bounded(v: ViewModel, key: Key, rows: Seq<ProcessKeys>, height: u16, self_pid: i32)
    requires
        v.signal_index <= 2,
    ensures
        after_key(v, key, rows, height, self_pid).1.signal_index <= 2,
{
}


/// The main screen's key bindings, while no filter is being typed: `q`
/// (alone or with Control) quits and leaves the view as it was; `?` and `h`
/// open the help; `/` starts editing the filter and changes nothing else;
/// `c`, `m` and `p` sort by CPU, memory and PID and clear the selection;
/// `g` asks for the GPU order and says why rows stay in PID order; `t`
/// switches the tree view and clears the selection. A key release changes
/// nothing, on any screen.
pub proof fn lemma_main_key_bindings(v: ViewModel, rows: Seq<ProcessKeys>, height: u16, self_pid: i32, modifiers: u8)
    requires
        v.screen == Screen::Main,
        !v.editing_filter,
    ensures
        ({
            let press = |c: char| Key { code: KeyCode::Char(c), modifiers: modifiers, release: false };
            let after = |c: char| after_key(v, press(c), rows, height, self_pid);
            &&& (modifiers == 0 || modifiers == CONTROL) ==> after('q') == (KeyAction::Quit, v)
            &&& after('?') == (KeyAction::Continue, ViewModel { screen: Screen::Help, ..v })
            &&& after('h') == (KeyAction::Continue, ViewModel { screen: Screen::Help, ..v })
            &&& after('/') == (KeyAction::Continue, ViewModel { editing_filter: true, ..v })
            &&& after('c') == (KeyAction::Continue,
                ViewModel { sort_key: SortKey::Cpu, selected: 0, selected_pid: None, ..v })
            &&& after('m') == (KeyAction::Continue,
                ViewModel { sort_key: SortKey::Memory, selected: 0, selected_pid: None, ..v })
            &&& after('p') == (KeyAction::Continue,
                ViewModel { sort_key: SortKey::Pid, selected: 0, selected_pid: None, ..v })
            &&& after('g') == (KeyAction::Continue, ViewModel {
                sort_key: SortKey::Gpu,
                message: Some("per-process GPU data unavailable; rows remain PID ordered"@),
                ..v
            })
            &&& after('t') == (KeyAction::Continue,
                ViewModel { tree: !v.tree, selected: 0, selected_pid: None, ..v })
        }),
        forall|key: Key| #[trigger] key.release ==> after_key(v, key, rows, height, self_pid) == (KeyAction::Continue, v),
{
}

/// While the filter is being typed, keys edit it: a plain character is
/// appended, Backspace removes the last character, Enter ends the editing
/// and clears the selection, Esc ends it and keeps everything else; the
/// monitor never quits from there.
pub proof fn lemma_filter_key_bindings(v: ViewModel, rows: Seq<ProcessKeys>, height: u16, self_pid: i32, c: char)
    requires
        v.editing_filter,
    ensures
        ({
            let press = |code: KeyCode| Key { code: code, modifiers: 0, release: false };
            let after = |code: KeyCode| after_key(v, press(code), rows, height, self_pid);
            &&& after(KeyCode::Char(c)) == (KeyAction::Continue,
                ViewModel { filter: v.filter.push(c), selected: 0, selected_pid: None, ..v })
            &&& v.filter.len() > 0 ==> after(KeyCode::Backspace) == (KeyAction::Continue,
                ViewModel { filter: v.filter.subrange(0, v.filter.len() - 1), selected: 0, selected_pid: None, ..v })
            &&& after(KeyCode::Enter) == (KeyAction::Continue,
                ViewModel { editing_filter: false, selected: 0, selected_pid: None, ..v })
            &&& after(KeyCode::Esc) == (KeyAction::Continue, ViewModel { editing_filter: false, ..v })
        }),
        forall|key: Key| after_key(v, key, rows, height, self_pid).0 == KeyAction::Continue,
{
    assert(0u8 & 2u8 == 0u8 && 0u8 & 4u8 == 0u8) by (bit_vector);
    if v.filter.len() > 0 {
        assert(v.filter.drop_last() =~= v.filter.subrange(0, v.filter.len() - 1));
    }
}

/// The signal dialog: Esc and `q` close it, Up and `k` move the choice up
/// and Down and `j` down among the three signals, and Enter asks the loop
/// to send the chosen signal with the view unchanged.
pub proof fn lemma_signal_key_bindings(v: ViewModel, rows: Seq<ProcessKeys>, height: u16, self_pid: i32)
    requires
        v.screen == Screen::Signal,
        !v.editing_filter,
        v.signal_index <= 2,
    ensures
        ({
            let press = |code: KeyCode| Key { code: code, modifiers: 0, release: false };
            let after = |code: KeyCode| after_key(v, press(code), rows, height, self_pid);
            let up: usize = if v.signal_index == 0 { 0 } else { (v.signal_index - 1) as usize };
            let down: usize = if v.signal_index == 2 { 2 } else { (v.signal_index + 1) as usize };
            &&& after(KeyCode::Esc) == (KeyAction::Continue, ViewModel { screen: Screen::Main, ..v })
            &&& after(KeyCode::Char('q')) == (KeyAction::Continue, ViewModel { screen: Screen::Main, ..v })
            &&& after(KeyCode::Up) == (KeyAction::Continue, ViewModel { signal_index: up, ..v })
            &&& after(KeyCode::Char('k')) == (KeyAction::Continue, ViewModel { signal_index: up, ..v })
            &&& after(KeyCode::Down) == (KeyAction::Continue, ViewModel { signal_index: down, ..v })
            &&& after(KeyCode::Char('j')) == (KeyAction::Continue, ViewModel { signal_index: down, ..v })
            &&& after(KeyCode::Enter) == (KeyAction::SendSignal, v)
        }),
{
}

/// The `r` key steps the refresh period through 100, 200, 500 and 1000 ms
/// and back to 100, and says the new period in the footer.
pub proof fn lemma_refresh_key(v: ViewModel, rows: Seq<ProcessKeys>, height: u16, self_pid: i32, modifiers: u8)
    requires
        v.screen == Screen::Main,
        !v.editing_filter,
    ensures
        ({
            let r = Key { code: KeyCode::Char('r'), modifiers: modifiers, release: false };
            let next: int = (v.refresh_rate_index + 1) % 4;
            let ms: nat = if next == 0 { 100 } else if next == 1 { 200 } else if next == 2 { 500 } else { 1000 };
            after_key(v, r, rows, height, self_pid) == (KeyAction::Continue, ViewModel {
                refresh_rate_index: next as usize,
                message: Some("UI refresh: "@ + decimal(ms) + " ms"@),
                ..v
            })
        }),
{
}

/// Moving the selection by `delta` rows lands on the row that many places
/// further down the job table (up for a negative `delta`), stopping at the
/// first and the last row; it remembers the PID shown there and clears the
/// message. On an empty table nothing changes.
pub proof fn lemma_move_clamped(v: ViewModel, rows: Seq<ProcessKeys>, order: Seq<usize>, delta: int)
    requires
        is_table(rows, lowercase(v.filter), v.sort_key, order),
        v.selected <= isize::MAX,
    ensures
        order.len() == 0 ==> moved(v, rows, delta) == v,
        order.len() > 0 ==> ({
            let target = v.selected + delta;
            let next: int = if target < 0 { 0 } else if target >= order.len() { order.len() - 1 } else { target };
            moved(v, rows, delta) == ViewModel {
                selected: next as usize,
                selected_pid: Some(rows[order[next] as int].pid),
                message: None,
                ..v
            }
        }),
{
    let t = view_table(v, rows);
    assert(is_table(rows, lowercase(v.filter), v.sort_key, t));
    lemma_table_unique(rows, lowercase(v.filter), v.sort_key, t, order);
    assert((v.selected as isize) as int == v.selected);
}

proof fn lemma_marked_targets(rows: Seq<ProcessKeys>, marked: Set<i32>)
    ensures
        forall|k: int| 0 <= k < marked_targets(rows, marked).len() ==> {
            let t = #[trigger] marked_targets(rows, marked)[k];
            &&& marked.contains(t.0)
            &&& exists|i: int| 0 <= i < rows.len() && rows[i].pid == t.0 && rows[i].start_secs == t.1
        },
    decreases rows.len(),
{
    if rows.len() > 0 {
        let rest = rows.drop_last();
        lemma_marked_targets(rest, marked);
        let m = marked_targets(rows, marked);
        let before = marked_targets(rest, marked);
        assert forall|k: int| 0 <= k < m.len() implies {
            let t = #[trigger] m[k];
            &&& marked.contains(t.0)
            &&& exists|i: int| 0 <= i < rows.len() && rows[i].pid == t.0 && rows[i].start_secs == t.1
        } by {
            if k < before.len() {
                assert(m[k] == before[k]);
                let t = before[k];
                let i = choose|i: int| 0 <= i < rest.len() && rest[i].pid == t.0 && rest[i].start_secs == t.1;
                assert(rows[i] == rest[i]);
            } else {
                assert(rows[rows.len() - 1] == rows.last());
            }
        }
    }
}

proof fn lemma_safe_targets_from(s: Seq<SignalTarget>, self_pid: i32)
    ensures
        forall|k: int| 0 <= k < safe_targets(s, self_pid).len()
            ==> exists|j: int| 0 <= j < s.len() && s[j] == #[trigger] safe_targets(s, self_pid)[k],
    decreases s.len(),
{
    if s.len() > 0 {
        let rest = s.drop_last();
        lemma_safe_targets_from(rest, self_pid);
        let out = safe_targets(s, self_pid);
        let before = safe_targets(rest, self_pid);
        assert forall|k: int| 0 <= k < out.len() implies exists|j: int| 0 <= j < s.len() && s[j] == #[trigger] out[k] by {
            if k < before.len() {
                assert(out[k] == before[k]);
                let j = choose|j: int| 0 <= j < rest.len() && rest[j] == before[k];
                assert(s[j] == rest[j]);
            } else {
                assert(s[s.len() - 1] == s.last());
            }
        }
    }
}

/// When jobs are marked, the signal menu offers only marked jobs, each
/// with the PID and start time of a listed row; when none is marked it
/// offers at most the selected job.
pub proof fn lemma_signal_targets_marked(v: ViewModel, rows: Seq<ProcessKeys>, self_pid: i32)
    ensures
        ({
            let w = with_signal_menu(v, rows, self_pid);
            &&& w.screen == Screen::Signal && v.screen != Screen::Signal && !v.marked.is_empty() ==>
                forall|k: int| 0 <= k < w.signal_targets.len() ==> {
                    let t = #[trigger] w.signal_targets[k];
                    &&& v.marked.contains(t.0)
                    &&& exists|i: int| 0 <= i < rows.len() && rows[i].pid == t.0 && rows[i].start_secs == t.1
                }
            &&& w.screen == Screen::Signal && v.screen != Screen::Signal && v.marked.is_empty() ==>
                (w.signal_targets.len() == 1 && (selection(v, rows) matches Some(i)
                    && w.signal_targets[0] == (rows[i].pid, rows[i].start_secs)))
        }),
{
    let c = signal_candidates(v, rows);
    lemma_safe_targets_from(c, self_pid);
    lemma_marked_targets(rows, v.marked);
    let w = with_signal_menu(v, rows, self_pid);
    if w.screen == Screen::Signal && v.screen != Screen::Signal {
        if v.marked.is_empty() {
            reveal_with_fuel(safe_targets, 2);
            assert(c.drop_last() =~= Seq::<SignalTarget>::empty());
        }
    }
}

} // verus!
