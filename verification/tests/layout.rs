use mvitop::layout::{layout_constraints, layout_from_bands};
use mvitop::layout::{centered, layout_mode, main_layout, signal_layout, table_schema, Area, Extent, LayoutMode, TableDensity};

fn rect(width: u16, height: u16) -> Area {
    Area { x: 0, y: 0, width, height }
}

#[test]
fn prioritizes_metrics_over_the_job_table() {
    let large = main_layout(rect(120, 40), 0);
    assert_eq!(large.mode, LayoutMode::Full);
    assert_eq!(large.meters.height, 5);
    assert!(large.histories.unwrap().height >= 12);
    assert_eq!(large.processes.height, 3);

    let compact = main_layout(rect(80, 24), 12);
    assert_eq!(compact.mode, LayoutMode::Compact);
    assert_eq!(compact.histories.unwrap().height, 9);
    assert_eq!(compact.processes.height, 6);

    let minimal = main_layout(rect(60, 20), 0);
    assert_eq!(minimal.mode, LayoutMode::Minimal);
    assert!(minimal.histories.is_none());
}

#[test]
fn empty_job_panel_stays_collapsed() {
    let empty = main_layout(rect(120, 40), 0);
    let busy = main_layout(rect(120, 40), 20);
    assert_eq!(empty.processes.height, 3);
    assert_eq!(busy.processes.height, 10);
    assert!(empty.histories.unwrap().height > busy.histories.unwrap().height);
}

#[test]
fn table_columns_follow_available_width() {
    let full = table_schema(LayoutMode::Full, 120);
    assert_eq!(full.density, TableDensity::Full);
    assert!(full.headers.contains(&"TIME"));
    assert!(full.headers.contains(&"GPU ms/s"));

    let compact = table_schema(LayoutMode::Compact, 80);
    assert_eq!(compact.density, TableDensity::Medium);
    assert!(!compact.headers.contains(&"TIME"));

    let tiny = table_schema(LayoutMode::Minimal, 30);
    assert_eq!(tiny.density, TableDensity::Tiny);
    assert_eq!(tiny.headers, vec!["", "PID", "ACTIVITY", "COMMAND"]);
}

#[test]
fn narrow_tables_keep_pid_gpu_and_cpu() {
    let narrow = table_schema(LayoutMode::Compact, 60);
    assert_eq!(narrow.density, TableDensity::Narrow);
    assert_eq!(narrow.headers, vec!["", "PID", "GPU ms/s", "CPU", "COMMAND"]);
    assert_eq!(narrow.widths.len(), narrow.headers.len());
    assert_eq!(narrow.widths[4], Extent::Min(10));
    let medium = table_schema(LayoutMode::Full, 104);
    assert_eq!(medium.density, TableDensity::Medium);
}

#[test]
fn layout_modes_follow_terminal_size() {
    assert_eq!(layout_mode(rect(49, 40)), LayoutMode::Minimal);
    assert_eq!(layout_mode(rect(120, 21)), LayoutMode::Minimal);
    assert_eq!(layout_mode(rect(120, 33)), LayoutMode::Compact);
    assert_eq!(layout_mode(rect(120, 34)), LayoutMode::Full);
}

#[test]
fn minimal_layout_bands_fill_the_screen() {
    let l = main_layout(rect(30, 8), 5);
    assert_eq!(l.header.height, 2);
    assert_eq!(l.meters.height, 3);
    assert_eq!(l.footer.height, 1);
    assert_eq!(l.header.height + l.meters.height + l.processes.height + l.footer.height, 8);
    assert_eq!(l.processes.y, 5);
}

#[test]
fn dialogs_are_centred_and_clamped() {
    assert_eq!(centered(rect(120, 40), 66, 24), Area { x: 27, y: 8, width: 66, height: 24 });
    assert_eq!(centered(rect(30, 8), 66, 24), Area { x: 1, y: 1, width: 28, height: 6 });
    assert_eq!(centered(rect(1, 1), 10, 10), Area { x: 0, y: 0, width: 1, height: 1 });
}

#[test]
fn signal_dialog_places_list_and_help() {
    let (list, footer) = signal_layout(Area { x: 29, y: 13, width: 62, height: 14 });
    assert_eq!(list, Area { x: 30, y: 15, width: 60, height: 10 });
    assert_eq!(footer, Area { x: 31, y: 25, width: 58, height: 1 });
}

#[test]
fn constraints_give_the_job_table_what_is_left() {
    assert_eq!(
        layout_constraints(rect(120, 40), 0),
        vec![Extent::Length(3), Extent::Length(5), Extent::Min(12), Extent::Length(3), Extent::Length(1)]
    );
    assert_eq!(
        layout_constraints(rect(80, 24), 12),
        vec![Extent::Length(3), Extent::Length(5), Extent::Min(9), Extent::Length(6), Extent::Length(1)]
    );
    assert_eq!(
        layout_constraints(rect(80, 23), 12),
        vec![Extent::Length(3), Extent::Length(5), Extent::Min(9), Extent::Length(5), Extent::Length(1)]
    );
    assert_eq!(
        layout_constraints(rect(60, 3), 1),
        vec![Extent::Length(1), Extent::Length(0), Extent::Min(0), Extent::Length(1)]
    );
    let bands = vec![rect(1, 1), rect(2, 2), rect(3, 3), rect(4, 4)];
    let l = layout_from_bands(LayoutMode::Minimal, &bands);
    assert_eq!((l.header, l.meters, l.histories, l.processes, l.footer), (bands[0], bands[1], None, bands[2], bands[3]));
}
