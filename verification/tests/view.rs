use mvitop::view::can_handle_key;
use mvitop::listing::ProcessKeys;
use mvitop::model::{Screen, SortKey};
use mvitop::view::{
    finish_signal, footer_text, handle_filter_key, handle_key, move_selection, normalize_selection, open_signal_menu,
    refresh_millis, same_process, selected_process, signal_report, toggle_mark, SignalCounts, Key, KeyAction, KeyCode, ViewState,
    CONTROL,
};

fn row(pid: i32, name: &str, cpu: i64, start: Option<u64>) -> ProcessKeys {
    ProcessKeys {
        pid,
        name: name.into(),
        command: name.into(),
        cpu_rank: cpu,
        gpu_rank: 0,
        memory_bytes: 0,
        start_secs: start,
    }
}

fn rows() -> Vec<ProcessKeys> {
    vec![row(100, "alpha", 5, Some(1)), row(200, "beta", 50, Some(2)), row(300, "gamma", 1, None)]
}

fn press(c: char) -> Key {
    Key { code: KeyCode::Char(c), modifiers: 0, release: false }
}

fn key(code: KeyCode) -> Key {
    Key { code, modifiers: 0, release: false }
}

#[test]
fn refuses_pid_reuse_without_matching_start_time() {
    let view = ViewState { signal_targets: vec![(i32::MAX, None)], ..ViewState::default() };
    let mut counts = SignalCounts::new();
    for (_, expected) in &view.signal_targets {
        counts.record(same_process(*expected, None));
    }
    assert!(counts.report(15).contains("skipped/failed 1"));
}

#[test]
fn only_the_same_start_time_counts_as_the_same_process() {
    assert!(same_process(Some(100), Some(100)));
    assert!(!same_process(Some(100), Some(101)));
    assert!(!same_process(None, Some(100)));
    assert!(!same_process(Some(100), None));
    assert_eq!(signal_report(9, 2, 0), "signal 9: sent 2, skipped/failed 0");
    assert_eq!(signal_report(-1, 0, 3), "signal -1: sent 0, skipped/failed 3");
}

#[test]
fn the_default_view_is_the_cpu_ordered_main_screen() {
    let view = ViewState::default();
    assert_eq!(view.screen, Screen::Main);
    assert_eq!(view.sort_key, SortKey::Cpu);
    assert_eq!(refresh_millis(&view), 200);
}

#[test]
fn refresh_key_cycles_through_four_periods() {
    let mut view = ViewState::default();
    let mut seen = vec![];
    for _ in 0..4 {
        assert_eq!(handle_key(press('r'), &mut view, &rows(), 40, 1), KeyAction::Continue);
        seen.push(refresh_millis(&view));
    }
    assert_eq!(seen, vec![500, 1000, 100, 200]);
    assert_eq!(view.message.as_deref(), Some("UI refresh: 200 ms"));
}

#[test]
fn marking_twice_restores_the_marks() {
    let rows = rows();
    let mut view = ViewState::default();
    toggle_mark(&mut view, &rows);
    assert!(view.marked.contains(&200));
    toggle_mark(&mut view, &rows);
    assert!(view.marked.is_empty());
}

#[test]
fn signals_never_target_init_or_the_monitor() {
    let rows = vec![row(1, "launchd", 9, Some(1)), row(42, "mvitop", 8, Some(2)), row(7, "job", 1, Some(3))];
    let mut view = ViewState::default();
    view.marked.insert(1);
    view.marked.insert(42);
    open_signal_menu(&mut view, &rows, 42);
    assert_eq!(view.screen, Screen::Main);
    assert_eq!(view.message.as_deref(), Some("no safe signal target selected"));
    view.marked.insert(7);
    open_signal_menu(&mut view, &rows, 42);
    assert_eq!(view.screen, Screen::Signal);
    assert_eq!(view.signal_targets, vec![(7, Some(3))]);
    finish_signal(&mut view, "done".to_string());
    assert_eq!(view.screen, Screen::Main);
    assert!(view.marked.is_empty());
}

#[test]
fn selection_follows_its_pid_and_clamps() {
    let rows = rows();
    let mut view = ViewState { selected: 9, ..ViewState::default() };
    normalize_selection(&mut view, &rows);
    assert_eq!(view.selected, 2);
    assert_eq!(view.selected_pid, Some(300));
    view.selected_pid = Some(100);
    normalize_selection(&mut view, &rows);
    assert_eq!(view.selected, 1);
    move_selection(&mut view, &rows, -5);
    assert_eq!((view.selected, view.selected_pid), (0, Some(200)));
    assert_eq!(selected_process(&view, &rows), Some(1));
}

#[test]
fn filter_editing_takes_characters_and_backspace() {
    let mut view = ViewState { editing_filter: true, ..ViewState::default() };
    for c in "Bet".chars() {
        assert!(!handle_filter_key(press(c), &mut view));
    }
    handle_filter_key(key(KeyCode::Backspace), &mut view);
    assert_eq!(view.filter, "Be");
    handle_filter_key(Key { code: KeyCode::Char('x'), modifiers: CONTROL, release: false }, &mut view);
    assert_eq!(view.filter, "Be");
    assert_eq!(footer_text(&view), " filter: Be_");
    handle_filter_key(key(KeyCode::Enter), &mut view);
    assert!(!view.editing_filter);
    assert_eq!(selected_process(&view, &rows()), Some(1));
}

#[test]
fn keys_open_and_close_overlays() {
    let rows = rows();
    let mut view = ViewState::default();
    assert_eq!(handle_key(press('?'), &mut view, &rows, 40, 1), KeyAction::Continue);
    assert_eq!(view.screen, Screen::Help);
    handle_key(key(KeyCode::Esc), &mut view, &rows, 40, 1);
    assert_eq!(view.screen, Screen::Main);
    handle_key(press('k'), &mut view, &rows, 40, 1);
    assert_eq!(view.screen, Screen::Signal);
    handle_key(key(KeyCode::Down), &mut view, &rows, 40, 1);
    handle_key(key(KeyCode::Down), &mut view, &rows, 40, 1);
    handle_key(key(KeyCode::Down), &mut view, &rows, 40, 1);
    assert_eq!(view.signal_index, 2);
    assert_eq!(handle_key(key(KeyCode::Enter), &mut view, &rows, 40, 1), KeyAction::SendSignal);
    assert_eq!(handle_key(press('q'), &mut ViewState::default(), &rows, 40, 1), KeyAction::Quit);
    let release = Key { code: KeyCode::Char('q'), modifiers: 0, release: true };
    assert_eq!(handle_key(release, &mut ViewState::default(), &rows, 40, 1), KeyAction::Continue);
}

#[test]
fn sort_keys_reset_the_selection() {
    let rows = rows();
    let mut view = ViewState { selected: 2, ..ViewState::default() };
    handle_key(press('p'), &mut view, &rows, 40, 1);
    assert_eq!(view.sort_key, SortKey::Pid);
    assert_eq!(view.selected, 0);
    handle_key(press('m'), &mut view, &rows, 40, 1);
    assert_eq!(view.sort_key, SortKey::Memory);
    handle_key(press('g'), &mut view, &rows, 40, 1);
    assert_eq!(view.sort_key, SortKey::Gpu);
}

#[test]
fn page_keys_move_half_a_screen() {
    let rows: Vec<ProcessKeys> = (0..30).map(|i| row(1000 + i, "job", 100 - i as i64, None)).collect();
    let mut view = ViewState::default();
    handle_key(key(KeyCode::PageDown), &mut view, &rows, 20, 1);
    assert_eq!(view.selected, 10);
    handle_key(press('j'), &mut view, &rows, 20, 1);
    assert_eq!(view.selected, 11);
    handle_key(key(KeyCode::PageUp), &mut view, &rows, 20, 1);
    assert_eq!(view.selected, 1);
}

#[test]
fn footer_shows_messages_and_help() {
    let mut view = ViewState::default();
    assert_eq!(
        footer_text(&view),
        " q quit  ? help  / filter  sort[g/p]  detail[Enter]  signal[k]  refresh[r] 200ms"
    );
    view.message = Some("hello".into());
    assert_eq!(footer_text(&view), " hello");
}

#[test]
fn every_ordinary_key_can_be_handled() {
    let view = ViewState::default();
    assert!(can_handle_key(key(KeyCode::PageDown), &view, 40));
    assert!(can_handle_key(press('x'), &view, 40));
    let far = ViewState { selected: usize::MAX, ..ViewState::default() };
    assert!(can_handle_key(key(KeyCode::Up), &far, 40));
}

#[test]
fn signal_outcomes_are_counted_once_each() {
    let mut counts = SignalCounts::new();
    for delivered in [true, false, true, true] {
        assert!(counts.can_record());
        counts.record(delivered);
    }
    assert_eq!(counts, SignalCounts { sent: 3, skipped: 1 });
    assert_eq!(counts.report(9), "signal 9: sent 3, skipped/failed 1");
    assert!(!SignalCounts { sent: u64::MAX - 1, skipped: 1 }.can_record());
}

#[test]
fn keys_off_the_main_screen_never_need_room_to_move() {
    let far = ViewState { selected: usize::MAX, screen: Screen::Help, ..ViewState::default() };
    assert!(can_handle_key(key(KeyCode::PageDown), &far, 40));
    let editing = ViewState { editing_filter: true, ..ViewState::default() };
    assert!(can_handle_key(key(KeyCode::Down), &editing, 40));
}
