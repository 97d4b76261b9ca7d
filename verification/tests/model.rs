use mvitop::model::{GpuInfo, History, MetricStatus, Screen, SortKey};

#[test]
fn history_is_a_bounded_ring() {
    let mut history = History::new(3);
    for value in [1.0, 2.0, 3.0, 4.0] {
        history.push(value);
    }
    assert_eq!(history.values(), vec![2.0, 3.0, 4.0]);
}

#[test]
fn history_keeps_the_latest_samples() {
    let mut history: History<u64> = History::new(4);
    for value in 1..=10u64 {
        history.push(value);
    }
    assert_eq!(history.values(), vec![7, 8, 9, 10]);
    assert_eq!(history.len(), 4);
    assert!(!history.is_empty());
}

#[test]
fn zero_capacity_history_stays_empty() {
    let mut history: History<u64> = History::new(0);
    history.push(5);
    assert!(history.is_empty());
    assert_eq!(history.len(), 0);
}

#[test]
fn default_history_holds_two_minutes_of_samples() {
    let mut history: History<u64> = History::default();
    for value in 0..200u64 {
        history.push(value);
    }
    assert_eq!(history.len(), 120);
    assert_eq!(history.values()[0], 80);
    let copy = history.clone();
    assert_eq!(copy.values(), history.values());
}

#[test]
fn defaults_start_empty() {
    assert_eq!(SortKey::default(), SortKey::Cpu);
    assert_eq!(Screen::default(), Screen::Main);
    assert!(GpuInfo::default().name.is_empty());
    let status = MetricStatus::default();
    assert!(status.cpu_error.is_none() && status.gpu_error.is_none() && status.process_error.is_none());
}
