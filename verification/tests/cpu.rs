use mvitop::cpu::{tick_deltas, CpuCollector, CpuTicks};

fn percent((busy, total): (u64, u64)) -> f64 {
    if total == 0 { 0.0 } else { busy as f64 * 100.0 / total as f64 }
}

#[test]
fn calculates_cpu_deltas() {
    let old = [CpuTicks { user: 10, system: 10, idle: 80, nice: 0 }];
    let new = [CpuTicks { user: 30, system: 20, idle: 150, nice: 0 }];
    assert!((percent(tick_deltas(&old, &new)[0]) - 30.0).abs() < 0.001);
}

#[test]
fn handles_counter_regression() {
    let old = [CpuTicks { user: 100, system: 100, idle: 100, nice: 0 }];
    let new = [CpuTicks::default()];
    assert_eq!(tick_deltas(&old, &new).into_iter().map(percent).collect::<Vec<_>>(), vec![0.0]);
}

#[test]
fn busy_ticks_include_nice_time() {
    let old = [CpuTicks { user: 1, system: 2, idle: 3, nice: 4 }];
    let new = [CpuTicks { user: 11, system: 12, idle: 13, nice: 14 }];
    assert_eq!(tick_deltas(&old, &new), vec![(30, 40)]);
}

#[test]
fn a_changed_core_count_reads_as_idle() {
    let old = [CpuTicks::default()];
    let new = [CpuTicks { user: 5, system: 5, idle: 5, nice: 5 }, CpuTicks { user: 1, system: 1, idle: 1, nice: 1 }];
    assert_eq!(tick_deltas(&old, &new), vec![(0, 0), (0, 0)]);
}

#[test]
fn the_collector_measures_each_reading_against_the_last() {
    let mut collector = CpuCollector::new();
    let first = collector.advance(vec![CpuTicks { user: 10, system: 0, idle: 10, nice: 0 }]);
    assert_eq!(first, vec![(0, 0)]);
    let second = collector.advance(vec![CpuTicks { user: 15, system: 0, idle: 25, nice: 0 }]);
    assert_eq!(second, vec![(5, 20)]);
    let third = CpuCollector::default().advance(vec![]);
    assert!(third.is_empty());
}

#[test]
fn overflowing_advances_are_detected() {
    let mut collector = CpuCollector::new();
    collector.advance(vec![CpuTicks::default()]);
    assert!(collector.can_advance(&[CpuTicks { user: 5, system: 5, idle: 5, nice: 5 }]));
    assert!(!collector.can_advance(&[CpuTicks { user: u64::MAX, system: 1, idle: 0, nice: 0 }]));
    assert!(collector.can_advance(&[CpuTicks::default(), CpuTicks::default()]));
}

#[test]
fn load_buffers_hold_four_counters_per_core() {
    let ticks = mvitop::cpu::core_ticks(&[1, 2, 3, 4, 5, 6, 7, 8, 9]);
    assert_eq!(
        ticks,
        vec![
            CpuTicks { user: 1, system: 2, idle: 3, nice: 4 },
            CpuTicks { user: 5, system: 6, idle: 7, nice: 8 },
        ]
    );
    assert!(mvitop::cpu::core_ticks(&[1, 2, 3]).is_empty());
}
