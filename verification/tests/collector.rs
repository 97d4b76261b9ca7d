use mvitop::collector::{command_line, CpuMark, JobTotals, MemberSample, ProcessCollector, RusageFigures, TaskFigures};
use mvitop::process::JobKey;

fn member(pid: i32, start_sec: u64, cpu_ns: u64) -> MemberSample {
    MemberSample {
        pid,
        start_sec,
        start_usec: 0,
        rusage: Some(RusageFigures { user_time: cpu_ns, system_time: 0, physical_footprint: 1000 }),
        task: Some(TaskFigures { total_user: 0, total_system: 0, resident_size: 5, thread_count: 3 }),
    }
}

fn key(pid: i32) -> JobKey {
    JobKey { pid, start_sec: 1, start_usec: 0 }
}

const SECOND: u64 = 1_000_000_000;

#[test]
fn cpu_time_is_measured_against_the_previous_sample() {
    let mut collector = ProcessCollector::new(0, Some(100_000));
    let first = collector.account(&vec![vec![member(10, 1, 500), member(11, 1, 100)]]);
    assert_eq!(first, vec![JobTotals { cpu_ns: 0, memory_bytes: 2000, threads: 6 }]);
    let second = collector.account(&vec![vec![member(10, 1, 800), member(11, 1, 150)]]);
    assert_eq!(second[0].cpu_ns, 350);
}

#[test]
fn a_reused_pid_is_not_charged() {
    let mut collector = ProcessCollector::new(0, None);
    collector.account(&vec![vec![member(10, 1, 500)]]);
    let after_reuse = collector.account(&vec![vec![member(10, 2, 900)]]);
    assert_eq!(after_reuse[0].cpu_ns, 0);
    let next = collector.account(&vec![vec![member(10, 2, 1000)]]);
    assert_eq!(next[0].cpu_ns, 100);
}

#[test]
fn counters_that_go_back_count_as_nothing() {
    let mut collector = ProcessCollector::new(0, None);
    collector.account(&vec![vec![member(10, 1, 500)]]);
    assert_eq!(collector.account(&vec![vec![member(10, 1, 400)]])[0].cpu_ns, 0);
}

#[test]
fn task_figures_stand_in_for_missing_resource_usage() {
    let mut collector = ProcessCollector::new(0, None);
    let m = MemberSample {
        pid: 5,
        start_sec: 1,
        start_usec: 0,
        rusage: Some(RusageFigures { user_time: 1, system_time: 1, physical_footprint: 0 }),
        task: Some(TaskFigures { total_user: 9, total_system: 9, resident_size: 4096, thread_count: -2 }),
    };
    let bare = MemberSample { pid: 6, start_sec: 1, start_usec: 0, rusage: None, task: None };
    let totals = collector.account(&vec![vec![m, bare]]);
    assert_eq!(totals[0], JobTotals { cpu_ns: 0, memory_bytes: 4096, threads: 0 });
    let only_task = MemberSample { rusage: None, ..m };
    assert_eq!(collector.account(&vec![vec![only_task]])[0].cpu_ns, 16);
}

#[test]
fn totals_saturate() {
    let mut collector = ProcessCollector::new(0, None);
    let huge = MemberSample {
        pid: 1,
        start_sec: 0,
        start_usec: 0,
        rusage: Some(RusageFigures { user_time: u64::MAX, system_time: 5, physical_footprint: u64::MAX }),
        task: Some(TaskFigures { total_user: 0, total_system: 0, resident_size: 0, thread_count: i32::MAX }),
    };
    let totals = collector.account(&vec![vec![huge, MemberSample { pid: 2, ..huge }, MemberSample { pid: 3, ..huge }]]);
    assert_eq!(totals[0].memory_bytes, u64::MAX);
    assert_eq!(totals[0].threads, u32::MAX);
}

#[test]
fn quiet_jobs_linger_for_three_seconds() {
    let mut collector = ProcessCollector::new(0, None);
    assert_eq!(collector.settle(SECOND, &vec![(key(1), true), (key(2), false)]), vec![true, false]);
    assert_eq!(collector.settle(3 * SECOND, &vec![(key(1), false), (key(2), false)]), vec![true, false]);
    assert_eq!(collector.settle(4 * SECOND, &vec![(key(1), false)]), vec![true]);
    assert_eq!(collector.settle(4 * SECOND + 1, &vec![(key(1), false)]), vec![false]);
}

#[test]
fn jobs_that_leave_the_sample_are_forgotten() {
    let mut collector = ProcessCollector::new(0, None);
    collector.settle(SECOND, &vec![(key(1), true)]);
    collector.settle(2 * SECOND, &vec![(key(2), false)]);
    assert_eq!(collector.settle(2 * SECOND, &vec![(key(1), false)]), vec![false]);
}

#[test]
fn intervals_are_at_least_one_nanosecond() {
    let mut collector = ProcessCollector::new(5 * SECOND, None);
    assert_eq!(collector.interval_ns(5 * SECOND), 1);
    assert_eq!(collector.interval_ns(6 * SECOND), SECOND);
    collector.settle(7 * SECOND, &vec![]);
    assert_eq!(collector.interval_ns(7 * SECOND + 10), 10);
}

#[test]
fn argument_buffers_have_a_floor() {
    assert_eq!(ProcessCollector::new(0, None).argument_buffer_size(), 262_144);
    assert_eq!(ProcessCollector::new(0, Some(1024)).argument_buffer_size(), 4096);
    assert_eq!(ProcessCollector::new(0, Some(1_048_576)).argument_buffer_size(), 1_048_576);
}

#[test]
fn commands_prefer_arguments_then_executable_then_name() {
    let args = vec!["cargo".to_string(), "test".to_string(), "--release".to_string()];
    assert_eq!(command_line(&args, "/usr/bin/cargo", "cargo"), "cargo test --release");
    assert_eq!(command_line(&vec![], "/usr/bin/cargo", "cargo"), "/usr/bin/cargo");
    assert_eq!(command_line(&vec![], "", "cargo"), "cargo");
    assert_eq!(command_line(&vec!["one".to_string()], "", ""), "one");
}

#[test]
fn cpu_marks_are_plain_values() {
    let m = CpuMark { start_sec: 1, start_usec: 2, cpu_ns: 3 };
    let copy = m;
    assert_eq!((copy.start_sec, copy.start_usec, copy.cpu_ns), (1, 2, 3));
}
