use mvitop::listing::table_for;
use mvitop::listing::{panel_title, visible, ProcessKeys};
use mvitop::model::SortKey;

fn rank(x: f64) -> i64 {
    let b = x.to_bits() as i64;
    b ^ (((b >> 63) as u64) >> 1) as i64
}

fn proc(pid: i32, name: &str, cpu: f64, mem: u64, gpu: f64) -> ProcessKeys {
    ProcessKeys {
        pid,
        name: name.into(),
        command: name.into(),
        cpu_rank: rank(cpu),
        gpu_rank: rank(gpu),
        memory_bytes: mem,
        start_secs: None,
    }
}

#[test]
fn filters_and_sorts_processes() {
    let input = vec![proc(2, "beta", 10.0, 20, 200.0), proc(1, "alpha", 20.0, 10, 100.0)];
    assert_eq!(visible(&input, "alp", SortKey::Pid).len(), 1);
    assert_eq!(input[visible(&input, "", SortKey::Gpu)[0]].pid, 2);
}

#[test]
fn each_sort_key_orders_the_table() {
    let input = vec![
        proc(3, "gamma", 5.0, 300, 0.0),
        proc(1, "alpha", 50.0, 100, 10.0),
        proc(2, "beta", 50.0, 200, 10.0),
    ];
    let pids = |key| visible(&input, "", key).iter().map(|&i| input[i].pid).collect::<Vec<_>>();
    assert_eq!(pids(SortKey::Pid), vec![1, 2, 3]);
    assert_eq!(pids(SortKey::Cpu), vec![2, 1, 3]);
    assert_eq!(pids(SortKey::Memory), vec![3, 2, 1]);
    assert_eq!(pids(SortKey::Gpu), vec![2, 1, 3]);
}

#[test]
fn filter_ignores_case_and_matches_pids() {
    let input = vec![proc(4210, "Render-Worker", 1.0, 1, 0.0), proc(77, "cargo", 1.0, 1, 0.0)];
    assert_eq!(visible(&input, "RENDER", SortKey::Pid), vec![0]);
    assert_eq!(visible(&input, "421", SortKey::Pid), vec![0]);
    assert_eq!(visible(&input, "77", SortKey::Pid), vec![1]);
    assert!(visible(&input, "zzz", SortKey::Pid).is_empty());
}

#[test]
fn the_title_names_count_order_filter_and_gpu_state() {
    assert_eq!(panel_title(3, 120, SortKey::Gpu, "", false), " ACTIVE USER JOBS 3  sort:GPU▼ ");
    assert_eq!(panel_title(0, 80, SortKey::Pid, "car", true), " ACTIVE USER JOBS 0  sort:PID▲ filter:car GPU:N/A ");
    assert_eq!(panel_title(12, 40, SortKey::Cpu, "", false), " JOBS 12 CPU▼ ");
    assert_eq!(panel_title(1, 59, SortKey::Memory, "x", false), " JOBS 1 MEM▼ filter:x ");
}

#[test]
fn lowercased_needles_filter_directly() {
    let input = vec![proc(2, "Beta", 1.0, 1, 0.0), proc(1, "alpha", 2.0, 1, 0.0)];
    assert_eq!(table_for(&input, &"a".chars().collect(), SortKey::Pid), vec![1, 0]);
    assert_eq!(table_for(&input, &"beta".chars().collect(), SortKey::Pid), vec![0]);
    assert!(table_for(&input, &"B".chars().collect(), SortKey::Pid).is_empty());
}
