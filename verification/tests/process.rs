use mvitop::model::ProcessState;
use mvitop::process::{collect_nodes, define_jobs, is_idle_shell, process_state, BsdRecord, Node};

fn node(pid: i32, ppid: i32, pgid: i32, tpgid: i32, name: &str) -> Node {
    Node {
        pid,
        ppid,
        pgid,
        tdev: 1,
        tpgid,
        status: 2,
        start_sec: pid as u64,
        start_usec: 0,
        name: name.into(),
    }
}

#[test]
fn finds_foreground_job_and_aggregates_descendants() {
    let nodes = vec![
        node(10, 1, 10, 20, "zsh"),
        node(20, 10, 20, 20, "cargo"),
        node(21, 20, 21, 20, "rustc"),
        node(30, 1, 30, 30, "mvitop"),
        node(40, 1, 40, 0, "Code Helper"),
    ];
    let jobs = define_jobs(&nodes, 30, &vec![]);
    assert_eq!(jobs.len(), 1);
    assert_eq!(jobs[0].root_pid, 20);
    assert_eq!(jobs[0].members, vec![20, 21]);
}

#[test]
fn recognizes_idle_and_script_shells() {
    assert!(is_idle_shell("zsh", &["/bin/zsh".into(), "-l".into()]));
    assert!(!is_idle_shell("bash", &["/bin/bash".into(), "build.sh".into()]));
    assert!(!is_idle_shell("zsh", &["/bin/zsh".into(), "-c".into(), "make".into()]));
}

#[test]
fn idle_shell_roots_do_not_form_jobs() {
    let nodes = vec![node(10, 1, 10, 10, "zsh"), node(30, 1, 30, 30, "mvitop")];
    assert_eq!(define_jobs(&nodes, 30, &vec![]).len(), 1);
    assert!(define_jobs(&nodes, 30, &vec![10]).is_empty());
}

#[test]
fn login_shell_dashes_are_ignored() {
    assert!(is_idle_shell("-zsh", &["-zsh".into()]));
    assert!(!is_idle_shell("python3", &["python3".into()]));
    assert!(!is_idle_shell("fish", &["fish".into(), "--command".into(), "ls".into()]));
}

#[test]
fn maps_bsd_status_codes() {
    assert_eq!(process_state(2), ProcessState::Running);
    assert_eq!(process_state(3), ProcessState::Sleeping);
    assert_eq!(process_state(4), ProcessState::Stopped);
    assert_eq!(process_state(5), ProcessState::Zombie);
    assert_eq!(process_state(99), ProcessState::Unknown);
    assert_eq!(ProcessState::Running.short(), 'R');
    assert_eq!(ProcessState::Unknown.short(), '?');
}

fn record(pid: i32, uid: u32, name: &[u8], comm: &[u8]) -> BsdRecord {
    let mut n = name.to_vec();
    n.resize(32, 0);
    let mut c = comm.to_vec();
    c.resize(16, 0);
    BsdRecord {
        pid,
        uid,
        ppid: 1,
        pgid: pid as u32,
        tdev: 5,
        tpgid: pid as u32,
        status: 2,
        start_sec: 100,
        start_usec: 7,
        comm: c,
        name: n,
    }
}

#[test]
fn collects_only_the_users_processes_with_their_names() {
    let records = vec![
        record(10, 501, b"Terminal", b"Termin"),
        record(11, 0, b"root-daemon", b"rootd"),
        record(12, 501, b"", b"zsh"),
    ];
    let nodes = collect_nodes(&records, 501);
    assert_eq!(nodes.len(), 2);
    assert_eq!(nodes[0].pid, 10);
    assert_eq!(nodes[0].name, "Terminal");
    assert_eq!(nodes[0].pgid, 10);
    assert_eq!(nodes[0].tdev, 5);
    assert_eq!(nodes[0].start_usec, 7);
    assert_eq!(nodes[1].pid, 12);
    assert_eq!(nodes[1].name, "zsh");
}

#[test]
fn a_later_report_of_a_pid_replaces_the_earlier_one() {
    let records = vec![record(10, 501, b"old", b"old"), record(10, 501, b"new", b"new")];
    let nodes = collect_nodes(&records, 501);
    assert_eq!(nodes.len(), 1);
    assert_eq!(nodes[0].name, "new");
}

#[test]
fn invalid_utf8_names_are_decoded_leniently() {
    let records = vec![record(10, 501, &[0x66, 0xff, 0x6f], b"x")];
    let nodes = collect_nodes(&records, 501);
    assert_eq!(nodes[0].name, "f\u{fffd}o");
}
