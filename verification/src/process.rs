//! Foreground user jobs: which processes form a job, which process is its
//! root, and which shells are only waiting for input.

use vstd::prelude::*;
use crate::model::ProcessState;
use crate::sysctl::{c_string, c_text};
use crate::text::chars_of;

verus! {

broadcast use vstd::string::group_string_axioms;

/// Maps a BSD `p_stat` code to a process state.
pub fn process_state(status: u32) -> (s: ProcessState)
    ensures
        s == match status {
            2 => ProcessState::Running,
            3 => ProcessState::Sleeping,
            4 => ProcessState::Stopped,
            5 => ProcessState::Zombie,
            _ => ProcessState::Unknown,
        },
{
    match status {
        2 => ProcessState::Running,
        3 => ProcessState::Sleeping,
        4 => ProcessState::Stopped,
        5 => ProcessState::Zombie,
        _ => ProcessState::Unknown,
    }
}

/// The number of leading `-` characters (a login shell is named `-zsh`).
pub open spec fn leading_dashes(s: Seq<char>) -> nat
    decreases s.len(),
{
    if s.len() > 0 && s[0] == '-' { 1 + leading_dashes(s.drop_first()) } else { 0 }
}

/// The interactive shells that mvitop recognizes by name.
pub open spec fn is_shell_name(s: Seq<char>) -> bool {
    ||| s == seq!['s', 'h']
    ||| s == seq!['b', 'a', 's', 'h']
    ||| s == seq!['d', 'a', 's', 'h']
    ||| s == seq!['f', 'i', 's', 'h']
    ||| s == seq!['k', 's', 'h']
    ||| s == seq!['n', 'u']
    ||| s == seq!['t', 'c', 's', 'h']
    ||| s == seq!['x', 'o', 'n', 's', 'h']
    ||| s == seq!['z', 's', 'h']
}

/// An argument that makes a shell run something rather than wait for input:
/// `-c`, `--command`, or a non-empty operand that is not an option.
pub open spec fn runs_command(arg: Seq<char>) -> bool {
    ||| arg == seq!['-', 'c']
    ||| arg == seq!['-', '-', 'c', 'o', 'm', 'm', 'a', 'n', 'd']
    ||| (arg.len() > 0 && arg[0] != '-')
}

/// A shell that only waits at its prompt.
pub open spec fn spec_is_idle_shell(name: Seq<char>, args: Seq<Seq<char>>) -> bool {
    &&& is_shell_name(name.skip(leading_dashes(name) as int))
    &&& forall|i: int| 1 <= i < args.len() ==> !runs_command(#[trigger] args[i])
}

fn same_chars(a: &Vec<char>, from: usize, b: &Vec<char>) -> (r: bool)
    requires
        from <= a.len(),
    ensures
        r == (a@.skip(from as int) == b@),
{
    if a.len() - from != b.len() {
        assert(a@.skip(from as int).len() != b@.len());
        return false;
    }
    let mut i: usize = 0;
    while i < b.len()
        invariant
            from <= a.len(),
            a.len() - from == b.len(),
            i <= b.len(),
            forall|k: int| 0 <= k < i ==> a@[from + k] == b@[k],
        decreases b.len() - i,
    {
        if a[from + i] != b[i] {
            assert(a@.skip(from as int)[i as int] != b@[i as int]);
            return false;
        }
        i = i + 1;
    }
    assert(a@.skip(from as int) =~= b@);
    true
}

fn shell_name(name: &Vec<char>, from: usize) -> (r: bool)
    requires
        from <= name.len(),
    ensures
        r == is_shell_name(name@.skip(from as int)),
{
    let sh = vec!['s', 'h'];
    let bash = vec!['b', 'a', 's', 'h'];
    let dash = vec!['d', 'a', 's', 'h'];
    let fish = vec!['f', 'i', 's', 'h'];
    let ksh = vec!['k', 's', 'h'];
    let nu = vec!['n', 'u'];
    let tcsh = vec!['t', 'c', 's', 'h'];
    let xonsh = vec!['x', 'o', 'n', 's', 'h'];
    let zsh = vec!['z', 's', 'h'];
    same_chars(name, from, &sh) || same_chars(name, from, &bash) || same_chars(name, from, &dash)
        || same_chars(name, from, &fish) || same_chars(name, from, &ksh) || same_chars(name, from, &nu)
        || same_chars(name, from, &tcsh) || same_chars(name, from, &xonsh) || same_chars(name, from, &zsh)
}

fn argument_runs_command(arg: &str) -> (r: bool)
    ensures
        r == runs_command(arg@),
{
    let chars = chars_of(arg);
    let c = vec!['-', 'c'];
    let command = vec!['-', '-', 'c', 'o', 'm', 'm', 'a', 'n', 'd'];
    assert(chars@.skip(0) == chars@);
    assert(c@ == seq!['-', 'c']);
    assert(command@ == seq!['-', '-', 'c', 'o', 'm', 'm', 'a', 'n', 'd']);
    same_chars(&chars, 0, &c) || same_chars(&chars, 0, &command) || (chars.len() > 0 && chars[0] != '-')
}

/// Whether a shell with this process name and these arguments sits idle at
/// its prompt: a known shell (login dashes removed) whose arguments after
/// the first are all options other than `-c` / `--command`.
pub fn is_idle_shell(name: &str, args: &[String]) -> (r: bool)
    ensures
        r == spec_is_idle_shell(name@, args@.map_values(|a: String| a@)),
{
    let chars = chars_of(name);
    let mut from: usize = 0;
    assert(chars@.skip(0) == chars@);
    while from < chars.len() && chars[from] == '-'
        invariant
            from <= chars.len(),
            chars@ == name@,
            leading_dashes(chars@.skip(from as int)) + from == leading_dashes(chars@),
        decreases chars.len() - from,
    {
        assert(chars@.skip(from as int).drop_first() == chars@.skip(from + 1));
        from = from + 1;
    }
    proof {
        assert(leading_dashes(chars@.skip(from as int)) == 0);
    }
    if !shell_name(&chars, from) {
        return false;
    }
    let ghost views = args@.map_values(|a: String| a@);
    let mut i: usize = 1;
    while i < args.len()
        invariant
            1 <= i,
            views == args@.map_values(|a: String| a@),
            forall|k: int| 1 <= k < i && k < args.len() ==> !runs_command(#[trigger] views[k]),
        decreases args.len() - i,
    {
        if argument_runs_command(args[i].as_str()) {
            assert(runs_command(views[i as int]));
            return false;
        }
        i = i + 1;
    }
    true
}


/// One process of the current user, as libproc describes it.
#[derive(Clone, Debug)]
pub struct Node {
    pub pid: i32,
    pub ppid: i32,
    pub pgid: i32,
    pub tdev: u32,
    pub tpgid: i32,
    pub status: u32,
    pub start_sec: u64,
    pub start_usec: u64,
    pub name: String,
}

/// A job is identified by its root process and that process's start time,
/// so that a reused PID is a different job.
#[derive(Clone, Copy, Debug, PartialEq, Eq, Hash, Structural)]
pub struct JobKey {
    pub pid: i32,
    pub start_sec: u64,
    pub start_usec: u64,
}

/// A foreground job: its root and every process aggregated into it.
#[derive(Clone, Debug)]
pub struct JobDefinition {
    pub key: JobKey,
    pub root_pid: i32,
    pub members: Vec<i32>,
}

/// No two nodes share a PID (the nodes come from a map keyed by PID).
pub open spec fn distinct_pids(nodes: Seq<Node>) -> bool {
    forall|i: int, j: int|
        #![trigger nodes[i].pid, nodes[j].pid]
        0 <= i < nodes.len() && 0 <= j < nodes.len() && i != j ==> nodes[i].pid != nodes[j].pid
}

/// The process has a controlling terminal.
pub open spec fn has_terminal(n: Node) -> bool {
    n.tdev != 0 && n.tdev != u32::MAX && n.tpgid > 0
}

/// The process is in the foreground process group of its terminal.
pub open spec fn in_foreground(n: Node) -> bool {
    has_terminal(n) && n.pgid == n.tpgid
}

/// The process belongs to the foreground group `(tdev, tpgid)`.
pub open spec fn in_group(n: Node, tdev: u32, tpgid: i32) -> bool {
    in_foreground(n) && n.tdev == tdev && n.tpgid == tpgid
}

/// Some process of the foreground group `(tdev, tpgid)` has this PID.
pub open spec fn group_has(nodes: Seq<Node>, tdev: u32, tpgid: i32, pid: i32) -> bool {
    exists|i: int| 0 <= i < nodes.len() && #[trigger] in_group(nodes[i], tdev, tpgid) && nodes[i].pid == pid
}

/// The parent of node `i` is outside its foreground group.
pub open spec fn is_top(nodes: Seq<Node>, i: int) -> bool {
    !group_has(nodes, nodes[i].tdev, nodes[i].tpgid, nodes[i].ppid)
}

/// The group has a process whose parent is outside the group.
pub open spec fn has_top(nodes: Seq<Node>, tdev: u32, tpgid: i32) -> bool {
    exists|j: int| 0 <= j < nodes.len() && #[trigger] in_group(nodes[j], tdev, tpgid) && is_top(nodes, j)
}

/// `a` started no later than `b`, comparing start time and then PID.
pub open spec fn started_first(a: Node, b: Node) -> bool {
    ||| a.start_sec < b.start_sec
    ||| (a.start_sec == b.start_sec && a.start_usec < b.start_usec)
    ||| (a.start_sec == b.start_sec && a.start_usec == b.start_usec && a.pid <= b.pid)
}

/// Node `r` is the root of its foreground group: the earliest-started
/// process whose parent is outside the group, or, when every parent is
/// inside, the process with the lowest PID.
pub open spec fn is_group_root(nodes: Seq<Node>, r: int) -> bool {
    let n = nodes[r];
    &&& 0 <= r < nodes.len()
    &&& in_foreground(n)
    &&& if has_top(nodes, n.tdev, n.tpgid) {
        &&& is_top(nodes, r)
        &&& forall|j: int| 0 <= j < nodes.len() && #[trigger] in_group(nodes[j], n.tdev, n.tpgid) && is_top(nodes, j)
            ==> started_first(n, nodes[j])
    } else {
        forall|j: int| 0 <= j < nodes.len() && #[trigger] in_group(nodes[j], n.tdev, n.tpgid) ==> n.pid <= nodes[j].pid
    }
}

/// Roots named like privilege or login wrappers do not form jobs.
pub open spec fn is_wrapper_name(s: Seq<char>) -> bool {
    ||| s == seq!['s', 'u', 'd', 'o']
    ||| s == seq!['d', 'o', 'a', 's']
    ||| s == seq!['l', 'o', 'g', 'i', 'n']
}

/// Node `r` roots a job: it is the root of a foreground group that does not
/// contain the monitor itself, is not an idle shell and not a wrapper.
pub open spec fn is_job_root(nodes: Seq<Node>, self_pid: i32, idle: Seq<i32>, r: int) -> bool {
    &&& is_group_root(nodes, r)
    &&& !group_has(nodes, nodes[r].tdev, nodes[r].tpgid, self_pid)
    &&& !idle.contains(nodes[r].pid)
    &&& !is_wrapper_name(nodes[r].name@)
}

/// The group `(tdev, tpgid)` forms a job.
pub open spec fn group_kept(nodes: Seq<Node>, self_pid: i32, idle: Seq<i32>, tdev: u32, tpgid: i32) -> bool {
    exists|r: int| 0 <= r < nodes.len() && #[trigger] in_group(nodes[r], tdev, tpgid) && is_job_root(nodes, self_pid, idle, r)
}

/// The process `q` belongs directly to a job: it is in a kept foreground group.
pub open spec fn is_direct(nodes: Seq<Node>, self_pid: i32, idle: Seq<i32>, q: i32) -> bool {
    exists|i: int|
        0 <= i < nodes.len() && #[trigger] nodes[i].pid == q && in_foreground(nodes[i])
            && group_kept(nodes, self_pid, idle, nodes[i].tdev, nodes[i].tpgid)
}

/// Some node has this PID.
pub open spec fn present(nodes: Seq<Node>, pid: i32) -> bool {
    exists|i: int| 0 <= i < nodes.len() && #[trigger] nodes[i].pid == pid
}

/// The parent PID recorded for `pid`.
pub open spec fn parent_of(nodes: Seq<Node>, pid: i32) -> i32 {
    nodes[choose|i: int| 0 <= i < nodes.len() && #[trigger] nodes[i].pid == pid].ppid
}

/// Walks from `cursor` up the parent links, at most `nodes.len()` steps, to
/// the first process that belongs directly to a job. The walk stops at
/// launchd (PID 1 and below), at a self-parented process, and at a PID
/// that is not among the nodes.
pub open spec fn anchor(nodes: Seq<Node>, self_pid: i32, idle: Seq<i32>, cursor: i32, steps: nat) -> Option<i32>
    decreases nodes.len() - steps,
{
    if is_direct(nodes, self_pid, idle, cursor) {
        Some(cursor)
    } else if !present(nodes, cursor) {
        None
    } else {
        let parent = parent_of(nodes, cursor);
        if parent <= 1 || parent == cursor || steps >= nodes.len() {
            None
        } else {
            anchor(nodes, self_pid, idle, parent, steps + 1)
        }
    }
}

/// `p` is aggregated into the job rooted at node `r`.
pub open spec fn job_member(nodes: Seq<Node>, self_pid: i32, idle: Seq<i32>, r: int, p: i32) -> bool {
    &&& present(nodes, p)
    &&& anchor(nodes, self_pid, idle, p, 0) is Some
    &&& group_has(nodes, nodes[r].tdev, nodes[r].tpgid, anchor(nodes, self_pid, idle, p, 0)->0)
}

/// Strictly increasing.
pub open spec fn strictly_sorted(s: Seq<i32>) -> bool {
    forall|a: int, b: int| 0 <= a < b < s.len() ==> #[trigger] s[a] < #[trigger] s[b]
}

/// `job` is the job rooted at some job root, with exactly its members in order.
pub open spec fn describes_job(nodes: Seq<Node>, self_pid: i32, idle: Seq<i32>, job: JobDefinition) -> bool {
    exists|r: int| #[trigger] is_job_root(nodes, self_pid, idle, r) && {
        let n = nodes[r];
        &&& job.root_pid == n.pid
        &&& job.key == JobKey { pid: n.pid, start_sec: n.start_sec, start_usec: n.start_usec }
        &&& strictly_sorted(job.members@)
        &&& forall|p: i32| #[trigger] job.members@.contains(p) <==> job_member(nodes, self_pid, idle, r, p)
    }
}

/// A foreground group that may become a job once its root has been checked
/// for an idle shell.
#[derive(Clone, Debug)]
pub struct Candidate {
    /// Index of the group's root among the nodes.
    pub root: usize,
    /// Every process of the group.
    pub members: Vec<i32>,
}

/// `c` describes the foreground group of its root, and that root.
pub open spec fn describes_group(nodes: Seq<Node>, c: Candidate) -> bool {
    &&& is_group_root(nodes, c.root as int)
    &&& forall|p: i32| #[trigger] c.members@.contains(p)
        <==> group_has(nodes, nodes[c.root as int].tdev, nodes[c.root as int].tpgid, p)
}

fn vec_contains(v: &Vec<i32>, x: i32) -> (r: bool)
    ensures
        r == v@.contains(x),
{
    let mut i: usize = 0;
    while i < v.len()
        invariant
            i <= v.len(),
            forall|k: int| 0 <= k < i ==> v@[k] != x,
        decreases v.len() - i,
    {
        if v[i] == x {
            assert(v@[i as int] == x);
            return true;
        }
        i = i + 1;
    }
    false
}

fn node_in_group(n: &Node, tdev: u32, tpgid: i32) -> (r: bool)
    ensures
        r == in_group(*n, tdev, tpgid),
{
    n.tdev != 0 && n.tdev != u32::MAX && n.tpgid > 0 && n.pgid == n.tpgid && n.tdev == tdev && n.tpgid == tpgid
}

fn earlier(a: &Node, b: &Node) -> (r: bool)
    ensures
        r == started_first(*a, *b),
{
    a.start_sec < b.start_sec || (a.start_sec == b.start_sec && a.start_usec < b.start_usec)
        || (a.start_sec == b.start_sec && a.start_usec == b.start_usec && a.pid <= b.pid)
}

/// The PIDs of the foreground group `(tdev, tpgid)`.
fn group_pids(nodes: &Vec<Node>, tdev: u32, tpgid: i32) -> (v: Vec<i32>)
    ensures
        forall|p: i32| #[trigger] v@.contains(p) <==> group_has(nodes@, tdev, tpgid, p),
{
    let mut v: Vec<i32> = Vec::new();
    for i in 0..nodes.len()
        invariant
            forall|p: i32| #[trigger] v@.contains(p) <==> exists|k: int|
                0 <= k < i && #[trigger] in_group(nodes@[k], tdev, tpgid) && nodes@[k].pid == p,
    {
        let ghost old_v = v@;
        if node_in_group(&nodes[i], tdev, tpgid) {
            v.push(nodes[i].pid);
        }
        assert forall|p: i32| #[trigger] v@.contains(p) <==> exists|k: int|
            0 <= k < i + 1 && #[trigger] in_group(nodes@[k], tdev, tpgid) && nodes@[k].pid == p by {
            if in_group(nodes@[i as int], tdev, tpgid) {
                assert(v@ == old_v.push(nodes@[i as int].pid));
                assert(v@.contains(p) <==> (old_v.contains(p) || p == nodes@[i as int].pid)) by {
                    if v@.contains(p) && p != nodes@[i as int].pid {
                        let m = choose|m: int| 0 <= m < v@.len() && v@[m] == p;
                        assert(old_v[m] == p);
                    }
                    if old_v.contains(p) {
                        let m = choose|m: int| 0 <= m < old_v.len() && old_v[m] == p;
                        assert(v@[m] == p);
                    }
                    if p == nodes@[i as int].pid {
                        assert(v@[old_v.len() as int] == p);
                    }
                }
            }
            if exists|k: int| 0 <= k < i + 1 && #[trigger] in_group(nodes@[k], tdev, tpgid) && nodes@[k].pid == p {
                let k = choose|k: int| 0 <= k < i + 1 && #[trigger] in_group(nodes@[k], tdev, tpgid) && nodes@[k].pid == p;
                if k < i {
                    assert(old_v.contains(p));
                }
            }
        }
    }
    v
}

/// The root of the foreground group `(tdev, tpgid)`, which has at least one
/// process; `members` holds the group's PIDs.
fn group_root(nodes: &Vec<Node>, tdev: u32, tpgid: i32, members: &Vec<i32>) -> (r: usize)
    requires
        exists|i: int| 0 <= i < nodes.len() && #[trigger] in_group(nodes@[i], tdev, tpgid),
        forall|p: i32| #[trigger] members@.contains(p) <==> group_has(nodes@, tdev, tpgid, p),
    ensures
        r < nodes.len(),
        in_group(nodes@[r as int], tdev, tpgid),
        is_group_root(nodes@, r as int),
{
    let mut best_top: Option<usize> = None;
    let mut best_any: Option<usize> = None;
    for j in 0..nodes.len()
        invariant
            forall|p: i32| #[trigger] members@.contains(p) <==> group_has(nodes@, tdev, tpgid, p),
            best_any matches Some(a) ==> {
                &&& a < j
                &&& in_group(nodes@[a as int], tdev, tpgid)
                &&& forall|k: int| 0 <= k < j && #[trigger] in_group(nodes@[k], tdev, tpgid) ==> nodes@[a as int].pid <= nodes@[k].pid
            },
            best_any is None ==> forall|k: int| 0 <= k < j ==> !#[trigger] in_group(nodes@[k], tdev, tpgid),
            best_top matches Some(t) ==> {
                &&& t < j
                &&& in_group(nodes@[t as int], tdev, tpgid)
                &&& is_top(nodes@, t as int)
                &&& forall|k: int| 0 <= k < j && #[trigger] in_group(nodes@[k], tdev, tpgid) && is_top(nodes@, k)
                    ==> started_first(nodes@[t as int], nodes@[k])
            },
            best_top is None ==> forall|k: int| 0 <= k < j && #[trigger] in_group(nodes@[k], tdev, tpgid) ==> !is_top(nodes@, k),
    {
        if node_in_group(&nodes[j], tdev, tpgid) {
            match best_any {
                Some(a) => {
                    if nodes[j].pid < nodes[a].pid {
                        best_any = Some(j);
                    }
                },
                None => {
                    best_any = Some(j);
                },
            }
            let top = !vec_contains(members, nodes[j].ppid);
            proof {
                assert(nodes@[j as int].tdev == tdev && nodes@[j as int].tpgid == tpgid);
            }
            if top {
                match best_top {
                    Some(t) => {
                        if !earlier(&nodes[t], &nodes[j]) {
                            best_top = Some(j);
                        }
                    },
                    None => {
                        best_top = Some(j);
                    },
                }
            }
        }
    }
    match best_top {
        Some(t) => {
            assert(has_top(nodes@, tdev, tpgid));
            t
        },
        None => {
            let a = best_any.unwrap();
            assert(!has_top(nodes@, tdev, tpgid));
            a
        },
    }
}


/// Node `f` is the first node of its foreground group.
pub open spec fn is_first_of_group(nodes: Seq<Node>, f: int) -> bool {
    &&& 0 <= f < nodes.len()
    &&& in_foreground(nodes[f])
    &&& forall|j: int| 0 <= j < f ==> !#[trigger] in_group(nodes[j], nodes[f].tdev, nodes[f].tpgid)
}

/// Two candidates never describe the same foreground group.
pub open spec fn distinct_groups(nodes: Seq<Node>, cands: Seq<Candidate>) -> bool {
    forall|a: int, b: int|
        #![trigger cands[a], cands[b]]
        0 <= a < cands.len() && 0 <= b < cands.len() && a != b ==> {
            let ra = nodes[cands[a].root as int];
            let rb = nodes[cands[b].root as int];
            ra.tdev != rb.tdev || ra.tpgid != rb.tpgid
        }
}

/// A group has one root: two roots of the same group are the same node.
proof fn lemma_root_unique(nodes: Seq<Node>, r1: int, r2: int)
    requires
        distinct_pids(nodes),
        is_group_root(nodes, r1),
        is_group_root(nodes, r2),
        nodes[r1].tdev == nodes[r2].tdev,
        nodes[r1].tpgid == nodes[r2].tpgid,
    ensures
        r1 == r2,
{
    let n1 = nodes[r1];
    let n2 = nodes[r2];
    assert(in_group(nodes[r1], n1.tdev, n1.tpgid));
    assert(in_group(nodes[r2], n1.tdev, n1.tpgid));
    if r1 != r2 {
        assert(nodes[r1].pid != nodes[r2].pid);
    }
}

fn first_of_group(nodes: &Vec<Node>, f: usize) -> (r: bool)
    requires
        f < nodes.len(),
    ensures
        r == is_first_of_group(nodes@, f as int),
{
    let n = &nodes[f];
    if !(n.tdev != 0 && n.tdev != u32::MAX && n.tpgid > 0 && n.pgid == n.tpgid) {
        return false;
    }
    let mut j: usize = 0;
    while j < f
        invariant
            f < nodes.len(),
            j <= f,
            n == &nodes@[f as int],
            forall|k: int| 0 <= k < j ==> !#[trigger] in_group(nodes@[k], n.tdev, n.tpgid),
        decreases f - j,
    {
        if node_in_group(&nodes[j], n.tdev, n.tpgid) {
            return false;
        }
        j = j + 1;
    }
    true
}

/// The foreground groups that do not contain the monitor itself, each with
/// its root and its PIDs.
pub fn foreground_groups(nodes: &Vec<Node>, self_pid: i32) -> (cands: Vec<Candidate>)
    requires
        distinct_pids(nodes@),
    ensures
        forall|k: int| 0 <= k < cands.len() ==> #[trigger] describes_group(nodes@, cands@[k]),
        forall|k: int| 0 <= k < cands.len() ==> !group_has(nodes@, nodes@[cands@[k].root as int].tdev,
            nodes@[cands@[k].root as int].tpgid, self_pid),
        forall|r: int| #[trigger] is_group_root(nodes@, r) && !group_has(nodes@, nodes@[r].tdev, nodes@[r].tpgid, self_pid)
            ==> exists|k: int| 0 <= k < cands.len() && cands@[k].root == r,
        distinct_groups(nodes@, cands@),
{
    let mut cands: Vec<Candidate> = Vec::new();
    let ghost mut firsts: Seq<int> = Seq::empty();
    for i in 0..nodes.len()
        invariant
            distinct_pids(nodes@),
            firsts.len() == cands.len(),
            forall|k: int| 0 <= k < cands.len() ==> #[trigger] describes_group(nodes@, cands@[k]),
            forall|k: int| 0 <= k < cands.len() ==> !group_has(nodes@, nodes@[cands@[k].root as int].tdev,
                nodes@[cands@[k].root as int].tpgid, self_pid),
            forall|k: int| 0 <= k < firsts.len() ==> #[trigger] firsts[k] < i && is_first_of_group(nodes@, firsts[k])
                && nodes@[firsts[k]].tdev == nodes@[cands@[k].root as int].tdev
                && nodes@[firsts[k]].tpgid == nodes@[cands@[k].root as int].tpgid,
            forall|a: int, b: int| 0 <= a < b < firsts.len() ==> #[trigger] firsts[a] < #[trigger] firsts[b],
            forall|r: int, f: int| #[trigger] is_group_root(nodes@, r) && #[trigger] is_first_of_group(nodes@, f) && f < i
                && nodes@[f].tdev == nodes@[r].tdev && nodes@[f].tpgid == nodes@[r].tpgid
                && !group_has(nodes@, nodes@[r].tdev, nodes@[r].tpgid, self_pid)
                ==> exists|k: int| 0 <= k < cands.len() && cands@[k].root == r,
    {
        if first_of_group(nodes, i) {
            let tdev = nodes[i].tdev;
            let tpgid = nodes[i].tpgid;
            let members = group_pids(nodes, tdev, tpgid);
            proof {
                assert(in_group(nodes@[i as int], tdev, tpgid));
            }
            if !vec_contains(&members, self_pid) {
                let root = group_root(nodes, tdev, tpgid, &members);
                let ghost old_cands = cands@;
                cands.push(Candidate { root, members });
                proof {
                    firsts = firsts.push(i as int);
                    assert forall|r: int, f: int| #[trigger] is_group_root(nodes@, r) && #[trigger] is_first_of_group(nodes@, f) && f < i + 1
                        && nodes@[f].tdev == nodes@[r].tdev && nodes@[f].tpgid == nodes@[r].tpgid
                        && !group_has(nodes@, nodes@[r].tdev, nodes@[r].tpgid, self_pid)
                        implies exists|k: int| 0 <= k < cands.len() && cands@[k].root == r by {
                        if f == i {
                            lemma_root_unique(nodes@, r, root as int);
                            assert(cands@[old_cands.len() as int].root == r);
                        } else {
                            let k = choose|k: int| 0 <= k < old_cands.len() && old_cands[k].root == r;
                            assert(cands@[k].root == r);
                        }
                    }
                    assert forall|k: int| 0 <= k < cands.len() implies #[trigger] describes_group(nodes@, cands@[k]) by {
                        if k < old_cands.len() {
                            assert(cands@[k] == old_cands[k]);
                        }
                    }
                }
            } else {
                proof {
                    assert forall|r: int, f: int| #[trigger] is_group_root(nodes@, r) && #[trigger] is_first_of_group(nodes@, f) && f < i + 1
                        && nodes@[f].tdev == nodes@[r].tdev && nodes@[f].tpgid == nodes@[r].tpgid
                        && !group_has(nodes@, nodes@[r].tdev, nodes@[r].tpgid, self_pid)
                        implies exists|k: int| 0 <= k < cands.len() && cands@[k].root == r by {
                        if f == i {
                            assert(members@.contains(self_pid));
                        }
                    }
                }
            }
        } else {
            proof {
                assert forall|r: int, f: int| #[trigger] is_group_root(nodes@, r) && #[trigger] is_first_of_group(nodes@, f) && f < i + 1
                    && nodes@[f].tdev == nodes@[r].tdev && nodes@[f].tpgid == nodes@[r].tpgid
                    && !group_has(nodes@, nodes@[r].tdev, nodes@[r].tpgid, self_pid)
                    implies exists|k: int| 0 <= k < cands.len() && cands@[k].root == r by {
                    assert(f != i);
                }
            }
        }
    }
    proof {
        assert forall|r: int| #[trigger] is_group_root(nodes@, r) && !group_has(nodes@, nodes@[r].tdev, nodes@[r].tpgid, self_pid)
            implies exists|k: int| 0 <= k < cands.len() && cands@[k].root == r by {
            lemma_first_exists(nodes@, r);
            let f = choose|f: int| #[trigger] is_first_of_group(nodes@, f) && nodes@[f].tdev == nodes@[r].tdev
                && nodes@[f].tpgid == nodes@[r].tpgid;
            assert(f < nodes.len());
        }
        assert forall|a: int, b: int| 0 <= a < cands.len() && 0 <= b < cands.len() && a != b implies {
            let ra = nodes@[#[trigger] cands@[a].root as int];
            let rb = nodes@[#[trigger] cands@[b].root as int];
            ra.tdev != rb.tdev || ra.tpgid != rb.tpgid
        } by {
            let fa = firsts[a];
            let fb = firsts[b];
            if fa < fb {
                assert(!in_group(nodes@[fa], nodes@[fb].tdev, nodes@[fb].tpgid));
            } else {
                assert(firsts[b] < firsts[a]);
                assert(!in_group(nodes@[fb], nodes@[fa].tdev, nodes@[fa].tpgid));
            }
        }
    }
    cands
}

/// Every foreground process has a first node in its group.
proof fn lemma_first_exists(nodes: Seq<Node>, r: int)
    requires
        0 <= r < nodes.len(),
        in_foreground(nodes[r]),
    ensures
        exists|f: int| #[trigger] is_first_of_group(nodes, f) && nodes[f].tdev == nodes[r].tdev
            && nodes[f].tpgid == nodes[r].tpgid,
    decreases r,
{
    let n = nodes[r];
    if exists|j: int| 0 <= j < r && #[trigger] in_group(nodes[j], n.tdev, n.tpgid) {
        let j = choose|j: int| 0 <= j < r && #[trigger] in_group(nodes[j], n.tdev, n.tpgid);
        lemma_first_exists(nodes, j);
    } else {
        assert(is_first_of_group(nodes, r));
    }
}


/// The kept candidates are exactly the job groups.
pub open spec fn kept_groups(nodes: Seq<Node>, self_pid: i32, idle: Seq<i32>, kept: Seq<Candidate>) -> bool {
    &&& forall|k: int| 0 <= k < kept.len() ==> #[trigger] describes_group(nodes, kept[k])
    &&& forall|k: int| 0 <= k < kept.len() ==> is_job_root(nodes, self_pid, idle, #[trigger] kept[k].root as int)
    &&& forall|r: int| #[trigger] is_job_root(nodes, self_pid, idle, r) ==> exists|k: int| 0 <= k < kept.len() && kept[k].root == r
    &&& distinct_groups(nodes, kept)
}

fn is_wrapper(name: &String) -> (r: bool)
    ensures
        r == is_wrapper_name(name@),
{
    let chars = chars_of(name.as_str());
    let sudo = vec!['s', 'u', 'd', 'o'];
    let doas = vec!['d', 'o', 'a', 's'];
    let login = vec!['l', 'o', 'g', 'i', 'n'];
    assert(chars@.skip(0) == chars@);
    same_chars(&chars, 0, &sudo) || same_chars(&chars, 0, &doas) || same_chars(&chars, 0, &login)
}

fn keep_jobs(nodes: &Vec<Node>, self_pid: i32, idle: &Vec<i32>, cands: Vec<Candidate>) -> (kept: Vec<Candidate>)
    requires
        distinct_pids(nodes@),
        forall|k: int| 0 <= k < cands.len() ==> #[trigger] describes_group(nodes@, cands@[k]),
        forall|k: int| 0 <= k < cands.len() ==> !group_has(nodes@, nodes@[cands@[k].root as int].tdev,
            nodes@[cands@[k].root as int].tpgid, self_pid),
        forall|r: int| #[trigger] is_group_root(nodes@, r) && !group_has(nodes@, nodes@[r].tdev, nodes@[r].tpgid, self_pid)
            ==> exists|k: int| 0 <= k < cands.len() && cands@[k].root == r,
        distinct_groups(nodes@, cands@),
    ensures
        kept_groups(nodes@, self_pid, idle@, kept@),
{
    let mut kept: Vec<Candidate> = Vec::new();
    let ghost mut origin: Seq<int> = Seq::empty();
    let mut cands = cands;
    let ghost all = cands@;
    let n = cands.len();
    let mut i: usize = 0;
    while i < n
        invariant
            n == all.len(),
            i <= all.len(),
            cands@ == all.skip(i as int),
            distinct_pids(nodes@),
            forall|k: int| 0 <= k < all.len() ==> #[trigger] describes_group(nodes@, all[k]),
            forall|k: int| 0 <= k < all.len() ==> !group_has(nodes@, nodes@[all[k].root as int].tdev,
                nodes@[all[k].root as int].tpgid, self_pid),
            distinct_groups(nodes@, all),
            origin.len() == kept.len(),
            forall|k: int| 0 <= k < kept.len() ==> 0 <= #[trigger] origin[k] < i && kept@[k] == all[origin[k]],
            forall|a: int, b: int| 0 <= a < b < origin.len() ==> #[trigger] origin[a] < #[trigger] origin[b],
            forall|k: int| 0 <= k < kept.len() ==> is_job_root(nodes@, self_pid, idle@, #[trigger] kept@[k].root as int),
            forall|j: int| 0 <= j < i && is_job_root(nodes@, self_pid, idle@, #[trigger] all[j].root as int)
                ==> exists|k: int| 0 <= k < kept.len() && kept@[k].root == all[j].root,
        decreases n - i,
    {
        let c = cands.remove(0);
        assert(c == all[i as int]);
        assert(cands@ == all.skip(i + 1));
        assert(describes_group(nodes@, all[i as int]));
        let root = c.root;
        let take = !vec_contains(idle, nodes[root].pid) && !is_wrapper(&nodes[root].name);
        let ghost old_kept = kept@;
        if take {
            kept.push(c);
            let ghost old_origin = origin;
            proof {
                origin = origin.push(i as int);
                assert(origin.drop_last() =~= old_origin);
            }
        }
        proof {
            assert forall|j: int| 0 <= j < i + 1 && is_job_root(nodes@, self_pid, idle@, #[trigger] all[j].root as int)
                implies exists|k: int| 0 <= k < kept.len() && kept@[k].root == all[j].root by {
                if j == i {
                    assert(kept@[old_kept.len() as int].root == all[j].root);
                } else {
                    let k = choose|k: int| 0 <= k < old_kept.len() && old_kept[k].root == all[j].root;
                    assert(kept@[k] == old_kept[k]);
                }
            }
            assert forall|k: int| 0 <= k < kept.len() implies is_job_root(nodes@, self_pid, idle@, #[trigger] kept@[k].root as int) by {
                if k < old_kept.len() {
                    assert(kept@[k] == old_kept[k]);
                }
            }
        }
        i = i + 1;
    }
    proof {
        assert forall|k: int| 0 <= k < kept.len() implies #[trigger] describes_group(nodes@, kept@[k]) by {
            assert(describes_group(nodes@, all[origin[k]]));
        }
        assert forall|r: int| #[trigger] is_job_root(nodes@, self_pid, idle@, r)
            implies exists|k: int| 0 <= k < kept.len() && kept@[k].root == r by {
            let j = choose|j: int| 0 <= j < all.len() && all[j].root == r;
            assert(is_job_root(nodes@, self_pid, idle@, all[j].root as int));
        }
        assert forall|a: int, b: int| 0 <= a < kept.len() && 0 <= b < kept.len() && a != b implies {
            let ra = nodes@[#[trigger] kept@[a].root as int];
            let rb = nodes@[#[trigger] kept@[b].root as int];
            ra.tdev != rb.tdev || ra.tpgid != rb.tpgid
        } by {
            assert(origin[a] != origin[b]) by {
                if a < b {
                    assert(origin[a] < origin[b]);
                } else {
                    assert(origin[b] < origin[a]);
                }
            }
            assert(kept@[a] == all[origin[a]]);
            assert(kept@[b] == all[origin[b]]);
            assert(all[origin[a]] == all[origin[a]] && all[origin[b]] == all[origin[b]]);
        }
    }
    kept
}

/// A process of a kept group belongs directly to a job, and nothing else does.
proof fn lemma_direct(nodes: Seq<Node>, self_pid: i32, idle: Seq<i32>, kept: Seq<Candidate>, q: i32)
    requires
        distinct_pids(nodes),
        kept_groups(nodes, self_pid, idle, kept),
    ensures
        is_direct(nodes, self_pid, idle, q) <==> exists|k: int| 0 <= k < kept.len() && #[trigger] kept[k].members@.contains(q),
{
    if is_direct(nodes, self_pid, idle, q) {
        let i = choose|i: int| 0 <= i < nodes.len() && #[trigger] nodes[i].pid == q && in_foreground(nodes[i])
            && group_kept(nodes, self_pid, idle, nodes[i].tdev, nodes[i].tpgid);
        let r = choose|r: int| 0 <= r < nodes.len() && #[trigger] in_group(nodes[r], nodes[i].tdev, nodes[i].tpgid)
            && is_job_root(nodes, self_pid, idle, r);
        let k = choose|k: int| 0 <= k < kept.len() && kept[k].root == r;
        assert(describes_group(nodes, kept[k]));
        assert(in_group(nodes[i], nodes[r].tdev, nodes[r].tpgid));
        assert(kept[k].members@.contains(q));
    }
    if exists|k: int| 0 <= k < kept.len() && #[trigger] kept[k].members@.contains(q) {
        let k = choose|k: int| 0 <= k < kept.len() && #[trigger] kept[k].members@.contains(q);
        assert(describes_group(nodes, kept[k]));
        let r = kept[k].root as int;
        assert(is_job_root(nodes, self_pid, idle, kept[k].root as int));
        let i = choose|i: int| 0 <= i < nodes.len() && #[trigger] in_group(nodes[i], nodes[r].tdev, nodes[r].tpgid) && nodes[i].pid == q;
        assert(in_group(nodes[r], nodes[r].tdev, nodes[r].tpgid));
        assert(group_kept(nodes, self_pid, idle, nodes[i].tdev, nodes[i].tpgid));
        assert(nodes[i].pid == q);
    }
}

fn direct_index(kept: &Vec<Candidate>, q: i32) -> (r: Option<usize>)
    ensures
        r matches Some(k) ==> k < kept.len() && kept@[k as int].members@.contains(q),
        r is None ==> forall|k: int| 0 <= k < kept.len() ==> !#[trigger] kept@[k].members@.contains(q),
{
    let mut k: usize = 0;
    while k < kept.len()
        invariant
            k <= kept.len(),
            forall|j: int| 0 <= j < k ==> !#[trigger] kept@[j].members@.contains(q),
        decreases kept.len() - k,
    {
        if vec_contains(&kept[k].members, q) {
            return Some(k);
        }
        k = k + 1;
    }
    None
}

proof fn lemma_distinct(nodes: Seq<Node>, a: int, b: int)
    requires
        distinct_pids(nodes),
        0 <= a < nodes.len(),
        0 <= b < nodes.len(),
        a != b,
    ensures
        nodes[a].pid != nodes[b].pid,
{
}

fn find_node(nodes: &Vec<Node>, pid: i32) -> (r: Option<usize>)
    requires
        distinct_pids(nodes@),
    ensures
        r matches Some(i) ==> i < nodes.len() && nodes@[i as int].pid == pid && parent_of(nodes@, pid) == nodes@[i as int].ppid,
        r is None ==> !present(nodes@, pid),
{
    let mut i: usize = 0;
    while i < nodes.len()
        invariant
            distinct_pids(nodes@),
            i <= nodes.len(),
            forall|j: int| 0 <= j < i ==> #[trigger] nodes@[j].pid != pid,
        decreases nodes.len() - i,
    {
        if nodes[i].pid == pid {
            proof {
                assert(present(nodes@, pid));
                let c = choose|c: int| 0 <= c < nodes.len() && #[trigger] nodes@[c].pid == pid;
                if c != i {
                    lemma_distinct(nodes@, c, i as int);
                }
            }
            return Some(i);
        }
        i = i + 1;
    }
    None
}

/// The kept group that `p` is aggregated into, found by walking up its parents.
fn anchor_of(nodes: &Vec<Node>, self_pid: i32, idle: &Vec<i32>, kept: &Vec<Candidate>, p: i32) -> (r: Option<usize>)
    requires
        distinct_pids(nodes@),
        kept_groups(nodes@, self_pid, idle@, kept@),
    ensures
        r matches Some(k) ==> k < kept.len() && anchor(nodes@, self_pid, idle@, p, 0) is Some
            && kept@[k as int].members@.contains(anchor(nodes@, self_pid, idle@, p, 0)->0),
        r is None ==> anchor(nodes@, self_pid, idle@, p, 0) is None,
{
    let mut cursor = p;
    let mut steps: usize = 0;
    loop
        invariant
            distinct_pids(nodes@),
            kept_groups(nodes@, self_pid, idle@, kept@),
            steps <= nodes.len(),
            anchor(nodes@, self_pid, idle@, p, 0) == anchor(nodes@, self_pid, idle@, cursor, steps as nat),
        decreases nodes.len() - steps,
    {
        proof {
            lemma_direct(nodes@, self_pid, idle@, kept@, cursor);
        }
        match direct_index(kept, cursor) {
            Some(k) => {
                return Some(k);
            },
            None => {},
        }
        match find_node(nodes, cursor) {
            None => {
                return None;
            },
            Some(i) => {
                let parent = nodes[i].ppid;
                if parent <= 1 || parent == cursor || steps >= nodes.len() {
                    return None;
                }
                cursor = parent;
                steps = steps + 1;
            },
        }
    }
}

fn insert_sorted(v: &mut Vec<i32>, x: i32)
    requires
        strictly_sorted(old(v)@),
        !old(v)@.contains(x),
    ensures
        strictly_sorted(final(v)@),
        forall|p: i32| #[trigger] final(v)@.contains(p) <==> (old(v)@.contains(p) || p == x),
{
    let mut pos: usize = 0;
    while pos < v.len() && v[pos] < x
        invariant
            pos <= v.len(),
            forall|k: int| 0 <= k < pos ==> #[trigger] v@[k] < x,
        decreases v.len() - pos,
    {
        pos = pos + 1;
    }
    let ghost before = v@;
    v.insert(pos, x);
    proof {
        assert(v@ == before.insert(pos as int, x));
        assert forall|a: int, b: int| 0 <= a < b < v@.len() implies #[trigger] v@[a] < #[trigger] v@[b] by {
            if pos < before.len() {
                assert(before[pos as int] >= x);
                assert(before[pos as int] != x);
            }
            if b > pos as int && a < pos as int {
                assert(v@[a] == before[a]);
            }
        }
        assert forall|p: i32| #[trigger] v@.contains(p) <==> (before.contains(p) || p == x) by {
            if v@.contains(p) {
                let m = choose|m: int| 0 <= m < v@.len() && v@[m] == p;
                if m < pos {
                    assert(before[m] == p);
                } else if m > pos {
                    assert(before[m - 1] == p);
                }
            }
            if before.contains(p) {
                let m = choose|m: int| 0 <= m < before.len() && before[m] == p;
                if m < pos {
                    assert(v@[m] == p);
                } else {
                    assert(v@[m + 1] == p);
                }
            }
            if p == x {
                assert(v@[pos as int] == x);
            }
        }
    }
}


fn collect_members(nodes: &Vec<Node>, assign: &Vec<Option<usize>>, k: usize) -> (members: Vec<i32>)
    requires
        distinct_pids(nodes@),
        assign.len() == nodes.len(),
    ensures
        strictly_sorted(members@),
        forall|p: i32| #[trigger] members@.contains(p) <==> exists|j: int|
            0 <= j < nodes.len() && nodes@[j].pid == p && #[trigger] assign@[j] == Some(k),
{
    let mut members: Vec<i32> = Vec::new();
    for i in 0..nodes.len()
        invariant
            distinct_pids(nodes@),
            assign.len() == nodes.len(),
            strictly_sorted(members@),
            forall|p: i32| #[trigger] members@.contains(p) <==> exists|j: int|
                0 <= j < i && nodes@[j].pid == p && #[trigger] assign@[j] == Some(k),
    {
        match assign[i] {
            Some(a) => {
                if a == k {
                    proof {
                        if members@.contains(nodes@[i as int].pid) {
                            let j = choose|j: int| 0 <= j < i && nodes@[j].pid == nodes@[i as int].pid && #[trigger] assign@[j] == Some(k);
                            lemma_distinct(nodes@, j, i as int);
                        }
                    }
                    insert_sorted(&mut members, nodes[i].pid);
                }
            },
            None => {},
        }
        proof {
            assert forall|p: i32| #[trigger] members@.contains(p) <==> exists|j: int|
                0 <= j < i + 1 && nodes@[j].pid == p && #[trigger] assign@[j] == Some(k) by {
                if exists|j: int| 0 <= j < i + 1 && nodes@[j].pid == p && #[trigger] assign@[j] == Some(k) {
                    let j = choose|j: int| 0 <= j < i + 1 && nodes@[j].pid == p && #[trigger] assign@[j] == Some(k);
                    if j < i {
                        assert(exists|j: int| 0 <= j < i && nodes@[j].pid == p && #[trigger] assign@[j] == Some(k));
                    }
                }
            }
        }
    }
    members
}

/// The facts about an assignment of processes to kept groups.
pub open spec fn assignment_ok(nodes: Seq<Node>, self_pid: i32, idle: Seq<i32>, kept: Seq<Candidate>,
    assign: Seq<Option<usize>>) -> bool {
    &&& assign.len() == nodes.len()
    &&& forall|j: int| 0 <= j < nodes.len() ==> match #[trigger] assign[j] {
        Some(k) => k < kept.len() && anchor(nodes, self_pid, idle, nodes[j].pid, 0) is Some
            && kept[k as int].members@.contains(anchor(nodes, self_pid, idle, nodes[j].pid, 0)->0),
        None => anchor(nodes, self_pid, idle, nodes[j].pid, 0) is None,
    }
}

proof fn lemma_member_one(nodes: Seq<Node>, self_pid: i32, idle: Seq<i32>, kept: Seq<Candidate>,
    assign: Seq<Option<usize>>, k: int, members: Seq<i32>, p: i32)
    requires
        distinct_pids(nodes),
        forall|k: int| 0 <= k < kept.len() ==> #[trigger] describes_group(nodes, kept[k]),
        distinct_groups(nodes, kept),
        0 <= k < kept.len(),
        k <= usize::MAX,
        assignment_ok(nodes, self_pid, idle, kept, assign),
        forall|p: i32| #[trigger] members.contains(p) <==> exists|j: int|
            0 <= j < nodes.len() && nodes[j].pid == p && #[trigger] assign[j] == Some(k as usize),
    ensures
        members.contains(p) <==> job_member(nodes, self_pid, idle, kept[k].root as int, p),
{
    let r = kept[k].root as int;
    assert(describes_group(nodes, kept[k]));
    let tk = nodes[r].tdev;
    let gk = nodes[r].tpgid;
    if members.contains(p) {
        let j = choose|j: int| 0 <= j < nodes.len() && nodes[j].pid == p && #[trigger] assign[j] == Some(k as usize);
        assert(present(nodes, p));
        let a = assign[j];
        let q = anchor(nodes, self_pid, idle, p, 0)->0;
        assert((k as usize) as int == k);
        assert(a == Some(k as usize));
        assert(kept[(k as usize) as int].members@.contains(q));
        assert(kept[k].members@.contains(q));
        assert(group_has(nodes, tk, gk, q));
        assert(job_member(nodes, self_pid, idle, r, p));
    }
    if job_member(nodes, self_pid, idle, r, p) {
        let j = choose|j: int| 0 <= j < nodes.len() && #[trigger] nodes[j].pid == p;
        let q = anchor(nodes, self_pid, idle, p, 0)->0;
        let a = assign[j];
        match a {
            Some(k2) => {
                assert(kept[k2 as int].members@.contains(q));
                assert(describes_group(nodes, kept[k2 as int]));
                let r2 = kept[k2 as int].root as int;
                assert(group_has(nodes, nodes[r2].tdev, nodes[r2].tpgid, q));
                assert(group_has(nodes, tk, gk, q));
                lemma_one_group(nodes, tk, gk, nodes[r2].tdev, nodes[r2].tpgid, q);
                if k2 != k {
                    assert(kept[k2 as int] == kept[k2 as int] && kept[k] == kept[k]);
                }
                assert(nodes[j].pid == p && assign[j] == Some(k as usize));
                assert(members.contains(p));
            },
            None => {},
        }
    }
}

/// The processes assigned to kept group `k` are exactly the members of its job.
proof fn lemma_members(nodes: Seq<Node>, self_pid: i32, idle: Seq<i32>, kept: Seq<Candidate>,
    assign: Seq<Option<usize>>, k: int, members: Seq<i32>)
    requires
        distinct_pids(nodes),
        kept_groups(nodes, self_pid, idle, kept),
        0 <= k < kept.len(),
        k <= usize::MAX,
        assignment_ok(nodes, self_pid, idle, kept, assign),
        forall|p: i32| #[trigger] members.contains(p) <==> exists|j: int|
            0 <= j < nodes.len() && nodes[j].pid == p && #[trigger] assign[j] == Some(k as usize),
    ensures
        is_job_root(nodes, self_pid, idle, kept[k].root as int),
        forall|p: i32| #[trigger] members.contains(p) <==> job_member(nodes, self_pid, idle, kept[k].root as int, p),
{
    assert(is_job_root(nodes, self_pid, idle, kept[k].root as int));
    assert forall|p: i32| #[trigger] members.contains(p) <==> job_member(nodes, self_pid, idle, kept[k].root as int, p) by {
        lemma_member_one(nodes, self_pid, idle, kept, assign, k, members, p);
    }
}

/// A PID belongs to at most one foreground group.
proof fn lemma_one_group(nodes: Seq<Node>, t1: u32, g1: i32, t2: u32, g2: i32, q: i32)
    requires
        distinct_pids(nodes),
        group_has(nodes, t1, g1, q),
        group_has(nodes, t2, g2, q),
    ensures
        t1 == t2 && g1 == g2,
{
    let i = choose|i: int| 0 <= i < nodes.len() && #[trigger] in_group(nodes[i], t1, g1) && nodes[i].pid == q;
    let j = choose|j: int| 0 <= j < nodes.len() && #[trigger] in_group(nodes[j], t2, g2) && nodes[j].pid == q;
    if i != j {
        lemma_distinct(nodes, i, j);
    }
}

fn insert_job(jobs: &mut Vec<JobDefinition>, job: JobDefinition)
    requires
        forall|a: int, b: int| 0 <= a < b < old(jobs).len() ==> #[trigger] old(jobs)@[a].root_pid < #[trigger] old(jobs)@[b].root_pid,
        forall|a: int| 0 <= a < old(jobs).len() ==> #[trigger] old(jobs)@[a].root_pid != job.root_pid,
    ensures
        forall|a: int, b: int| 0 <= a < b < final(jobs).len() ==> #[trigger] final(jobs)@[a].root_pid < #[trigger] final(jobs)@[b].root_pid,
        exists|pos: int| 0 <= pos <= old(jobs).len() && final(jobs)@ == old(jobs)@.insert(pos, job),
{
    let mut pos: usize = 0;
    while pos < jobs.len() && jobs[pos].root_pid < job.root_pid
        invariant
            pos <= jobs.len(),
            forall|k: int| 0 <= k < pos ==> #[trigger] jobs@[k].root_pid < job.root_pid,
        decreases jobs.len() - pos,
    {
        pos = pos + 1;
    }
    let ghost before = jobs@;
    let ghost root = job.root_pid;
    jobs.insert(pos, job);
    proof {
        assert forall|a: int, b: int| 0 <= a < b < jobs@.len() implies #[trigger] jobs@[a].root_pid < #[trigger] jobs@[b].root_pid by {
            if pos < before.len() {
                assert(before[pos as int].root_pid != root);
            }
            if b > pos as int && a < pos as int {
                assert(jobs@[a] == before[a]);
                assert(jobs@[b] == before[b - 1]);
            }
        }
    }
}

/// The foreground jobs, ordered by root PID, each with its members in PID
/// order. A foreground process group of a terminal (excluding the group of
/// `self_pid`) becomes a job unless its root is listed in `idle` or is a
/// privilege/login wrapper; every process whose nearest ancestor-or-self in
/// such a group belongs to it is aggregated into that job.
pub fn define_jobs(nodes: &Vec<Node>, self_pid: i32, idle: &Vec<i32>) -> (jobs: Vec<JobDefinition>)
    requires
        distinct_pids(nodes@),
    ensures
        forall|a: int, b: int| 0 <= a < b < jobs.len() ==> #[trigger] jobs@[a].root_pid < #[trigger] jobs@[b].root_pid,
        forall|k: int| 0 <= k < jobs.len() ==> #[trigger] describes_job(nodes@, self_pid, idle@, jobs@[k]),
        forall|r: int| #[trigger] is_job_root(nodes@, self_pid, idle@, r)
            ==> exists|k: int| 0 <= k < jobs.len() && jobs@[k].root_pid == nodes@[r].pid,
{
    let cands = foreground_groups(nodes, self_pid);
    let kept = keep_jobs(nodes, self_pid, idle, cands);
    let mut assign: Vec<Option<usize>> = Vec::new();
    for i in 0..nodes.len()
        invariant
            distinct_pids(nodes@),
            kept_groups(nodes@, self_pid, idle@, kept@),
            assign.len() == i,
            forall|j: int| 0 <= j < i ==> match #[trigger] assign@[j] {
                Some(k) => k < kept.len() && anchor(nodes@, self_pid, idle@, nodes@[j].pid, 0) is Some
                    && kept@[k as int].members@.contains(anchor(nodes@, self_pid, idle@, nodes@[j].pid, 0)->0),
                None => anchor(nodes@, self_pid, idle@, nodes@[j].pid, 0) is None,
            },
    {
        let a = anchor_of(nodes, self_pid, idle, &kept, nodes[i].pid);
        assign.push(a);
    }
    assert(assignment_ok(nodes@, self_pid, idle@, kept@, assign@));
    let mut jobs: Vec<JobDefinition> = Vec::new();
    let ghost mut origin: Seq<int> = Seq::empty();
    for k in 0..kept.len()
        invariant
            distinct_pids(nodes@),
            kept_groups(nodes@, self_pid, idle@, kept@),
            assignment_ok(nodes@, self_pid, idle@, kept@, assign@),
            origin.len() == jobs.len(),
            forall|m: int| 0 <= m < jobs.len() ==> 0 <= #[trigger] origin[m] < k
                && jobs@[m].root_pid == nodes@[kept@[origin[m]].root as int].pid,
            forall|m: int| 0 <= m < k ==> #[trigger] origin.contains(m),
            forall|a: int, b: int| 0 <= a < b < jobs.len() ==> #[trigger] jobs@[a].root_pid < #[trigger] jobs@[b].root_pid,
            forall|m: int| 0 <= m < jobs.len() ==> #[trigger] describes_job(nodes@, self_pid, idle@, jobs@[m]),
    {
        let members = collect_members(nodes, &assign, k);
        let root = kept[k].root;
        proof {
            lemma_members(nodes@, self_pid, idle@, kept@, assign@, k as int, members@);
        }
        let job = JobDefinition {
            key: JobKey { pid: nodes[root].pid, start_sec: nodes[root].start_sec, start_usec: nodes[root].start_usec },
            root_pid: nodes[root].pid,
            members,
        };
        proof {
            assert(describes_job(nodes@, self_pid, idle@, job));
            assert forall|a: int| 0 <= a < jobs.len() implies #[trigger] jobs@[a].root_pid != job.root_pid by {
                let ka = origin[a];
                let ra = kept@[ka].root as int;
                assert(ka != k);
                assert(kept@[ka] == kept@[ka] && kept@[k as int] == kept@[k as int]);
                assert(is_group_root(nodes@, ra));
                if ra != root as int {
                    lemma_distinct(nodes@, ra, root as int);
                }
            }
        }
        let ghost before = jobs@;
        insert_job(&mut jobs, job);
        proof {
            let pos = choose|pos: int| 0 <= pos <= before.len() && jobs@ == before.insert(pos, job);
            let ghost old_origin = origin;
            origin = origin.insert(pos, k as int);
            assert forall|m: int| 0 <= m < jobs.len() implies #[trigger] describes_job(nodes@, self_pid, idle@, jobs@[m]) by {
                if m < pos {
                    assert(jobs@[m] == before[m]);
                } else if m > pos {
                    assert(jobs@[m] == before[m - 1]);
                }
            }
            assert forall|m: int| 0 <= m < jobs.len() implies 0 <= #[trigger] origin[m] < k + 1
                && jobs@[m].root_pid == nodes@[kept@[origin[m]].root as int].pid by {
                if m < pos {
                    assert(jobs@[m] == before[m]);
                } else if m > pos {
                    assert(jobs@[m] == before[m - 1]);
                }
            }
            assert forall|m: int| 0 <= m < k + 1 implies #[trigger] origin.contains(m) by {
                if m == k {
                    assert(origin[pos] == m);
                } else {
                    assert(old_origin.contains(m));
                    let j = choose|j: int| 0 <= j < old_origin.len() && old_origin[j] == m;
                    if j < pos {
                        assert(origin[j] == m);
                    } else {
                        assert(origin[j + 1] == m);
                    }
                }
            }
        }
    }
    proof {
        assert forall|r: int| #[trigger] is_job_root(nodes@, self_pid, idle@, r)
            implies exists|k: int| 0 <= k < jobs.len() && jobs@[k].root_pid == nodes@[r].pid by {
            let m = choose|m: int| 0 <= m < kept.len() && kept@[m].root == r;
            assert(origin.contains(m));
            let j = choose|j: int| 0 <= j < origin.len() && origin[j] == m;
            assert(jobs@[j].root_pid == nodes@[kept@[origin[j]].root as int].pid);
        }
    }
    jobs
}


/// What libproc's BSD info reports of a process, as far as jobs need it.
/// `comm` and `name` are the raw fixed-size C character fields.
#[derive(Clone, Debug)]
pub struct BsdRecord {
    pub pid: i32,
    pub uid: u32,
    pub ppid: u32,
    pub pgid: u32,
    pub tdev: u32,
    pub tpgid: u32,
    pub status: u32,
    pub start_sec: u64,
    pub start_usec: u64,
    pub comm: Vec<u8>,
    pub name: Vec<u8>,
}

/// The name of a process: its registered name, or its command name when no
/// name is registered.
pub open spec fn record_name(r: BsdRecord) -> Seq<char> {
    if c_text(r.name@).len() == 0 { c_text(r.comm@) } else { c_text(r.name@) }
}

/// `n` is the node built from `r`.
pub open spec fn node_of(n: Node, r: BsdRecord) -> bool {
    &&& n.pid == r.pid
    &&& n.ppid == r.ppid as i32
    &&& n.pgid == r.pgid as i32
    &&& n.tdev == r.tdev
    &&& n.tpgid == r.tpgid as i32
    &&& n.status == r.status
    &&& n.start_sec == r.start_sec
    &&& n.start_usec == r.start_usec
    &&& n.name@ == record_name(r)
}

/// The `i`-th record belongs to `uid` and no later record of `uid` has its
/// PID (a later report of a PID replaces an earlier one).
pub open spec fn kept_record(records: Seq<BsdRecord>, uid: u32, i: int) -> bool {
    &&& 0 <= i < records.len()
    &&& records[i].uid == uid
    &&& forall|j: int| i < j < records.len() && records[j].uid == uid ==> #[trigger] records[j].pid != records[i].pid
}

/// `n` is built from a kept record of user `uid`.
pub open spec fn from_kept_record(records: Seq<BsdRecord>, uid: u32, n: Node) -> bool {
    exists|i: int| #[trigger] kept_record(records, uid, i) && node_of(n, records[i])
}

/// Some node is built from `r`.
pub open spec fn has_node_of(nodes: Seq<Node>, r: BsdRecord) -> bool {
    exists|n: int| 0 <= n < nodes.len() && #[trigger] node_of(nodes[n], r)
}

fn later_record(records: &Vec<BsdRecord>, from: usize, uid: u32, pid: i32) -> (r: bool)
    requires
        from <= records.len(),
    ensures
        r == exists|j: int| from <= j < records.len() && records@[j].uid == uid && #[trigger] records@[j].pid == pid,
{
    let mut j = from;
    while j < records.len()
        invariant
            from <= j <= records.len(),
            forall|k: int| from <= k < j ==> !(records@[k].uid == uid && #[trigger] records@[k].pid == pid),
        decreases records.len() - j,
    {
        if records[j].uid == uid && records[j].pid == pid {
            return true;
        }
        j = j + 1;
    }
    false
}

/// The processes of user `uid`, one node per PID, from the BSD records of
/// all processes.
pub fn collect_nodes(records: &Vec<BsdRecord>, uid: u32) -> (nodes: Vec<Node>)
    ensures
        distinct_pids(nodes@),
        forall|n: int| 0 <= n < nodes@.len() ==> from_kept_record(records@, uid, #[trigger] nodes@[n]),
        forall|i: int| #[trigger] kept_record(records@, uid, i) ==> has_node_of(nodes@, records@[i]),
{
    let mut nodes: Vec<Node> = Vec::new();
    let ghost mut origin: Seq<int> = Seq::empty();
    let mut i: usize = 0;
    while i < records.len()
        invariant
            i <= records.len(),
            origin.len() == nodes@.len(),
            forall|n: int| 0 <= n < nodes@.len() ==> 0 <= #[trigger] origin[n] < i && kept_record(records@, uid, origin[n])
                && node_of(nodes@[n], records@[origin[n]]),
            forall|k: int| 0 <= k < i && #[trigger] kept_record(records@, uid, k) ==> exists|n: int| 0 <= n < nodes@.len() && origin[n] == k,
            distinct_pids(nodes@),
        decreases records.len() - i,
    {
        let r = &records[i];
        if r.uid == uid && !later_record(records, i + 1, uid, r.pid) {
            let registered = c_string(r.name.as_slice());
            let name = if registered.as_str().is_empty() { c_string(r.comm.as_slice()) } else { registered };
            let node = Node {
                pid: r.pid,
                ppid: r.ppid as i32,
                pgid: r.pgid as i32,
                tdev: r.tdev,
                tpgid: r.tpgid as i32,
                status: r.status,
                start_sec: r.start_sec,
                start_usec: r.start_usec,
                name,
            };
            let ghost before = nodes@;
            proof {
                assert(kept_record(records@, uid, i as int));
                assert forall|n: int| 0 <= n < before.len() implies #[trigger] before[n].pid != r.pid by {
                    let k = origin[n];
                    assert(kept_record(records@, uid, k));
                    assert(records@[k].pid == before[n].pid);
                    if k < i && records@[k].pid == r.pid {
                        assert(records@[i as int].uid == uid);
                    }
                }
            }
            nodes.push(node);
            let ghost old_origin = origin;
            proof {
                origin = origin.push(i as int);
                assert(origin.drop_last() =~= old_origin);
                assert forall|a: int, b: int| 0 <= a < nodes@.len() && 0 <= b < nodes@.len() && a != b
                    implies #[trigger] nodes@[a].pid != #[trigger] nodes@[b].pid by {
                    if a < before.len() && b < before.len() {
                        assert(nodes@[a] == before[a] && nodes@[b] == before[b]);
                    } else if a < before.len() {
                        assert(nodes@[a] == before[a]);
                    } else {
                        assert(nodes@[b] == before[b]);
                    }
                }
                assert forall|n: int| 0 <= n < nodes@.len() implies 0 <= #[trigger] origin[n] < i + 1 && kept_record(records@, uid, origin[n])
                    && node_of(nodes@[n], records@[origin[n]]) by {
                    if n < before.len() {
                        assert(nodes@[n] == before[n]);
                    }
                }
                assert forall|k: int| 0 <= k < i + 1 && #[trigger] kept_record(records@, uid, k) implies exists|n: int| 0 <= n < nodes@.len() && origin[n] == k by {
                    if k == i {
                        assert(origin[nodes@.len() - 1] == k);
                    } else {
                        let n = choose|n: int| 0 <= n < old_origin.len() && old_origin[n] == k;
                        assert(origin[n] == old_origin[n]);
                    }
                }
            }
        } else {
            proof {
                assert forall|k: int| 0 <= k < i + 1 && #[trigger] kept_record(records@, uid, k) implies exists|n: int| 0 <= n < nodes@.len() && origin[n] == k by {
                    if k == i {
                        if records@[k].uid == uid {
                            let j = choose|j: int| i + 1 <= j < records.len() && records@[j].uid == uid && #[trigger] records@[j].pid == records@[k].pid;
                            assert(records@[j].pid != records@[k].pid);
                        }
                    }
                }
            }
        }
        i = i + 1;
    }
    proof {
        assert forall|n: int| 0 <= n < nodes@.len() implies from_kept_record(records@, uid, #[trigger] nodes@[n]) by {
            assert(kept_record(records@, uid, origin[n]) && node_of(nodes@[n], records@[origin[n]]));
        }
        assert forall|k: int| #[trigger] kept_record(records@, uid, k) implies has_node_of(nodes@, records@[k]) by {
            let n = choose|n: int| 0 <= n < nodes@.len() && origin[n] == k;
            assert(node_of(nodes@[n], records@[origin[n]]));
        }
    }
    nodes
}

proof fn lemma_dashes_then(k: nat, w: Seq<char>)
    requires
        w.len() > 0,
        w[0] != '-',
    ensures
        leading_dashes(Seq::new(k, |i: int| '-') + w) == k,
        (Seq::new(k, |i: int| '-') + w).skip(k as int) == w,
    decreases k,
{
    let s = Seq::new(k, |i: int| '-') + w;
    if k > 0 {
        assert(s.drop_first() =~= Seq::new((k - 1) as nat, |i: int| '-') + w);
        lemma_dashes_then((k - 1) as nat, w);
    } else {
        assert(s =~= w);
    }
    assert(s.skip(k as int) =~= w);
}

/// The shells at their prompt are idle: `sh`, `bash`, `dash`, `fish`, `ksh`,
/// `nu`, `tcsh`, `xonsh` and `zsh`, with any number of login dashes before
/// the name, whose arguments after the first are all options (empty, or
/// starting with `-`) other than `-c` and `--command`.
pub proof fn lemma_known_shells_idle(dashes: nat, shell: Seq<char>, args: Seq<Seq<char>>)
    requires
        shell == seq!['s', 'h'] || shell == seq!['b', 'a', 's', 'h'] || shell == seq!['d', 'a', 's', 'h']
            || shell == seq!['f', 'i', 's', 'h'] || shell == seq!['k', 's', 'h'] || shell == seq!['n', 'u']
            || shell == seq!['t', 'c', 's', 'h'] || shell == seq!['x', 'o', 'n', 's', 'h'] || shell == seq!['z', 's', 'h'],
        forall|i: int| 1 <= i < args.len() ==> (#[trigger] args[i]).len() == 0 || (args[i][0] == '-'
            && args[i] != seq!['-', 'c'] && args[i] != seq!['-', '-', 'c', 'o', 'm', 'm', 'a', 'n', 'd']),
    ensures
        spec_is_idle_shell(Seq::new(dashes, |i: int| '-') + shell, args),
{
    lemma_dashes_then(dashes, shell);
}

/// A shell that was given a command is not idle: an argument after the
/// first that is `-c`, `--command`, or an operand (non-empty, not starting
/// with `-`) makes it run something.
pub proof fn lemma_commanded_shell_not_idle(name: Seq<char>, args: Seq<Seq<char>>, i: int)
    requires
        1 <= i < args.len(),
        args[i] == seq!['-', 'c'] || args[i] == seq!['-', '-', 'c', 'o', 'm', 'm', 'a', 'n', 'd']
            || (args[i].len() > 0 && args[i][0] != '-'),
    ensures
        !spec_is_idle_shell(name, args),
{
}

/// Only shells are idle: a name that is none of the shells, after its login
/// dashes, is never an idle shell.
pub proof fn lemma_only_shells_idle(name: Seq<char>, args: Seq<Seq<char>>)
    requires
        ({
            let base = name.skip(leading_dashes(name) as int);
            base != seq!['s', 'h'] && base != seq!['b', 'a', 's', 'h'] && base != seq!['d', 'a', 's', 'h']
                && base != seq!['f', 'i', 's', 'h'] && base != seq!['k', 's', 'h'] && base != seq!['n', 'u']
                && base != seq!['t', 'c', 's', 'h'] && base != seq!['x', 'o', 'n', 's', 'h'] && base != seq!['z', 's', 'h']
        }),
    ensures
        !spec_is_idle_shell(name, args),
{
}

/// A foreground group's root roots a job exactly when the group does not
/// hold the monitor itself, the root is not an idle shell, and it is not
/// named `sudo`, `doas` or `login`.
pub proof fn lemma_job_roots(nodes: Seq<Node>, self_pid: i32, idle: Seq<i32>, r: int)
    requires
        is_group_root(nodes, r),
    ensures
        is_job_root(nodes, self_pid, idle, r) <==> ({
            let n = nodes[r];
            &&& !group_has(nodes, n.tdev, n.tpgid, self_pid)
            &&& !idle.contains(n.pid)
            &&& n.name@ != seq!['s', 'u', 'd', 'o']
            &&& n.name@ != seq!['d', 'o', 'a', 's']
            &&& n.name@ != seq!['l', 'o', 'g', 'i', 'n']
        }),
{
}

/// Only the foreground group of a terminal can form a job: a job's root
/// has a controlling terminal and leads its terminal's foreground group.
pub proof fn lemma_job_root_in_foreground(nodes: Seq<Node>, self_pid: i32, idle: Seq<i32>, r: int)
    requires
        is_job_root(nodes, self_pid, idle, r),
    ensures
        0 <= r < nodes.len(),
        nodes[r].tdev != 0,
        nodes[r].tdev != u32::MAX,
        nodes[r].tpgid > 0,
        nodes[r].pgid == nodes[r].tpgid,
{
}

/// A job's root is the group's oldest process entered from outside: no
/// other process of its group whose parent is outside the group started
/// before it (by start second, then microsecond, with the lower PID first
/// on a tie). When every process's parent is inside the group, the root has
/// the group's lowest PID.
pub proof fn lemma_group_root_oldest(nodes: Seq<Node>, r: int, j: int)
    requires
        is_group_root(nodes, r),
        0 <= j < nodes.len(),
        in_group(nodes[j], nodes[r].tdev, nodes[r].tpgid),
    ensures
        ({
            let a = nodes[r];
            let b = nodes[j];
            &&& has_top(nodes, a.tdev, a.tpgid) && is_top(nodes, j) ==> (a.start_sec < b.start_sec
                || (a.start_sec == b.start_sec && a.start_usec < b.start_usec)
                || (a.start_sec == b.start_sec && a.start_usec == b.start_usec && a.pid <= b.pid))
            &&& has_top(nodes, a.tdev, a.tpgid) ==> is_top(nodes, r)
            &&& !has_top(nodes, a.tdev, a.tpgid) ==> a.pid <= b.pid
        }),
{
}

/// A process that belongs directly to a job is aggregated into that job
/// itself: the walk up its parents stops at once.
pub proof fn lemma_direct_member_anchors_itself(nodes: Seq<Node>, self_pid: i32, idle: Seq<i32>, q: i32)
    requires
        is_direct(nodes, self_pid, idle, q),
    ensures
        anchor(nodes, self_pid, idle, q, 0) == Some(q),
{
}

/// The walk up the parents never goes past launchd: a process outside
/// every job whose parent is PID 1 or below belongs to no job.
pub proof fn lemma_orphan_outside_jobs(nodes: Seq<Node>, self_pid: i32, idle: Seq<i32>, q: i32)
    requires
        !is_direct(nodes, self_pid, idle, q),
        present(nodes, q),
        parent_of(nodes, q) <= 1,
    ensures
        anchor(nodes, self_pid, idle, q, 0) is None,
{
}

} // verus!
