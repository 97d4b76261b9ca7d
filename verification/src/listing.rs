//! The job table: which jobs the filter keeps, and in which order.

use vstd::prelude::*;
use crate::model::SortKey;
use crate::text::{chars_of, contains_chars, decimal, lowercase, occurs_in, push_decimal, push_signed, push_str, signed_decimal, to_lowercase};

verus! {

/// What the job table reads of a job. Floating-point measurements are
/// carried as integers that order exactly as `f64::total_cmp` orders them.
#[derive(Clone, Debug)]
pub struct ProcessKeys {
    pub pid: i32,
    pub name: String,
    pub command: String,
    pub cpu_rank: i64,
    pub gpu_rank: i64,
    pub memory_bytes: u64,
    /// Start time in whole seconds since the epoch, when known.
    pub start_secs: Option<u64>,
}

/// The filter keeps a job when it is empty or, ignoring case, occurs in the
/// job's name, in its command line, or in its PID.
pub open spec fn filter_keeps(needle: Seq<char>, p: ProcessKeys) -> bool {
    ||| needle.len() == 0
    ||| occurs_in(needle, lowercase(p.name@))
    ||| occurs_in(needle, lowercase(p.command@))
    ||| occurs_in(needle, signed_decimal(p.pid as int))
}

/// `a` may stand before `b` in the table sorted by `key`: larger GPU time,
/// CPU share and memory first, smaller PID first.
pub open spec fn sorts_before(a: ProcessKeys, b: ProcessKeys, key: SortKey) -> bool {
    match key {
        SortKey::Pid => a.pid <= b.pid,
        SortKey::Gpu => {
            ||| a.gpu_rank > b.gpu_rank
            ||| (a.gpu_rank == b.gpu_rank && a.cpu_rank > b.cpu_rank)
            ||| (a.gpu_rank == b.gpu_rank && a.cpu_rank == b.cpu_rank && a.memory_bytes > b.memory_bytes)
            ||| (a.gpu_rank == b.gpu_rank && a.cpu_rank == b.cpu_rank && a.memory_bytes == b.memory_bytes && a.pid <= b.pid)
        },
        SortKey::Cpu => {
            ||| a.cpu_rank > b.cpu_rank
            ||| (a.cpu_rank == b.cpu_rank && a.memory_bytes > b.memory_bytes)
            ||| (a.cpu_rank == b.cpu_rank && a.memory_bytes == b.memory_bytes && a.pid <= b.pid)
        },
        SortKey::Memory => {
            ||| a.memory_bytes > b.memory_bytes
            ||| (a.memory_bytes == b.memory_bytes && a.cpu_rank > b.cpu_rank)
            ||| (a.memory_bytes == b.memory_bytes && a.cpu_rank == b.cpu_rank && a.pid <= b.pid)
        },
    }
}

fn before(a: &ProcessKeys, b: &ProcessKeys, key: SortKey) -> (r: bool)
    ensures
        r == sorts_before(*a, *b, key),
{
    match key {
        SortKey::Pid => a.pid <= b.pid,
        SortKey::Gpu => {
            a.gpu_rank > b.gpu_rank || (a.gpu_rank == b.gpu_rank && a.cpu_rank > b.cpu_rank)
                || (a.gpu_rank == b.gpu_rank && a.cpu_rank == b.cpu_rank && a.memory_bytes > b.memory_bytes)
                || (a.gpu_rank == b.gpu_rank && a.cpu_rank == b.cpu_rank && a.memory_bytes == b.memory_bytes && a.pid <= b.pid)
        },
        SortKey::Cpu => {
            a.cpu_rank > b.cpu_rank || (a.cpu_rank == b.cpu_rank && a.memory_bytes > b.memory_bytes)
                || (a.cpu_rank == b.cpu_rank && a.memory_bytes == b.memory_bytes && a.pid <= b.pid)
        },
        SortKey::Memory => {
            a.memory_bytes > b.memory_bytes || (a.memory_bytes == b.memory_bytes && a.cpu_rank > b.cpu_rank)
                || (a.memory_bytes == b.memory_bytes && a.cpu_rank == b.cpu_rank && a.pid <= b.pid)
        },
    }
}

/// Row `i` comes before row `j`: it sorts first, or the two tie and `i` was
/// listed first.
pub open spec fn ranks_before(rows: Seq<ProcessKeys>, key: SortKey, i: usize, j: usize) -> bool {
    &&& sorts_before(rows[i as int], rows[j as int], key)
    &&& (!sorts_before(rows[j as int], rows[i as int], key) || i < j)
}

/// The indices in `order` list rows in table order.
pub open spec fn in_table_order(rows: Seq<ProcessKeys>, order: Seq<usize>, key: SortKey) -> bool {
    forall|a: int, b: int|
        0 <= a < b < order.len() ==> ranks_before(rows, key, #[trigger] order[a], #[trigger] order[b])
}

/// `order` is the job table for `needle`: every row the filter keeps, once,
/// in table order.
pub open spec fn is_table(rows: Seq<ProcessKeys>, needle: Seq<char>, key: SortKey, order: Seq<usize>) -> bool {
    &&& order.no_duplicates()
    &&& forall|i: usize| #[trigger] order.contains(i) <==> (i < rows.len() && filter_keeps(needle, rows[i as int]))
    &&& in_table_order(rows, order, key)
}

/// The job table for `needle` (there is exactly one, see `lemma_table_unique`).
pub open spec fn table(rows: Seq<ProcessKeys>, needle: Seq<char>, key: SortKey) -> Seq<usize> {
    choose|order: Seq<usize>| is_table(rows, needle, key, order)
}

proof fn lemma_ranks(rows: Seq<ProcessKeys>, key: SortKey, i: usize, j: usize, k: usize)
    requires
        i < rows.len(),
        j < rows.len(),
        k < rows.len(),
    ensures
        ranks_before(rows, key, i, j) && ranks_before(rows, key, j, k) ==> ranks_before(rows, key, i, k),
        i != j ==> ranks_before(rows, key, i, j) || ranks_before(rows, key, j, i),
        !(ranks_before(rows, key, i, j) && ranks_before(rows, key, j, i)),
{
}

/// There is one job table: two orders that both are the table are equal.
pub proof fn lemma_table_unique(rows: Seq<ProcessKeys>, needle: Seq<char>, key: SortKey, o1: Seq<usize>, o2: Seq<usize>)
    requires
        is_table(rows, needle, key, o1),
        is_table(rows, needle, key, o2),
    ensures
        o1 == o2,
    decreases o1.len(),
{
    lemma_same_elements_sorted(rows, key, o1, o2);
}

proof fn lemma_same_elements_sorted(rows: Seq<ProcessKeys>, key: SortKey, o1: Seq<usize>, o2: Seq<usize>)
    requires
        o1.no_duplicates(),
        o2.no_duplicates(),
        forall|i: usize| #[trigger] o1.contains(i) ==> i < rows.len(),
        forall|i: usize| #[trigger] o1.contains(i) <==> o2.contains(i),
        in_table_order(rows, o1, key),
        in_table_order(rows, o2, key),
    ensures
        o1 == o2,
    decreases o1.len(),
{
    if o1.len() == 0 {
        if o2.len() > 0 {
            assert(o2.contains(o2[0]));
            assert(o1.contains(o2[0]));
        }
        assert(o1 =~= o2);
    } else {
        assert(o1.contains(o1[0]));
        assert(o2.len() > 0);
        assert(o2.contains(o2[0]));
        let m1 = o1[0];
        let m2 = o2[0];
        assert(o1.contains(m2));
        if m1 != m2 {
            let b1 = choose|b: int| 0 <= b < o1.len() && o1[b] == m2;
            let b2 = choose|b: int| 0 <= b < o2.len() && o2[b] == m1;
            assert(b1 != 0);
            assert(b2 != 0);
            assert(ranks_before(rows, key, o1[0], o1[b1]));
            assert(ranks_before(rows, key, o2[0], o2[b2]));
            lemma_ranks(rows, key, m1, m2, m2);
        }
        let t1 = o1.drop_first();
        let t2 = o2.drop_first();
        assert forall|i: usize| #[trigger] t1.contains(i) <==> t2.contains(i) by {
            if t1.contains(i) {
                let b = choose|b: int| 0 <= b < t1.len() && t1[b] == i;
                assert(o1[b + 1] == i);
                assert(o1.contains(i));
                assert(i != m1);
                assert(o2.contains(i));
                assert(m1 == m2);
                let c = choose|c: int| 0 <= c < o2.len() && o2[c] == i;
                assert(c != 0);
                assert(t2[c - 1] == i);
            }
            if t2.contains(i) {
                let b = choose|b: int| 0 <= b < t2.len() && t2[b] == i;
                assert(o2[b + 1] == i);
                assert(o2.contains(i));
                assert(i != m2);
                assert(o1.contains(i));
                assert(m1 == m2);
                let c = choose|c: int| 0 <= c < o1.len() && o1[c] == i;
                assert(c != 0);
                assert(t1[c - 1] == i);
            }
        }
        assert forall|i: usize| #[trigger] t1.contains(i) implies i < rows.len() by {
            let b = choose|b: int| 0 <= b < t1.len() && t1[b] == i;
            assert(o1[b + 1] == i);
            assert(o1.contains(i));
        }
        assert(in_table_order(rows, t1, key)) by {
            assert forall|a: int, b: int| 0 <= a < b < t1.len() implies ranks_before(rows, key, #[trigger] t1[a], #[trigger] t1[b]) by {
                assert(t1[a] == o1[a + 1] && t1[b] == o1[b + 1]);
            }
        }
        assert(in_table_order(rows, t2, key)) by {
            assert forall|a: int, b: int| 0 <= a < b < t2.len() implies ranks_before(rows, key, #[trigger] t2[a], #[trigger] t2[b]) by {
                assert(t2[a] == o2[a + 1] && t2[b] == o2[b + 1]);
            }
        }
        assert(t1.no_duplicates()) by {
            assert forall|a: int, b: int| 0 <= a < b < t1.len() implies t1[a] != t1[b] by {
                assert(t1[a] == o1[a + 1] && t1[b] == o1[b + 1]);
            }
        }
        assert(t2.no_duplicates()) by {
            assert forall|a: int, b: int| 0 <= a < b < t2.len() implies t2[a] != t2[b] by {
                assert(t2[a] == o2[a + 1] && t2[b] == o2[b + 1]);
            }
        }
        lemma_same_elements_sorted(rows, key, t1, t2);
        assert(o1 =~= o2) by {
            assert forall|k: int| 0 <= k < o1.len() implies o1[k] == o2[k] by {
                if k > 0 {
                    assert(o1[k] == t1[k - 1]);
                    assert(o2[k] == t2[k - 1]);
                }
            }
        }
    }
}

fn keeps(needle: &Vec<char>, p: &ProcessKeys) -> (r: bool)
    ensures
        r == filter_keeps(needle@, *p),
{
    if needle.len() == 0 {
        return true;
    }
    let name = to_lowercase(p.name.as_str());
    if contains_chars(&chars_of(name.as_str()), needle) {
        return true;
    }
    let command = to_lowercase(p.command.as_str());
    if contains_chars(&chars_of(command.as_str()), needle) {
        return true;
    }
    let mut digits = String::new();
    push_signed(&mut digits, p.pid as i64);
    assert(digits@ == signed_decimal(p.pid as int));
    contains_chars(&chars_of(digits.as_str()), needle)
}

fn insert_position(processes: &[ProcessKeys], order: &Vec<usize>, i: usize, key: SortKey) -> (pos: usize)
    requires
        i < processes.len(),
        forall|j: usize| #[trigger] order@.contains(j) ==> j < i,
    ensures
        pos <= order.len(),
        forall|k: int| 0 <= k < pos ==> ranks_before(processes@, key, #[trigger] order@[k], i),
        pos < order.len() ==> !sorts_before(processes@[order@[pos as int] as int], processes@[i as int], key),
{
    let mut pos: usize = 0;
    while pos < order.len()
        invariant
            i < processes.len(),
            pos <= order.len(),
            forall|j: usize| #[trigger] order@.contains(j) ==> j < i,
            forall|k: int| 0 <= k < pos ==> ranks_before(processes@, key, #[trigger] order@[k], i),
        decreases order.len() - pos,
    {
        assert(order@.contains(order@[pos as int]));
        if !before(&processes[order[pos]], &processes[i], key) {
            return pos;
        }
        pos = pos + 1;
    }
    pos
}

/// The job table for an already lowercased `needle`: the jobs it keeps, as
/// indices into `processes`, each once and sorted by `key`; jobs that tie
/// keep their listed order.
pub fn table_for(processes: &[ProcessKeys], needle: &Vec<char>, key: SortKey) -> (order: Vec<usize>)
    ensures
        is_table(processes@, needle@, key, order@),
        order@ == table(processes@, needle@, key),
{
    let mut order: Vec<usize> = Vec::new();
    for i in 0..processes.len()
        invariant
            order@.no_duplicates(),
            forall|j: usize| #[trigger] order@.contains(j) <==> (j < i && filter_keeps(needle@, processes@[j as int])),
            in_table_order(processes@, order@, key),
    {
        if keeps(&needle, &processes[i]) {
            let pos = insert_position(processes, &order, i, key);
            let ghost old_order = order@;
            order.insert(pos, i);
            proof {
                assert(order@ == old_order.insert(pos as int, i));
                assert forall|j: usize| #[trigger] order@.contains(j) <==> (j < i + 1 && filter_keeps(needle@, processes@[j as int])) by {
                    if order@.contains(j) {
                        let m = choose|m: int| 0 <= m < order@.len() && order@[m] == j;
                        if m < pos {
                            assert(old_order[m] == j);
                            assert(old_order.contains(j));
                        } else if m > pos {
                            assert(old_order[m - 1] == j);
                            assert(old_order.contains(j));
                        }
                    }
                    if j < i && filter_keeps(needle@, processes@[j as int]) {
                        assert(old_order.contains(j));
                        let m = choose|m: int| 0 <= m < old_order.len() && old_order[m] == j;
                        if m < pos {
                            assert(order@[m] == j);
                        } else {
                            assert(order@[m + 1] == j);
                        }
                    }
                    if j == i {
                        assert(order@[pos as int] == i);
                    }
                }
                assert(order@.no_duplicates()) by {
                    assert forall|a: int, b: int| 0 <= a < b < order@.len() implies order@[a] != order@[b] by {
                        if a == pos {
                            assert(old_order.contains(order@[b]));
                        } else if b == pos {
                            assert(old_order.contains(order@[a]));
                        }
                    }
                }
                assert forall|a: int, b: int| 0 <= a < b < order@.len() implies ranks_before(
                    processes@, key, #[trigger] order@[a], #[trigger] order@[b]) by {
                    if a == pos && b > pos {
                        let e = old_order[pos as int];
                        let f = old_order[b - 1];
                        assert(old_order.contains(e));
                        assert(old_order.contains(f));
                        assert(!sorts_before(processes@[e as int], processes@[i as int], key));
                        assert(ranks_before(processes@, key, i, e));
                        if b - 1 > pos {
                            assert(ranks_before(processes@, key, e, f));
                            lemma_ranks(processes@, key, i, e, f);
                        }
                    } else if b == pos && a < pos {
                        assert(order@[a] == old_order[a]);
                    } else if a < pos && b > pos {
                        assert(order@[a] == old_order[a]);
                        assert(order@[b] == old_order[b - 1]);
                    } else if a > pos {
                        assert(order@[a] == old_order[a - 1]);
                        assert(order@[b] == old_order[b - 1]);
                    }
                }
            }
        }
    }
    proof {
        let t = table(processes@, needle@, key);
        assert(is_table(processes@, needle@, key, order@));
        lemma_table_unique(processes@, needle@, key, order@, t);
    }
    order
}

/// The jobs that `filter` keeps, ignoring case, as indices into
/// `processes`, each once and sorted by `key` (see `table_for`).
pub fn visible(processes: &[ProcessKeys], filter: &str, key: SortKey) -> (order: Vec<usize>)
    ensures
        is_table(processes@, lowercase(filter@), key, order@),
        order@ == table(processes@, lowercase(filter@), key),
{
    let lowered = to_lowercase(filter);
    let needle = chars_of(lowered.as_str());
    table_for(processes, &needle, key)
}

/// How the title names the table's order.
pub open spec fn sort_label(key: SortKey) -> Seq<char> {
    match key {
        SortKey::Cpu => "CPU▼"@,
        SortKey::Memory => "MEM▼"@,
        SortKey::Gpu => "GPU▼"@,
        SortKey::Pid => "PID▲"@,
    }
}

/// The title of the job table: the number of jobs shown, the order, the
/// filter when there is one, and a note when GPU times are unavailable; a
/// shorter form below 60 columns.
pub open spec fn title_text(count: nat, width: u16, key: SortKey, filter: Seq<char>, gpu_unavailable: bool) -> Seq<char> {
    let filter_part = if filter.len() == 0 { Seq::empty() } else { " filter:"@ + filter };
    let gpu_part = if gpu_unavailable { " GPU:N/A"@ } else { Seq::empty() };
    if width >= 60 {
        " ACTIVE USER JOBS "@ + decimal(count) + "  sort:"@ + sort_label(key) + filter_part + gpu_part + " "@
    } else {
        " JOBS "@ + decimal(count) + " "@ + sort_label(key) + filter_part + gpu_part + " "@
    }
}

fn push_sort_label(s: &mut String, key: SortKey)
    ensures
        final(s)@ == old(s)@ + sort_label(key),
{
    match key {
        SortKey::Cpu => push_str(s, "CPU▼"),
        SortKey::Memory => push_str(s, "MEM▼"),
        SortKey::Gpu => push_str(s, "GPU▼"),
        SortKey::Pid => push_str(s, "PID▲"),
    }
}

/// The title of the job table (see `title_text`).
pub fn panel_title(count: usize, width: u16, key: SortKey, filter: &str, gpu_unavailable: bool) -> (t: String)
    ensures
        t@ == title_text(count as nat, width, key, filter@, gpu_unavailable),
{
    let mut t = String::new();
    if width >= 60 {
        push_str(&mut t, " ACTIVE USER JOBS ");
        push_decimal(&mut t, count as u64);
        push_str(&mut t, "  sort:");
    } else {
        push_str(&mut t, " JOBS ");
        push_decimal(&mut t, count as u64);
        push_str(&mut t, " ");
    }
    push_sort_label(&mut t, key);
    let ghost before_filter = t@;
    if !filter.is_empty() {
        push_str(&mut t, " filter:");
        push_str(&mut t, filter);
    }
    let ghost before_gpu = t@;
    if gpu_unavailable {
        push_str(&mut t, " GPU:N/A");
    }
    push_str(&mut t, " ");
    proof {
        let filter_part = if filter@.len() == 0 { Seq::<char>::empty() } else { " filter:"@ + filter@ };
        let gpu_part = if gpu_unavailable { " GPU:N/A"@ } else { Seq::<char>::empty() };
        assert(before_gpu =~= before_filter + filter_part);
        assert(t@ =~= before_filter + filter_part + gpu_part + " "@);
    }
    t
}

/// The filter keeps a job when the lowercased filter is empty or occurs,
/// as a run of characters, in the job's lowercased name, in its lowercased
/// command line or in its PID written in decimal; it keeps no other job.
pub proof fn lemma_filter_matches(rows: Seq<ProcessKeys>, needle: Seq<char>, key: SortKey, order: Seq<usize>, i: usize)
    requires
        is_table(rows, needle, key, order),
        i < rows.len(),
    ensures
        order.contains(i) <==> {
            ||| needle.len() == 0
            ||| exists|at: int| 0 <= at && at + needle.len() <= lowercase(rows[i as int].name@).len()
                && #[trigger] lowercase(rows[i as int].name@).subrange(at, at + needle.len()) == needle
            ||| exists|at: int| 0 <= at && at + needle.len() <= lowercase(rows[i as int].command@).len()
                && #[trigger] lowercase(rows[i as int].command@).subrange(at, at + needle.len()) == needle
            ||| exists|at: int| 0 <= at && at + needle.len() <= signed_decimal(rows[i as int].pid as int).len()
                && #[trigger] signed_decimal(rows[i as int].pid as int).subrange(at, at + needle.len()) == needle
        },
{
    assert(order.contains(i) <==> filter_keeps(needle, rows[i as int]));
}

/// The table is in the order of its key: by PID ascending; by CPU share
/// descending, then memory descending, then PID; by memory descending, then
/// CPU share, then PID; by GPU time descending, then CPU share, then memory,
/// then PID.
pub proof fn lemma_table_sorted(rows: Seq<ProcessKeys>, needle: Seq<char>, key: SortKey, order: Seq<usize>, a: int, b: int)
    requires
        is_table(rows, needle, key, order),
        0 <= a < b < order.len(),
    ensures
        ({
            let x = rows[order[a] as int];
            let y = rows[order[b] as int];
            match key {
                SortKey::Pid => x.pid <= y.pid,
                SortKey::Cpu => x.cpu_rank > y.cpu_rank || (x.cpu_rank == y.cpu_rank && (x.memory_bytes > y.memory_bytes
                    || (x.memory_bytes == y.memory_bytes && x.pid <= y.pid))),
                SortKey::Memory => x.memory_bytes > y.memory_bytes || (x.memory_bytes == y.memory_bytes && (x.cpu_rank > y.cpu_rank
                    || (x.cpu_rank == y.cpu_rank && x.pid <= y.pid))),
                SortKey::Gpu => x.gpu_rank > y.gpu_rank || (x.gpu_rank == y.gpu_rank && (x.cpu_rank > y.cpu_rank
                    || (x.cpu_rank == y.cpu_rank && (x.memory_bytes > y.memory_bytes
                    || (x.memory_bytes == y.memory_bytes && x.pid <= y.pid))))),
            }
        }),
{
    assert(ranks_before(rows, key, order[a], order[b]));
}

} // verus!
