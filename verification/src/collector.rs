//! Bookkeeping between two process samples: the CPU time each job used
//! since the previous sample, the memory and threads of each job, and which
//! quiet jobs stay listed for a few seconds after their last activity.
//!
//! Reading the kernel's figures and turning CPU time into percentages is
//! left to the caller; everything decided from those figures is here.

use std::collections::HashMap;
use vstd::prelude::*;
use crate::process::JobKey;
use crate::text::{push_char, push_str};

verus! {

broadcast use vstd::std_specs::hash::group_hash_axioms;

/// How long a quiet job stays listed after it was last active, in
/// nanoseconds.
pub const RECENT_ACTIVITY_NS: u64 = 3_000_000_000;

/// The default argument buffer when `kern.argmax` cannot be read.
pub const DEFAULT_ARGUMENT_BUFFER: i32 = 262_144;

/// The smallest argument buffer the collector uses.
pub const MINIMUM_ARGUMENT_BUFFER: i32 = 4096;

/// The kernel's resource usage of a process, as far as the monitor reads it.
#[derive(Clone, Copy, Debug)]
pub struct RusageFigures {
    pub user_time: u64,
    pub system_time: u64,
    pub physical_footprint: u64,
}

/// The Mach task figures of a process, as far as the monitor reads them.
#[derive(Clone, Copy, Debug)]
pub struct TaskFigures {
    pub total_user: u64,
    pub total_system: u64,
    pub resident_size: u64,
    pub thread_count: i32,
}

/// One member of a job as sampled now: the process's identity (PID and
/// start time) and the figures that could be read for it.
#[derive(Clone, Copy, Debug)]
pub struct MemberSample {
    pub pid: i32,
    pub start_sec: u64,
    pub start_usec: u64,
    pub rusage: Option<RusageFigures>,
    pub task: Option<TaskFigures>,
}

/// The CPU time of a process when it was last sampled, with the start time
/// that tells it apart from a later process with the same PID.
#[derive(Clone, Copy, Debug)]
pub struct CpuMark {
    pub start_sec: u64,
    pub start_usec: u64,
    pub cpu_ns: u64,
}

/// What a job adds up to in one sample: the CPU time its members used since
/// the previous sample, their memory and their threads.
#[derive(Clone, Copy, Debug, PartialEq, Eq, Structural)]
pub struct JobTotals {
    pub cpu_ns: u64,
    pub memory_bytes: u64,
    pub threads: u32,
}

/// A non-negative amount, saturated at `u64::MAX`.
pub open spec fn cap_u64(x: int) -> u64 {
    if x < u64::MAX { x as u64 } else { u64::MAX }
}

/// A non-negative amount, saturated at `u32::MAX`.
pub open spec fn cap_u32(x: int) -> u32 {
    if x < u32::MAX { x as u32 } else { u32::MAX }
}

/// The CPU time of a member: user plus system time from its resource usage
/// when that could be read, else from its task figures.
pub open spec fn member_cpu(m: MemberSample) -> Option<u64> {
    match m.rusage {
        Some(u) => Some(cap_u64(u.user_time + u.system_time)),
        None => match m.task {
            Some(t) => Some(cap_u64(t.total_user + t.total_system)),
            None => None,
        },
    }
}

/// The memory of a member: its physical footprint when that is known and
/// positive, else its resident size, else nothing.
pub open spec fn member_memory(m: MemberSample) -> u64 {
    match m.rusage {
        Some(u) if u.physical_footprint > 0 => u.physical_footprint,
        _ => match m.task {
            Some(t) => t.resident_size,
            None => 0,
        },
    }
}

/// The threads of a member (a negative count counts as none).
pub open spec fn member_threads(m: MemberSample) -> int {
    match m.task {
        Some(t) => if t.thread_count > 0 { t.thread_count as int } else { 0 },
        None => 0,
    }
}

/// The CPU time a member used since the previous sample: counted only when
/// the previous sample saw the same process (same PID and start time), and
/// never negative.
pub open spec fn member_used(previous: Map<i32, CpuMark>, m: MemberSample) -> int {
    match member_cpu(m) {
        Some(cpu) => if previous.contains_key(m.pid) && previous[m.pid].start_sec == m.start_sec
            && previous[m.pid].start_usec == m.start_usec && cpu >= previous[m.pid].cpu_ns {
            cpu - previous[m.pid].cpu_ns
        } else {
            0
        },
        None => 0,
    }
}

pub open spec fn sum_used(previous: Map<i32, CpuMark>, ms: Seq<MemberSample>) -> int
    decreases ms.len(),
{
    if ms.len() == 0 { 0 } else { sum_used(previous, ms.drop_last()) + member_used(previous, ms.last()) }
}

pub open spec fn sum_memory(ms: Seq<MemberSample>) -> int
    decreases ms.len(),
{
    if ms.len() == 0 { 0 } else { sum_memory(ms.drop_last()) + member_memory(ms.last()) }
}

pub open spec fn sum_threads(ms: Seq<MemberSample>) -> int
    decreases ms.len(),
{
    if ms.len() == 0 { 0 } else { sum_threads(ms.drop_last()) + member_threads(ms.last()) }
}

/// The totals of a job whose members are `ms`, against the marks of the
/// previous sample.
pub open spec fn job_totals(previous: Map<i32, CpuMark>, ms: Seq<MemberSample>) -> JobTotals {
    JobTotals {
        cpu_ns: cap_u64(sum_used(previous, ms)),
        memory_bytes: cap_u64(sum_memory(ms)),
        threads: cap_u32(sum_threads(ms)),
    }
}

/// `base` with a mark for each member whose CPU time is known, later members
/// replacing earlier ones with the same PID.
pub open spec fn marks_after(base: Map<i32, CpuMark>, ms: Seq<MemberSample>) -> Map<i32, CpuMark>
    decreases ms.len(),
{
    if ms.len() == 0 {
        base
    } else {
        let before = marks_after(base, ms.drop_last());
        let m = ms.last();
        match member_cpu(m) {
            Some(cpu) => before.insert(m.pid, CpuMark { start_sec: m.start_sec, start_usec: m.start_usec, cpu_ns: cpu }),
            None => before,
        }
    }
}

/// The marks left by a whole sample: those of every member of every job.
pub open spec fn marks_of_jobs(jobs: Seq<Vec<MemberSample>>) -> Map<i32, CpuMark>
    decreases jobs.len(),
{
    if jobs.len() == 0 { Map::empty() } else { marks_after(marks_of_jobs(jobs.drop_last()), jobs.last()@) }
}

proof fn lemma_saturating_step(total: int, add: int)
    requires
        total >= 0,
        add >= 0,
        add <= u64::MAX,
    ensures
        cap_u64(total + add) == (if cap_u64(total) + add < u64::MAX { (cap_u64(total) + add) as u64 } else { u64::MAX }),
{
}

fn member_cpu_ns(m: &MemberSample) -> (r: Option<u64>)
    ensures
        r == member_cpu(*m),
{
    match m.rusage {
        Some(u) => Some(u.user_time.saturating_add(u.system_time)),
        None => match m.task {
            Some(t) => Some(t.total_user.saturating_add(t.total_system)),
            None => None,
        },
    }
}

fn member_memory_bytes(m: &MemberSample) -> (r: u64)
    ensures
        r == member_memory(*m),
{
    match m.rusage {
        Some(u) if u.physical_footprint > 0 => u.physical_footprint,
        _ => match m.task {
            Some(t) => t.resident_size,
            None => 0,
        },
    }
}

/// Adds up one job against the previous marks and records its members'
/// marks in `next`.
fn account_job(previous: &HashMap<i32, CpuMark>, members: &Vec<MemberSample>, next: &mut HashMap<i32, CpuMark>) -> (totals: JobTotals)
    ensures
        totals == job_totals(previous@, members@),
        final(next)@ == marks_after(old(next)@, members@),
{
    let ghost start = next@;
    let mut cpu: u64 = 0;
    let mut memory: u64 = 0;
    let mut threads: u32 = 0;
    let mut i: usize = 0;
    while i < members.len()
        invariant
            i <= members.len(),
            sum_used(previous@, members@.take(i as int)) >= 0,
            sum_memory(members@.take(i as int)) >= 0,
            sum_threads(members@.take(i as int)) >= 0,
            cpu == cap_u64(sum_used(previous@, members@.take(i as int))),
            memory == cap_u64(sum_memory(members@.take(i as int))),
            threads == cap_u32(sum_threads(members@.take(i as int))),
            next@ == marks_after(start, members@.take(i as int)),
        decreases members.len() - i,
    {
        let m = members[i];
        let ghost prefix = members@.take(i as int);
        let ghost grown = members@.take(i + 1);
        assert(grown.drop_last() =~= prefix);
        assert(grown.last() == m);
        let used: u64 = match member_cpu_ns(&m) {
            Some(now_ns) => {
                let used = match previous.get(&m.pid) {
                    Some(mark) => {
                        if mark.start_sec == m.start_sec && mark.start_usec == m.start_usec && now_ns >= mark.cpu_ns {
                            now_ns - mark.cpu_ns
                        } else {
                            0
                        }
                    },
                    None => 0,
                };
                next.insert(m.pid, CpuMark { start_sec: m.start_sec, start_usec: m.start_usec, cpu_ns: now_ns });
                used
            },
            None => 0,
        };
        assert(used == member_used(previous@, m));
        proof {
            lemma_saturating_step(sum_used(previous@, prefix), used as int);
            lemma_saturating_step(sum_memory(prefix), member_memory(m) as int);
        }
        cpu = cpu.saturating_add(used);
        memory = memory.saturating_add(member_memory_bytes(&m));
        let t: u32 = match m.task {
            Some(task) => if task.thread_count > 0 { task.thread_count as u32 } else { 0 },
            None => 0,
        };
        threads = threads.saturating_add(t);
        i = i + 1;
    }
    assert(members@.take(members@.len() as int) =~= members@);
    JobTotals { cpu_ns: cpu, memory_bytes: memory, threads }
}


/// The argument buffer the collector reads command lines with: `kern.argmax`
/// when it could be read, never below the minimum.
pub open spec fn argument_buffer(argmax: Option<i32>) -> usize {
    let v = match argmax {
        Some(v) => v,
        None => DEFAULT_ARGUMENT_BUFFER,
    };
    if v < MINIMUM_ARGUMENT_BUFFER { MINIMUM_ARGUMENT_BUFFER as usize } else { v as usize }
}

/// Whether something last seen at `last` is still recent at `now` (a time
/// after `now` counts as just now).
pub open spec fn within_recent(last: u64, now: u64) -> bool {
    (if now >= last { now - last } else { 0 }) <= RECENT_ACTIVITY_NS
}

/// The time recorded for `key` in a list of (job, time) entries: that of its
/// last entry.
pub open spec fn last_seen(entries: Seq<(JobKey, u64)>, key: JobKey) -> Option<u64>
    decreases entries.len(),
{
    if entries.len() == 0 {
        None
    } else if entries.last().0 == key {
        Some(entries.last().1)
    } else {
        last_seen(entries.drop_last(), key)
    }
}

/// An entry for each active job, stamped `now`, in order.
pub open spec fn activity_stamps(activity: Seq<(JobKey, bool)>, now: u64) -> Seq<(JobKey, u64)>
    decreases activity.len(),
{
    if activity.len() == 0 {
        Seq::empty()
    } else {
        let before = activity_stamps(activity.drop_last(), now);
        if activity.last().1 { before.push((activity.last().0, now)) } else { before }
    }
}

/// Whether the `j`-th job of `activity` is listed: it is active now, or the
/// entries recorded so far (the old ones, then the stamps of the active jobs
/// before it) say that it was active recently.
pub open spec fn listed_at(recent: Seq<(JobKey, u64)>, activity: Seq<(JobKey, bool)>, j: int, now: u64) -> bool {
    activity[j].1 || match last_seen(recent + activity_stamps(activity.take(j), now), activity[j].0) {
        Some(last) => within_recent(last, now),
        None => false,
    }
}

/// The job appears in this sample.
pub open spec fn in_sample(activity: Seq<(JobKey, bool)>, key: JobKey) -> bool {
    exists|j: int| 0 <= j < activity.len() && #[trigger] activity[j].0 == key
}

/// What is remembered of `key` after a sample: its latest time, when the job
/// is still in the sample and that time is recent.
pub open spec fn remembered(recent: Seq<(JobKey, u64)>, activity: Seq<(JobKey, bool)>, key: JobKey, now: u64) -> Option<u64> {
    match last_seen(recent + activity_stamps(activity, now), key) {
        Some(last) => if in_sample(activity, key) && within_recent(last, now) { Some(last) } else { None },
        None => None,
    }
}

/// No job has two entries.
pub open spec fn distinct_jobs(entries: Seq<(JobKey, u64)>) -> bool {
    forall|a: int, b: int| 0 <= a < b < entries.len() ==> #[trigger] entries[a].0 != #[trigger] entries[b].0
}

/// Some entry is for `key`.
pub open spec fn has_entry(entries: Seq<(JobKey, u64)>, key: JobKey) -> bool {
    exists|i: int| 0 <= i < entries.len() && #[trigger] entries[i].0 == key
}

proof fn lemma_last_seen_entry(entries: Seq<(JobKey, u64)>, key: JobKey)
    ensures
        last_seen(entries, key) is Some <==> has_entry(entries, key),
    decreases entries.len(),
{
    if entries.len() > 0 {
        let rest = entries.drop_last();
        lemma_last_seen_entry(rest, key);
        if has_entry(rest, key) {
            let i = choose|i: int| 0 <= i < rest.len() && #[trigger] rest[i].0 == key;
            assert(entries[i].0 == key);
        }
        if has_entry(entries, key) && entries.last().0 != key {
            let i = choose|i: int| 0 <= i < entries.len() && #[trigger] entries[i].0 == key;
            assert(rest[i].0 == key);
        }
    }
}

/// Looking a job up in a list: the entries after a point win.
proof fn lemma_last_seen_append(front: Seq<(JobKey, u64)>, back: Seq<(JobKey, u64)>, key: JobKey)
    ensures
        last_seen(front + back, key) == (if has_entry(back, key) { last_seen(back, key) } else { last_seen(front, key) }),
    decreases back.len(),
{
    lemma_last_seen_entry(back, key);
    if back.len() > 0 {
        assert((front + back).drop_last() =~= front + back.drop_last());
        assert((front + back).last() == back.last());
        lemma_last_seen_append(front, back.drop_last(), key);
        lemma_last_seen_entry(back.drop_last(), key);
        if has_entry(back.drop_last(), key) {
            let i = choose|i: int| 0 <= i < back.drop_last().len() && #[trigger] back.drop_last()[i].0 == key;
            assert(back[i].0 == key);
        }
        if has_entry(back, key) && back.last().0 != key {
            let i = choose|i: int| 0 <= i < back.len() && #[trigger] back[i].0 == key;
            assert(back.drop_last()[i].0 == key);
        }
    }
}

fn find_recent(entries: &Vec<(JobKey, u64)>, key: JobKey) -> (r: Option<u64>)
    ensures
        r == last_seen(entries@, key),
{
    let mut found: Option<u64> = None;
    let mut i: usize = 0;
    while i < entries.len()
        invariant
            i <= entries.len(),
            found == last_seen(entries@.take(i as int), key),
        decreases entries.len() - i,
    {
        assert(entries@.take(i + 1).drop_last() =~= entries@.take(i as int));
        if entries[i].0 == key {
            found = Some(entries[i].1);
        }
        i = i + 1;
    }
    assert(entries@.take(entries@.len() as int) =~= entries@);
    found
}

fn in_activity(activity: &Vec<(JobKey, bool)>, key: JobKey) -> (r: bool)
    ensures
        r == in_sample(activity@, key),
{
    let mut i: usize = 0;
    while i < activity.len()
        invariant
            i <= activity.len(),
            forall|j: int| 0 <= j < i ==> #[trigger] activity@[j].0 != key,
        decreases activity.len() - i,
    {
        if activity[i].0 == key {
            return true;
        }
        i = i + 1;
    }
    false
}

fn entry_after(entries: &Vec<(JobKey, u64)>, from: usize, key: JobKey) -> (r: bool)
    requires
        from <= entries.len(),
    ensures
        r == has_entry(entries@.skip(from as int), key),
{
    let mut i: usize = from;
    while i < entries.len()
        invariant
            from <= i <= entries.len(),
            forall|j: int| from <= j < i ==> #[trigger] entries@[j].0 != key,
        decreases entries.len() - i,
    {
        if entries[i].0 == key {
            assert(entries@.skip(from as int)[i - from].0 == key);
            return true;
        }
        i = i + 1;
    }
    proof {
        if has_entry(entries@.skip(from as int), key) {
            let j = choose|j: int| 0 <= j < entries@.skip(from as int).len() && #[trigger] entries@.skip(from as int)[j].0 == key;
            assert(entries@[from + j].0 == key);
        }
    }
    false
}

/// The per-process and per-job state the process sampler keeps from one
/// sample to the next.
pub struct ProcessCollector {
    previous: HashMap<i32, CpuMark>,
    recent: Vec<(JobKey, u64)>,
    sampled_at: u64,
    argument_buffer_size: usize,
}

impl ProcessCollector {
    /// The CPU marks of the previous sample, by PID.
    pub closed spec fn marks(&self) -> Map<i32, CpuMark> {
        self.previous@
    }

    /// The jobs seen active recently, with the time they were last active.
    pub closed spec fn recent_entries(&self) -> Seq<(JobKey, u64)> {
        self.recent@
    }

    /// When the previous sample was taken, in nanoseconds on the caller's
    /// monotonic clock.
    pub closed spec fn last_sample(&self) -> u64 {
        self.sampled_at
    }

    /// The buffer size for reading command lines.
    pub closed spec fn buffer_size(&self) -> usize {
        self.argument_buffer_size
    }

    /// A collector that has seen nothing yet; `argmax` is `kern.argmax` when
    /// it could be read.
    pub fn new(now_ns: u64, argmax: Option<i32>) -> (c: Self)
        ensures
            c.marks() == Map::<i32, CpuMark>::empty(),
            c.recent_entries() == Seq::<(JobKey, u64)>::empty(),
            c.last_sample() == now_ns,
            c.buffer_size() == argument_buffer(argmax),
    {
        let v = match argmax {
            Some(v) => v,
            None => DEFAULT_ARGUMENT_BUFFER,
        };
        let v = if v < MINIMUM_ARGUMENT_BUFFER { MINIMUM_ARGUMENT_BUFFER } else { v };
        ProcessCollector {
            previous: HashMap::new(),
            recent: Vec::new(),
            sampled_at: now_ns,
            argument_buffer_size: v as usize,
        }
    }

    /// The buffer size for reading command lines.
    pub fn argument_buffer_size(&self) -> (n: usize)
        ensures
            n == self.buffer_size(),
    {
        self.argument_buffer_size
    }

    /// The time since the previous sample in nanoseconds, at least one.
    pub fn interval_ns(&self, now_ns: u64) -> (d: u64)
        ensures
            d == (if now_ns > self.last_sample() { (now_ns - self.last_sample()) as u64 } else { 1 }),
    {
        if now_ns > self.sampled_at { now_ns - self.sampled_at } else { 1 }
    }

    /// Adds up each job (given by its members' samples) against the previous
    /// sample, and keeps this sample's CPU marks for the next one.
    pub fn account(&mut self, jobs: &Vec<Vec<MemberSample>>) -> (totals: Vec<JobTotals>)
        ensures
            totals@.len() == jobs@.len(),
            forall|j: int| 0 <= j < jobs@.len() ==> #[trigger] totals@[j] == job_totals(old(self).marks(), jobs@[j]@),
            final(self).marks() == marks_of_jobs(jobs@),
            final(self).recent_entries() == old(self).recent_entries(),
            final(self).last_sample() == old(self).last_sample(),
            final(self).buffer_size() == old(self).buffer_size(),
    {
        let mut next: HashMap<i32, CpuMark> = HashMap::new();
        let mut totals: Vec<JobTotals> = Vec::new();
        let mut j: usize = 0;
        while j < jobs.len()
            invariant
                j <= jobs.len(),
                totals@.len() == j,
                forall|k: int| 0 <= k < j ==> #[trigger] totals@[k] == job_totals(self.previous@, jobs@[k]@),
                next@ == marks_of_jobs(jobs@.take(j as int)),
            decreases jobs.len() - j,
        {
            assert(jobs@.take(j + 1).drop_last() =~= jobs@.take(j as int));
            let t = account_job(&self.previous, &jobs[j], &mut next);
            totals.push(t);
            j = j + 1;
        }
        assert(jobs@.take(jobs@.len() as int) =~= jobs@);
        self.previous = next;
        totals
    }

    /// Decides which jobs of this sample are listed and what is remembered
    /// for the next one. `activity` holds each job of the sample with whether
    /// it is active now; an active job is stamped `now` before the next job
    /// is looked at. Entries of jobs that left the sample, or whose last
    /// activity is no longer recent, are forgotten.
    pub fn settle(&mut self, now_ns: u64, activity: &Vec<(JobKey, bool)>) -> (listed: Vec<bool>)
        ensures
            listed@.len() == activity@.len(),
            forall|j: int| 0 <= j < activity@.len() ==> #[trigger] listed@[j] == listed_at(old(self).recent_entries(), activity@, j, now_ns),
            distinct_jobs(final(self).recent_entries()),
            forall|key: JobKey| #[trigger] last_seen(final(self).recent_entries(), key)
                == remembered(old(self).recent_entries(), activity@, key, now_ns),
            final(self).marks() == old(self).marks(),
            final(self).last_sample() == now_ns,
            final(self).buffer_size() == old(self).buffer_size(),
    {
        let mut pending: Vec<(JobKey, u64)> = Vec::new();
        std::mem::swap(&mut pending, &mut self.recent);
        let ghost old_recent = pending@;
        let mut listed: Vec<bool> = Vec::new();
        let mut j: usize = 0;
        while j < activity.len()
            invariant
                j <= activity.len(),
                pending@ == old_recent + activity_stamps(activity@.take(j as int), now_ns),
                listed@.len() == j,
                forall|k: int| 0 <= k < j ==> #[trigger] listed@[k] == listed_at(old_recent, activity@, k, now_ns),
            decreases activity.len() - j,
        {
            let (key, active) = activity[j];
            assert(activity@.take(j + 1).drop_last() =~= activity@.take(j as int));
            assert(activity@.take(j + 1).last() == activity@[j as int]);
            let is_listed = if active {
                true
            } else {
                match find_recent(&pending, key) {
                    Some(last) => (if now_ns >= last { now_ns - last } else { 0 }) <= RECENT_ACTIVITY_NS,
                    None => false,
                }
            };
            if active {
                pending.push((key, now_ns));
            }
            listed.push(is_listed);
            j = j + 1;
        }
        assert(activity@.take(activity@.len() as int) =~= activity@);
        let ghost all = pending@;
        let mut kept: Vec<(JobKey, u64)> = Vec::new();
        let mut i: usize = 0;
        while i < pending.len()
            invariant
                i <= pending.len(),
                pending@ == all,
                all == old_recent + activity_stamps(activity@, now_ns),
                distinct_jobs(kept@),
                forall|r: int| 0 <= r < kept@.len() ==> !has_entry(all.skip(i as int), #[trigger] kept@[r].0),
                forall|key: JobKey| #[trigger] last_seen(kept@, key) == (if has_entry(all.skip(i as int), key) {
                    None
                } else {
                    match last_seen(all.take(i as int), key) {
                        Some(last) => if in_sample(activity@, key) && within_recent(last, now_ns) { Some(last) } else { None },
                        None => None,
                    }
                }),
            decreases pending.len() - i,
        {
            let e = pending[i];
            let later = entry_after(&pending, i + 1, e.0);
            let keep = !later && in_activity(activity, e.0)
                && (if now_ns >= e.1 { now_ns - e.1 } else { 0 }) <= RECENT_ACTIVITY_NS;
            let ghost before = kept@;
            proof {
                assert(all.skip(i as int)[0] == e);
                assert(all.take(i + 1).drop_last() =~= all.take(i as int));
                assert(all.take(i + 1).last() == e);
                assert forall|key: JobKey| has_entry(all.skip(i + 1), key) implies has_entry(all.skip(i as int), key) by {
                    let x = choose|x: int| 0 <= x < all.skip(i + 1).len() && #[trigger] all.skip(i + 1)[x].0 == key;
                    assert(all.skip(i as int)[x + 1] == all.skip(i + 1)[x]);
                }
                assert forall|key: JobKey| has_entry(all.skip(i as int), key) && key != e.0 implies has_entry(all.skip(i + 1), key) by {
                    let x = choose|x: int| 0 <= x < all.skip(i as int).len() && #[trigger] all.skip(i as int)[x].0 == key;
                    assert(x != 0);
                    assert(all.skip(i + 1)[x - 1] == all.skip(i as int)[x]);
                }
                assert(has_entry(all.skip(i as int), e.0));
            }
            if keep {
                kept.push(e);
                proof {
                    assert forall|a: int, b: int| 0 <= a < b < kept@.len() implies #[trigger] kept@[a].0 != #[trigger] kept@[b].0 by {
                        if b == kept@.len() - 1 {
                            assert(kept@[a] == before[a]);
                            assert(!has_entry(all.skip(i as int), before[a].0));
                        } else {
                            assert(kept@[a] == before[a] && kept@[b] == before[b]);
                        }
                    }
                    assert forall|r: int| 0 <= r < kept@.len() implies !has_entry(all.skip(i + 1), #[trigger] kept@[r].0) by {
                        if r < before.len() {
                            assert(kept@[r] == before[r]);
                        }
                    }
                    assert forall|key: JobKey| #[trigger] last_seen(kept@, key) == (if has_entry(all.skip(i + 1), key) {
                        None
                    } else {
                        match last_seen(all.take(i + 1), key) {
                            Some(last) => if in_sample(activity@, key) && within_recent(last, now_ns) { Some(last) } else { None },
                            None => None,
                        }
                    }) by {
                        assert(kept@.drop_last() =~= before);
                        assert(kept@.last() == e);
                        if key != e.0 {
                            assert(last_seen(kept@, key) == last_seen(before, key));
                            assert(last_seen(all.take(i + 1), key) == last_seen(all.take(i as int), key));
                        }
                    }
                }
            } else {
                proof {
                    assert forall|key: JobKey| #[trigger] last_seen(kept@, key) == (if has_entry(all.skip(i + 1), key) {
                        None
                    } else {
                        match last_seen(all.take(i + 1), key) {
                            Some(last) => if in_sample(activity@, key) && within_recent(last, now_ns) { Some(last) } else { None },
                            None => None,
                        }
                    }) by {
                        assert(last_seen(kept@, key) == last_seen(before, key));
                        if key != e.0 {
                            assert(last_seen(all.take(i + 1), key) == last_seen(all.take(i as int), key));
                        }
                    }
                }
            }
            i = i + 1;
        }
        proof {
            assert(all.take(all.len() as int) =~= all);
            assert forall|key: JobKey| !has_entry(all.skip(all.len() as int), key) by {}
        }
        self.recent = kept;
        self.sampled_at = now_ns;
        listed
    }
}

/// Words joined by single spaces.
pub open spec fn joined(words: Seq<Seq<char>>) -> Seq<char>
    decreases words.len(),
{
    if words.len() == 0 {
        Seq::empty()
    } else if words.len() == 1 {
        words[0]
    } else {
        joined(words.drop_last()).push(' ') + words.last()
    }
}

/// The command shown for a job: its arguments joined by spaces, or, when
/// they could not be read, its executable path, or else its name.
pub open spec fn command_text(args: Seq<Seq<char>>, executable: Seq<char>, name: Seq<char>) -> Seq<char> {
    if args.len() > 0 { joined(args) } else if executable.len() > 0 { executable } else { name }
}

/// The command shown for a job (see `command_text`).
pub fn command_line(args: &Vec<String>, executable: &str, name: &str) -> (c: String)
    ensures
        c@ == command_text(args@.map_values(|a: String| a@), executable@, name@),
{
    let ghost words = args@.map_values(|a: String| a@);
    let mut out = String::new();
    if args.len() == 0 {
        if executable.is_empty() {
            push_str(&mut out, name);
        } else {
            push_str(&mut out, executable);
        }
        return out;
    }
    let mut i: usize = 0;
    while i < args.len()
        invariant
            i <= args.len(),
            words == args@.map_values(|a: String| a@),
            out@ == joined(words.take(i as int)),
        decreases args.len() - i,
    {
        assert(words.take(i + 1).drop_last() =~= words.take(i as int));
        assert(words.take(i + 1).last() == args@[i as int]@);
        if i > 0 {
            push_char(&mut out, ' ');
        } else {
            assert(words.take(1) =~= seq![words[0]]);
        }
        push_str(&mut out, args[i].as_str());
        i = i + 1;
    }
    assert(words.take(args.len() as int) =~= words);
    out
}

proof fn lemma_stamps(activity: Seq<(JobKey, bool)>, now: u64, key: JobKey)
    ensures
        has_entry(activity_stamps(activity, now), key)
            <==> exists|j: int| 0 <= j < activity.len() && #[trigger] activity[j] == (key, true),
        has_entry(activity_stamps(activity, now), key) ==> last_seen(activity_stamps(activity, now), key) == Some(now),
    decreases activity.len(),
{
    let stamps = activity_stamps(activity, now);
    if activity.len() > 0 {
        let rest = activity.drop_last();
        let before = activity_stamps(rest, now);
        lemma_stamps(rest, now, key);
        if exists|j: int| 0 <= j < rest.len() && #[trigger] rest[j] == (key, true) {
            let j = choose|j: int| 0 <= j < rest.len() && #[trigger] rest[j] == (key, true);
            assert(activity[j] == (key, true));
        }
        if exists|j: int| 0 <= j < activity.len() && #[trigger] activity[j] == (key, true) {
            let j = choose|j: int| 0 <= j < activity.len() && #[trigger] activity[j] == (key, true);
            if j < activity.len() - 1 {
                assert(rest[j] == (key, true));
            }
        }
        if has_entry(before, key) {
            let i = choose|i: int| 0 <= i < before.len() && #[trigger] before[i].0 == key;
            if activity.last().1 {
                assert(stamps[i] == before[i]);
            }
        }
        if activity.last().1 {
            assert(stamps.drop_last() =~= before);
            assert(stamps[stamps.len() - 1] == (activity.last().0, now));
            if has_entry(stamps, key) && activity.last().0 != key {
                let i = choose|i: int| 0 <= i < stamps.len() && #[trigger] stamps[i].0 == key;
                assert(before[i] == stamps[i]);
            }
        }
    }
}

/// A job that goes quiet stays listed while its last activity is recent,
/// and then disappears: if a job was active in one sample at `then`, the
/// entries that sample left behind list it in a later sample at `now`,
/// where it is quiet, exactly when `now` is at most three seconds later
/// (no job with its key may be active before it in the later sample; a
/// `now` before `then` counts as no time at all).
pub proof fn lemma_quiet_job_lingers(
    recent: Seq<(JobKey, u64)>,
    first: Seq<(JobKey, bool)>,
    then: u64,
    kept: Seq<(JobKey, u64)>,
    second: Seq<(JobKey, bool)>,
    now: u64,
    j: int,
    key: JobKey,
)
    requires
        exists|i: int| 0 <= i < first.len() && #[trigger] first[i] == (key, true),
        forall|k: JobKey| #[trigger] last_seen(kept, k) == remembered(recent, first, k, then),
        0 <= j < second.len(),
        second[j] == (key, false),
        forall|i: int| 0 <= i < j ==> #[trigger] second[i] != (key, true),
    ensures
        listed_at(kept, second, j, now) == within_recent(then, now),
{
    lemma_stamps(first, then, key);
    lemma_last_seen_append(recent, activity_stamps(first, then), key);
    let i = choose|i: int| 0 <= i < first.len() && #[trigger] first[i] == (key, true);
    assert(first[i].0 == key);
    assert(in_sample(first, key));
    assert(last_seen(kept, key) == Some(then));
    let before = second.take(j);
    lemma_stamps(before, now, key);
    assert forall|x: int| 0 <= x < before.len() implies #[trigger] before[x] != (key, true) by {
        assert(before[x] == second[x]);
    }
    lemma_last_seen_append(kept, activity_stamps(before, now), key);
}

/// CPU time is never charged across a reused PID: a member whose PID was
/// seen with another start time in the previous sample used nothing yet.
pub proof fn lemma_reused_pid_uncharged(previous: Map<i32, CpuMark>, m: MemberSample)
    requires
        previous.contains_key(m.pid),
        previous[m.pid].start_sec != m.start_sec || previous[m.pid].start_usec != m.start_usec,
    ensures
        member_used(previous, m) == 0,
{
}

/// The CPU time a fresh collector charges: none, since no process has been
/// seen before.
pub proof fn lemma_first_sample_uncharged(ms: Seq<MemberSample>)
    ensures
        sum_used(Map::empty(), ms) == 0,
        job_totals(Map::empty(), ms).cpu_ns == 0,
    decreases ms.len(),
{
    if ms.len() > 0 {
        lemma_first_sample_uncharged(ms.drop_last());
    }
}

/// The member at `(a, b)` is the only member of the sample with its PID.
pub open spec fn only_member(jobs: Seq<Vec<MemberSample>>, a: int, b: int) -> bool {
    &&& 0 <= a < jobs.len()
    &&& 0 <= b < jobs[a]@.len()
    &&& forall|x: int, y: int| 0 <= x < jobs.len() && 0 <= y < jobs[x]@.len() && (x != a || y != b)
        ==> #[trigger] jobs[x]@[y].pid != jobs[a]@[b].pid
}

/// No member of the sample has this PID.
pub open spec fn absent_from(jobs: Seq<Vec<MemberSample>>, pid: i32) -> bool {
    forall|x: int, y: int| 0 <= x < jobs.len() && 0 <= y < jobs[x]@.len() ==> #[trigger] jobs[x]@[y].pid != pid
}

/// The mark a member leaves when its CPU time is known.
pub open spec fn mark_of(m: MemberSample) -> CpuMark {
    CpuMark { start_sec: m.start_sec, start_usec: m.start_usec, cpu_ns: member_cpu(m)->0 }
}

proof fn lemma_marks_untouched(base: Map<i32, CpuMark>, ms: Seq<MemberSample>, pid: i32)
    requires
        forall|y: int| 0 <= y < ms.len() ==> #[trigger] ms[y].pid != pid,
    ensures
        marks_after(base, ms).contains_key(pid) == base.contains_key(pid),
        marks_after(base, ms)[pid] == base[pid],
    decreases ms.len(),
{
    if ms.len() > 0 {
        let rest = ms.drop_last();
        assert forall|y: int| 0 <= y < rest.len() implies #[trigger] rest[y].pid != pid by {
            assert(rest[y] == ms[y]);
        }
        lemma_marks_untouched(base, rest, pid);
        assert(ms[ms.len() - 1].pid != pid);
    }
}

proof fn lemma_marks_once(base: Map<i32, CpuMark>, ms: Seq<MemberSample>, b: int)
    requires
        0 <= b < ms.len(),
        member_cpu(ms[b]) is Some,
        forall|y: int| 0 <= y < ms.len() && y != b ==> #[trigger] ms[y].pid != ms[b].pid,
    ensures
        marks_after(base, ms).contains_key(ms[b].pid),
        marks_after(base, ms)[ms[b].pid] == mark_of(ms[b]),
    decreases ms.len(),
{
    let rest = ms.drop_last();
    if b == ms.len() - 1 {
        assert(ms.last() == ms[b]);
    } else {
        assert(rest[b] == ms[b]);
        assert forall|y: int| 0 <= y < rest.len() && y != b implies #[trigger] rest[y].pid != rest[b].pid by {
            assert(rest[y] == ms[y]);
        }
        lemma_marks_once(base, rest, b);
        assert(ms[ms.len() - 1].pid != ms[b].pid);
    }
}

proof fn lemma_jobs_marks(jobs: Seq<Vec<MemberSample>>, a: int, b: int)
    requires
        only_member(jobs, a, b),
        member_cpu(jobs[a]@[b]) is Some,
    ensures
        marks_of_jobs(jobs).contains_key(jobs[a]@[b].pid),
        marks_of_jobs(jobs)[jobs[a]@[b].pid] == mark_of(jobs[a]@[b]),
    decreases jobs.len(),
{
    let rest = jobs.drop_last();
    let m = jobs[a]@[b];
    if a == jobs.len() - 1 {
        assert forall|y: int| 0 <= y < jobs.last()@.len() && y != b implies #[trigger] jobs.last()@[y].pid != jobs.last()@[b].pid by {
            assert(jobs[jobs.len() - 1]@[y].pid != m.pid);
        }
        lemma_marks_once(marks_of_jobs(rest), jobs.last()@, b);
    } else {
        assert(rest[a] == jobs[a]);
        assert forall|x: int, y: int| 0 <= x < rest.len() && 0 <= y < rest[x]@.len() && (x != a || y != b)
            implies #[trigger] rest[x]@[y].pid != rest[a]@[b].pid by {
            assert(rest[x] == jobs[x]);
        }
        lemma_jobs_marks(rest, a, b);
        assert forall|y: int| 0 <= y < jobs.last()@.len() implies #[trigger] jobs.last()@[y].pid != m.pid by {
            assert(jobs[jobs.len() - 1]@[y].pid != m.pid);
        }
        lemma_marks_untouched(marks_of_jobs(rest), jobs.last()@, m.pid);
    }
}

proof fn lemma_jobs_absent(jobs: Seq<Vec<MemberSample>>, pid: i32)
    requires
        absent_from(jobs, pid),
    ensures
        !marks_of_jobs(jobs).contains_key(pid),
    decreases jobs.len(),
{
    if jobs.len() > 0 {
        let rest = jobs.drop_last();
        assert forall|x: int, y: int| 0 <= x < rest.len() && 0 <= y < rest[x]@.len() implies #[trigger] rest[x]@[y].pid != pid by {
            assert(rest[x] == jobs[x]);
        }
        lemma_jobs_absent(rest, pid);
        assert forall|y: int| 0 <= y < jobs.last()@.len() implies #[trigger] jobs.last()@[y].pid != pid by {
            assert(jobs[jobs.len() - 1]@[y].pid != pid);
        }
        lemma_marks_untouched(marks_of_jobs(rest), jobs.last()@, pid);
    }
}

/// Between two samples, a process is charged the advance of its CPU time:
/// when the first sample saw it once, with a known CPU time, and the second
/// sees the same process (same PID and start time) with a known CPU time,
/// it used the difference (nothing when the counter went back). A process
/// the first sample did not see is charged nothing.
pub proof fn lemma_cpu_between_samples(first: Seq<Vec<MemberSample>>, a: int, b: int, m: MemberSample)
    requires
        only_member(first, a, b),
        member_cpu(first[a]@[b]) is Some,
        member_cpu(m) is Some,
        m.pid == first[a]@[b].pid,
        m.start_sec == first[a]@[b].start_sec,
        m.start_usec == first[a]@[b].start_usec,
    ensures
        member_used(marks_of_jobs(first), m) == (if member_cpu(m)->0 >= member_cpu(first[a]@[b])->0 {
            member_cpu(m)->0 - member_cpu(first[a]@[b])->0
        } else {
            0
        }),
{
    lemma_jobs_marks(first, a, b);
}

/// A process that no member of the previous sample had is charged nothing.
pub proof fn lemma_new_pid_uncharged(first: Seq<Vec<MemberSample>>, m: MemberSample)
    requires
        absent_from(first, m.pid),
    ensures
        member_used(marks_of_jobs(first), m) == 0,
{
    lemma_jobs_absent(first, m.pid);
}

/// Some job of the sample with this key is active.
pub open spec fn key_active(activity: Seq<(JobKey, bool)>, key: JobKey) -> bool {
    exists|j: int| 0 <= j < activity.len() && #[trigger] activity[j] == (key, true)
}

/// What one sample at `now` leaves remembered of `key`, given what was
/// remembered before: `now` when the job is active, else the earlier time;
/// kept only while the job is in the sample and the time is recent.
pub open spec fn next_seen(prev: Option<u64>, activity: Seq<(JobKey, bool)>, key: JobKey, now: u64) -> Option<u64> {
    let t = if key_active(activity, key) { Some(now) } else { prev };
    match t {
        Some(t) => if in_sample(activity, key) && within_recent(t, now) { Some(t) } else { None },
        None => None,
    }
}

/// What a fresh collector remembers of `key` after the samples (each a time
/// and its jobs' activity), in order.
pub open spec fn seen_after(samples: Seq<(u64, Seq<(JobKey, bool)>)>, key: JobKey) -> Option<u64>
    decreases samples.len(),
{
    if samples.len() == 0 {
        None
    } else {
        next_seen(seen_after(samples.drop_last(), key), samples.last().1, key, samples.last().0)
    }
}

/// Sample times never go back.
pub open spec fn in_time_order(samples: Seq<(u64, Seq<(JobKey, bool)>)>) -> bool {
    forall|i: int, j: int| 0 <= i < j < samples.len() ==> #[trigger] samples[i].0 <= #[trigger] samples[j].0
}

/// The job was active in sample `i`, recently enough for `now`, and it has
/// been in every sample since.
pub open spec fn active_since(samples: Seq<(u64, Seq<(JobKey, bool)>)>, key: JobKey, now: u64, i: int) -> bool {
    &&& 0 <= i < samples.len()
    &&& key_active(samples[i].1, key)
    &&& within_recent(samples[i].0, now)
    &&& forall|m: int| i <= m < samples.len() ==> #[trigger] in_sample(samples[m].1, key)
}

/// One call of `settle` moves the remembered state one sample on.
pub proof fn lemma_settle_step(recent: Seq<(JobKey, u64)>, activity: Seq<(JobKey, bool)>, key: JobKey, now: u64)
    ensures
        remembered(recent, activity, key, now) == next_seen(last_seen(recent, key), activity, key, now),
{
    lemma_stamps(activity, now, key);
    lemma_last_seen_append(recent, activity_stamps(activity, now), key);
    if key_active(activity, key) {
        let j = choose|j: int| 0 <= j < activity.len() && #[trigger] activity[j] == (key, true);
        assert(activity[j].0 == key);
    }
}

proof fn lemma_seen_after(samples: Seq<(u64, Seq<(JobKey, bool)>)>, key: JobKey, now: u64)
    requires
        in_time_order(samples),
        samples.len() > 0 ==> samples.last().0 <= now,
    ensures
        seen_after(samples, key) matches Some(t) ==> samples.len() > 0 && t <= samples.last().0,
        (seen_after(samples, key) matches Some(t) && within_recent(t, now))
            <==> exists|i: int| #[trigger] active_since(samples, key, now, i),
    decreases samples.len(),
{
    if samples.len() > 0 {
        let rest = samples.drop_last();
        let (time, activity) = samples.last();
        assert(in_time_order(rest)) by {
            assert forall|i: int, j: int| 0 <= i < j < rest.len() implies #[trigger] rest[i].0 <= #[trigger] rest[j].0 by {
                assert(rest[i] == samples[i] && rest[j] == samples[j]);
            }
        }
        if rest.len() > 0 {
            assert(rest.last() == samples[samples.len() - 2]);
            assert(samples[samples.len() - 2].0 <= samples[samples.len() - 1].0);
        }
        lemma_seen_after(rest, key, now);
        let last = samples.len() - 1;
        assert(samples[last] == (time, activity));
        assert(seen_after(samples, key) == next_seen(seen_after(rest, key), activity, key, time));
        if let Some(t) = seen_after(rest, key) {
            assert(t <= time);
            if within_recent(t, now) {
                assert(within_recent(t, time));
            }
        }
        if key_active(activity, key) {
            let j = choose|j: int| 0 <= j < activity.len() && #[trigger] activity[j] == (key, true);
            assert(activity[j].0 == key);
            assert(in_sample(activity, key));
            assert(within_recent(time, time));
            assert(seen_after(samples, key) == Some(time));
            if within_recent(time, now) {
                assert(active_since(samples, key, now, last));
            } else {
                assert forall|i: int| !active_since(samples, key, now, i) by {
                    if 0 <= i < samples.len() {
                        assert(samples[i].0 <= time);
                    }
                }
            }
        } else if in_sample(activity, key) {
            assert forall|i: int| #[trigger] active_since(samples, key, now, i) <==> active_since(rest, key, now, i) by {
                if 0 <= i < rest.len() {
                    assert(samples[i] == rest[i]);
                    if active_since(rest, key, now, i) {
                        assert forall|m: int| i <= m < samples.len() implies #[trigger] in_sample(samples[m].1, key) by {
                            if m < rest.len() {
                                assert(samples[m] == rest[m]);
                                assert(in_sample(rest[m].1, key));
                            }
                        }
                    }
                    if active_since(samples, key, now, i) {
                        assert forall|m: int| i <= m < rest.len() implies #[trigger] in_sample(rest[m].1, key) by {
                            assert(samples[m] == rest[m]);
                            assert(in_sample(samples[m].1, key));
                        }
                    }
                }
            }
            assert(!key_active(samples[last].1, key));
            assert(!active_since(samples, key, now, last));
            match seen_after(rest, key) {
                Some(t) => {
                    assert(seen_after(samples, key) == (if within_recent(t, time) { Some(t) } else { None }));
                    if within_recent(t, now) {
                        let i = choose|i: int| #[trigger] active_since(rest, key, now, i);
                        assert(active_since(samples, key, now, i));
                    } else {
                        assert forall|i: int| !active_since(samples, key, now, i) by {
                            if active_since(samples, key, now, i) {
                                assert(active_since(rest, key, now, i));
                            }
                        }
                    }
                },
                None => {
                    assert(seen_after(samples, key) is None);
                    assert forall|i: int| !active_since(samples, key, now, i) by {
                        if active_since(samples, key, now, i) {
                            assert(active_since(rest, key, now, i));
                        }
                    }
                },
            }
        } else {
            assert forall|i: int| !active_since(samples, key, now, i) by {
                if 0 <= i < samples.len() && active_since(samples, key, now, i) {
                    assert(in_sample(samples[last].1, key));
                }
            }
        }
    }
}

/// A sequence of `settle` calls remembers what `seen_after` says: a fresh
/// collector has no entries, which is what no sample leaves; and when the
/// entries `before` remember what `samples` leave, the entries `after` that
/// `settle` leaves for a sample at `now` (its contract gives each key's
/// `last_seen` as `remembered`) remember what `samples` followed by that
/// sample leave.
pub proof fn lemma_settle_sequence(
    before: Seq<(JobKey, u64)>,
    after: Seq<(JobKey, u64)>,
    samples: Seq<(u64, Seq<(JobKey, bool)>)>,
    activity: Seq<(JobKey, bool)>,
    now: u64,
)
    requires
        forall|k: JobKey| #[trigger] last_seen(before, k) == seen_after(samples, k),
        forall|k: JobKey| #[trigger] last_seen(after, k) == remembered(before, activity, k, now),
    ensures
        forall|k: JobKey| #[trigger] last_seen(Seq::<(JobKey, u64)>::empty(), k) == seen_after(Seq::empty(), k),
        forall|k: JobKey| #[trigger] last_seen(after, k) == seen_after(samples.push((now, activity)), k),
{
    assert forall|k: JobKey| #[trigger] last_seen(after, k) == seen_after(samples.push((now, activity)), k) by {
        lemma_settle_step(before, activity, k, now);
        assert(samples.push((now, activity)).drop_last() =~= samples);
        assert(last_seen(before, k) == seen_after(samples, k));
    }
}

/// A job is listed exactly while it is active, or was active recently and
/// has stayed in every sample since: after a fresh collector has settled
/// `samples` in order (so that its entries `kept` remember what they leave,
/// see `lemma_settle_sequence`), a job of the next sample at
/// `now` is listed exactly when it is active now, another job with its key
/// was active before it in this sample, or it was active in an earlier
/// sample at most three seconds before `now` and has been in every sample
/// since. Sample times must not go back.
pub proof fn lemma_listed_over_samples(
    samples: Seq<(u64, Seq<(JobKey, bool)>)>,
    kept: Seq<(JobKey, u64)>,
    activity: Seq<(JobKey, bool)>,
    j: int,
    now: u64,
)
    requires
        in_time_order(samples),
        samples.len() > 0 ==> samples.last().0 <= now,
        forall|k: JobKey| #[trigger] last_seen(kept, k) == seen_after(samples, k),
        0 <= j < activity.len(),
    ensures
        listed_at(kept, activity, j, now) == (activity[j].1 || key_active(activity.take(j), activity[j].0)
            || exists|i: int| #[trigger] active_since(samples, activity[j].0, now, i)),
{
    let key = activity[j].0;
    let before = activity.take(j);
    lemma_stamps(before, now, key);
    lemma_last_seen_append(kept, activity_stamps(before, now), key);
    assert(last_seen(kept, key) == seen_after(samples, key));
    lemma_seen_after(samples, key, now);
}

/// A member's memory is its physical footprint whenever the footprint is
/// known and positive, whatever its resident size; otherwise it is its
/// resident size when the task figures are known, and nothing when neither
/// is.
pub proof fn lemma_member_memory(m: MemberSample)
    ensures
        (m.rusage matches Some(u) && u.physical_footprint > 0) ==> member_memory(m) == m.rusage->0.physical_footprint,
        !(m.rusage matches Some(u) && u.physical_footprint > 0) && m.task is Some
            ==> member_memory(m) == m.task->0.resident_size,
        !(m.rusage matches Some(u) && u.physical_footprint > 0) && m.task is None ==> member_memory(m) == 0,
{
}

/// A job's memory is the sum of its members' memory (saturated): for a job
/// of one member with a known, positive footprint, it is that footprint;
/// and adding a member adds its memory.
pub proof fn lemma_job_memory(previous: Map<i32, CpuMark>, ms: Seq<MemberSample>, m: MemberSample)
    ensures
        (m.rusage matches Some(u) && u.physical_footprint > 0)
            ==> job_totals(previous, seq![m]).memory_bytes == m.rusage->0.physical_footprint,
        sum_memory(ms.push(m)) == sum_memory(ms) + member_memory(m),
        job_totals(previous, ms).memory_bytes as int == (if sum_memory(ms) < u64::MAX { sum_memory(ms) } else { u64::MAX as int }),
{
    assert(seq![m].drop_last() =~= Seq::<MemberSample>::empty());
    assert(seq![m].last() == m);
    assert(sum_memory(Seq::<MemberSample>::empty()) == 0);
    assert(sum_memory(seq![m]) == member_memory(m)) by {
        reveal_with_fuel(sum_memory, 2);
    }
    assert(ms.push(m).drop_last() =~= ms);
    lemma_sum_memory_nonneg(ms);
}

proof fn lemma_sum_memory_nonneg(ms: Seq<MemberSample>)
    ensures
        sum_memory(ms) >= 0,
    decreases ms.len(),
{
    if ms.len() > 0 {
        lemma_sum_memory_nonneg(ms.drop_last());
    }
}

/// A member's CPU time is user plus system time (saturated), from its
/// resource usage when that is known, else from its task figures, else
/// unknown; its threads are the task's thread count, a negative count or
/// unknown figures counting as none.
pub proof fn lemma_member_cpu_and_threads(m: MemberSample)
    ensures
        m.rusage is Some ==> member_cpu(m) == Some(
            if m.rusage->0.user_time + m.rusage->0.system_time <= u64::MAX {
                (m.rusage->0.user_time + m.rusage->0.system_time) as u64
            } else {
                u64::MAX
            }),
        m.rusage is None && m.task is Some ==> member_cpu(m) == Some(
            if m.task->0.total_user + m.task->0.total_system <= u64::MAX {
                (m.task->0.total_user + m.task->0.total_system) as u64
            } else {
                u64::MAX
            }),
        m.rusage is None && m.task is None ==> member_cpu(m) is None,
        m.task is Some && m.task->0.thread_count >= 0 ==> member_threads(m) == m.task->0.thread_count,
        m.task is None || m.task->0.thread_count < 0 ==> member_threads(m) == 0,
{
}

/// A job stays recent for three seconds after it was last seen active: at
/// `now`, activity seen at `last` is recent exactly when `now` is at most
/// three seconds (3,000,000,000 ns) later; activity stamped after `now`
/// counts as just seen.
pub proof fn lemma_recent_window(last: u64, now: u64)
    ensures
        now >= last ==> (within_recent(last, now) <==> now - last <= 3_000_000_000),
        now < last ==> within_recent(last, now),
{
}

/// Command lines are read with a buffer of `kern.argmax` bytes, 256 KiB when
/// that cannot be read, and never fewer than 4096 bytes.
pub proof fn lemma_argument_buffer(argmax: Option<i32>)
    ensures
        argmax is None ==> argument_buffer(argmax) == 262_144,
        argmax matches Some(v) ==> argument_buffer(argmax) == if v >= 4096 { v as usize } else { 4096usize },
{
}

/// A job's command is its arguments with one space between neighbours
/// (adding an argument appends a space and that argument); with no
/// argument it is the executable path, and with neither the name.
pub proof fn lemma_command_words(args: Seq<Seq<char>>, word: Seq<char>, executable: Seq<char>, name: Seq<char>)
    ensures
        command_text(seq![word], executable, name) == word,
        args.len() > 0 ==> command_text(args.push(word), executable, name)
            == command_text(args, executable, name) + seq![' '] + word,
        command_text(Seq::empty(), executable, name) == if executable.len() > 0 { executable } else { name },
{
    assert(args.push(word).drop_last() =~= args);
    assert(joined(args).push(' ') + word =~= joined(args) + seq![' '] + word);
}

} // verus!
