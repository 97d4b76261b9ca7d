//! Per-core CPU load from the host's tick counters: the ticks each core
//! spent busy and in total between two readings.

use vstd::prelude::*;

verus! {

/// The tick counters of one core.
#[derive(Clone, Copy, Debug, PartialEq, Eq, Structural)]
pub struct CpuTicks {
    pub user: u64,
    pub system: u64,
    pub idle: u64,
    pub nice: u64,
}

impl Default for CpuTicks {
    fn default() -> (t: Self)
        ensures
            t == (CpuTicks { user: 0, system: 0, idle: 0, nice: 0 }),
    {
        CpuTicks { user: 0, system: 0, idle: 0, nice: 0 }
    }
}

/// How far a counter advanced; a counter that went back advanced by nothing.
pub open spec fn advance(old: u64, new: u64) -> int {
    if new >= old { new - old } else { 0 }
}

/// The ticks a core spent in user, system and nice time between readings.
pub open spec fn busy_ticks(old: CpuTicks, new: CpuTicks) -> int {
    advance(old.user, new.user) + advance(old.system, new.system) + advance(old.nice, new.nice)
}

/// All the ticks of a core between readings: busy and idle.
pub open spec fn total_ticks(old: CpuTicks, new: CpuTicks) -> int {
    busy_ticks(old, new) + advance(old.idle, new.idle)
}

/// The counters advance by amounts that fit a `u64`.
pub open spec fn deltas_fit(previous: Seq<CpuTicks>, current: Seq<CpuTicks>) -> bool {
    previous.len() == current.len() ==> forall|i: int| 0 <= i < current.len() ==> #[trigger] total_ticks(previous[i], current[i]) <= u64::MAX
}

/// The (busy, total) ticks of each core. A change in the number of cores
/// gives (0, 0) for every core, which reads as no load.
pub fn tick_deltas(previous: &[CpuTicks], current: &[CpuTicks]) -> (d: Vec<(u64, u64)>)
    requires
        deltas_fit(previous@, current@),
    ensures
        d@.len() == current@.len(),
        forall|i: int| 0 <= i < d@.len() ==> #[trigger] d@[i].0 <= d@[i].1,
        forall|i: int| 0 <= i < d@.len() ==> #[trigger] d@[i] == (if previous@.len() == current@.len() {
            (busy_ticks(previous@[i], current@[i]) as u64, total_ticks(previous@[i], current@[i]) as u64)
        } else {
            (0u64, 0u64)
        }),
{
    let same = previous.len() == current.len();
    let mut d: Vec<(u64, u64)> = Vec::new();
    let mut i: usize = 0;
    while i < current.len()
        invariant
            i <= current.len(),
            same == (previous@.len() == current@.len()),
            deltas_fit(previous@, current@),
            d@.len() == i,
            forall|k: int| 0 <= k < i ==> #[trigger] d@[k].0 <= d@[k].1,
            forall|k: int| 0 <= k < i ==> #[trigger] d@[k] == (if previous@.len() == current@.len() {
                (busy_ticks(previous@[k], current@[k]) as u64, total_ticks(previous@[k], current@[k]) as u64)
            } else {
                (0u64, 0u64)
            }),
        decreases current.len() - i,
    {
        if same {
            let old = previous[i];
            let new = current[i];
            assert(total_ticks(previous@[i as int], current@[i as int]) <= u64::MAX);
            let busy = new.user.saturating_sub(old.user) + new.system.saturating_sub(old.system)
                + new.nice.saturating_sub(old.nice);
            let idle = new.idle.saturating_sub(old.idle);
            d.push((busy, busy + idle));
        } else {
            d.push((0, 0));
        }
        i = i + 1;
    }
    d
}

/// The counters of the previous reading, which the next one is measured
/// against.
pub struct CpuCollector {
    previous: Vec<CpuTicks>,
}

impl CpuCollector {
    /// The counters the next reading is measured against.
    pub closed spec fn previous_ticks(&self) -> Seq<CpuTicks> {
        self.previous@
    }

    /// A collector without a previous reading: the first reading shows no
    /// load.
    pub fn new() -> (c: Self)
        ensures
            c.previous_ticks() == Seq::<CpuTicks>::empty(),
    {
        CpuCollector { previous: Vec::new() }
    }

    /// Whether a new reading can be measured against the previous one
    /// without a counter advance overflowing (see `deltas_fit`).
    pub fn can_advance(&self, current: &[CpuTicks]) -> (r: bool)
        ensures
            r == deltas_fit(self.previous_ticks(), current@),
    {
        if self.previous.len() != current.len() {
            return true;
        }
        let mut i: usize = 0;
        while i < current.len()
            invariant
                i <= current.len(),
                self.previous@.len() == current@.len(),
                forall|k: int| 0 <= k < i ==> #[trigger] total_ticks(self.previous@[k], current@[k]) <= u64::MAX,
            decreases current.len() - i,
        {
            let old = self.previous[i];
            let new = current[i];
            let user = new.user.saturating_sub(old.user);
            let system = new.system.saturating_sub(old.system);
            let nice = new.nice.saturating_sub(old.nice);
            let idle = new.idle.saturating_sub(old.idle);
            let fits = match user.checked_add(system) {
                Some(a) => match a.checked_add(nice) {
                    Some(b) => b.checked_add(idle).is_some(),
                    None => false,
                },
                None => false,
            };
            if !fits {
                assert(!(total_ticks(self.previous@[i as int], current@[i as int]) <= u64::MAX));
                return false;
            }
            i = i + 1;
        }
        true
    }

    /// Measures a new reading against the previous one and keeps it.
    pub fn advance(&mut self, current: Vec<CpuTicks>) -> (d: Vec<(u64, u64)>)
        requires
            deltas_fit(old(self).previous_ticks(), current@),
        ensures
            d@.len() == current@.len(),
            forall|i: int| 0 <= i < d@.len() ==> #[trigger] d@[i].0 <= d@[i].1,
            forall|i: int| 0 <= i < d@.len() ==> #[trigger] d@[i] == (if old(self).previous_ticks().len() == current@.len() {
                (busy_ticks(old(self).previous_ticks()[i], current@[i]) as u64,
                 total_ticks(old(self).previous_ticks()[i], current@[i]) as u64)
            } else {
                (0u64, 0u64)
            }),
            final(self).previous_ticks() == current@,
    {
        let d = tick_deltas(self.previous.as_slice(), current.as_slice());
        self.previous = current;
        d
    }
}

impl Default for CpuCollector {
    fn default() -> (c: Self)
        ensures
            c.previous_ticks() == Seq::<CpuTicks>::empty(),
    {
        CpuCollector::new()
    }
}

/// The counters of each core in a host processor load buffer: four words
/// per core, user, system, idle and nice ticks; a partial group at the end
/// is not a core.
pub open spec fn cores_of(words: Seq<u32>) -> Seq<CpuTicks> {
    Seq::new(words.len() / 4, |c: int| CpuTicks {
        user: words[4 * c] as u64,
        system: words[4 * c + 1] as u64,
        idle: words[4 * c + 2] as u64,
        nice: words[4 * c + 3] as u64,
    })
}

/// Reads the per-core counters from a host processor load buffer (see
/// `cores_of`).
pub fn core_ticks(words: &[u32]) -> (ticks: Vec<CpuTicks>)
    ensures
        ticks@ == cores_of(words@),
{
    let count = words.len() / 4;
    let mut ticks: Vec<CpuTicks> = Vec::new();
    let mut c: usize = 0;
    while c < count
        invariant
            count == words@.len() / 4,
            words@.len() == words.len(),
            c <= count,
            ticks@ =~= cores_of(words@).take(c as int),
        decreases count - c,
    {
        assert(4 * c + 3 < words.len()) by (nonlinear_arith)
            requires
                c < count,
                count == words.len() / 4;
        let base = 4 * c;
        ticks.push(CpuTicks {
            user: words[base] as u64,
            system: words[base + 1] as u64,
            idle: words[base + 2] as u64,
            nice: words[base + 3] as u64,
        });
        c = c + 1;
        assert(ticks@ =~= cores_of(words@).take(c as int));
    }
    ticks
}

/// Between two readings a core is busy for the user, system and nice ticks
/// it gained, and its total adds the idle ticks it gained. A counter that
/// went back (a reset) counts as no tick gained, whatever it went back to.
pub proof fn lemma_core_ticks(old: CpuTicks, new: CpuTicks)
    ensures
        new.user >= old.user && new.system >= old.system && new.nice >= old.nice ==>
            busy_ticks(old, new) == (new.user - old.user) + (new.system - old.system) + (new.nice - old.nice),
        new.idle >= old.idle ==> total_ticks(old, new) == busy_ticks(old, new) + (new.idle - old.idle),
        new.idle < old.idle ==> total_ticks(old, new) == busy_ticks(old, new),
        new.user < old.user ==> busy_ticks(old, new) == busy_ticks(old, CpuTicks { user: old.user, ..new }),
        new.system < old.system ==> busy_ticks(old, new) == busy_ticks(old, CpuTicks { system: old.system, ..new }),
        new.nice < old.nice ==> busy_ticks(old, new) == busy_ticks(old, CpuTicks { nice: old.nice, ..new }),
        busy_ticks(old, new) <= total_ticks(old, new),
{
}

} // verus!
