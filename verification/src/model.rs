//! Plain data shared by the collectors, the view state and the renderer.

use std::collections::VecDeque;
use vstd::prelude::*;

verus! {

/// The scheduler state of a process, as `ps` abbreviates it.
#[derive(Clone, Copy, Debug, PartialEq, Eq, Structural)]
pub enum ProcessState {
    Running,
    Sleeping,
    Stopped,
    Zombie,
    Unknown,
}

impl ProcessState {
    /// The one-letter code: R, S, T, Z, or `?` when unknown.
    pub fn short(self) -> (c: char)
        ensures
            c == match self {
                ProcessState::Running => 'R',
                ProcessState::Sleeping => 'S',
                ProcessState::Stopped => 'T',
                ProcessState::Zombie => 'Z',
                ProcessState::Unknown => '?',
            },
    {
        match self {
            ProcessState::Running => 'R',
            ProcessState::Sleeping => 'S',
            ProcessState::Stopped => 'T',
            ProcessState::Zombie => 'Z',
            ProcessState::Unknown => '?',
        }
    }
}

impl Default for ProcessState {
    fn default() -> (s: Self)
        ensures
            s == ProcessState::Unknown,
    {
        ProcessState::Unknown
    }
}


/// The order of the job table.
#[derive(Clone, Copy, Debug, PartialEq, Eq, Structural)]
pub enum SortKey {
    Cpu,
    Memory,
    Gpu,
    Pid,
}

impl Default for SortKey {
    fn default() -> (k: Self)
        ensures
            k == SortKey::Cpu,
    {
        SortKey::Cpu
    }
}

/// Which overlay, if any, covers the main screen.
#[derive(Clone, Copy, Debug, PartialEq, Eq, Structural)]
pub enum Screen {
    Main,
    Help,
    Detail,
    Signal,
}

impl Default for Screen {
    fn default() -> (s: Self)
        ensures
            s == Screen::Main,
    {
        Screen::Main
    }
}

/// The GPU as the driver names it.
#[derive(Clone, Debug)]
pub struct GpuInfo {
    pub name: String,
}

impl Default for GpuInfo {
    fn default() -> (g: Self)
        ensures
            g.name@ == Seq::<char>::empty(),
    {
        GpuInfo { name: String::new() }
    }
}

/// The last error of each collector; `None` while it succeeds.
#[derive(Clone, Debug)]
pub struct MetricStatus {
    pub system_error: Option<String>,
    pub cpu_error: Option<String>,
    pub memory_error: Option<String>,
    pub process_error: Option<String>,
    pub gpu_error: Option<String>,
}

impl Default for MetricStatus {
    fn default() -> (s: Self)
        ensures
            s.system_error is None,
            s.cpu_error is None,
            s.memory_error is None,
            s.process_error is None,
            s.gpu_error is None,
    {
        MetricStatus { system_error: None, cpu_error: None, memory_error: None, process_error: None, gpu_error: None }
    }
}


/// The most recent samples of a metric, oldest first, at most `capacity`
/// of them.
#[derive(Debug)]
pub struct History<T> {
    values: VecDeque<T>,
    capacity: usize,
}

/// The history after one push: the value is appended, and the oldest value
/// leaves when the history is full; a history of capacity 0 stays empty.
pub open spec fn pushed<T>(s: Seq<T>, capacity: nat, value: T) -> Seq<T> {
    if capacity == 0 {
        s
    } else if s.len() >= capacity {
        s.drop_first().push(value)
    } else {
        s.push(value)
    }
}

/// The history after pushing `values` in order.
pub open spec fn pushed_all<T>(s: Seq<T>, capacity: nat, values: Seq<T>) -> Seq<T>
    decreases values.len(),
{
    if values.len() == 0 {
        s
    } else {
        pushed(pushed_all(s, capacity, values.drop_last()), capacity, values.last())
    }
}

impl<T> View for History<T> {
    type V = Seq<T>;

    closed spec fn view(&self) -> Seq<T> {
        self.values@
    }
}

impl<T> History<T> {
    /// The most samples the history keeps.
    pub closed spec fn spec_capacity(&self) -> nat {
        self.capacity as nat
    }

    #[verifier::type_invariant]
    closed spec fn bounded(self) -> bool {
        self.values@.len() <= self.capacity
    }

    /// An empty history that keeps up to `capacity` samples.
    pub fn new(capacity: usize) -> (h: Self)
        ensures
            h@ == Seq::<T>::empty(),
            h.spec_capacity() == capacity,
    {
        History { values: VecDeque::with_capacity(capacity), capacity }
    }

    /// Appends a sample, dropping the oldest when the history is full.
    pub fn push(&mut self, value: T)
        ensures
            final(self)@ == pushed(old(self)@, old(self).spec_capacity(), value),
            final(self).spec_capacity() == old(self).spec_capacity(),
            final(self)@.len() <= final(self).spec_capacity(),
    {
        proof {
            use_type_invariant(&*self);
        }
        if self.capacity == 0 {
            return;
        }
        let mut values: VecDeque<T> = VecDeque::new();
        std::mem::swap(&mut values, &mut self.values);
        if values.len() == self.capacity {
            values.pop_front();
        }
        values.push_back(value);
        self.values = values;
    }

    /// The number of samples held.
    pub fn len(&self) -> (n: usize)
        ensures
            n == self@.len(),
            n <= self.spec_capacity(),
    {
        proof {
            use_type_invariant(self);
        }
        self.values.len()
    }

    /// Whether no sample is held.
    pub fn is_empty(&self) -> (b: bool)
        ensures
            b == (self@.len() == 0),
    {
        self.values.len() == 0
    }

    /// The samples, oldest first.
    pub fn values(&self) -> (v: Vec<T>)
        where T: Copy
        ensures
            v@ == self@,
    {
        let mut v: Vec<T> = Vec::new();
        for i in 0..self.values.len()
            invariant
                v@ == self.values@.take(i as int),
        {
            v.push(self.values[i]);
            assert(self.values@.take(i + 1) == self.values@.take(i as int).push(self.values@[i as int]));
        }
        assert(self.values@.take(self.values@.len() as int) == self.values@);
        v
    }

}

impl<T: Clone> Clone for History<T> {
    fn clone(&self) -> (h: Self)
        ensures
            h@.len() == self@.len(),
            forall|i: int| 0 <= i < self@.len() ==> cloned::<T>(self@[i], #[trigger] h@[i]),
            h.spec_capacity() == self.spec_capacity(),
    {
        proof {
            use_type_invariant(self);
        }
        History { values: self.values.clone(), capacity: self.capacity }
    }
}

impl<T> Default for History<T> {
    fn default() -> (h: Self)
        ensures
            h@ == Seq::<T>::empty(),
            h.spec_capacity() == 120,
    {
        History::new(120)
    }
}

/// A history keeps the latest samples: after pushing `values` into an empty
/// history of capacity `capacity > 0`, it holds the last `capacity` of them
/// (all of them when there are fewer), in order.
pub proof fn lemma_history_keeps_latest<T>(capacity: nat, values: Seq<T>)
    requires
        capacity > 0,
    ensures
        pushed_all(Seq::empty(), capacity, values)
            == values.skip(if values.len() > capacity { values.len() - capacity } else { 0 }),
    decreases values.len(),
{
    if values.len() > 0 {
        let init = values.drop_last();
        lemma_history_keeps_latest(capacity, init);
        let before = pushed_all(Seq::<T>::empty(), capacity, init);
        let start = if init.len() > capacity { init.len() - capacity } else { 0 };
        if before.len() >= capacity {
            assert(before.drop_first().push(values.last()) =~= values.skip(
                if values.len() > capacity { values.len() - capacity } else { 0 }));
        } else {
            assert(before.push(values.last()) =~= values.skip(
                if values.len() > capacity { values.len() - capacity } else { 0 }));
        }
    } else {
        assert(values.skip(0) =~= values);
    }
}

} // verus!
