//! A small fixed-capacity ring buffer used for the sparkline histories.

use vstd::prelude::*;
use std::collections::VecDeque;

verus! {

/// `s` after a push of `v` into a buffer of capacity `cap`: nothing changes
/// when `cap` is 0; otherwise the newest `cap - 1` samples of `s` are kept
/// and `v` is appended.
pub open spec fn history_push(s: Seq<u64>, v: u64, cap: nat) -> Seq<u64> {
    if cap == 0 {
        s
    } else if s.len() < cap {
        s.push(v)
    } else {
        s.skip(s.len() - (cap - 1)).push(v)
    }
}

/// The largest sample of `s`, or 0 for no samples.
pub open spec fn seq_max(s: Seq<u64>) -> u64
    decreases s.len(),
{
    if s.len() == 0 {
        0
    } else if seq_max(s.drop_last()) >= s.last() {
        seq_max(s.drop_last())
    } else {
        s.last()
    }
}

/// A bounded FIFO of `u64` samples: pushing past the capacity drops the oldest
/// value, so the buffer always holds the most recent `capacity` samples.
#[derive(Debug, Clone)]
pub struct History {
    data: VecDeque<u64>,
    capacity: usize,
}

impl View for History {
    type V = Seq<u64>;

    /// The samples, oldest first.
    closed spec fn view(&self) -> Seq<u64> {
        self.data@
    }
}

impl History {
    /// The most samples this buffer keeps.
    pub closed spec fn max_len(&self) -> nat {
        self.capacity as nat
    }

    /// Create an empty history holding at most `capacity` samples.
    ///
    /// A capacity of `0` yields a buffer that silently discards every push.
    pub fn new(capacity: usize) -> (h: History)
        ensures
            h@ == Seq::<u64>::empty(),
            h.max_len() == capacity,
    {
        History { data: VecDeque::with_capacity(capacity), capacity }
    }

    /// Append a sample, evicting the oldest ones while the buffer is full.
    pub fn push(&mut self, value: u64)
        ensures
            final(self)@ == history_push(old(self)@, value, old(self).max_len()),
            final(self).max_len() == old(self).max_len(),
    {
        if self.capacity == 0 {
            return;
        }
        let ghost start = self.data@;
        while self.data.len() >= self.capacity
            invariant
                self.capacity > 0,
                self.capacity == old(self).capacity,
                start == old(self).data@,
                self.data@.len() <= start.len(),
                start.len() >= self.capacity ==> self.data@ == start.skip(
                    start.len() - self.data@.len(),
                ) && self.data@.len() >= self.capacity - 1,
                start.len() < self.capacity ==> self.data@ == start,
            decreases self.data.len(),
        {
            let ghost before = self.data@;
            assert(before == start.skip(start.len() - before.len()));
            let popped = self.data.pop_front();
            assert(popped is Some);
            assert(self.data@ == before.subrange(1, before.len() as int));
            assert(self.data@ =~= start.skip(start.len() - self.data@.len()));
        }
        self.data.push_back(value);
    }

    /// Number of samples currently stored.
    pub fn len(&self) -> (n: usize)
        ensures
            n == self@.len(),
    {
        self.data.len()
    }

    /// True when no samples have been recorded yet.
    pub fn is_empty(&self) -> (b: bool)
        ensures
            b == (self@.len() == 0),
    {
        self.data.len() == 0
    }

    /// Maximum number of samples this buffer keeps.
    pub fn capacity(&self) -> (c: usize)
        ensures
            c == self.max_len(),
    {
        self.capacity
    }

    /// The samples, oldest first.
    pub fn iter(&self) -> (v: Vec<u64>)
        ensures
            v@ == self@,
    {
        self.tail(self.data.len())
    }

    /// The most recently pushed sample, if any.
    pub fn last(&self) -> (r: Option<u64>)
        ensures
            r == (if self@.len() == 0 {
                None
            } else {
                Some(self@.last())
            }),
    {
        let n = self.data.len();
        if n == 0 {
            None
        } else {
            Some(self.data[n - 1])
        }
    }

    /// The largest sample currently stored (0 when empty).
    pub fn max(&self) -> (m: u64)
        ensures
            m == seq_max(self@),
    {
        let mut m: u64 = 0;
        let mut i: usize = 0;
        let n = self.data.len();
        assert(self.data@.take(0) =~= Seq::<u64>::empty());
        while i < n
            invariant
                n == self.data@.len(),
                i <= n,
                m == seq_max(self.data@.take(i as int)),
            decreases n - i,
        {
            assert(self.data@.take(i + 1).drop_last() =~= self.data@.take(i as int));
            let x = self.data[i];
            if x > m {
                m = x;
            }
            i = i + 1;
        }
        assert(self.data@.take(n as int) =~= self.data@);
        m
    }

    /// The newest `n` samples (all of them when fewer are stored), oldest first.
    ///
    /// A sparkline draws only its first `width` samples, so fitting the history
    /// to the width keeps the newest values rather than the oldest.
    pub fn tail(&self, n: usize) -> (v: Vec<u64>)
        ensures
            v@ == self@.skip(self@.len() - (if n < self@.len() { n as int } else { self@.len() as int })),
    {
        let len = self.data.len();
        let start = len - (if n < len {
            n
        } else {
            len
        });
        let mut v: Vec<u64> = Vec::new();
        let mut i = start;
        while i < len
            invariant
                len == self.data@.len(),
                start <= i <= len,
                v@ == self.data@.subrange(start as int, i as int),
            decreases len - i,
        {
            v.push(self.data[i]);
            assert(self.data@.subrange(start as int, i + 1) =~= self.data@.subrange(
                start as int,
                i as int,
            ).push(self.data@[i as int]));
            i = i + 1;
        }
        assert(self.data@.subrange(start as int, len as int) =~= self.data@.skip(start as int));
        v
    }
}

impl Default for History {
    /// A history of capacity 0, which discards every sample.
    fn default() -> (h: History)
        ensures
            h@ == Seq::<u64>::empty(),
            h.max_len() == 0,
    {
        History::new(0)
    }
}

/// Pushing keeps a history within its capacity: from at most `cap` samples,
/// a push leaves at most `cap`, ending with the pushed sample when `cap > 0`.
pub proof fn lemma_push_bounded(s: Seq<u64>, v: u64, cap: nat)
    requires
        s.len() <= cap,
    ensures
        history_push(s, v, cap).len() <= cap,
        cap > 0 ==> history_push(s, v, cap).last() == v,
        cap > 0 ==> history_push(s, v, cap).drop_last() == s.skip(
            s.len() - history_push(s, v, cap).drop_last().len(),
        ),
{
    if cap > 0 {
        let r = history_push(s, v, cap);
        assert(r.drop_last() =~= s.skip(s.len() - r.drop_last().len()));
    }
}

/// `s` after pushing each of `xs` in order into a buffer of capacity `cap`.
pub open spec fn history_push_all(s: Seq<u64>, xs: Seq<u64>, cap: nat) -> Seq<u64>
    decreases xs.len(),
{
    if xs.len() == 0 {
        s
    } else {
        history_push(history_push_all(s, xs.drop_last(), cap), xs.last(), cap)
    }
}

/// A buffer of capacity `cap` that starts empty holds, after any sequence of
/// pushes, exactly the most recent `cap` pushed samples (all of them when
/// fewer were pushed), oldest first.
pub proof fn lemma_holds_most_recent(xs: Seq<u64>, cap: nat)
    ensures
        history_push_all(Seq::empty(), xs, cap) == xs.skip(
            xs.len() - (if cap < xs.len() { cap as int } else { xs.len() as int }),
        ),
    decreases xs.len(),
{
    if xs.len() > 0 {
        let prev = xs.drop_last();
        lemma_holds_most_recent(prev, cap);
        let r = history_push_all(Seq::empty(), xs, cap);
        let k = if cap < xs.len() { cap as int } else { xs.len() as int };
        assert(r =~= xs.skip(xs.len() - k));
    } else {
        assert(xs.skip(0) =~= xs);
    }
}

/// Pushing keeps every sample within a bound that the samples and the pushed
/// value all respect.
pub proof fn lemma_push_within(s: Seq<u64>, v: u64, cap: nat, b: u64)
    requires
        forall|i: int| 0 <= i < s.len() ==> s[i] <= b,
        v <= b,
    ensures
        forall|i: int| 0 <= i < history_push(s, v, cap).len() ==> history_push(s, v, cap)[i] <= b,
{
    let r = history_push(s, v, cap);
    assert forall|i: int| 0 <= i < r.len() implies r[i] <= b by {
        if cap > 0 && i < r.len() - 1 {
            if s.len() >= cap {
                assert(r[i] == s[i + (s.len() - (cap - 1))]);
            } else {
                assert(r[i] == s[i]);
            }
        }
    }
}

} // verus!
