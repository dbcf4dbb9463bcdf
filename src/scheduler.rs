use vstd::prelude::*;

verus! {

/// Number of samples that the timing history of one system keeps.
pub const TIMING_WINDOW: usize = 600;

/// Sum of the samples.
pub open spec fn seq_sum(s: Seq<u64>) -> int
    decreases s.len(),
{
    if s.len() == 0 {
        0
    } else {
        seq_sum(s.drop_last()) + s.last()
    }
}

/// The last `cap` values of `s`, oldest first.
pub open spec fn last_n(s: Seq<u64>, cap: nat) -> Seq<u64> {
    if s.len() <= cap {
        s
    } else {
        s.subrange(s.len() - cap, s.len() as int)
    }
}

/// Mean of the samples, rounded down; zero when there are none.
pub open spec fn seq_mean(s: Seq<u64>) -> int {
    if s.len() == 0 {
        0
    } else {
        seq_sum(s) / (s.len() as int)
    }
}

/// Where sample `i` of the window (oldest first) sits in a full ring whose oldest
/// sample is at `next`.
pub open spec fn ring_index(next: int, i: int, cap: int) -> int {
    if next + i < cap {
        next + i
    } else {
        next + i - cap
    }
}

proof fn lemma_sum_bound(s: Seq<u64>)
    ensures
        0 <= seq_sum(s) <= s.len() * (u64::MAX as int),
    decreases s.len(),
{
    if s.len() > 0 {
        lemma_sum_bound(s.drop_last());
        assert(seq_sum(s) <= (s.len() - 1) * (u64::MAX as int) + u64::MAX) by (nonlinear_arith)
            requires
                seq_sum(s) == seq_sum(s.drop_last()) + s.last(),
                seq_sum(s.drop_last()) <= (s.len() - 1) * (u64::MAX as int),
                s.last() <= u64::MAX,
        ;
        assert((s.len() - 1) * (u64::MAX as int) + u64::MAX == s.len() * (u64::MAX as int)) by (nonlinear_arith);
    }
}

proof fn lemma_sum_drop_first(s: Seq<u64>)
    requires
        s.len() > 0,
    ensures
        seq_sum(s) == s[0] + seq_sum(s.drop_first()),
    decreases s.len(),
{
    if s.len() > 1 {
        lemma_sum_drop_first(s.drop_last());
        assert(s.drop_last().drop_first() =~= s.drop_first().drop_last());
    } else {
        assert(s.drop_first() =~= Seq::<u64>::empty());
        assert(s.drop_last() =~= Seq::<u64>::empty());
    }
}

/// A bounded history of elapsed times (in nanoseconds) with a running mean:
/// a ring of the last `size` samples and their sum.
pub struct History {
    values: Vec<u64>,
    next: usize,
    size: usize,
    sum: u128,
    window: Ghost<Seq<u64>>,
}

impl View for History {
    type V = Seq<u64>;

    /// The samples kept, oldest first.
    closed spec fn view(&self) -> Seq<u64> {
        self.window@
    }
}

impl History {
    /// How many samples the history keeps.
    pub closed spec fn capacity(&self) -> nat {
        self.size as nat
    }

    pub closed spec fn wf(&self) -> bool {
        &&& self.size > 0
        &&& self.values@.len() <= self.size
        &&& self.window@.len() == self.values@.len()
        &&& self.sum == seq_sum(self.window@)
        &&& if self.values@.len() < self.size {
            self.window@ == self.values@ && self.next == 0
        } else {
            &&& self.next < self.size
            &&& forall|i: int|
                0 <= i < self.size ==> #[trigger] self.window@[i] == self.values@[ring_index(
                    self.next as int,
                    i,
                    self.size as int,
                )]
        }
    }

    /// An empty history that keeps the last `size` samples.
    pub fn new(size: usize) -> (r: Self)
        requires
            size > 0,
        ensures
            r.wf(),
            r@ == Seq::<u64>::empty(),
            r.capacity() == size,
    {
        History { values: Vec::new(), next: 0, size, sum: 0, window: Ghost(Seq::empty()) }
    }

    /// Records a sample; the oldest one leaves once the history is full.
    pub fn add_value(&mut self, v: u64)
        requires
            old(self).wf(),
        ensures
            final(self).wf(),
            final(self).capacity() == old(self).capacity(),
            final(self)@ == last_n(old(self)@.push(v), old(self).capacity()),
    {
        proof {
            lemma_sum_bound(self.window@);
            assert(self.window@.len() * (u64::MAX as int) <= (usize::MAX as int) * (u64::MAX as int))
                by (nonlinear_arith)
                requires
                    self.window@.len() <= self.size,
                    self.size <= usize::MAX,
            ;
        }
        let ghost w = self.window@;
        if self.values.len() < self.size {
            self.values.push(v);
            self.sum = self.sum + v as u128;
            self.window = Ghost(w.push(v));
            proof {
                assert(self.window@.drop_last() =~= w);
                assert(last_n(w.push(v), self.size as nat) == w.push(v));
                if self.values@.len() == self.size {
                    assert forall|i: int| 0 <= i < self.size implies #[trigger] self.window@[i]
                        == self.values@[ring_index(self.next as int, i, self.size as int)] by {}
                }
            }
        } else {
            let old_v = self.values[self.next];
            proof {
                assert(w[0] == old_v);
                lemma_sum_drop_first(w);
                lemma_sum_bound(w.drop_first());
            }
            let n = self.next;
            self.values.set(n, v);
            self.next = if n + 1 == self.size {
                0
            } else {
                n + 1
            };
            let ghost nw = w.drop_first().push(v);
            self.sum = self.sum - old_v as u128 + v as u128;
            self.window = Ghost(nw);
            proof {
                assert(nw.drop_last() =~= w.drop_first());
                assert forall|i: int| 0 <= i < self.size implies #[trigger] self.window@[i]
                    == self.values@[ring_index(self.next as int, i, self.size as int)] by {
                    if i < self.size - 1 {
                        assert(w[i + 1] == old(self).values@[ring_index(n as int, i + 1, self.size as int)]);
                    }
                }
                assert(nw =~= w.push(v).subrange(w.push(v).len() - self.size, w.push(v).len() as int));
            }
        }
    }

    /// Mean of the samples kept, rounded down; zero while there are none.
    pub fn avg(&self) -> (r: u64)
        requires
            self.wf(),
        ensures
            r == seq_mean(self@),
    {
        if self.values.len() == 0 {
            return 0;
        }
        proof {
            lemma_sum_bound(self.window@);
            let n = self.window@.len() as int;
            let s = seq_sum(self.window@);
            assert(s / n <= u64::MAX) by (nonlinear_arith)
                requires
                    n > 0,
                    0 <= s <= n * (u64::MAX as int),
            ;
        }
        (self.sum / (self.values.len() as u128)) as u64
    }
}

/// The order in which the frame log lists the systems: each index of `avgs`
/// exactly once, by decreasing mean time.
pub fn frame_log_order(avgs: &Vec<u64>) -> (r: Vec<usize>)
    ensures
        r@.len() == avgs@.len(),
        forall|a: int| 0 <= a < r@.len() ==> #[trigger] r@[a] < avgs@.len(),
        forall|a: int, b: int| 0 <= a < b < r@.len() ==> (#[trigger] r@[a]) != (#[trigger] r@[b]),
        forall|a: int, b: int|
            0 <= a < b < r@.len() ==> avgs@[#[trigger] r@[a] as int] >= avgs@[#[trigger] r@[b] as int],
{
    let mut out: Vec<usize> = Vec::new();
    let mut i: usize = 0;
    while i < avgs.len()
        invariant
            i <= avgs@.len(),
            out@.len() == i,
            forall|a: int| 0 <= a < out@.len() ==> #[trigger] out@[a] < i,
            forall|a: int, b: int| 0 <= a < b < out@.len() ==> (#[trigger] out@[a]) != (#[trigger] out@[b]),
            forall|a: int, b: int|
                0 <= a < b < out@.len() ==> avgs@[#[trigger] out@[a] as int] >= avgs@[#[trigger] out@[b] as int],
        decreases avgs@.len() - i,
    {
        let t = avgs[i];
        let mut p: usize = 0;
        while p < out.len() && avgs[out[p]] >= t
            invariant
                p <= out@.len(),
                out@.len() == i,
                i < avgs@.len(),
                t == avgs@[i as int],
                forall|a: int| 0 <= a < out@.len() ==> #[trigger] out@[a] < i,
                forall|a: int| 0 <= a < p ==> avgs@[#[trigger] out@[a] as int] >= t,
            decreases out@.len() - p,
        {
            p += 1;
        }
        let ghost before = out@;
        out.insert(p, i);
        proof {
            assert(out@ =~= before.insert(p as int, i));
            if p < before.len() {
                assert(avgs@[before[p as int] as int] < t);
            }
            assert forall|a: int, b: int| 0 <= a < b < out@.len() implies avgs@[#[trigger] out@[a] as int]
                >= avgs@[#[trigger] out@[b] as int] by {
                if b < p {
                } else if b == p {
                    assert(avgs@[before[a] as int] >= t);
                } else if a < p {
                    assert(avgs@[before[a] as int] >= avgs@[before[b - 1] as int]);
                } else if a == p {
                    assert(avgs@[before[p as int] as int] < t);
                    if b - 1 > p {
                        assert(avgs@[before[p as int] as int] >= avgs@[before[b - 1] as int]);
                    }
                } else {
                    assert(avgs@[before[a - 1] as int] >= avgs@[before[b - 1] as int]);
                }
            }
            assert forall|a: int, b: int| 0 <= a < b < out@.len() implies (#[trigger] out@[a]) != (
            #[trigger] out@[b]) by {
                if b < p {
                } else if b == p {
                    assert(before[a] < i);
                } else if a < p {
                    assert(before[a] != before[b - 1]);
                } else if a == p {
                    assert(before[b - 1] < i);
                } else {
                    assert(before[a - 1] != before[b - 1]);
                }
            }
        }
        i += 1;
    }
    out
}

} // verus!
