//! Per-station aggregates over fixed-point measurements.
//!
//! A measurement is stored as a signed integer equal to ten times its decimal
//! value, so an aggregate works on plain integers.  The ghost view of an
//! aggregate is the multiset of all values it has absorbed; `count`, `sum`,
//! `min` and `max` are tied to that multiset by the well-formedness predicate.

use vstd::multiset::Multiset;
use vstd::prelude::*;

verus! {

broadcast use vstd::multiset::group_multiset_axioms;

/// Sum of the values of a multiset of integers, with multiplicity.
pub open spec fn msum(m: Multiset<int>) -> int
    decreases m.len(),
{
    if m.len() == 0 {
        0
    } else {
        let v = m.choose();
        v + msum(m.remove(v))
    }
}

/// Removing one occurrence of a present value takes exactly that value out of
/// the sum, whichever occurrence the recursion in `msum` happens to peel off.
pub proof fn lemma_msum_remove(m: Multiset<int>, v: int)
    requires
        m.count(v) > 0,
    ensures
        msum(m) == v + msum(m.remove(v)),
    decreases m.len(),
{
    let c = m.choose();
    if c == v {
        assert(msum(m) == c + msum(m.remove(c)));
    } else {
        let mc = m.remove(c);
        assert(msum(m) == c + msum(mc));
        assert(mc.count(v) > 0);
        lemma_msum_remove(mc, v);
        let mv = m.remove(v);
        assert(mv.count(c) > 0);
        lemma_msum_remove(mv, c);
        assert(mc.remove(v) =~= mv.remove(c));
    }
}

/// Inserting a value adds exactly that value to the sum.
pub proof fn lemma_msum_insert(m: Multiset<int>, v: int)
    ensures
        msum(m.insert(v)) == msum(m) + v,
{
    lemma_msum_remove(m.insert(v), v);
    assert(m.insert(v).remove(v) =~= m);
}

/// The sum of a multiset union is the sum of the parts.
pub proof fn lemma_msum_add(a: Multiset<int>, b: Multiset<int>)
    ensures
        msum(a.add(b)) == msum(a) + msum(b),
    decreases b.len(),
{
    if b.len() == 0 {
        assert(forall|v: int| b.count(v) <= b.len());
        assert(b =~= Multiset::empty());
        assert(a.add(b) =~= a);
    } else {
        let v = b.choose();
        lemma_msum_remove(b, v);
        lemma_msum_add(a, b.remove(v));
        assert(a.add(b) =~= a.add(b.remove(v)).insert(v));
        lemma_msum_insert(a.add(b.remove(v)), v);
    }
}

/// When every value of a multiset lies in `[lo, hi]`, its sum lies between
/// `lo` and `hi` times the size.
pub proof fn lemma_msum_bounds(m: Multiset<int>, lo: int, hi: int)
    requires
        forall|v: int| m.contains(v) ==> lo <= v <= hi,
    ensures
        lo * m.len() <= msum(m) <= hi * m.len(),
    decreases m.len(),
{
    if m.len() == 0 {
    } else {
        let v = m.choose();
        let rest = m.remove(v);
        assert(m.contains(v));
        assert(lo <= v <= hi);
        assert(Multiset::singleton(v).subset_of(m));
        assert forall|w: int| rest.contains(w) implies lo <= w <= hi by {
            assert(m.contains(w));
        }
        lemma_msum_bounds(rest, lo, hi);
        assert(msum(m) == v + msum(rest)) by {
            lemma_msum_remove(m, v);
        }
        assert(lo * m.len() == lo * rest.len() + lo) by (nonlinear_arith)
            requires m.len() == rest.len() + 1;
        assert(hi * m.len() == hi * rest.len() + hi) by (nonlinear_arith)
            requires m.len() == rest.len() + 1;
    }
}

/// Running statistics of one station: the number of recorded values, their
/// exact sum, and the least and greatest value.  `vals` is the ghost multiset
/// of every value the aggregate has absorbed.
#[derive(Clone, Copy)]
pub struct Aggregate {
    pub count: u64,
    pub sum: i128,
    pub min: i16,
    pub max: i16,
    pub vals: Ghost<Multiset<int>>,
}

impl Aggregate {
    /// The concrete fields agree with the ghost multiset of recorded values.
    pub open spec fn wf(self) -> bool {
        &&& self.vals@.len() == self.count
        &&& msum(self.vals@) == self.sum
        &&& self.vals@.contains(self.min as int)
        &&& self.vals@.contains(self.max as int)
        &&& forall|v: int| self.vals@.contains(v) ==> self.min as int <= v <= self.max as int
    }

    /// A well-formed aggregate has absorbed at least one value, and its sum is
    /// strictly smaller in magnitude than 2^79, so that one more value or one
    /// more aggregate always fits into the 128-bit sum.
    pub proof fn lemma_sum_bound(self)
        requires
            self.wf(),
        ensures
            self.count >= 1,
            -0x8000_0000_0000_0000_0000 < self.sum < 0x8000_0000_0000_0000_0000,
    {
        assert(self.vals@.count(self.min as int) <= self.vals@.len());
        lemma_msum_bounds(self.vals@, -0x8000, 0x7fff);
        assert(-0x8000 * self.vals@.len() > -0x8000_0000_0000_0000_0000) by (nonlinear_arith)
            requires self.vals@.len() < 0x1_0000_0000_0000_0000;
        assert(0x7fff * self.vals@.len() < 0x8000_0000_0000_0000_0000) by (nonlinear_arith)
            requires self.vals@.len() < 0x1_0000_0000_0000_0000;
    }

    /// A fresh aggregate for a station's first recorded value.
    pub fn new(v: i16) -> (a: Aggregate)
        ensures
            a.wf(),
            a.vals@ == Multiset::<int>::empty().insert(v as int),
            a.count == 1,
            a.sum == v as int,
            a.min == v,
            a.max == v,
    {
        let a = Aggregate {
            count: 1,
            sum: v as i128,
            min: v,
            max: v,
            vals: Ghost(Multiset::empty().insert(v as int)),
        };
        proof {
            lemma_msum_insert(Multiset::empty(), v as int);
        }
        a
    }

    /// Absorb one more value: bump the count, add to the sum, widen the bounds.
    pub fn record(&mut self, v: i16)
        requires
            old(self).wf(),
            old(self).count < u64::MAX,
        ensures
            final(self).wf(),
            final(self).vals@ == old(self).vals@.insert(v as int),
            final(self).count == old(self).count + 1,
            final(self).sum == old(self).sum + v as int,
            final(self).min == (if v < old(self).min { v } else { old(self).min }),
            final(self).max == (if v > old(self).max { v } else { old(self).max }),
    {
        proof {
            old(self).lemma_sum_bound();
            lemma_msum_insert(old(self).vals@, v as int);
        }
        self.count = self.count + 1;
        self.sum = self.sum + v as i128;
        if v < self.min {
            self.min = v;
        }
        if v > self.max {
            self.max = v;
        }
        self.vals = Ghost(self.vals@.insert(v as int));
        proof {
            assert forall|x: int| self.vals@.contains(x) implies self.min as int <= x
                <= self.max as int by {
                if old(self).vals@.contains(x) {
                } else {
                    assert(x == v as int);
                }
            }
        }
    }

    /// Fold another station's aggregate into this one.  The result describes
    /// the union of the two multisets of recorded values, so merging is as
    /// good as having recorded everything in one place.
    pub fn combine(&mut self, other: &Aggregate)
        requires
            old(self).wf(),
            other.wf(),
            old(self).count + other.count <= u64::MAX,
        ensures
            final(self).wf(),
            final(self).vals@ == old(self).vals@.add(other.vals@),
            final(self).count == old(self).count + other.count,
            final(self).sum == old(self).sum + other.sum,
            final(self).min == (if other.min < old(self).min { other.min } else { old(self).min }),
            final(self).max == (if other.max > old(self).max { other.max } else { old(self).max }),
    {
        proof {
            old(self).lemma_sum_bound();
            other.lemma_sum_bound();
            lemma_msum_add(old(self).vals@, other.vals@);
        }
        self.count = self.count + other.count;
        self.sum = self.sum + other.sum;
        if other.min < self.min {
            self.min = other.min;
        }
        if other.max > self.max {
            self.max = other.max;
        }
        self.vals = Ghost(self.vals@.add(other.vals@));
        proof {
            assert forall|x: int| self.vals@.contains(x) implies self.min as int <= x
                <= self.max as int by {
                if old(self).vals@.contains(x) {
                } else {
                    assert(other.vals@.contains(x));
                }
            }
        }
    }
}

/// An aggregate is a function of its multiset of recorded values alone: two
/// well-formed aggregates over the same multiset agree in every field, however
/// the values were partitioned, ordered or merged on the way.
pub proof fn lemma_aggregate_determined(a: Aggregate, b: Aggregate)
    requires
        a.wf(),
        b.wf(),
        a.vals@ == b.vals@,
    ensures
        a.count == b.count,
        a.sum == b.sum,
        a.min == b.min,
        a.max == b.max,
{
}

} // verus!
