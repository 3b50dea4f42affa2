//! Running statistics of one key: minimum, maximum, sum and count of the
//! scaled measurements observed for it, with the merge rule that combines
//! the statistics of two disjoint partitions.
use vstd::prelude::*;
use crate::MAX_ABS;

verus! {

/// Mathematical model of a statistics record.
#[verifier::ext_equal]
pub ghost struct SStats {
    pub min: int,
    pub max: int,
    pub sum: int,
    pub count: nat,
}

/// Statistics after the first observation of a key.
pub open spec fn stats_seed(v: int) -> SStats {
    SStats { min: v, max: v, sum: v, count: 1 }
}

/// Statistics after one further observation.
pub open spec fn stats_add(s: SStats, v: int) -> SStats {
    SStats {
        min: if v < s.min { v } else { s.min },
        max: if v > s.max { v } else { s.max },
        sum: s.sum + v,
        count: s.count + 1,
    }
}

/// The merge rule: statistics of the union of two observation multisets.
pub open spec fn stats_union(a: SStats, b: SStats) -> SStats {
    SStats {
        min: if b.min < a.min { b.min } else { a.min },
        max: if b.max > a.max { b.max } else { a.max },
        sum: a.sum + b.sum,
        count: a.count + b.count,
    }
}

/// Well-formedness: at least one observation, ordered extremes in range,
/// and a sum bounded by what `count` observations can reach.
pub open spec fn stats_wf(s: SStats) -> bool {
    s.count >= 1 && s.min <= s.max && -MAX_ABS < s.min && s.max < MAX_ABS && s.count * (-MAX_ABS)
        < s.sum < s.count * MAX_ABS
}

pub proof fn lemma_seed_wf(v: int)
    requires
        -MAX_ABS < v < MAX_ABS,
    ensures
        stats_wf(stats_seed(v)),
{
}

pub proof fn lemma_add_wf(s: SStats, v: int)
    requires
        stats_wf(s),
        -MAX_ABS < v < MAX_ABS,
    ensures
        stats_wf(stats_add(s, v)),
{
    assert((s.count + 1) * (-MAX_ABS) < s.sum + v < (s.count + 1) * MAX_ABS) by (nonlinear_arith)
        requires
            s.count * (-MAX_ABS) < s.sum < s.count * MAX_ABS,
            -MAX_ABS < v < MAX_ABS,
    ;
}

pub proof fn lemma_union_wf(a: SStats, b: SStats)
    requires
        stats_wf(a),
        stats_wf(b),
    ensures
        stats_wf(stats_union(a, b)),
{
    assert((a.count + b.count) * (-MAX_ABS) < a.sum + b.sum < (a.count + b.count) * MAX_ABS)
        by (nonlinear_arith)
        requires
            a.count * (-MAX_ABS) < a.sum < a.count * MAX_ABS,
            b.count * (-MAX_ABS) < b.sum < b.count * MAX_ABS,
    ;
}

/// Merging a seed equals one further observation.
pub proof fn lemma_union_seed(s: SStats, v: int)
    ensures
        stats_union(s, stats_seed(v)) == stats_add(s, v),
{
}

/// The merge rule is commutative.
pub proof fn lemma_union_comm(a: SStats, b: SStats)
    ensures
        stats_union(a, b) == stats_union(b, a),
{
}

/// The merge rule is associative.
pub proof fn lemma_union_assoc(a: SStats, b: SStats, c: SStats)
    ensures
        stats_union(stats_union(a, b), c) == stats_union(a, stats_union(b, c)),
{
}

/// Executable statistics record. `min`, `max` and `sum` are in scaled
/// measurement units; `count` is the number of observations.
pub struct Stats {
    pub min: i64,
    pub max: i64,
    pub sum: i128,
    pub count: u64,
}

impl View for Stats {
    type V = SStats;

    open spec fn view(&self) -> SStats {
        SStats { min: self.min as int, max: self.max as int, sum: self.sum as int, count: self.count as nat }
    }
}

impl Clone for Stats {
    fn clone(&self) -> (r: Self)
        ensures
            r@ == self@,
    {
        Stats { min: self.min, max: self.max, sum: self.sum, count: self.count }
    }
}

impl Stats {
    /// Seeds a statistics record from the first observation of a key.
    pub fn new(v: i64) -> (r: Stats)
        requires
            -MAX_ABS < v < MAX_ABS,
        ensures
            r@ == stats_seed(v as int),
            stats_wf(r@),
    {
        Stats { min: v, max: v, sum: v as i128, count: 1 }
    }

    /// Applies one further observation of the same key.
    pub fn update(&mut self, v: i64)
        requires
            stats_wf(old(self)@),
            -MAX_ABS < v < MAX_ABS,
            old(self)@.count + 1 <= u64::MAX,
        ensures
            final(self)@ == stats_add(old(self)@, v as int),
            stats_wf(final(self)@),
    {
        proof {
            lemma_add_wf(self@, v as int);
            assert(-(u64::MAX * (MAX_ABS as int)) < self@.sum + v < u64::MAX * (MAX_ABS as int))
                by (nonlinear_arith)
                requires
                    self@.count * (-MAX_ABS) < self@.sum < self@.count * MAX_ABS,
                    -MAX_ABS < v < MAX_ABS,
                    self@.count + 1 <= u64::MAX,
            ;
        }
        if v < self.min {
            self.min = v;
        }
        if v > self.max {
            self.max = v;
        }
        self.sum = self.sum + v as i128;
        self.count = self.count + 1;
    }

    /// Merges the statistics of another partition into this one.
    pub fn merge(&mut self, other: &Stats)
        requires
            stats_wf(old(self)@),
            stats_wf(other@),
            old(self)@.count + other@.count <= u64::MAX,
        ensures
            final(self)@ == stats_union(old(self)@, other@),
            stats_wf(final(self)@),
    {
        proof {
            lemma_union_wf(self@, other@);
            assert(-(u64::MAX * (MAX_ABS as int)) < self@.sum + other@.sum < u64::MAX * (
            MAX_ABS as int)) by (nonlinear_arith)
                requires
                    self@.count * (-MAX_ABS) < self@.sum < self@.count * MAX_ABS,
                    other@.count * (-MAX_ABS) < other@.sum < other@.count * MAX_ABS,
                    self@.count + other@.count <= u64::MAX,
            ;
        }
        if other.min < self.min {
            self.min = other.min;
        }
        if other.max > self.max {
            self.max = other.max;
        }
        self.sum = self.sum + other.sum;
        self.count = self.count + other.count;
    }

    /// The mean, scaled by a further factor `m` and truncated toward zero,
    /// so a caller can pick its display precision.
    pub fn mean_scaled(&self, m: u64) -> (r: i128)
        requires
            stats_wf(self@),
            1 <= m <= 1000,
        ensures
            self@.sum >= 0 ==> r == (self@.sum * m) / (self@.count as int),
            self@.sum < 0 ==> r == -(((-self@.sum) * m) / (self@.count as int)),
    {
        proof {
            assert(0 <= (if self@.sum < 0 { -self@.sum } else { self@.sum }) * m < u64::MAX * (
            MAX_ABS as int) * 1000) by (nonlinear_arith)
                requires
                    self@.count * (-MAX_ABS) < self@.sum < self@.count * MAX_ABS,
                    self@.count <= u64::MAX,
                    1 <= m <= 1000,
            ;
        }
        let neg: bool = self.sum < 0;
        let mag: u128 = if neg {
            (-self.sum) as u128
        } else {
            self.sum as u128
        };
        let q: u128 = (mag * m as u128) / (self.count as u128);
        proof {
            assert((mag as int * m as int) / (self.count as int) <= mag as int * m as int)
                by (nonlinear_arith)
                requires
                    self.count as int >= 1,
                    mag as int * m as int >= 0,
            ;
        }
        if neg {
            -(q as i128)
        } else {
            q as i128
        }
    }
}

} // verus!
