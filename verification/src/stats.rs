//! Per-key running aggregate: the (min, max, sum, count) monoid.
//!
//! Values are fixed-point integers: a record value `x` stands for the
//! number `x / SCALE`. The zero-count aggregate is the identity element of
//! the merge operation, with `min` at the largest and `max` at the smallest
//! representable value.

use vstd::prelude::*;

verus! {

/// Number of fixed-point units per whole unit (four decimal digits).
pub const SCALE: i64 = 10_000;

/// Bound on the magnitude of a single record value, in fixed-point units.
/// Every parsed value `v` satisfies `-VAL_MAX < v < VAL_MAX`.
pub const VAL_MAX: i64 = 1_000_000_000_000_000_000;

/// Mathematical model of a per-key aggregate.
pub struct SStats {
    pub min: int,
    pub max: int,
    pub sum: int,
    pub count: nat,
}

/// The identity element of the merge monoid: nothing observed yet.
pub open spec fn stats_empty() -> SStats {
    SStats { min: i64::MAX as int, max: i64::MIN as int, sum: 0, count: 0 }
}

/// The aggregate of a single observation.
pub open spec fn stats_one(v: int) -> SStats {
    SStats { min: v, max: v, sum: v, count: 1 }
}

/// The merge rule: componentwise min/max, added sums and counts.
pub open spec fn stats_merge(a: SStats, b: SStats) -> SStats {
    SStats {
        min: vstd::math::min(a.min, b.min),
        max: vstd::math::max(a.max, b.max),
        sum: a.sum + b.sum,
        count: a.count + b.count,
    }
}

/// Well-formedness: either the identity, or an aggregate of `count`
/// observations each of magnitude below `VAL_MAX`.
pub open spec fn stats_wf(s: SStats) -> bool {
    if s.count == 0 {
        s == stats_empty()
    } else {
        &&& -(VAL_MAX as int) <= s.min <= s.max <= VAL_MAX as int
        &&& -(s.count as int * VAL_MAX as int) <= s.sum <= s.count as int * VAL_MAX as int
    }
}

/// Truncated-toward-zero mean of the aggregate, in fixed-point units.
pub open spec fn stats_mean(s: SStats) -> int
    recommends
        s.count > 0,
{
    if s.sum >= 0 {
        s.sum / (s.count as int)
    } else {
        -((-s.sum) / (s.count as int))
    }
}

/// Merging aggregates is commutative.
pub proof fn lemma_stats_merge_commutative(a: SStats, b: SStats)
    ensures
        stats_merge(a, b) == stats_merge(b, a),
{
}

/// Merging aggregates is associative.
pub proof fn lemma_stats_merge_associative(a: SStats, b: SStats, c: SStats)
    ensures
        stats_merge(stats_merge(a, b), c) == stats_merge(a, stats_merge(b, c)),
{
}

/// The zero-count aggregate is a two-sided identity for merge.
pub proof fn lemma_stats_merge_identity(s: SStats)
    requires
        stats_wf(s),
    ensures
        stats_merge(s, stats_empty()) == s,
        stats_merge(stats_empty(), s) == s,
{
}

/// Merging preserves well-formedness.
pub proof fn lemma_stats_merge_wf(a: SStats, b: SStats)
    requires
        stats_wf(a),
        stats_wf(b),
    ensures
        stats_wf(stats_merge(a, b)),
{
    let m = stats_merge(a, b);
    if a.count == 0 {
        lemma_stats_merge_identity(b);
    } else if b.count == 0 {
        lemma_stats_merge_identity(a);
    } else {
        let v = VAL_MAX as int;
        assert(m.sum <= m.count as int * v) by {
            vstd::arithmetic::mul::lemma_mul_is_distributive_add(v, a.count as int, b.count as int);
        };
        assert(-(m.count as int * v) <= m.sum) by {
            vstd::arithmetic::mul::lemma_mul_is_distributive_add(v, a.count as int, b.count as int);
        };
    }
}

/// A well-formed aggregate of at most `u64::MAX` observations has a sum
/// whose magnitude stays far below the `i128` range.
pub proof fn lemma_stats_sum_bound(s: SStats)
    requires
        stats_wf(s),
        s.count <= u64::MAX,
    ensures
        -(u64::MAX as int * VAL_MAX as int) <= s.sum <= u64::MAX as int * VAL_MAX as int,
{
    if s.count > 0 {
        vstd::arithmetic::mul::lemma_mul_inequality(s.count as int, u64::MAX as int, VAL_MAX as int);
    }
}

/// Per-key running aggregate, as held at run time. `sum` is kept in 128
/// bits so that the sum of up to `u64::MAX` values of magnitude below
/// `VAL_MAX` never overflows.
#[derive(Clone, Copy, Debug, PartialEq, Eq, Structural)]
pub struct Stats {
    pub min: i64,
    pub max: i64,
    pub sum: i128,
    pub count: u64,
}

impl View for Stats {
    type V = SStats;

    open spec fn view(&self) -> SStats {
        SStats {
            min: self.min as int,
            max: self.max as int,
            sum: self.sum as int,
            count: self.count as nat,
        }
    }
}

impl Stats {
    /// The identity aggregate: no observations, sentinel min and max.
    pub fn new() -> (s: Stats)
        ensures
            s@ == stats_empty(),
    {
        Stats { min: i64::MAX, max: i64::MIN, sum: 0, count: 0 }
    }

    /// Fold one observation into the aggregate.
    pub fn observe(&mut self, v: i64)
        requires
            stats_wf(old(self)@),
            -VAL_MAX < v < VAL_MAX,
            old(self)@.count < u64::MAX,
        ensures
            final(self)@ == stats_merge(old(self)@, stats_one(v as int)),
            stats_wf(final(self)@),
    {
        proof {
            lemma_stats_merge_wf(self@, stats_one(v as int));
            lemma_stats_sum_bound(self@);
        }
        if v < self.min {
            self.min = v;
        }
        if v > self.max {
            self.max = v;
        }
        self.sum = self.sum + v as i128;
        self.count = self.count + 1;
    }

    /// Fold another aggregate into this one.
    pub fn merge_from(&mut self, other: &Stats)
        requires
            stats_wf(old(self)@),
            stats_wf(other@),
            old(self)@.count + other@.count <= u64::MAX,
        ensures
            final(self)@ == stats_merge(old(self)@, other@),
            stats_wf(final(self)@),
    {
        proof {
            lemma_stats_merge_wf(self@, other@);
            lemma_stats_sum_bound(self@);
            lemma_stats_sum_bound(other@);
            lemma_stats_sum_bound(stats_merge(self@, other@));
        }
        if other.min < self.min {
            self.min = other.min;
        }
        if other.max > self.max {
            self.max = other.max;
        }
        self.sum = self.sum + other.sum;
        self.count = self.count + other.count;
    }

    /// The mean of the observed values, truncated toward zero, in
    /// fixed-point units.
    pub fn mean_scaled(&self) -> (r: i64)
        requires
            stats_wf(self@),
            self@.count > 0,
        ensures
            r as int == stats_mean(self@),
    {
        proof {
            lemma_stats_sum_bound(self@);
        }
        if self.sum >= 0 {
            proof {
                lemma_mean_magnitude(self@.sum, self@.count as int);
            }
            let q: u128 = (self.sum as u128) / (self.count as u128);
            q as i64
        } else {
            proof {
                lemma_mean_magnitude(-self@.sum, self@.count as int);
            }
            let q: u128 = ((-self.sum) as u128) / (self.count as u128);
            -(q as i64)
        }
    }
}

/// Division bound used by `mean_scaled`: a sum of `c` values each at most
/// `VAL_MAX` in magnitude has a mean at most `VAL_MAX`.
proof fn lemma_mean_magnitude(s: int, c: int)
    requires
        c >= 1,
        0 <= s <= c * VAL_MAX as int,
    ensures
        0 <= s / c <= VAL_MAX as int,
{
    let v = VAL_MAX as int;
    vstd::arithmetic::div_mod::lemma_div_is_ordered(0, s, c);
    vstd::arithmetic::div_mod::lemma_div_is_ordered(s, c * v, c);
    vstd::arithmetic::div_mod::lemma_div_multiples_vanish(v, c);
}

} // verus!
