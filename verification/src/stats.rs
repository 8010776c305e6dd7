//! Per-key running statistics: minimum, maximum, and arithmetic mean.
//!
//! Values are exact decimals, so the statistics are exact integers on the
//! mantissa scale: the running sum accumulates no round-off, and the mean
//! `sum / count` is the true arithmetic mean of every value folded.

use vstd::arithmetic::div_mod::{lemma_fundamental_div_mod, lemma_fundamental_div_mod_converse};
use vstd::prelude::*;

use crate::decimal::Decimal;

verus! {

/// Mathematical model of the statistics for one key, on the mantissa scale.
pub struct StatsModel {
    pub min: int,
    pub max: int,
    pub sum: int,
    pub count: nat,
}

pub open spec fn min2(a: int, b: int) -> int {
    if b < a {
        b
    } else {
        a
    }
}

pub open spec fn max2(a: int, b: int) -> int {
    if b > a {
        b
    } else {
        a
    }
}

/// Statistics after the first value of a key.
pub open spec fn init_stats(x: int) -> StatsModel {
    StatsModel { min: x, max: x, sum: x, count: 1 }
}

/// One fold step: incorporate `x` into the statistics.
pub open spec fn fold_one(m: StatsModel, x: int) -> StatsModel {
    StatsModel { min: min2(m.min, x), max: max2(m.max, x), sum: m.sum + x, count: m.count + 1 }
}

/// Statistics over a whole nonempty sequence of values, folded in order.
pub open spec fn fold_seq(s: Seq<int>) -> StatsModel
    decreases s.len(),
{
    if s.len() <= 1 {
        init_stats(s[0])
    } else {
        fold_one(fold_seq(s.drop_last()), s.last())
    }
}

pub open spec fn sum_seq(s: Seq<int>) -> int
    decreases s.len(),
{
    if s.len() == 0 {
        0
    } else {
        sum_seq(s.drop_last()) + s.last()
    }
}

/// Least element of a nonempty sequence.
pub open spec fn min_seq(s: Seq<int>) -> int
    decreases s.len(),
{
    if s.len() <= 1 {
        s[0]
    } else {
        min2(min_seq(s.drop_last()), s.last())
    }
}

/// Greatest element of a nonempty sequence.
pub open spec fn max_seq(s: Seq<int>) -> int
    decreases s.len(),
{
    if s.len() <= 1 {
        s[0]
    } else {
        max2(max_seq(s.drop_last()), s.last())
    }
}

/// The exact mean of a nonempty sequence under the incremental update
/// `mean' = mean + (x - mean) / count'`, carried as a fraction
/// (numerator, denominator) so each step is exact.
pub open spec fn welford(s: Seq<int>) -> (int, int)
    decreases s.len(),
{
    if s.len() <= 1 {
        (s[0], 1)
    } else {
        let (a, b) = welford(s.drop_last());
        let n = s.len() as int;
        (a * (n - 1) + s.last() * b, b * n)
    }
}

/// The statistics held for `key` after folding one more value into the
/// table `m`: the key's first value starts its statistics, a later value
/// is folded into them.
pub open spec fn folded_stats(m: Map<Seq<u8>, StatsModel>, key: Seq<u8>, x: int) -> StatsModel {
    if m.contains_key(key) {
        fold_one(m[key], x)
    } else {
        init_stats(x)
    }
}

/// Running mean of the values folded for one key.
///
/// The mean is carried exactly, as the pair of the running sum and the
/// count; `value` divides them out. Folding one value is a constant-time,
/// constant-space update, and the stored mean is exact however long the
/// stream runs.
#[derive(Clone, Copy, Debug, PartialEq, Eq, Structural)]
pub struct Mean {
    pub sum: i128,
    pub count: u64,
}

impl Mean {
    pub fn new(value: Decimal) -> (r: Mean)
        ensures
            r.sum == value.mantissa,
            r.count == 1,
    {
        Mean { sum: value.mantissa, count: 1 }
    }

    /// Fold one more value into the mean. Returns false, leaving the mean
    /// unchanged, exactly when the running sum would leave `i128` or the
    /// count would leave `u64`.
    pub fn update(&mut self, value: Decimal) -> (ok: bool)
        ensures
            ok ==> final(self).sum == old(self).sum + value.mantissa && final(self).count == old(
                self,
            ).count + 1,
            !ok ==> *final(self) == *old(self),
            ok <==> (i128::MIN <= old(self).sum + value.mantissa <= i128::MAX && old(self).count
                < u64::MAX),
    {
        if self.count == u64::MAX {
            return false;
        }
        match self.sum.checked_add(value.mantissa) {
            Some(s) => {
                self.sum = s;
                self.count = self.count + 1;
                true
            },
            None => false,
        }
    }

    /// The exact mean, when it is a whole number of billionths: the unique
    /// `d` with `d.mantissa * count == sum`. Returns `None` exactly when
    /// the mean falls between representable values.
    pub fn value(&self) -> (r: Option<Decimal>)
        requires
            self.count >= 1,
            self.sum > i128::MIN,
        ensures
            r matches Some(d) ==> d.mantissa * self.count == self.sum,
            r is Some <==> exists|q: int| #[trigger] (q * self.count) == self.sum,
    {
        let d = self.count as i128;
        let rem = match self.sum.checked_rem(d) {
            Some(r) => r,
            None => {
                proof {
                    assert(false);
                }
                0
            },
        };
        if rem != 0 {
            proof {
                lemma_no_exact_quotient(self.sum as int, d as int, rem as int);
            }
            return None;
        }
        let q = match self.sum.checked_div(d) {
            Some(q) => q,
            None => {
                proof {
                    lemma_exact_quotient_fits(self.sum as int, d as int);
                    assert(false);
                }
                0
            },
        };
        proof {
            lemma_exact_quotient(self.sum as int, d as int, q as int);
        }
        Some(Decimal::new(q))
    }
}

/// For positive `d`, a nonzero truncating remainder means no integer
/// multiple of `d` equals `x`.
proof fn lemma_no_exact_quotient(x: int, d: int, rem: int)
    requires
        d >= 1,
        x > i128::MIN,
        rem == (if x == 0 {
            0int
        } else if x > 0 {
            x % d
        } else {
            ((x * -1) % d) * -1
        }),
        rem != 0,
    ensures
        forall|q: int| #[trigger] (q * d) != x,
{
    assert forall|q: int| #[trigger] (q * d) != x by {
        if q * d == x {
            if x > 0 {
                lemma_fundamental_div_mod_converse(x, d, q, 0);
            } else if x < 0 {
                assert((-q) * d == x * -1) by (nonlinear_arith)
                    requires
                        q * d == x,
                ;
                lemma_fundamental_div_mod_converse(x * -1, d, -q, 0);
            }
        }
    }
}

/// For positive `d`, when the truncating remainder is zero the truncating
/// quotient is the exact quotient.
proof fn lemma_exact_quotient(x: int, d: int, q: int)
    requires
        d >= 1,
        (if x == 0 {
            0int
        } else if x > 0 {
            x % d
        } else {
            ((x * -1) % d) * -1
        }) == 0,
        q == (if x == 0 {
            0int
        } else if x > 0 {
            x / d
        } else {
            ((x * -1) / d) * -1
        }),
    ensures
        q * d == x,
{
    if x > 0 {
        lemma_fundamental_div_mod(x, d);
        assert((x / d) * d == x) by (nonlinear_arith)
            requires
                x == d * (x / d) + x % d,
                x % d == 0,
        ;
    } else if x < 0 {
        lemma_fundamental_div_mod(x * -1, d);
        assert((((x * -1) / d) * -1) * d == x) by (nonlinear_arith)
            requires
                x * -1 == d * ((x * -1) / d) + (x * -1) % d,
                (x * -1) % d == 0,
        ;
    }
}

/// The exact quotient of an `i128` by a positive `i128` stays in range
/// (for `x` above `i128::MIN`), so `checked_div` cannot fail.
proof fn lemma_exact_quotient_fits(x: int, d: int)
    requires
        d >= 1,
        i128::MIN < x <= i128::MAX,
    ensures
        (if x == 0 {
            0int
        } else if x > 0 {
            x / d
        } else {
            ((x * -1) / d) * -1
        }) <= i128::MAX,
        (if x == 0 {
            0int
        } else if x > 0 {
            x / d
        } else {
            ((x * -1) / d) * -1
        }) >= i128::MIN,
{
    if x > 0 {
        assert(0 <= x / d <= x) by (nonlinear_arith)
            requires
                x > 0,
                d >= 1,
        ;
    } else if x < 0 {
        assert(0 <= (x * -1) / d <= x * -1) by (nonlinear_arith)
            requires
                x * -1 > 0,
                d >= 1,
        ;
    }
}

/// Statistics for one key: minimum, maximum, and running mean of every
/// value folded so far, all exact.
#[derive(Clone, Copy, Debug, PartialEq, Eq, Structural)]
pub struct StationData {
    pub min: Decimal,
    pub max: Decimal,
    pub mean: Mean,
}

impl StationData {
    /// The statistics this value holds, as a mathematical model.
    pub open spec fn model(self) -> StatsModel {
        StatsModel {
            min: self.min.mantissa as int,
            max: self.max.mantissa as int,
            sum: self.mean.sum as int,
            count: self.mean.count as nat,
        }
    }

    /// Statistics after a key's first value: minimum, maximum and mean all
    /// equal that value.
    pub fn new(value: Decimal) -> (r: StationData)
        ensures
            r.model() == init_stats(value.mantissa as int),
    {
        StationData { min: value, max: value, mean: Mean::new(value) }
    }

    /// Fold one more value into the statistics. Returns false, leaving the
    /// statistics unchanged, exactly when the running sum or count would
    /// overflow.
    pub fn update(&mut self, value: Decimal) -> (ok: bool)
        ensures
            ok ==> final(self).model() == fold_one(old(self).model(), value.mantissa as int),
            !ok ==> *final(self) == *old(self),
            ok <==> (i128::MIN <= old(self).mean.sum + value.mantissa <= i128::MAX && old(
                self,
            ).mean.count < u64::MAX),
    {
        let ok = self.mean.update(value);
        if !ok {
            return false;
        }
        if value.mantissa < self.min.mantissa {
            self.min = value;
        }
        if value.mantissa > self.max.mantissa {
            self.max = value;
        }
        true
    }
}

/// Folding a nonempty sequence of values yields exactly its minimum, its
/// maximum, its sum, and its length: the stored minimum and maximum are the
/// true extrema over every value folded, and the stored sum admits no
/// drift, so the mean `sum / count` is the true arithmetic mean.
pub proof fn lemma_fold_stats(s: Seq<int>)
    requires
        s.len() >= 1,
    ensures
        fold_seq(s).min == min_seq(s),
        fold_seq(s).max == max_seq(s),
        fold_seq(s).sum == sum_seq(s),
        fold_seq(s).count == s.len(),
    decreases s.len(),
{
    if s.len() == 1 {
        assert(s.drop_last().len() == 0);
        assert(sum_seq(s.drop_last()) == 0);
    } else {
        lemma_fold_stats(s.drop_last());
    }
}

/// The incremental mean recurrence is exact: after folding a nonempty
/// sequence, the fraction it carries equals the arithmetic mean
/// `sum / count` of all the values.
pub proof fn lemma_welford_is_mean(s: Seq<int>)
    requires
        s.len() >= 1,
    ensures
        welford(s).1 > 0,
        welford(s).0 * s.len() == sum_seq(s) * welford(s).1,
    decreases s.len(),
{
    if s.len() == 1 {
        assert(s.drop_last().len() == 0);
        assert(sum_seq(s.drop_last()) == 0);
    } else {
        let t = s.drop_last();
        lemma_welford_is_mean(t);
        assert(sum_seq(s) == sum_seq(t) + s.last());
        let (a, b) = welford(t);
        let n = s.len() as int;
        let x = s.last();
        assert(b * n > 0) by (nonlinear_arith)
            requires
                b > 0,
                n > 1,
        ;
        assert((a * (n - 1) + x * b) * n == (sum_seq(t) + x) * (b * n)) by (nonlinear_arith)
            requires
                a * (n - 1) == sum_seq(t) * b,
                n == t.len() + 1,
                t.len() >= 1,
        ;
    }
}

/// A key observed exactly once reports that value as its minimum, maximum,
/// and mean.
pub proof fn lemma_single_value(x: int)
    ensures
        fold_seq(seq![x]) == init_stats(x),
        min_seq(seq![x]) == x,
        max_seq(seq![x]) == x,
        sum_seq(seq![x]) == x,
{
    assert(seq![x].drop_last() =~= Seq::<int>::empty());
    assert(sum_seq(Seq::<int>::empty()) == 0);
}

/// Folding at the end and folding at the front commute.
proof fn lemma_fold_prepend(x: int, t: Seq<int>)
    requires
        t.len() >= 1,
    ensures
        fold_seq(seq![x] + t) == fold_one(fold_seq(t), x),
    decreases t.len(),
{
    if t.len() == 1 {
        let s = seq![x] + t;
        assert(s.drop_last() =~= seq![x]);
        assert(s.last() == t[0]);
        assert(fold_seq(seq![x]) == init_stats(x));
        assert(fold_seq(t) == init_stats(t[0]));
        assert(fold_seq(s) == fold_one(init_stats(x), t[0]));
    } else {
        let tp = t.drop_last();
        let y = t.last();
        lemma_fold_prepend(x, tp);
        let s = seq![x] + t;
        assert(s.drop_last() =~= seq![x] + tp);
        assert(s.last() == y);
    }
}

/// Fold order is immaterial: folding the values in reverse order yields the
/// same statistics, hence in particular the same mean.
pub proof fn lemma_fold_reverse(s: Seq<int>)
    requires
        s.len() >= 1,
    ensures
        fold_seq(s.reverse()) == fold_seq(s),
    decreases s.len(),
{
    if s.len() == 1 {
        assert(s.reverse() =~= s);
    } else {
        let t = s.drop_last();
        let x = s.last();
        lemma_fold_reverse(t);
        assert(s.reverse() =~= seq![x] + t.reverse());
        lemma_fold_prepend(x, t.reverse());
    }
}

} // verus!
