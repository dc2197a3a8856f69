//! Running statistics of the values seen for one key.

use vstd::prelude::*;

verus! {

/// The statistics of a non-empty collection of values, as mathematics sees
/// them.
pub struct Stats {
    pub min: int,
    pub max: int,
    pub sum: int,
    pub count: nat,
}

impl Stats {
    /// The statistics of the single value `v`.
    pub open spec fn seed(v: int) -> Stats {
        Stats { min: v, max: v, sum: v, count: 1 }
    }

    /// The statistics after one more value `v`.
    pub open spec fn observe(self, v: int) -> Stats {
        Stats {
            min: if v < self.min {
                v
            } else {
                self.min
            },
            max: if v > self.max {
                v
            } else {
                self.max
            },
            sum: self.sum + v,
            count: self.count + 1,
        }
    }

    /// The statistics of two collections taken together.
    pub open spec fn combine(self, other: Stats) -> Stats {
        Stats {
            min: if other.min < self.min {
                other.min
            } else {
                self.min
            },
            max: if other.max > self.max {
                other.max
            } else {
                self.max
            },
            sum: self.sum + other.sum,
            count: self.count + other.count,
        }
    }

    /// The mean, rounded toward zero.
    pub open spec fn mean(self) -> int {
        if self.sum >= 0 {
            self.sum / (self.count as int)
        } else {
            -((-self.sum) / (self.count as int))
        }
    }

    /// At least one value was seen, and every value seen fits an `i64`.
    pub open spec fn valid(self) -> bool {
        &&& self.count >= 1
        &&& i64::MIN <= self.min <= self.max <= i64::MAX
        &&& self.count * (-0x8000_0000_0000_0000) <= self.sum
        &&& self.sum <= self.count * 0x7fff_ffff_ffff_ffff
    }
}

/// The running minimum, maximum, sum and count of the values of one key.
/// Values and sum are in units of a millionth.
#[derive(Clone, Copy, Debug, PartialEq, Eq, Structural)]
pub struct Accumulator {
    pub min: i64,
    pub max: i64,
    pub sum: i128,
    pub count: u64,
}

impl View for Accumulator {
    type V = Stats;

    open spec fn view(&self) -> Stats {
        Stats {
            min: self.min as int,
            max: self.max as int,
            sum: self.sum as int,
            count: self.count as nat,
        }
    }
}

impl Accumulator {
    /// The accumulator's invariant.
    pub open spec fn valid(&self) -> bool {
        self@.valid()
    }

    /// An accumulator that has seen `value` alone.
    pub fn new(value: i64) -> (a: Accumulator)
        ensures
            a@ == Stats::seed(value as int),
            a.valid(),
    {
        Accumulator { min: value, max: value, sum: value as i128, count: 1 }
    }

    /// Takes in one more value.
    pub fn update(&mut self, value: i64)
        requires
            old(self).valid(),
            old(self).count < u64::MAX,
        ensures
            final(self)@ == old(self)@.observe(value as int),
            final(self).valid(),
    {
        if value < self.min {
            self.min = value;
        }
        if value > self.max {
            self.max = value;
        }
        self.sum = self.sum + value as i128;
        self.count = self.count + 1;
    }

    /// Takes in everything that `other` has seen.
    pub fn merge(&mut self, other: &Accumulator)
        requires
            old(self).valid(),
            other.valid(),
            old(self).count + other.count <= u64::MAX,
        ensures
            final(self)@ == old(self)@.combine(other@),
            final(self).valid(),
    {
        if other.min < self.min {
            self.min = other.min;
        }
        if other.max > self.max {
            self.max = other.max;
        }
        self.sum = self.sum + other.sum;
        self.count = self.count + other.count;
    }

    /// The mean of the values seen, rounded toward zero.
    pub fn mean(&self) -> (m: i64)
        requires
            self.valid(),
        ensures
            m == self@.mean(),
    {
        let n: u128 = self.count as u128;
        if self.sum >= 0 {
            let s: u128 = self.sum as u128;
            let q: u128 = s / n;
            assert(q <= 0x7fff_ffff_ffff_ffff) by (nonlinear_arith)
                requires
                    n >= 1,
                    s <= n * 0x7fff_ffff_ffff_ffff,
                    q == s / n,
            ;
            q as i64
        } else {
            let s: u128 = (-self.sum) as u128;
            let q: u128 = s / n;
            assert(q <= 0x8000_0000_0000_0000) by (nonlinear_arith)
                requires
                    n >= 1,
                    s <= n * 0x8000_0000_0000_0000,
                    q == s / n,
            ;
            (-(q as i128)) as i64
        }
    }
}

/// Merging is indifferent to the order of its two sides.
pub proof fn lemma_combine_commutative(a: Stats, b: Stats)
    ensures
        a.combine(b) == b.combine(a),
{
}

/// Merging is indifferent to how three sides are grouped.
pub proof fn lemma_combine_associative(a: Stats, b: Stats, c: Stats)
    ensures
        a.combine(b).combine(c) == a.combine(b.combine(c)),
{
}

/// Merging an accumulator with an equal one doubles count and sum and leaves
/// minimum and maximum as they were.
pub proof fn lemma_combine_with_equal(a: Stats, b: Stats)
    requires
        a == b,
    ensures
        a.combine(b).count == 2 * a.count,
        a.combine(b).sum == 2 * a.sum,
        a.combine(b).min == a.min,
        a.combine(b).max == a.max,
{
}

} // verus!
