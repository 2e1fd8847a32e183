//! The score scalar: an exact fixed-point number.
//!
//! A score is a signed count of *units*, where one score point is `SCALE`
//! units. `SCALE` is divisible by one million, so any decimal literal with
//! up to six fractional digits is represented exactly, and by every integer
//! from 1 to 30 (its factorization is 2^6 * 3^3 * 5^6 * 7 * 11 * 13 * 17 *
//! 19 * 23 * 29), so the reciprocal-rank terms 1/(1+r) are exact for every
//! rank r below 30 and for many larger ones. Unlike a native floating-point
//! score, a `Score` is never NaN by construction and its arithmetic is
//! exact wherever the contracts below say so; magnitudes beyond
//! `UNITS_LIMIT` saturate instead of overflowing.

use vstd::prelude::*;

verus! {

/// Units in one score point. One million times `MICRO_UNITS`, and divisible
/// by every integer from 1 to 30.
pub const SCALE: i128 = 5_822_723_907_000_000;

/// Units in one millionth of a score point: `SCALE / 1_000_000`.
pub const MICRO_UNITS: i128 = 5_822_723_907;

/// Largest unit count a `Score` can hold; arithmetic saturates here.
pub const UNITS_LIMIT: i128 = 1_000_000_000_000_000_000_000_000_000_000_000_000;

/// Clamps a unit count into the representable range.
pub open spec fn clamp_units(x: int) -> int {
    if x > UNITS_LIMIT as int {
        UNITS_LIMIT as int
    } else if x < -(UNITS_LIMIT as int) {
        -(UNITS_LIMIT as int)
    } else {
        x
    }
}

/// A search result's similarity score: an exact signed fixed-point value of
/// `units / SCALE` points. The view of a `Score` is its unit count.
#[derive(Clone, Copy, Debug, PartialEq, Eq, Structural)]
pub struct Score {
    units: i128,
}

impl View for Score {
    type V = int;

    closed spec fn view(&self) -> int {
        self.units as int
    }
}

impl Score {
    #[verifier::type_invariant]
    pub closed spec fn bounded(self) -> bool {
        -UNITS_LIMIT <= self.units <= UNITS_LIMIT
    }

    /// What the type invariant means for the view: every score's unit
    /// count lies within the representable bound.
    pub proof fn lemma_bounded(self)
        requires
            self.bounded(),
        ensures
            -(UNITS_LIMIT as int) <= self@ <= UNITS_LIMIT as int,
    {
    }

    /// The score of value zero.
    pub fn zero() -> (r: Score)
        ensures
            r@ == 0,
    {
        Score { units: 0 }
    }

    /// The neutral score of one point, the default for rank-only entries.
    pub fn one() -> (r: Score)
        ensures
            r@ == SCALE as int,
    {
        Score { units: SCALE }
    }

    /// Builds a score out of a raw unit count.
    pub fn from_units(units: i128) -> (r: Score)
        requires
            -UNITS_LIMIT <= units <= UNITS_LIMIT,
        ensures
            r@ == units as int,
    {
        Score { units }
    }

    /// Builds a score of `m` millionths of a point, exactly.
    pub fn from_micros(m: i64) -> (r: Score)
        ensures
            r@ == m as int * MICRO_UNITS as int,
    {
        Score { units: (m as i128) * MICRO_UNITS }
    }

    /// The raw unit count; `raw() / SCALE` is the score's value in points.
    pub fn raw(&self) -> (u: i128)
        ensures
            u as int == self@,
    {
        self.units
    }

    /// Compares by value: scores are totally ordered by their unit count.
    pub fn le(&self, other: &Score) -> (r: bool)
        ensures
            r == (self@ <= other@),
    {
        self.units <= other.units
    }

    /// Multiplies a score by a count, exactly, saturating at the bound.
    pub fn scale_by(self, n: usize) -> (r: Score)
        ensures
            r@ == clamp_units(n as int * self@),
    {
        proof {
            use_type_invariant(self);
        }
        if self.units == 0 || n == 0 {
            proof {
                assert(n as int * self@ == 0) by (nonlinear_arith)
                    requires
                        self@ == 0 || n as int == 0,
                ;
            }
            return Score { units: 0 };
        }
        let neg = self.units < 0;
        let mag: u128 = if neg {
            (-self.units) as u128
        } else {
            self.units as u128
        };
        proof {
            assert(neg ==> self@ == -(mag as int));
            assert(!neg ==> self@ == mag as int);
            assert(forall|k: int|
                k >= 0 ==> #[trigger] (k * (-(mag as int))) == -(k * mag as int))
                by (nonlinear_arith);
        }
        let q: u128 = (UNITS_LIMIT as u128) / mag;
        proof {
            assert(q as int == UNITS_LIMIT as int / mag as int);
            vstd::arithmetic::div_mod::lemma_fundamental_div_mod(UNITS_LIMIT as int, mag as int);
            vstd::arithmetic::div_mod::lemma_mod_bound(UNITS_LIMIT as int, mag as int);
            assert(q as int * mag as int <= UNITS_LIMIT as int) by (nonlinear_arith)
                requires
                    q as int == UNITS_LIMIT as int / mag as int,
                    mag as int > 0,
            ;
        }
        if (n as u128) > q {
            proof {
                assert((q as int + 1) * mag as int == q as int * mag as int + mag as int)
                    by (nonlinear_arith);
                vstd::arithmetic::mul::lemma_mul_inequality(q as int + 1, n as int, mag as int);
                assert(n as int * mag as int > UNITS_LIMIT as int);
            }
            if neg {
                Score { units: -UNITS_LIMIT }
            } else {
                Score { units: UNITS_LIMIT }
            }
        } else {
            proof {
                vstd::arithmetic::mul::lemma_mul_inequality(n as int, q as int, mag as int);
                assert(n as int * mag as int <= UNITS_LIMIT as int);
            }
            let p: u128 = (n as u128) * mag;
            let pu: i128 = p as i128;
            if neg {
                Score { units: -pu }
            } else {
                Score { units: pu }
            }
        }
    }

    /// Adds two scores exactly, saturating at the representable bound.
    pub fn saturating_add(self, other: Score) -> (r: Score)
        ensures
            r@ == clamp_units(self@ + other@),
    {
        proof {
            use_type_invariant(self);
            use_type_invariant(other);
        }
        let s = self.units + other.units;
        if s > UNITS_LIMIT {
            Score { units: UNITS_LIMIT }
        } else if s < -UNITS_LIMIT {
            Score { units: -UNITS_LIMIT }
        } else {
            Score { units: s }
        }
    }
}

/// Creates a score of a whole number of points.
///
/// Any `i64` number of points is representable, so unlike a NaN-checking
/// floating-point factory this one is total.
pub fn score(value: i64) -> (r: Score)
    ensures
        r@ == value as int * SCALE as int,
{
    Score { units: (value as i128) * SCALE }
}

} // verus!
