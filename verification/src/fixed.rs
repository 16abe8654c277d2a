//! Exact real values for the constraint algebra.
//!
//! A `Real` is a fixed-point number counted in millionths of a unit, so every
//! value the algebra handles is exact: comparisons, integrality and rounding
//! are integer arithmetic, and two reals are adjacent interval endpoints
//! exactly when their counts coincide. Values finer than a millionth, and the
//! IEEE specials, are outside the supported domain.

use vstd::prelude::*;

verus! {

/// How many micro-units one whole unit holds.
pub const MICROS_PER_UNIT: i64 = 1_000_000;

/// An exact real: `micros` millionths of a unit.
#[derive(Debug, Clone, Copy, PartialEq, Eq, Structural)]
pub struct Real {
    pub micros: i64,
}

/// Whether a count of millionths is a whole number of units.
pub open spec fn is_whole(micros: int) -> bool {
    micros % (MICROS_PER_UNIT as int) == 0
}

/// The whole units at or under a count of millionths; spec division is
/// Euclidean, so this is the floor also for negative counts.
pub open spec fn floor_units_of(micros: int) -> int {
    micros / (MICROS_PER_UNIT as int)
}

/// The whole units at or over a count of millionths.
pub open spec fn ceil_units_of(micros: int) -> int {
    if is_whole(micros) {
        floor_units_of(micros)
    } else {
        floor_units_of(micros) + 1
    }
}

impl Real {
    /// The value as a count of millionths.
    pub open spec fn value(self) -> int {
        self.micros as int
    }

    /// A real from a count of millionths.
    pub fn from_micros(micros: i64) -> (r: Self)
        ensures
            r.value() == micros as int,
    {
        Real { micros }
    }

    /// A real from a whole number of units.
    pub fn from_units(units: i64) -> (r: Self)
        requires
            -9_223_372_036_854 <= units <= 9_223_372_036_854,
        ensures
            r.value() == units * MICROS_PER_UNIT,
            is_whole(r.value()),
            floor_units_of(r.value()) == units,
    {
        let r = Real { micros: units * MICROS_PER_UNIT };
        proof {
            vstd::arithmetic::div_mod::lemma_mod_multiples_basic(
                units as int,
                MICROS_PER_UNIT as int,
            );
            vstd::arithmetic::div_mod::lemma_div_multiples_vanish(
                units as int,
                MICROS_PER_UNIT as int,
            );
        }
        r
    }

    /// Whether this real is a whole number of units.
    pub fn is_integral(&self) -> (r: bool)
        ensures
            r == is_whole(self.value()),
    {
        let rem = self.micros.checked_rem_euclid(MICROS_PER_UNIT).unwrap();
        rem == 0
    }

    /// The greatest whole number of units at or under this real.
    pub fn floor_units(&self) -> (r: i64)
        ensures
            r as int == floor_units_of(self.value()),
            -9_223_372_036_855 <= r <= 9_223_372_036_854,
    {
        proof {
            lemma_units_range(self.micros as int);
        }
        self.micros.checked_div_euclid(MICROS_PER_UNIT).unwrap()
    }

    /// The least whole number of units at or over this real.
    pub fn ceil_units(&self) -> (r: i64)
        ensures
            r as int == ceil_units_of(self.value()),
    {
        let q = self.micros.checked_div_euclid(MICROS_PER_UNIT).unwrap();
        let rem = self.micros.checked_rem_euclid(MICROS_PER_UNIT).unwrap();
        proof {
            lemma_units_range(self.micros as int);
        }
        if rem == 0 {
            q
        } else {
            q + 1
        }
    }
}

/// The whole units at or around an `i64` count of millionths fit comfortably
/// inside `i64`.
pub proof fn lemma_units_range(micros: int)
    requires
        i64::MIN <= micros <= i64::MAX,
    ensures
        -9_223_372_036_855 <= floor_units_of(micros) <= 9_223_372_036_854,
        -9_223_372_036_855 <= ceil_units_of(micros) <= 9_223_372_036_855,
{
    vstd::arithmetic::div_mod::lemma_div_is_ordered(
        i64::MIN as int,
        micros,
        MICROS_PER_UNIT as int,
    );
    vstd::arithmetic::div_mod::lemma_div_is_ordered(
        micros,
        i64::MAX as int,
        MICROS_PER_UNIT as int,
    );
    assert((i64::MIN as int) / (MICROS_PER_UNIT as int) == -9_223_372_036_855) by {
        vstd::arithmetic::div_mod::lemma_fundamental_div_mod_converse(
            i64::MIN as int,
            MICROS_PER_UNIT as int,
            -9_223_372_036_855,
            224_192,
        );
        assert(i64::MIN as int == (MICROS_PER_UNIT as int) * (-9_223_372_036_855) + 224_192);
    }
    assert((i64::MAX as int) / (MICROS_PER_UNIT as int) == 9_223_372_036_854) by {
        vstd::arithmetic::div_mod::lemma_fundamental_div_mod_converse(
            i64::MAX as int,
            MICROS_PER_UNIT as int,
            9_223_372_036_854,
            775_807,
        );
        assert(i64::MAX as int == (MICROS_PER_UNIT as int) * 9_223_372_036_854 + 775_807);
    }
}

/// How whole units compare with a count of millionths, through floor and
/// ceiling: the four directions used when an integer interval is cut out of a
/// real one.
pub proof fn lemma_units_rounding(n: int, x: int)
    ensures
        n >= ceil_units_of(x) ==> n * MICROS_PER_UNIT >= x,
        n * MICROS_PER_UNIT >= x ==> n >= ceil_units_of(x),
        n > floor_units_of(x) ==> n * MICROS_PER_UNIT > x,
        n * MICROS_PER_UNIT > x ==> n > floor_units_of(x),
        n <= floor_units_of(x) ==> n * MICROS_PER_UNIT <= x,
        n * MICROS_PER_UNIT <= x ==> n <= floor_units_of(x),
        n < ceil_units_of(x) ==> n * MICROS_PER_UNIT < x,
        n * MICROS_PER_UNIT < x ==> n < ceil_units_of(x),
{
    let m = MICROS_PER_UNIT as int;
    vstd::arithmetic::div_mod::lemma_fundamental_div_mod(x, m);
    let q = x / m;
    let rem = x % m;
    assert(x == m * q + rem);
    assert(0 <= rem < m) by {
        vstd::arithmetic::div_mod::lemma_mod_bound(x, m);
    }
    if n >= q + 1 {
        vstd::arithmetic::mul::lemma_mul_inequality(q + 1, n, m);
        assert((q + 1) * m == m * q + m) by (nonlinear_arith);
        assert(n * m >= x + (m - rem));
    } else {
        vstd::arithmetic::mul::lemma_mul_inequality(n, q, m);
        assert(q * m == m * q) by (nonlinear_arith);
        assert(n * m <= x - rem);
    }
    assert(n * MICROS_PER_UNIT == n * m);
}

} // verus!
