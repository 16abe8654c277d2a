//! The interval kernel: open, closed and infinite endpoints over integers and
//! over exact reals, with containment, intersection, emptiness and a union
//! that merges overlapping or adjacent intervals.
//!
//! Contracts are stated pointwise over the values an interval contains. The
//! emptiness test follows fixed endpoint rules; it is sound (an interval it
//! calls empty contains nothing) and that is all callers rely on.

use vstd::prelude::*;

use crate::fixed::Real;

verus! {

/// One endpoint of an integer interval.
#[derive(Debug, Clone, Copy, PartialEq, Eq, Structural)]
pub enum Bound {
    Inclusive(i64),
    Exclusive(i64),
    NegativeInfinity,
    PositiveInfinity,
}

/// One endpoint of a real interval.
#[derive(Debug, Clone, Copy, PartialEq, Eq, Structural)]
pub enum FloatBound {
    Inclusive(Real),
    Exclusive(Real),
    NegativeInfinity,
    PositiveInfinity,
}

/// Whether `v` is at or above the lower endpoint `lo`.
pub open spec fn in_lo(lo: Bound, v: int) -> bool {
    match lo {
        Bound::Inclusive(a) => v >= a,
        Bound::Exclusive(a) => v > a,
        Bound::NegativeInfinity => true,
        Bound::PositiveInfinity => false,
    }
}

/// Whether `v` is at or below the upper endpoint `hi`.
pub open spec fn in_hi(hi: Bound, v: int) -> bool {
    match hi {
        Bound::Inclusive(b) => v <= b,
        Bound::Exclusive(b) => v < b,
        Bound::PositiveInfinity => true,
        Bound::NegativeInfinity => false,
    }
}

/// An integer interval.
#[derive(Debug, Clone, Copy, PartialEq, Eq, Structural)]
pub struct IntField {
    pub lo: Bound,
    pub hi: Bound,
}

impl IntField {
    /// An interval from its two endpoints.
    pub fn new(lo: Bound, hi: Bound) -> (r: Self)
        ensures
            r == (IntField { lo, hi }),
    {
        IntField { lo, hi }
    }

    /// The integers this interval contains.
    pub open spec fn contains_spec(self, v: int) -> bool {
        in_lo(self.lo, v) && in_hi(self.hi, v)
    }

    /// The endpoint rules under which an interval counts as empty.
    pub open spec fn empty_rule(self) -> bool {
        ||| self.lo is PositiveInfinity
        ||| self.hi is NegativeInfinity
        ||| (self.lo matches Bound::Inclusive(a) && self.hi matches Bound::Exclusive(b) && a >= b)
        ||| (self.lo matches Bound::Exclusive(a) && self.hi matches Bound::Inclusive(b) && a >= b)
        ||| (self.lo matches Bound::Inclusive(a) && self.hi matches Bound::Inclusive(b) && a > b)
        ||| (self.lo matches Bound::Exclusive(a) && self.hi matches Bound::Exclusive(b) && a >= b)
    }

    /// Whether the endpoint rules call this interval empty; an empty interval
    /// contains nothing.
    pub fn is_empty(&self) -> (r: bool)
        ensures
            r == self.empty_rule(),
            r ==> forall|v: int| !self.contains_spec(v),
    {
        match (self.lo, self.hi) {
            (Bound::PositiveInfinity, _) => true,
            (_, Bound::NegativeInfinity) => true,
            (Bound::Inclusive(a), Bound::Exclusive(b)) => a >= b,
            (Bound::Exclusive(a), Bound::Inclusive(b)) => a >= b,
            (Bound::Inclusive(a), Bound::Inclusive(b)) => a > b,
            (Bound::Exclusive(a), Bound::Exclusive(b)) => a >= b,
            _ => false,
        }
    }

    /// Whether the interval contains the integer `v`.
    pub fn contains_value(&self, v: i64) -> (r: bool)
        ensures
            r == self.contains_spec(v as int),
    {
        let lo_ok = match self.lo {
            Bound::Inclusive(a) => v >= a,
            Bound::Exclusive(a) => v > a,
            Bound::NegativeInfinity => true,
            Bound::PositiveInfinity => false,
        };
        let hi_ok = match self.hi {
            Bound::Inclusive(b) => v <= b,
            Bound::Exclusive(b) => v < b,
            Bound::PositiveInfinity => true,
            Bound::NegativeInfinity => false,
        };
        lo_ok && hi_ok
    }

    /// The rules under which this interval counts as containing all of
    /// `other`: an exclusive-against-inclusive side asks for a strict bound,
    /// every other pairing a non-strict one.
    pub open spec fn covers_rule(self, other: IntField) -> bool {
        let lo_ok = match (self.lo, other.lo) {
            (Bound::NegativeInfinity, _) => true,
            (_, Bound::PositiveInfinity) => true,
            (Bound::PositiveInfinity, _) => false,
            (_, Bound::NegativeInfinity) => false,
            (Bound::Inclusive(a), Bound::Inclusive(b)) => a <= b,
            (Bound::Inclusive(a), Bound::Exclusive(b)) => a <= b,
            (Bound::Exclusive(a), Bound::Inclusive(b)) => a < b,
            (Bound::Exclusive(a), Bound::Exclusive(b)) => a <= b,
        };
        let hi_ok = match (self.hi, other.hi) {
            (Bound::PositiveInfinity, _) => true,
            (_, Bound::NegativeInfinity) => true,
            (Bound::NegativeInfinity, _) => false,
            (_, Bound::PositiveInfinity) => false,
            (Bound::Inclusive(a), Bound::Inclusive(b)) => a >= b,
            (Bound::Inclusive(a), Bound::Exclusive(b)) => a >= b,
            (Bound::Exclusive(a), Bound::Inclusive(b)) => a > b,
            (Bound::Exclusive(a), Bound::Exclusive(b)) => a >= b,
        };
        lo_ok && hi_ok
    }

    /// Whether this interval contains every integer of `other`, by the
    /// endpoint rules. When it holds, every value of `other` is a value of
    /// `self`.
    pub fn contains_field(&self, other: &IntField) -> (r: bool)
        ensures
            r == self.covers_rule(*other),
            r ==> forall|v: int| other.contains_spec(v) ==> self.contains_spec(v),
    {
        let lo_ok = match (self.lo, other.lo) {
            (Bound::NegativeInfinity, _) => true,
            (_, Bound::PositiveInfinity) => true,
            (Bound::PositiveInfinity, _) => false,
            (_, Bound::NegativeInfinity) => false,
            (Bound::Inclusive(a), Bound::Inclusive(b)) => a <= b,
            (Bound::Inclusive(a), Bound::Exclusive(b)) => a <= b,
            (Bound::Exclusive(a), Bound::Inclusive(b)) => a < b,
            (Bound::Exclusive(a), Bound::Exclusive(b)) => a <= b,
        };
        let hi_ok = match (self.hi, other.hi) {
            (Bound::PositiveInfinity, _) => true,
            (_, Bound::NegativeInfinity) => true,
            (Bound::NegativeInfinity, _) => false,
            (_, Bound::PositiveInfinity) => false,
            (Bound::Inclusive(a), Bound::Inclusive(b)) => a >= b,
            (Bound::Inclusive(a), Bound::Exclusive(b)) => a >= b,
            (Bound::Exclusive(a), Bound::Inclusive(b)) => a > b,
            (Bound::Exclusive(a), Bound::Exclusive(b)) => a >= b,
        };
        lo_ok && hi_ok
    }

    /// The interval of the integers the two intervals share.
    pub fn intersection(&self, other: &IntField) -> (r: IntField)
        ensures
            r == inter_spec(*self, *other),
            forall|v: int|
                r.contains_spec(v) == (self.contains_spec(v) && other.contains_spec(v)),
    {
        IntField { lo: stronger_lo(self.lo, other.lo), hi: stronger_hi(self.hi, other.hi) }
    }

    /// The rule under which two integer intervals merge: their rule-level
    /// intersection is nonempty, or both are nonempty and sit unit-adjacent
    /// in one order or the other.
    pub open spec fn merge_rule(self, other: IntField) -> bool {
        ||| !inter_spec(self, other).empty_rule()
        ||| (!self.empty_rule() && !other.empty_rule() && (adjacency_holds(self.hi, other.lo)
            || adjacency_holds(other.hi, self.lo)))
    }

    /// The two intervals merged into one, where they overlap or sit at unit
    /// distance; nothing exactly when the merge rule does not hold.
    pub fn union(&self, other: &IntField) -> (r: Option<IntField>)
        ensures
            r is Some <==> self.merge_rule(*other),
            r matches Some(u) ==> forall|v: int|
                u.contains_spec(v) == (self.contains_spec(v) || other.contains_spec(v)),
    {
        let meet = self.intersection(other);
        if !meet.is_empty() {
            let u = IntField { lo: weaker_lo(self.lo, other.lo), hi: weaker_hi(self.hi, other.hi) };
            proof {
                lemma_enclosing_exact(*self, *other, u);
            }
            return Some(u);
        }
        if self.is_empty() || other.is_empty() {
            return None;
        }
        if int_adjacent(self.hi, other.lo) {
            let u = IntField { lo: self.lo, hi: other.hi };
            proof {
                lemma_adjacent_exact(*self, *other, u);
            }
            Some(u)
        } else if int_adjacent(other.hi, self.lo) {
            let u = IntField { lo: other.lo, hi: self.hi };
            proof {
                lemma_adjacent_exact(*other, *self, u);
            }
            Some(u)
        } else {
            None
        }
    }
}

/// The stronger of two lower endpoints: the one admitting fewer values; at a
/// tie the exclusive one.
fn stronger_lo(a: Bound, b: Bound) -> (r: Bound)
    ensures
        r == stronger_lo_spec(a, b),
        forall|v: int| in_lo(r, v) == (in_lo(a, v) && in_lo(b, v)),
{
    match (a, b) {
        (Bound::PositiveInfinity, _) => Bound::PositiveInfinity,
        (_, Bound::PositiveInfinity) => Bound::PositiveInfinity,
        (Bound::NegativeInfinity, x) => x,
        (x, Bound::NegativeInfinity) => x,
        (Bound::Inclusive(x), Bound::Inclusive(y)) => if x >= y {
            a
        } else {
            b
        },
        (Bound::Exclusive(x), Bound::Exclusive(y)) => if x >= y {
            a
        } else {
            b
        },
        (Bound::Inclusive(x), Bound::Exclusive(y)) => if y >= x {
            b
        } else {
            a
        },
        (Bound::Exclusive(x), Bound::Inclusive(y)) => if x >= y {
            a
        } else {
            b
        },
    }
}

/// The stronger of two upper endpoints.
fn stronger_hi(a: Bound, b: Bound) -> (r: Bound)
    ensures
        r == stronger_hi_spec(a, b),
        forall|v: int| in_hi(r, v) == (in_hi(a, v) && in_hi(b, v)),
{
    match (a, b) {
        (Bound::NegativeInfinity, _) => Bound::NegativeInfinity,
        (_, Bound::NegativeInfinity) => Bound::NegativeInfinity,
        (Bound::PositiveInfinity, x) => x,
        (x, Bound::PositiveInfinity) => x,
        (Bound::Inclusive(x), Bound::Inclusive(y)) => if x <= y {
            a
        } else {
            b
        },
        (Bound::Exclusive(x), Bound::Exclusive(y)) => if x <= y {
            a
        } else {
            b
        },
        (Bound::Inclusive(x), Bound::Exclusive(y)) => if y <= x {
            b
        } else {
            a
        },
        (Bound::Exclusive(x), Bound::Inclusive(y)) => if x <= y {
            a
        } else {
            b
        },
    }
}

/// The weaker of two lower endpoints: the one admitting more values.
fn weaker_lo(a: Bound, b: Bound) -> (r: Bound)
    ensures
        forall|v: int| in_lo(r, v) == (in_lo(a, v) || in_lo(b, v)),
{
    match (a, b) {
        (Bound::NegativeInfinity, _) => Bound::NegativeInfinity,
        (_, Bound::NegativeInfinity) => Bound::NegativeInfinity,
        (Bound::PositiveInfinity, x) => x,
        (x, Bound::PositiveInfinity) => x,
        (Bound::Inclusive(x), Bound::Inclusive(y)) => if x <= y {
            a
        } else {
            b
        },
        (Bound::Exclusive(x), Bound::Exclusive(y)) => if x <= y {
            a
        } else {
            b
        },
        (Bound::Inclusive(x), Bound::Exclusive(y)) => if x <= y {
            a
        } else {
            b
        },
        (Bound::Exclusive(x), Bound::Inclusive(y)) => if y <= x {
            b
        } else {
            a
        },
    }
}

/// The weaker of two upper endpoints.
fn weaker_hi(a: Bound, b: Bound) -> (r: Bound)
    ensures
        forall|v: int| in_hi(r, v) == (in_hi(a, v) || in_hi(b, v)),
{
    match (a, b) {
        (Bound::PositiveInfinity, _) => Bound::PositiveInfinity,
        (_, Bound::PositiveInfinity) => Bound::PositiveInfinity,
        (Bound::NegativeInfinity, x) => x,
        (x, Bound::NegativeInfinity) => x,
        (Bound::Inclusive(x), Bound::Inclusive(y)) => if x >= y {
            a
        } else {
            b
        },
        (Bound::Exclusive(x), Bound::Exclusive(y)) => if x >= y {
            a
        } else {
            b
        },
        (Bound::Inclusive(x), Bound::Exclusive(y)) => if x >= y {
            a
        } else {
            b
        },
        (Bound::Exclusive(x), Bound::Inclusive(y)) => if y >= x {
            b
        } else {
            a
        },
    }
}

/// Whether an upper endpoint and a lower endpoint sit at unit distance or
/// coincide half-open, so that no integer lies between them.
fn int_adjacent(hi: Bound, lo: Bound) -> (r: bool)
    ensures
        r == adjacency_holds(hi, lo),
{
    match (hi, lo) {
        (Bound::Inclusive(a), Bound::Inclusive(b)) => a < i64::MAX && b == a + 1,
        (Bound::Exclusive(a), Bound::Inclusive(b)) => a == b,
        (Bound::Inclusive(a), Bound::Exclusive(b)) => a == b,
        _ => false,
    }
}

/// An interval enclosing two rule-overlapping intervals contains exactly the
/// integers of their union.
proof fn lemma_enclosing_exact(i: IntField, j: IntField, u: IntField)
    requires
        !inter_spec(i, j).empty_rule(),
        forall|v: int| in_lo(u.lo, v) == (in_lo(i.lo, v) || in_lo(j.lo, v)),
        forall|v: int| in_hi(u.hi, v) == (in_hi(i.hi, v) || in_hi(j.hi, v)),
    ensures
        forall|v: int| u.contains_spec(v) == (i.contains_spec(v) || j.contains_spec(v)),
{
    assert forall|v: int| u.contains_spec(v) == (i.contains_spec(v) || j.contains_spec(v)) by {
        lemma_no_gap(i, j, v);
        lemma_no_gap(j, i, v);
    }
}

/// The intersection at the spec level.
pub open spec fn inter_spec(i: IntField, j: IntField) -> IntField {
    IntField { lo: stronger_lo_spec(i.lo, j.lo), hi: stronger_hi_spec(i.hi, j.hi) }
}

/// The strength choices, repeated at the spec level so lemmas can name them.
pub open spec fn stronger_lo_spec(a: Bound, b: Bound) -> Bound {
    match (a, b) {
        (Bound::PositiveInfinity, _) => Bound::PositiveInfinity,
        (_, Bound::PositiveInfinity) => Bound::PositiveInfinity,
        (Bound::NegativeInfinity, x) => x,
        (x, Bound::NegativeInfinity) => x,
        (Bound::Inclusive(x), Bound::Inclusive(y)) => if x >= y {
            a
        } else {
            b
        },
        (Bound::Exclusive(x), Bound::Exclusive(y)) => if x >= y {
            a
        } else {
            b
        },
        (Bound::Inclusive(x), Bound::Exclusive(y)) => if y >= x {
            b
        } else {
            a
        },
        (Bound::Exclusive(x), Bound::Inclusive(y)) => if x >= y {
            a
        } else {
            b
        },
    }
}

pub open spec fn stronger_hi_spec(a: Bound, b: Bound) -> Bound {
    match (a, b) {
        (Bound::NegativeInfinity, _) => Bound::NegativeInfinity,
        (_, Bound::NegativeInfinity) => Bound::NegativeInfinity,
        (Bound::PositiveInfinity, x) => x,
        (x, Bound::PositiveInfinity) => x,
        (Bound::Inclusive(x), Bound::Inclusive(y)) => if x <= y {
            a
        } else {
            b
        },
        (Bound::Exclusive(x), Bound::Exclusive(y)) => if x <= y {
            a
        } else {
            b
        },
        (Bound::Inclusive(x), Bound::Exclusive(y)) => if y <= x {
            b
        } else {
            a
        },
        (Bound::Exclusive(x), Bound::Inclusive(y)) => if x <= y {
            a
        } else {
            b
        },
    }
}

/// With a rule-nonempty intersection, no integer can sit above `i` and below
/// `j` at once.
proof fn lemma_no_gap(i: IntField, j: IntField, v: int)
    requires
        !inter_spec(i, j).empty_rule(),
    ensures
        !(in_lo(i.lo, v) && !in_hi(i.hi, v) && in_hi(j.hi, v) && !in_lo(j.lo, v)),
{
}

/// The merged interval of two nonempty unit-adjacent intervals contains
/// exactly the integers of their union.
proof fn lemma_adjacent_exact(i: IntField, j: IntField, u: IntField)
    requires
        u.lo == i.lo,
        u.hi == j.hi,
        !i.empty_rule(),
        !j.empty_rule(),
        adjacency_holds(i.hi, j.lo),
    ensures
        forall|v: int| u.contains_spec(v) == (i.contains_spec(v) || j.contains_spec(v)),
{
}

/// The unit-adjacency rule at spec level.
pub open spec fn adjacency_holds(hi: Bound, lo: Bound) -> bool {
    match (hi, lo) {
        (Bound::Inclusive(a), Bound::Inclusive(b)) => b == a + 1,
        (Bound::Exclusive(a), Bound::Inclusive(b)) => a == b,
        (Bound::Inclusive(a), Bound::Exclusive(b)) => a == b,
        _ => false,
    }
}

/// A real endpoint as an endpoint over micro-counts.
pub open spec fn fb_view(fb: FloatBound) -> Bound {
    match fb {
        FloatBound::Inclusive(r) => Bound::Inclusive(r.micros),
        FloatBound::Exclusive(r) => Bound::Exclusive(r.micros),
        FloatBound::NegativeInfinity => Bound::NegativeInfinity,
        FloatBound::PositiveInfinity => Bound::PositiveInfinity,
    }
}

fn fb_to_micros(fb: FloatBound) -> (r: Bound)
    ensures
        r == fb_view(fb),
{
    match fb {
        FloatBound::Inclusive(x) => Bound::Inclusive(x.micros),
        FloatBound::Exclusive(x) => Bound::Exclusive(x.micros),
        FloatBound::NegativeInfinity => Bound::NegativeInfinity,
        FloatBound::PositiveInfinity => Bound::PositiveInfinity,
    }
}

fn micros_to_fb(b: Bound) -> (r: FloatBound)
    ensures
        fb_view(r) == b,
{
    match b {
        Bound::Inclusive(m) => FloatBound::Inclusive(Real { micros: m }),
        Bound::Exclusive(m) => FloatBound::Exclusive(Real { micros: m }),
        Bound::NegativeInfinity => FloatBound::NegativeInfinity,
        Bound::PositiveInfinity => FloatBound::PositiveInfinity,
    }
}

/// A real interval; its values are counts of millionths.
#[derive(Debug, Clone, Copy, PartialEq, Eq, Structural)]
pub struct FloatField {
    pub lo: FloatBound,
    pub hi: FloatBound,
}

impl FloatField {
    /// An interval from its two endpoints.
    pub fn new(lo: FloatBound, hi: FloatBound) -> (r: Self)
        ensures
            r == (FloatField { lo, hi }),
    {
        FloatField { lo, hi }
    }

    /// The same interval over micro-counts.
    pub open spec fn as_micros(self) -> IntField {
        IntField { lo: fb_view(self.lo), hi: fb_view(self.hi) }
    }

    /// The micro-counts this interval contains.
    pub open spec fn contains_spec(self, m: int) -> bool {
        self.as_micros().contains_spec(m)
    }

    /// Whether the endpoint rules call this interval empty; an empty interval
    /// contains nothing. The rules are those of the integer kernel, read over
    /// micro-counts.
    pub fn is_empty(&self) -> (r: bool)
        ensures
            r == self.as_micros().empty_rule(),
            r ==> forall|m: int| !self.contains_spec(m),
    {
        let v = IntField { lo: fb_to_micros(self.lo), hi: fb_to_micros(self.hi) };
        v.is_empty()
    }

    /// Whether the interval contains the real `x`.
    pub fn contains_value(&self, x: Real) -> (r: bool)
        ensures
            r == self.contains_spec(x.value()),
    {
        let v = IntField { lo: fb_to_micros(self.lo), hi: fb_to_micros(self.hi) };
        v.contains_value(x.micros)
    }

    /// Whether the interval contains the whole number `n` of units.
    pub fn contains_units(&self, n: i64) -> (r: bool)
        ensures
            r == self.contains_spec(n * crate::fixed::MICROS_PER_UNIT),
    {
        let lo_ok = match self.lo {
            FloatBound::Inclusive(a) => cmp_units_micros(n, a.micros) >= 0,
            FloatBound::Exclusive(a) => cmp_units_micros(n, a.micros) > 0,
            FloatBound::NegativeInfinity => true,
            FloatBound::PositiveInfinity => false,
        };
        let hi_ok = match self.hi {
            FloatBound::Inclusive(b) => cmp_units_micros(n, b.micros) <= 0,
            FloatBound::Exclusive(b) => cmp_units_micros(n, b.micros) < 0,
            FloatBound::PositiveInfinity => true,
            FloatBound::NegativeInfinity => false,
        };
        lo_ok && hi_ok
    }

    /// Whether this interval contains every value of `other`, by the endpoint
    /// rules of the integer kernel read over micro-counts.
    pub fn contains_field(&self, other: &FloatField) -> (r: bool)
        ensures
            r == self.as_micros().covers_rule(other.as_micros()),
            r ==> forall|m: int| other.contains_spec(m) ==> self.contains_spec(m),
    {
        let v = IntField { lo: fb_to_micros(self.lo), hi: fb_to_micros(self.hi) };
        let w = IntField { lo: fb_to_micros(other.lo), hi: fb_to_micros(other.hi) };
        v.contains_field(&w)
    }

    /// The interval of the values the two intervals share.
    pub fn intersection(&self, other: &FloatField) -> (r: FloatField)
        ensures
            forall|m: int|
                r.contains_spec(m) == (self.contains_spec(m) && other.contains_spec(m)),
    {
        let v = IntField { lo: fb_to_micros(self.lo), hi: fb_to_micros(self.hi) };
        let w = IntField { lo: fb_to_micros(other.lo), hi: fb_to_micros(other.hi) };
        let meet = v.intersection(&w);
        FloatField { lo: micros_to_fb(meet.lo), hi: micros_to_fb(meet.hi) }
    }

    /// The rule under which two real intervals merge: their rule-level
    /// intersection is nonempty, or both are nonempty and their endpoints
    /// coincide with at least one closed side, in one order or the other.
    pub open spec fn merge_rule(self, other: FloatField) -> bool {
        let a = self.as_micros();
        let b = other.as_micros();
        ||| !inter_spec(a, b).empty_rule()
        ||| (!a.empty_rule() && !b.empty_rule() && (float_adjacency_holds(a.hi, b.lo)
            || float_adjacency_holds(b.hi, a.lo)))
    }

    /// The two intervals merged into one, where they overlap or where
    /// endpoints coincide with at least one closed side; nothing exactly when
    /// the merge rule does not hold. Coincidence is exact equality of the
    /// fixed-point values.
    pub fn union(&self, other: &FloatField) -> (r: Option<FloatField>)
        ensures
            r is Some <==> self.merge_rule(*other),
            r matches Some(u) ==> forall|m: int|
                u.contains_spec(m) == (self.contains_spec(m) || other.contains_spec(m)),
    {
        let v = IntField { lo: fb_to_micros(self.lo), hi: fb_to_micros(self.hi) };
        let w = IntField { lo: fb_to_micros(other.lo), hi: fb_to_micros(other.hi) };
        let meet = v.intersection(&w);
        if !meet.is_empty() {
            let lo = weaker_lo(v.lo, w.lo);
            let hi = weaker_hi(v.hi, w.hi);
            proof {
                lemma_enclosing_exact(v, w, IntField { lo, hi });
            }
            return Some(FloatField { lo: micros_to_fb(lo), hi: micros_to_fb(hi) });
        }
        if v.is_empty() || w.is_empty() {
            return None;
        }
        if float_adjacent(v.hi, w.lo) {
            proof {
                lemma_coincident_exact(v, w, IntField { lo: v.lo, hi: w.hi });
            }
            Some(FloatField { lo: micros_to_fb(v.lo), hi: micros_to_fb(w.hi) })
        } else if float_adjacent(w.hi, v.lo) {
            proof {
                lemma_coincident_exact(w, v, IntField { lo: w.lo, hi: v.hi });
            }
            Some(FloatField { lo: micros_to_fb(w.lo), hi: micros_to_fb(v.hi) })
        } else {
            None
        }
    }
}

/// How a whole number of units compares with a count of millionths, as a
/// sign; exact, with the product carried out in a wider type.
fn cmp_units_micros(n: i64, micros: i64) -> (r: i32)
    ensures
        r > 0 <==> n * crate::fixed::MICROS_PER_UNIT > micros,
        r < 0 <==> n * crate::fixed::MICROS_PER_UNIT < micros,
        r == 0 <==> n * crate::fixed::MICROS_PER_UNIT == micros,
{
    proof {
        assert((n as int) * (crate::fixed::MICROS_PER_UNIT as int) < i128::MAX) by (nonlinear_arith);
        assert((n as int) * (crate::fixed::MICROS_PER_UNIT as int) > i128::MIN) by (nonlinear_arith);
    }
    let scaled: i128 = (n as i128) * (crate::fixed::MICROS_PER_UNIT as i128);
    let m = micros as i128;
    proof {
        assert((n as i128) * (crate::fixed::MICROS_PER_UNIT as i128) == (n as int) * (
        crate::fixed::MICROS_PER_UNIT as int));
    }
    if scaled > m {
        1
    } else if scaled < m {
        -1
    } else {
        0
    }
}

/// Whether an upper and a lower endpoint coincide with at least one closed
/// side, so that no value lies between them.
fn float_adjacent(hi: Bound, lo: Bound) -> (r: bool)
    ensures
        r == float_adjacency_holds(hi, lo),
{
    match (hi, lo) {
        (Bound::Inclusive(a), Bound::Inclusive(b)) => a == b,
        (Bound::Exclusive(a), Bound::Inclusive(b)) => a == b,
        (Bound::Inclusive(a), Bound::Exclusive(b)) => a == b,
        _ => false,
    }
}

/// The coincident-adjacency rule at spec level.
pub open spec fn float_adjacency_holds(hi: Bound, lo: Bound) -> bool {
    match (hi, lo) {
        (Bound::Inclusive(a), Bound::Inclusive(b)) => a == b,
        (Bound::Exclusive(a), Bound::Inclusive(b)) => a == b,
        (Bound::Inclusive(a), Bound::Exclusive(b)) => a == b,
        _ => false,
    }
}

/// The merged interval of two nonempty coincident-adjacent intervals contains
/// exactly the values of their union.
proof fn lemma_coincident_exact(i: IntField, j: IntField, u: IntField)
    requires
        u.lo == i.lo,
        u.hi == j.hi,
        !i.empty_rule(),
        !j.empty_rule(),
        float_adjacency_holds(i.hi, j.lo),
    ensures
        forall|v: int| u.contains_spec(v) == (i.contains_spec(v) || j.contains_spec(v)),
{
}

/// The covering rules are sound: a rule-covered interval's values are values
/// of the coverer. And an interval covers itself.
pub proof fn lemma_covers_rule(i: IntField, j: IntField)
    ensures
        i.covers_rule(j) ==> forall|v: int| j.contains_spec(v) ==> i.contains_spec(v),
        i.covers_rule(i),
{
}

} // verus!
