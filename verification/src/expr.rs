//! The flat constraint algebra: a value domain over atomic literals, the
//! primitive kinds, integer and real intervals, ordered tuples and unions,
//! with subsumption, refinement, union, intersection and reduction to a
//! canonical form.
//!
//! The model is the set of values a constraint describes: `mem(v, e)` says
//! that the value `v` satisfies the constraint `e`. Subsumption is decided by
//! fixed structural rules; it is sound for this model, and the rules are
//! stated exactly by `super_spec`.

use vstd::prelude::*;

use crate::fixed::MICROS_PER_UNIT;
use crate::fixed::Real;
use crate::fixed::floor_units_of;
use crate::fixed::is_whole;
use crate::interval::Bound;
use crate::interval::FloatBound;
use crate::interval::FloatField;
use crate::interval::IntField;

verus! {

/// A constraint over plain values: the universe, the empty set, literal
/// singletons, the primitive kinds, intervals, ordered tuples and unions.
#[derive(Debug)]
pub enum ConstraintExpr {
    /// The universe: a superset of everything.
    Top,
    /// The empty set: a subset of everything.
    Bottom,
    /// The single integer.
    LiteralInt(i64),
    /// The single real.
    LiteralFloat(Real),
    /// The single boolean.
    LiteralBool(bool),
    /// The single string.
    LiteralString(String),
    /// Every integer.
    Int,
    /// Every real; integers are reals, so this also subsumes `Int`.
    Float,
    /// Both booleans.
    Bool,
    /// Every string.
    String,
    /// The integers of an interval.
    Bound(Bound, Bound),
    /// The reals of an interval.
    FloatBound(FloatBound, FloatBound),
    /// The ordered tuples whose components satisfy the given constraints.
    Tuple(Vec<ConstraintExpr>),
    /// The set union of the members.
    Union(Vec<ConstraintExpr>),
}

/// The mathematical shape of a `ConstraintExpr`.
pub enum ExprView {
    Top,
    Bottom,
    LiteralInt(i64),
    LiteralFloat(Real),
    LiteralBool(bool),
    LiteralString(Seq<char>),
    Int,
    Float,
    Bool,
    Str,
    Bound(Bound, Bound),
    FloatBound(FloatBound, FloatBound),
    Tuple(Seq<ExprView>),
    Union(Seq<ExprView>),
}

impl View for ConstraintExpr {
    type V = ExprView;

    closed spec fn view(&self) -> ExprView
        decreases self,
    {
        match self {
            ConstraintExpr::Top => ExprView::Top,
            ConstraintExpr::Bottom => ExprView::Bottom,
            ConstraintExpr::LiteralInt(n) => ExprView::LiteralInt(*n),
            ConstraintExpr::LiteralFloat(x) => ExprView::LiteralFloat(*x),
            ConstraintExpr::LiteralBool(b) => ExprView::LiteralBool(*b),
            ConstraintExpr::LiteralString(s) => ExprView::LiteralString(s@),
            ConstraintExpr::Int => ExprView::Int,
            ConstraintExpr::Float => ExprView::Float,
            ConstraintExpr::Bool => ExprView::Bool,
            ConstraintExpr::String => ExprView::Str,
            ConstraintExpr::Bound(lo, hi) => ExprView::Bound(*lo, *hi),
            ConstraintExpr::FloatBound(lo, hi) => ExprView::FloatBound(*lo, *hi),
            ConstraintExpr::Tuple(es) => ExprView::Tuple(view_exprs(es@)),
            ConstraintExpr::Union(es) => ExprView::Union(view_exprs(es@)),
        }
    }
}

/// The views of the elements of a sequence of constraints.
pub closed spec fn view_exprs(s: Seq<ConstraintExpr>) -> Seq<ExprView>
    decreases s,
{
    if s.len() == 0 {
        Seq::empty()
    } else {
        view_exprs(s.drop_last()).push(s.last()@)
    }
}

pub proof fn lemma_view_exprs(s: Seq<ConstraintExpr>)
    ensures
        view_exprs(s).len() == s.len(),
        forall|i: int| 0 <= i < s.len() ==> view_exprs(s)[i] == s[i]@,
    decreases s.len(),
{
    if s.len() > 0 {
        lemma_view_exprs(s.drop_last());
        assert(view_exprs(s) == view_exprs(s.drop_last()).push(s.last()@));
        assert(s.last() == s[s.len() - 1]);
        assert forall|i: int| 0 <= i < s.len() implies view_exprs(s)[i] == s[i]@ by {
            if i < s.len() - 1 {
                assert(s.drop_last()[i] == s[i]);
            }
        }
    }
}

/// How the views of the variants of a `ConstraintExpr` look.
pub broadcast proof fn lemma_expr_view_shape(e: &ConstraintExpr)
    ensures
        #![trigger e@]
        e is Top ==> e@ == ExprView::Top,
        e is Bottom ==> e@ == ExprView::Bottom,
        e matches ConstraintExpr::LiteralInt(n) ==> e@ == ExprView::LiteralInt(*n),
        e matches ConstraintExpr::LiteralFloat(x) ==> e@ == ExprView::LiteralFloat(*x),
        e matches ConstraintExpr::LiteralBool(b) ==> e@ == ExprView::LiteralBool(*b),
        e matches ConstraintExpr::LiteralString(s) ==> e@ == ExprView::LiteralString(s@),
        e is Int ==> e@ == ExprView::Int,
        e is Float ==> e@ == ExprView::Float,
        e is Bool ==> e@ == ExprView::Bool,
        e is String ==> e@ == ExprView::Str,
        e matches ConstraintExpr::Bound(lo, hi) ==> e@ == ExprView::Bound(*lo, *hi),
        e matches ConstraintExpr::FloatBound(lo, hi) ==> e@ == ExprView::FloatBound(*lo, *hi),
        e matches ConstraintExpr::Tuple(es) ==> e@ == ExprView::Tuple(view_exprs(es@)),
        e matches ConstraintExpr::Union(es) ==> e@ == ExprView::Union(view_exprs(es@)),
{
}

/// The number of constructors in a constraint.
pub open spec fn expr_size(e: ExprView) -> nat
    decreases e,
{
    match e {
        ExprView::Tuple(es) => 1 + seq_expr_size(es),
        ExprView::Union(es) => 1 + seq_expr_size(es),
        _ => 1,
    }
}

/// The total size of a sequence of constraints.
pub open spec fn seq_expr_size(s: Seq<ExprView>) -> nat
    decreases s,
{
    if s.len() == 0 {
        0
    } else {
        expr_size(s.first()) + seq_expr_size(s.drop_first())
    }
}

pub proof fn lemma_seq_expr_size_elem(s: Seq<ExprView>, i: int)
    requires
        0 <= i < s.len(),
    ensures
        expr_size(s[i]) <= seq_expr_size(s),
    decreases s.len(),
{
    assert(seq_expr_size(s) == expr_size(s.first()) + seq_expr_size(s.drop_first()));
    if i > 0 {
        lemma_seq_expr_size_elem(s.drop_first(), i - 1);
        assert(s.drop_first()[i - 1] == s[i]);
    }
}

impl Clone for ConstraintExpr {
    /// A deep copy with the same view.
    #[verifier::loop_isolation(false)]
    fn clone(&self) -> (r: Self)
        ensures
            r@ == self@,
        decreases self,
    {
        broadcast use lemma_expr_view_shape;

        match self {
            ConstraintExpr::Top => ConstraintExpr::Top,
            ConstraintExpr::Bottom => ConstraintExpr::Bottom,
            ConstraintExpr::LiteralInt(n) => ConstraintExpr::LiteralInt(*n),
            ConstraintExpr::LiteralFloat(x) => ConstraintExpr::LiteralFloat(*x),
            ConstraintExpr::LiteralBool(b) => ConstraintExpr::LiteralBool(*b),
            ConstraintExpr::LiteralString(s) => ConstraintExpr::LiteralString(s.clone()),
            ConstraintExpr::Int => ConstraintExpr::Int,
            ConstraintExpr::Float => ConstraintExpr::Float,
            ConstraintExpr::Bool => ConstraintExpr::Bool,
            ConstraintExpr::String => ConstraintExpr::String,
            ConstraintExpr::Bound(lo, hi) => ConstraintExpr::Bound(*lo, *hi),
            ConstraintExpr::FloatBound(lo, hi) => ConstraintExpr::FloatBound(*lo, *hi),
            ConstraintExpr::Tuple(es) => ConstraintExpr::Tuple(clone_exprs(es)),
            ConstraintExpr::Union(es) => ConstraintExpr::Union(clone_exprs(es)),
        }
    }
}

/// A deep copy of a vector of constraints, elementwise equal in view.
#[verifier::loop_isolation(false)]
fn clone_exprs(es: &Vec<ConstraintExpr>) -> (r: Vec<ConstraintExpr>)
    ensures
        view_exprs(r@) == view_exprs(es@),
        r@.len() == es@.len(),
    decreases es,
{
    let mut copies: Vec<ConstraintExpr> = Vec::new();
    let n = es.len();
    let mut i: usize = 0;
    while i < n
        invariant
            0 <= i <= n,
            copies@.len() == i,
            forall|k: int| 0 <= k < i ==> copies@[k]@ == es@[k]@,
        decreases n - i,
    {
        copies.push(es[i].clone());
        i += 1;
    }
    proof {
        lemma_view_exprs(es@);
        lemma_view_exprs(copies@);
        assert(view_exprs(copies@) =~= view_exprs(es@));
    }
    copies
}

/// A plain value of the domain: an integer, a real that is not whole (whole
/// reals are the integers), a boolean, a string, or a tuple of values.
pub enum Value {
    VInt(int),
    VReal(int),
    VBool(bool),
    VStr(Seq<char>),
    VTuple(Seq<Value>),
}

/// Whether the value `v` satisfies the constraint `e`. A real is carried as
/// its count of millionths; a whole real is the same value as the integer it
/// equals.
pub open spec fn mem(v: Value, e: ExprView) -> bool
    decreases e,
{
    match e {
        ExprView::Top => true,
        ExprView::Bottom => false,
        ExprView::LiteralInt(n) => v == Value::VInt(n as int),
        ExprView::LiteralFloat(x) => if is_whole(x.value()) {
            v == Value::VInt(floor_units_of(x.value()))
        } else {
            v == Value::VReal(x.value())
        },
        ExprView::LiteralBool(b) => v == Value::VBool(b),
        ExprView::LiteralString(s) => v == Value::VStr(s),
        ExprView::Int => v is VInt,
        ExprView::Float => v is VInt || (v matches Value::VReal(m) && !is_whole(m)),
        ExprView::Bool => v is VBool,
        ExprView::Str => v is VStr,
        ExprView::Bound(lo, hi) => v matches Value::VInt(n) && (IntField { lo, hi }).contains_spec(
            n,
        ),
        ExprView::FloatBound(lo, hi) => {
            ||| (v matches Value::VInt(n) && (FloatField { lo, hi }).contains_spec(
                n * MICROS_PER_UNIT,
            ))
            ||| (v matches Value::VReal(m) && !is_whole(m) && (FloatField { lo, hi }).contains_spec(
                m,
            ))
        },
        ExprView::Tuple(es) => v matches Value::VTuple(vs) && mem_tuple(vs, es),
        ExprView::Union(es) => mem_union(v, es),
    }
}

/// Componentwise satisfaction of a tuple of constraints.
pub open spec fn mem_tuple(vs: Seq<Value>, es: Seq<ExprView>) -> bool
    decreases es,
{
    vs.len() == es.len() && forall|i: int| 0 <= i < es.len() ==> mem(#[trigger] vs[i], es[i])
}

/// Satisfaction of some member of a union.
pub open spec fn mem_union(v: Value, es: Seq<ExprView>) -> bool
    decreases es,
{
    exists|i: int| 0 <= i < es.len() && mem(v, #[trigger] es[i])
}

/// The member list of a constraint: a union's members, anything else itself.
pub open spec fn to_members(e: ExprView) -> Seq<ExprView> {
    match e {
        ExprView::Union(es) => es,
        _ => seq![e],
    }
}

/// The subsumption rules: whether `a` ⊇ `b`, decided structurally, first
/// matching rule first. `Top` subsumes everything and everything subsumes
/// `Bottom`; a kind subsumes itself, its literals and its intervals, and
/// `Float` also the whole integer side; same-kind literals compare by value;
/// intervals go to the
/// interval kernel; tuples compare componentwise at equal arity; a union on
/// the left must cover every member of the right side, a union on the right
/// must be covered member by member. The rules are sound for `mem` and are
/// not complete: a false answer does not mean the sets are unrelated.
pub open spec fn super_spec(a: ExprView, b: ExprView) -> bool
    decreases expr_size(b), expr_size(a), 0nat,
    via super_spec_decreases
{
    match (a, b) {
        (ExprView::Top, _) => true,
        (_, ExprView::Bottom) => true,
        (ExprView::Bottom, _) => false,
        (_, ExprView::Top) => false,
        (ExprView::Int, ExprView::LiteralInt(_)) => true,
        (ExprView::Int, ExprView::Bound(_, _)) => true,
        (ExprView::Int, ExprView::Int) => true,
        (ExprView::Float, ExprView::LiteralFloat(_)) => true,
        (ExprView::Float, ExprView::FloatBound(_, _)) => true,
        (ExprView::Float, ExprView::LiteralInt(_)) => true,
        (ExprView::Float, ExprView::Bound(_, _)) => true,
        (ExprView::Float, ExprView::Int) => true,
        (ExprView::Float, ExprView::Float) => true,
        (ExprView::Bool, ExprView::LiteralBool(_)) => true,
        (ExprView::Bool, ExprView::Bool) => true,
        (ExprView::Str, ExprView::LiteralString(_)) => true,
        (ExprView::Str, ExprView::Str) => true,
        (ExprView::LiteralInt(x), ExprView::LiteralInt(y)) => x == y,
        (ExprView::LiteralFloat(x), ExprView::LiteralFloat(y)) => x == y,
        (ExprView::LiteralBool(x), ExprView::LiteralBool(y)) => x == y,
        (ExprView::LiteralString(x), ExprView::LiteralString(y)) => x == y,
        (ExprView::Bound(l1, h1), ExprView::Bound(l2, h2)) => (IntField {
            lo: l1,
            hi: h1,
        }).covers_rule(IntField { lo: l2, hi: h2 }),
        (ExprView::Bound(l1, h1), ExprView::LiteralInt(n)) => (IntField {
            lo: l1,
            hi: h1,
        }).contains_spec(n as int),
        (ExprView::FloatBound(l1, h1), ExprView::FloatBound(l2, h2)) => (FloatField {
            lo: l1,
            hi: h1,
        }).as_micros().covers_rule((FloatField { lo: l2, hi: h2 }).as_micros()),
        (ExprView::FloatBound(l1, h1), ExprView::LiteralFloat(x)) => (FloatField {
            lo: l1,
            hi: h1,
        }).contains_spec(x.value()),
        (ExprView::FloatBound(l1, h1), ExprView::LiteralInt(n)) => (FloatField {
            lo: l1,
            hi: h1,
        }).contains_spec(n * MICROS_PER_UNIT),
        (ExprView::Tuple(xs), ExprView::Tuple(ys)) => sup_tuple(xs, ys),
        (ExprView::Union(aes), bb) => match bb {
            ExprView::Union(bes) => sup_each_some(aes, bes),
            _ => sup_some(aes, bb),
        },
        (aa, ExprView::Union(bes)) => sup_each(aa, bes),
        _ => false,
    }
}

/// Some member of `aes` subsumes `b`.
pub open spec fn sup_some(aes: Seq<ExprView>, b: ExprView) -> bool
    decreases expr_size(b), seq_expr_size(aes), 1nat,
    via sup_some_decreases
{
    exists|i: int| 0 <= i < aes.len() && super_spec(#[trigger] aes[i], b)
}

/// `a` subsumes every member of `bes`.
pub open spec fn sup_each(a: ExprView, bes: Seq<ExprView>) -> bool
    decreases seq_expr_size(bes), expr_size(a), 1nat,
    via sup_each_decreases
{
    forall|j: int| 0 <= j < bes.len() ==> super_spec(a, #[trigger] bes[j])
}

/// Every member of `bes` is subsumed by some member of `aes`.
pub open spec fn sup_each_some(aes: Seq<ExprView>, bes: Seq<ExprView>) -> bool
    decreases seq_expr_size(bes), seq_expr_size(aes), 2nat,
    via sup_each_some_decreases
{
    forall|j: int| 0 <= j < bes.len() ==> sup_some(aes, #[trigger] bes[j])
}

/// Componentwise subsumption of tuples of equal arity.
pub open spec fn sup_tuple(xs: Seq<ExprView>, ys: Seq<ExprView>) -> bool
    decreases seq_expr_size(ys), seq_expr_size(xs), 1nat,
    via sup_tuple_decreases
{
    xs.len() == ys.len() && forall|i: int|
        0 <= i < ys.len() ==> super_spec(xs[i], #[trigger] ys[i])
}

#[via_fn]
proof fn super_spec_decreases(a: ExprView, b: ExprView) {
    lemma_members_smaller(a);
    lemma_members_smaller(b);
}

#[via_fn]
proof fn sup_some_decreases(aes: Seq<ExprView>, b: ExprView) {
    lemma_seq_elems_smaller(aes);
}

#[via_fn]
proof fn sup_each_decreases(a: ExprView, bes: Seq<ExprView>) {
    lemma_seq_elems_smaller(bes);
}

#[via_fn]
proof fn sup_each_some_decreases(aes: Seq<ExprView>, bes: Seq<ExprView>) {
    lemma_seq_elems_smaller(bes);
}

#[via_fn]
proof fn sup_tuple_decreases(xs: Seq<ExprView>, ys: Seq<ExprView>) {
    lemma_seq_elems_smaller(xs);
    lemma_seq_elems_smaller(ys);
}

/// Every element of a sequence is at most the sequence's total size.
proof fn lemma_seq_elems_smaller(s: Seq<ExprView>)
    ensures
        forall|i: int| 0 <= i < s.len() ==> expr_size(#[trigger] s[i]) <= seq_expr_size(s),
{
    assert forall|i: int| 0 <= i < s.len() implies expr_size(#[trigger] s[i]) <= seq_expr_size(
        s,
    ) by {
        lemma_seq_expr_size_elem(s, i);
    }
}

/// The members of a tuple or union are smaller than the whole.
proof fn lemma_members_smaller(e: ExprView)
    ensures
        e matches ExprView::Union(es) ==> seq_expr_size(es) < expr_size(e),
        e matches ExprView::Tuple(es) ==> seq_expr_size(es) < expr_size(e),
{
}

/// Subsumption is sound: when the rules say `a` ⊇ `b`, every value of `b` is
/// a value of `a`.
pub proof fn lemma_super_sound(a: ExprView, b: ExprView)
    ensures
        super_spec(a, b) ==> forall|v: Value| mem(v, b) ==> mem(v, a),
    decreases expr_size(b), expr_size(a), 0nat,
{
    if super_spec(a, b) {
        assert forall|v: Value| mem(v, b) implies mem(v, a) by {
            lemma_super_sound_at(a, b, v);
        }
    }
}

/// Soundness at one value.
proof fn lemma_super_sound_at(a: ExprView, b: ExprView, v: Value)
    requires
        super_spec(a, b),
        mem(v, b),
    ensures
        mem(v, a),
    decreases expr_size(b), expr_size(a), 1nat,
{
    match (a, b) {
        (ExprView::Bound(l1, h1), ExprView::Bound(l2, h2)) => {
            crate::interval::lemma_covers_rule(
                IntField { lo: l1, hi: h1 },
                IntField { lo: l2, hi: h2 },
            );
        },
        (ExprView::FloatBound(l1, h1), ExprView::FloatBound(l2, h2)) => {
            crate::interval::lemma_covers_rule(
                (FloatField { lo: l1, hi: h1 }).as_micros(),
                (FloatField { lo: l2, hi: h2 }).as_micros(),
            );
        },
        (ExprView::FloatBound(l1, h1), ExprView::LiteralFloat(x)) => {
            if is_whole(x.value()) {
                vstd::arithmetic::div_mod::lemma_fundamental_div_mod(
                    x.value(),
                    MICROS_PER_UNIT as int,
                );
                assert(floor_units_of(x.value()) * MICROS_PER_UNIT == x.value());
            }
        },
        (ExprView::Tuple(xs), ExprView::Tuple(ys)) => {
            match v {
                Value::VTuple(vs) => {
                    assert(mem_tuple(vs, ys));
                    assert forall|i: int| 0 <= i < xs.len() implies mem(
                        #[trigger] vs[i],
                        xs[i],
                    ) by {
                        lemma_seq_expr_size_elem(xs, i);
                        lemma_seq_expr_size_elem(ys, i);
                        assert(mem(vs[i], ys[i]));
                        assert(super_spec(xs[i], ys[i]));
                        lemma_super_sound_at(xs[i], ys[i], vs[i]);
                    }
                    assert(mem_tuple(vs, xs));
                },
                _ => {},
            }
        },
        (ExprView::Union(aes), bb) => {
            match bb {
                ExprView::Union(bes) => {
                    let j = choose|j: int| 0 <= j < bes.len() && mem(v, #[trigger] bes[j]);
                    assert(sup_some(aes, bes[j]));
                    let i = choose|i: int| 0 <= i < aes.len() && super_spec(
                        #[trigger] aes[i],
                        bes[j],
                    );
                    lemma_seq_expr_size_elem(aes, i);
                    lemma_seq_expr_size_elem(bes, j);
                    lemma_super_sound_at(aes[i], bes[j], v);
                    assert(mem_union(v, aes));
                },
                _ => {
                    let i = choose|i: int| 0 <= i < aes.len() && super_spec(#[trigger] aes[i], bb);
                    lemma_seq_expr_size_elem(aes, i);
                    lemma_super_sound_at(aes[i], bb, v);
                    assert(mem_union(v, aes));
                },
            }
        },
        (aa, ExprView::Union(bes)) => {
            let j = choose|j: int| 0 <= j < bes.len() && mem(v, #[trigger] bes[j]);
            lemma_seq_expr_size_elem(bes, j);
            lemma_super_sound_at(aa, bes[j], v);
        },
        _ => {},
    }
}

impl ConstraintExpr {
    /// Whether this constraint subsumes `other` by the structural rules:
    /// every value of `other` is then a value of `self`.
    #[verifier::loop_isolation(false)]
    pub fn super_of(&self, other: &Self) -> (r: bool)
        ensures
            r == super_spec(self@, other@),
        decreases expr_size(other@), expr_size(self@), 0nat,
    {
        broadcast use lemma_expr_view_shape;

        match (self, other) {
            (ConstraintExpr::Top, _) => true,
            (_, ConstraintExpr::Bottom) => true,
            (ConstraintExpr::Bottom, _) => false,
            (_, ConstraintExpr::Top) => false,
            (ConstraintExpr::Int, ConstraintExpr::LiteralInt(_)) => true,
            (ConstraintExpr::Int, ConstraintExpr::Bound(_, _)) => true,
            (ConstraintExpr::Int, ConstraintExpr::Int) => true,
            (ConstraintExpr::Float, ConstraintExpr::LiteralFloat(_)) => true,
            (ConstraintExpr::Float, ConstraintExpr::FloatBound(_, _)) => true,
            (ConstraintExpr::Float, ConstraintExpr::LiteralInt(_)) => true,
            (ConstraintExpr::Float, ConstraintExpr::Bound(_, _)) => true,
            (ConstraintExpr::Float, ConstraintExpr::Int) => true,
            (ConstraintExpr::Float, ConstraintExpr::Float) => true,
            (ConstraintExpr::Bool, ConstraintExpr::LiteralBool(_)) => true,
            (ConstraintExpr::Bool, ConstraintExpr::Bool) => true,
            (ConstraintExpr::String, ConstraintExpr::LiteralString(_)) => true,
            (ConstraintExpr::String, ConstraintExpr::String) => true,
            (ConstraintExpr::LiteralInt(x), ConstraintExpr::LiteralInt(y)) => x == y,
            (ConstraintExpr::LiteralFloat(x), ConstraintExpr::LiteralFloat(y)) => x == y,
            (ConstraintExpr::LiteralBool(x), ConstraintExpr::LiteralBool(y)) => x == y,
            (ConstraintExpr::LiteralString(x), ConstraintExpr::LiteralString(y)) => *x == *y,
            (ConstraintExpr::Bound(l1, h1), ConstraintExpr::Bound(l2, h2)) => {
                let i = IntField::new(*l1, *h1);
                i.contains_field(&IntField::new(*l2, *h2))
            },
            (ConstraintExpr::Bound(l1, h1), ConstraintExpr::LiteralInt(n)) => {
                let i = IntField::new(*l1, *h1);
                i.contains_value(*n)
            },
            (ConstraintExpr::FloatBound(l1, h1), ConstraintExpr::FloatBound(l2, h2)) => {
                let i = FloatField::new(*l1, *h1);
                i.contains_field(&FloatField::new(*l2, *h2))
            },
            (ConstraintExpr::FloatBound(l1, h1), ConstraintExpr::LiteralFloat(x)) => {
                let i = FloatField::new(*l1, *h1);
                i.contains_value(*x)
            },
            (ConstraintExpr::FloatBound(l1, h1), ConstraintExpr::LiteralInt(n)) => {
                let i = FloatField::new(*l1, *h1);
                i.contains_units(*n)
            },
            (ConstraintExpr::Tuple(xs), ConstraintExpr::Tuple(ys)) => {
                proof {
                    lemma_view_exprs(xs@);
                    lemma_view_exprs(ys@);
                }
                let ghost xsq = view_exprs(xs@);
                let ghost ysq = view_exprs(ys@);
                if xs.len() != ys.len() {
                    return false;
                }
                let n = ys.len();
                let mut i: usize = 0;
                while i < n
                    invariant
                        0 <= i <= n,
                        forall|k: int| 0 <= k < i ==> super_spec(xsq[k], #[trigger] ysq[k]),
                    decreases n - i,
                {
                    proof {
                        lemma_seq_expr_size_elem(xsq, i as int);
                        lemma_seq_expr_size_elem(ysq, i as int);
                    }
                    if !xs[i].super_of(&ys[i]) {
                        proof {
                            assert(!sup_tuple(xsq, ysq));
                        }
                        return false;
                    }
                    i += 1;
                }
                proof {
                    assert(sup_tuple(xsq, ysq));
                }
                true
            },
            (ConstraintExpr::Union(a_es), _) => {
                proof {
                    lemma_view_exprs(a_es@);
                }
                let ghost asq = view_exprs(a_es@);
                match other {
                    ConstraintExpr::Union(b_es) => {
                        proof {
                            lemma_view_exprs(b_es@);
                        }
                        let ghost bsq = view_exprs(b_es@);
                        let bn = b_es.len();
                        let mut j: usize = 0;
                        while j < bn
                            invariant
                                0 <= j <= bn,
                                forall|jj: int| 0 <= jj < j ==> sup_some(asq, #[trigger] bsq[jj]),
                            decreases bn - j,
                        {
                            proof {
                                lemma_seq_expr_size_elem(bsq, j as int);
                            }
                            let an = a_es.len();
                            let mut i: usize = 0;
                            let mut found = false;
                            while i < an && !found
                                invariant
                                    0 <= i <= an,
                                    0 <= j < bn,
                                    found ==> sup_some(asq, bsq[j as int]),
                                    !found ==> forall|ii: int|
                                        0 <= ii < i ==> !super_spec(
                                            #[trigger] asq[ii],
                                            bsq[j as int],
                                        ),
                                decreases an - i + if found { 0int } else { 1int },
                            {
                                proof {
                                    lemma_seq_expr_size_elem(asq, i as int);
                                }
                                if a_es[i].super_of(&b_es[j]) {
                                    proof {
                                        assert(super_spec(asq[i as int], bsq[j as int]));
                                    }
                                    found = true;
                                } else {
                                    i += 1;
                                }
                            }
                            if !found {
                                proof {
                                    assert(!sup_some(asq, bsq[j as int]));
                                    assert(!sup_each_some(asq, bsq));
                                }
                                return false;
                            }
                            j += 1;
                        }
                        proof {
                            assert(sup_each_some(asq, bsq));
                        }
                        true
                    },
                    _ => {
                        let an = a_es.len();
                        let mut i: usize = 0;
                        while i < an
                            invariant
                                0 <= i <= an,
                                forall|ii: int|
                                    0 <= ii < i ==> !super_spec(#[trigger] asq[ii], other@),
                            decreases an - i,
                        {
                            proof {
                                lemma_seq_expr_size_elem(asq, i as int);
                            }
                            if a_es[i].super_of(other) {
                                proof {
                                    assert(sup_some(asq, other@));
                                }
                                return true;
                            }
                            i += 1;
                        }
                        proof {
                            assert(!sup_some(asq, other@));
                        }
                        false
                    },
                }
            },
            (_, ConstraintExpr::Union(b_es)) => {
                proof {
                    lemma_view_exprs(b_es@);
                }
                let ghost bsq = view_exprs(b_es@);
                let bn = b_es.len();
                let mut j: usize = 0;
                while j < bn
                    invariant
                        0 <= j <= bn,
                        forall|jj: int| 0 <= jj < j ==> super_spec(self@, #[trigger] bsq[jj]),
                    decreases bn - j,
                {
                    proof {
                        lemma_seq_expr_size_elem(bsq, j as int);
                    }
                    if !self.super_of(&b_es[j]) {
                        proof {
                            assert(!sup_each(self@, bsq));
                        }
                        return false;
                    }
                    j += 1;
                }
                proof {
                    assert(sup_each(self@, bsq));
                }
                true
            },
            _ => false,
        }
    }

    /// Narrows `v` by this constraint: `v` itself when this constraint
    /// subsumes it, `Bottom` otherwise. The last clause is the refine law:
    /// the result is always subsumed by `self`.
    pub fn refine(&self, v: &Self) -> (r: Self)
        ensures
            super_spec(self@, v@) ==> r@ == v@,
            !super_spec(self@, v@) ==> r@ == ExprView::Bottom,
            super_spec(self@, r@),
    {
        if self.super_of(v) {
            v.clone()
        } else {
            ConstraintExpr::Bottom
        }
    }

    /// Both directions of `super_of`: the two constraints describe the same
    /// set of values, decided by the rules, never by structural comparison.
    /// Every constraint equals itself.
    pub fn equals(&self, other: &Self) -> (r: bool)
        ensures
            r == (super_spec(self@, other@) && super_spec(other@, self@)),
            self@ == other@ ==> r,
    {
        proof {
            lemma_super_reflexive(self@);
        }
        self.super_of(other) && other.super_of(self)
    }
}

/// Reflexivity: every constraint subsumes, and so also equals, itself.
pub proof fn lemma_super_reflexive(e: ExprView)
    ensures
        super_spec(e, e),
    decreases expr_size(e),
{
    match e {
        ExprView::Bound(lo, hi) => {
            crate::interval::lemma_covers_rule(IntField { lo, hi }, IntField { lo, hi });
        },
        ExprView::FloatBound(lo, hi) => {
            crate::interval::lemma_covers_rule(
                (FloatField { lo, hi }).as_micros(),
                (FloatField { lo, hi }).as_micros(),
            );
        },
        ExprView::Tuple(es) => {
            assert forall|i: int| 0 <= i < es.len() implies super_spec(
                es[i],
                #[trigger] es[i],
            ) by {
                lemma_seq_expr_size_elem(es, i);
                lemma_super_reflexive(es[i]);
            }
            assert(sup_tuple(es, es));
        },
        ExprView::Union(es) => {
            assert forall|j: int| 0 <= j < es.len() implies sup_some(es, #[trigger] es[j]) by {
                lemma_seq_expr_size_elem(es, j);
                lemma_super_reflexive(es[j]);
                assert(super_spec(es[j], es[j]));
            }
            assert(sup_each_some(es, es));
        },
        _ => {},
    }
}

/// The universe subsumes everything, and everything subsumes the empty set.
pub proof fn lemma_top_and_bottom(a: ExprView, b: ExprView)
    ensures
        super_spec(ExprView::Top, b),
        super_spec(a, ExprView::Bottom),
{
}

/// Tuple subsumption is exactly componentwise subsumption at equal arity.
pub proof fn lemma_tuple_componentwise(xs: Seq<ExprView>, ys: Seq<ExprView>)
    ensures
        super_spec(ExprView::Tuple(xs), ExprView::Tuple(ys)) == (xs.len() == ys.len()
            && forall|i: int| 0 <= i < ys.len() ==> super_spec(xs[i], #[trigger] ys[i])),
{
    assert(super_spec(ExprView::Tuple(xs), ExprView::Tuple(ys)) == sup_tuple(xs, ys));
}

proof fn lemma_view_exprs_drop_last(s: Seq<ConstraintExpr>)
    requires
        s.len() > 0,
    ensures
        view_exprs(s.drop_last()) == view_exprs(s).drop_last(),
        view_exprs(s).last() == s.last()@,
        view_exprs(s).len() == s.len(),
{
    lemma_view_exprs(s);
    assert(view_exprs(s) == view_exprs(s.drop_last()).push(s.last()@));
    assert(view_exprs(s).drop_last() =~= view_exprs(s.drop_last()));
}

proof fn lemma_view_exprs_remove(s: Seq<ConstraintExpr>, j: int)
    requires
        0 <= j < s.len(),
    ensures
        view_exprs(s.remove(j)) == view_exprs(s).remove(j),
{
    lemma_view_exprs(s);
    lemma_view_exprs(s.remove(j));
    assert(view_exprs(s.remove(j)) =~= view_exprs(s).remove(j));
}

proof fn lemma_seq_size_push(s: Seq<ExprView>, x: ExprView)
    ensures
        seq_expr_size(s.push(x)) == seq_expr_size(s) + expr_size(x),
    decreases s.len(),
{
    assert(seq_expr_size(s.push(x)) == expr_size(s.push(x).first()) + seq_expr_size(
        s.push(x).drop_first(),
    ));
    if s.len() == 0 {
        assert(s.push(x).drop_first() =~= Seq::<ExprView>::empty());
        assert(s.push(x).first() == x);
        assert(seq_expr_size(Seq::<ExprView>::empty()) == 0);
    } else {
        assert(s.push(x).drop_first() =~= s.drop_first().push(x));
        assert(s.push(x).first() == s.first());
        lemma_seq_size_push(s.drop_first(), x);
        assert(seq_expr_size(s) == expr_size(s.first()) + seq_expr_size(s.drop_first()));
    }
}

proof fn lemma_seq_size_remove(s: Seq<ExprView>, j: int)
    requires
        0 <= j < s.len(),
    ensures
        seq_expr_size(s.remove(j)) + expr_size(s[j]) == seq_expr_size(s),
    decreases s.len(),
{
    if j == 0 {
        assert(s.remove(0) =~= s.drop_first());
    } else {
        assert(s.remove(j).drop_first() =~= s.drop_first().remove(j - 1));
        lemma_seq_size_remove(s.drop_first(), j - 1);
    }
}

proof fn lemma_seq_size_drop_last(s: Seq<ExprView>)
    requires
        s.len() > 0,
    ensures
        seq_expr_size(s.drop_last()) + expr_size(s.last()) == seq_expr_size(s),
{
    assert(s.drop_last() =~= s.remove(s.len() - 1));
    lemma_seq_size_remove(s, s.len() - 1);
}

proof fn lemma_seq_size_take(s: Seq<ExprView>, k: int)
    requires
        0 <= k < s.len(),
    ensures
        seq_expr_size(s.take(k + 1)) == seq_expr_size(s.take(k)) + expr_size(s[k]),
        seq_expr_size(s.take(s.len() as int)) == seq_expr_size(s),
{
    assert(s.take(k + 1) =~= s.take(k).push(s[k]));
    lemma_seq_size_push(s.take(k), s[k]);
    assert(s.take(s.len() as int) =~= s);
}

/// A union over a sequence with one more member holds the values of the
/// sequence and of the member.
proof fn lemma_mem_union_push(s: Seq<ExprView>, x: ExprView)
    ensures
        forall|v: Value| mem_union(v, s.push(x)) == (mem_union(v, s) || mem(v, x)),
{
    assert forall|v: Value| mem_union(v, s.push(x)) == (mem_union(v, s) || mem(v, x)) by {
        if mem_union(v, s.push(x)) {
            let i = choose|i: int| 0 <= i < s.push(x).len() && mem(v, #[trigger] s.push(x)[i]);
            if i < s.len() {
                assert(s[i] == s.push(x)[i]);
                assert(mem_union(v, s));
            } else {
                assert(mem(v, x));
            }
        }
        if mem_union(v, s) {
            let i = choose|i: int| 0 <= i < s.len() && mem(v, #[trigger] s[i]);
            assert(mem(v, s.push(x)[i]));
            assert(mem_union(v, s.push(x)));
        }
        if mem(v, x) {
            assert(mem(v, s.push(x)[s.len() as int]));
            assert(mem_union(v, s.push(x)));
        }
    }
}

proof fn lemma_mem_union_drop_last(s: Seq<ExprView>)
    requires
        s.len() > 0,
    ensures
        forall|v: Value| mem_union(v, s) == (mem_union(v, s.drop_last()) || mem(v, s.last())),
{
    assert(s =~= s.drop_last().push(s.last()));
    lemma_mem_union_push(s.drop_last(), s.last());
}

proof fn lemma_mem_union_remove(s: Seq<ExprView>, j: int)
    requires
        0 <= j < s.len(),
    ensures
        forall|v: Value| mem_union(v, s) == (mem_union(v, s.remove(j)) || mem(v, s[j])),
{
    assert forall|v: Value| mem_union(v, s) == (mem_union(v, s.remove(j)) || mem(v, s[j])) by {
        if mem_union(v, s) {
            let i = choose|i: int| 0 <= i < s.len() && mem(v, #[trigger] s[i]);
            if i < j {
                assert(s.remove(j)[i] == s[i]);
                assert(mem_union(v, s.remove(j)));
            } else if i > j {
                assert(s.remove(j)[i - 1] == s[i]);
                assert(mem_union(v, s.remove(j)));
            }
        }
        if mem_union(v, s.remove(j)) {
            let i = choose|i: int| 0 <= i < s.remove(j).len() && mem(v, #[trigger] s.remove(j)[i]);
            if i < j {
                assert(s[i] == s.remove(j)[i]);
                assert(mem_union(v, s));
            } else {
                assert(s[i + 1] == s.remove(j)[i]);
                assert(mem_union(v, s));
            }
        }
        if mem(v, s[j]) {
            assert(mem_union(v, s));
        }
    }
}

proof fn lemma_mem_union_take(s: Seq<ExprView>, k: int)
    requires
        0 <= k < s.len(),
    ensures
        forall|v: Value| mem_union(v, s.take(k + 1)) == (mem_union(v, s.take(k)) || mem(v, s[k])),
{
    assert(s.take(k + 1) =~= s.take(k).push(s[k]));
    lemma_mem_union_push(s.take(k), s[k]);
}

proof fn lemma_view_exprs_concat(a: Seq<ConstraintExpr>, b: Seq<ConstraintExpr>)
    ensures
        view_exprs(a + b) == view_exprs(a) + view_exprs(b),
    decreases b.len(),
{
    if b.len() == 0 {
        assert(a + b =~= a);
        assert(view_exprs(a) + view_exprs(b) =~= view_exprs(a));
    } else {
        assert(a + b.drop_last() =~= (a + b).drop_last());
        lemma_view_exprs_concat(a, b.drop_last());
        assert(view_exprs(a + b) == view_exprs((a + b).drop_last()).push((a + b).last()@));
        assert((a + b).last() == b.last());
        assert(view_exprs(b) == view_exprs(b.drop_last()).push(b.last()@));
        assert(view_exprs(a) + view_exprs(b) =~= (view_exprs(a) + view_exprs(
            b.drop_last(),
        )).push(b.last()@));
    }
}

proof fn lemma_seq_size_concat(a: Seq<ExprView>, b: Seq<ExprView>)
    ensures
        seq_expr_size(a + b) == seq_expr_size(a) + seq_expr_size(b),
    decreases b.len(),
{
    if b.len() == 0 {
        assert(a + b =~= a);
    } else {
        assert(a + b.drop_last() =~= (a + b).drop_last());
        assert(a + b =~= (a + b.drop_last()).push(b.last()));
        lemma_seq_size_concat(a, b.drop_last());
        lemma_seq_size_push(a + b.drop_last(), b.last());
        lemma_seq_size_drop_last(b);
    }
}

proof fn lemma_qweight_concat(a: Seq<ExprView>, b: Seq<ExprView>)
    ensures
        seq_queue_weight(a + b) == seq_queue_weight(a) + seq_queue_weight(b),
    decreases b.len(),
{
    if b.len() == 0 {
        assert(a + b =~= a);
    } else {
        assert(a + b.drop_last() =~= (a + b).drop_last());
        assert(a + b =~= (a + b.drop_last()).push(b.last()));
        lemma_qweight_concat(a, b.drop_last());
        lemma_queue_weight_push(a + b.drop_last(), b.last());
    }
}

proof fn lemma_mem_union_concat(a: Seq<ExprView>, b: Seq<ExprView>)
    ensures
        forall|v: Value| mem_union(v, a + b) == (mem_union(v, a) || mem_union(v, b)),
    decreases b.len(),
{
    if b.len() == 0 {
        assert(a + b =~= a);
        assert(forall|v: Value| !mem_union(v, b));
    } else {
        assert(a + b =~= (a + b.drop_last()).push(b.last()));
        lemma_mem_union_concat(a, b.drop_last());
        lemma_mem_union_push(a + b.drop_last(), b.last());
        lemma_mem_union_drop_last(b);
    }
}

/// Merges two constraints directly when one subsumes the other or both are
/// intervals that overlap or sit adjacent; nothing otherwise. A merge holds
/// exactly the values of the two sides, and merging non-unions gives a
/// non-union no bigger than both together.
fn direct_union(a: &ConstraintExpr, b: &ConstraintExpr) -> (r: Option<ConstraintExpr>)
    ensures
        r matches Some(m) ==> forall|v: Value| mem(v, m@) == (mem(v, a@) || mem(v, b@)),
        r matches Some(m) ==> !(a@ is Union) && !(b@ is Union) ==> !(m@ is Union),
        r matches Some(m) ==> expr_size(m@) <= expr_size(a@) + expr_size(b@),
        r is None ==> !super_spec(a@, b@) && !super_spec(b@, a@) && !pair_mergeable(a@, b@)
            && !pair_mergeable(b@, a@),
{
    broadcast use lemma_expr_view_shape;

    if a.super_of(b) {
        proof {
            lemma_super_sound(a@, b@);
        }
        return Some(a.clone());
    }
    if b.super_of(a) {
        proof {
            lemma_super_sound(b@, a@);
        }
        return Some(b.clone());
    }
    match (a, b) {
        (ConstraintExpr::Bound(l1, h1), ConstraintExpr::Bound(l2, h2)) => {
            let i = IntField::new(*l1, *h1);
            match i.union(&IntField::new(*l2, *h2)) {
                Some(u) => Some(ConstraintExpr::Bound(u.lo, u.hi)),
                None => None,
            }
        },
        (ConstraintExpr::FloatBound(l1, h1), ConstraintExpr::FloatBound(l2, h2)) => {
            let i = FloatField::new(*l1, *h1);
            match i.union(&FloatField::new(*l2, *h2)) {
                Some(u) => Some(ConstraintExpr::FloatBound(u.lo, u.hi)),
                None => None,
            }
        },
        _ => None,
    }
}

/// An interval that the endpoint rules call empty has no values.
proof fn lemma_empty_interval_no_mem(e: ExprView)
    requires
        (e matches ExprView::Bound(lo, hi) ==> (IntField { lo, hi }).empty_rule()),
        (e matches ExprView::FloatBound(lo, hi) ==> (FloatField { lo, hi }).as_micros().empty_rule()),
        e is Bound || e is FloatBound,
    ensures
        forall|v: Value| !mem(v, e),
{
}

/// Whether two constraints are a pair of intervals of the same kind that the
/// merge rules combine.
pub open spec fn pair_mergeable(x: ExprView, y: ExprView) -> bool {
    ||| (x matches ExprView::Bound(l1, h1) && y matches ExprView::Bound(l2, h2) && (IntField {
        lo: l1,
        hi: h1,
    }).merge_rule(IntField { lo: l2, hi: h2 }))
    ||| (x matches ExprView::FloatBound(l1, h1) && y matches ExprView::FloatBound(l2, h2)
        && (FloatField { lo: l1, hi: h1 }).merge_rule(FloatField { lo: l2, hi: h2 }))
}

/// The pairs of non-union constraints for which the direct-intersection
/// table computes the exact set intersection: a `Top` or `Bottom` side, the
/// same-kind rows, the kind-with-its-literal and kind-with-its-interval rows,
/// the `Float`/`Int` cross rows, and the interval rows of one kind.
pub open spec fn table_covered(a: ExprView, b: ExprView) -> bool {
    ||| a is Top
    ||| b is Top
    ||| a is Bottom
    ||| b is Bottom
    ||| (a is Int && b is Int)
    ||| (a is Float && b is Float)
    ||| (a is Bool && b is Bool)
    ||| (a is Str && b is Str)
    ||| (a is Int && b is LiteralInt)
    ||| (a is LiteralInt && b is Int)
    ||| (a is Bool && b is LiteralBool)
    ||| (a is LiteralBool && b is Bool)
    ||| (a is Str && b is LiteralString)
    ||| (a is LiteralString && b is Str)
    ||| (a is Float && b is LiteralFloat)
    ||| (a is LiteralFloat && b is Float)
    ||| (a is Int && b is Bound)
    ||| (a is Bound && b is Int)
    ||| (a is Float && b is FloatBound)
    ||| (a is FloatBound && b is Float)
    ||| (a is Float && b is Int)
    ||| (a is Int && b is Float)
    ||| (a is Float && b is LiteralInt)
    ||| (a is LiteralInt && b is Float)
    ||| (a is Float && b is Bound)
    ||| (a is Bound && b is Float)
    ||| (a is Int && b is LiteralFloat)
    ||| (a is LiteralFloat && b is Int)
    ||| (a is Int && b is FloatBound)
    ||| (a is FloatBound && b is Int)
    ||| (a is Bound && b is Bound)
    ||| (a is FloatBound && b is FloatBound)
    ||| (a is Bound && b is LiteralInt)
    ||| (a is LiteralInt && b is Bound)
    ||| (a is FloatBound && b is LiteralFloat)
    ||| (a is LiteralFloat && b is FloatBound)
    ||| (a is FloatBound && b is LiteralInt)
    ||| (a is LiteralInt && b is FloatBound)
}

/// No member subsumes another, and no two interval members merge.
pub open spec fn pairwise_reduced(s: Seq<ExprView>) -> bool {
    forall|i: int, j: int|
        0 <= i < s.len() && 0 <= j < s.len() && i != j ==> !super_spec(
            #[trigger] s[i],
            #[trigger] s[j],
        ) && !pair_mergeable(s[i], s[j])
}

/// The canonical form that reduction establishes: a union has at least two
/// members, none of them `Bottom`, `Top` or a nested union, none subsumed by
/// another, no two of them mergeable intervals, and each canonical itself;
/// an interval is nonempty by the endpoint rules; a tuple has canonical
/// components.
pub open spec fn is_canon(e: ExprView) -> bool
    decreases e,
{
    match e {
        ExprView::Union(es) => {
            &&& es.len() >= 2
            &&& (forall|i: int|
                0 <= i < es.len() ==> !((#[trigger] es[i]) is Union) && !(es[i] is Bottom) && !(
                es[i] is Top) && is_canon(es[i]))
            &&& pairwise_reduced(es)
        },
        ExprView::Bound(lo, hi) => !(IntField { lo, hi }).empty_rule(),
        ExprView::FloatBound(lo, hi) => !(FloatField { lo, hi }).as_micros().empty_rule(),
        ExprView::Tuple(es) => forall|i: int| 0 <= i < es.len() ==> is_canon(#[trigger] es[i]),
        _ => true,
    }
}

/// Removing a member keeps the others pairwise reduced.
proof fn lemma_pairwise_remove(s: Seq<ExprView>, j: int)
    requires
        0 <= j < s.len(),
        pairwise_reduced(s),
    ensures
        pairwise_reduced(s.remove(j)),
{
    assert forall|i1: int, j1: int|
        0 <= i1 < s.remove(j).len() && 0 <= j1 < s.remove(j).len() && i1 != j1 implies !super_spec(
        #[trigger] s.remove(j)[i1],
        #[trigger] s.remove(j)[j1],
    ) && !pair_mergeable(s.remove(j)[i1], s.remove(j)[j1]) by {
        let o1: int = if i1 < j { i1 } else { i1 + 1 };
        let o2: int = if j1 < j { j1 } else { j1 + 1 };
        assert(s.remove(j)[i1] == s[o1]);
        assert(s.remove(j)[j1] == s[o2]);
        assert(!super_spec(s[o1], s[o2]) && !pair_mergeable(s[o1], s[o2]));
    }
}

/// The weight of a constraint on the reduction queue: two per node, plus two
/// per union member, so that flattening a union strictly lowers the queue's
/// total weight.
pub(crate) open spec fn queue_weight(e: ExprView) -> nat
    decreases e,
{
    match e {
        ExprView::Union(es) => 2 + seq_queue_weight(es),
        _ => 2,
    }
}

pub(crate) open spec fn seq_queue_weight(s: Seq<ExprView>) -> nat
    decreases s,
{
    if s.len() == 0 {
        0
    } else {
        seq_queue_weight(s.drop_last()) + queue_weight(s.last()) + 2
    }
}

proof fn lemma_queue_weight_push(s: Seq<ExprView>, x: ExprView)
    ensures
        seq_queue_weight(s.push(x)) == seq_queue_weight(s) + queue_weight(x) + 2,
{
    assert(s.push(x).drop_last() =~= s);
}

/// Whether some member of `u` subsumes `c`.
fn subsumed_by_any(u: &Vec<ConstraintExpr>, c: &ConstraintExpr) -> (r: bool)
    ensures
        r ==> exists|k: int|
            0 <= k < u@.len() && super_spec(#[trigger] view_exprs(u@)[k], c@),
        !r ==> forall|k: int|
            0 <= k < u@.len() ==> !super_spec(#[trigger] view_exprs(u@)[k], c@),
{
    proof {
        lemma_view_exprs(u@);
    }
    let n = u.len();
    let mut k: usize = 0;
    while k < n
        invariant
            0 <= k <= n,
            n == u@.len(),
            view_exprs(u@).len() == n,
            forall|kk: int| 0 <= kk < k ==> !super_spec(#[trigger] view_exprs(u@)[kk], c@),
            forall|i: int| 0 <= i < u@.len() ==> view_exprs(u@)[i] == u@[i]@,
        decreases n - k,
    {
        if u[k].super_of(c) {
            proof {
                assert(super_spec(view_exprs(u@)[k as int], c@));
            }
            return true;
        }
        k += 1;
    }
    false
}

/// Removes from `u` every member that `c` subsumes. What remains was there
/// before; what was there is still covered by what remains together with `c`.
#[verifier::loop_isolation(false)]
fn prune_subsumed(u: &Vec<ConstraintExpr>, c: &ConstraintExpr) -> (r: Vec<ConstraintExpr>)
    ensures
        forall|v: Value| mem_union(v, view_exprs(r@)) ==> mem_union(v, view_exprs(u@)),
        forall|v: Value|
            mem_union(v, view_exprs(u@)) ==> mem_union(v, view_exprs(r@)) || mem(v, c@),
        seq_expr_size(view_exprs(r@)) <= seq_expr_size(view_exprs(u@)),
        r@.len() <= u@.len(),
        (forall|k: int| 0 <= k < u@.len() ==> !(#[trigger] view_exprs(u@)[k] is Union))
            ==> forall|k: int| 0 <= k < r@.len() ==> !(#[trigger] view_exprs(r@)[k] is Union),
        forall|k: int|
            0 <= k < r@.len() ==> exists|j: int|
                0 <= j < u@.len() && #[trigger] view_exprs(r@)[k] == view_exprs(u@)[j],
        pairwise_reduced(view_exprs(u@)) ==> pairwise_reduced(view_exprs(r@)),
        forall|k: int| 0 <= k < r@.len() ==> !super_spec(c@, #[trigger] view_exprs(r@)[k]),
{
    proof {
        lemma_view_exprs(u@);
    }
    let ghost uv = view_exprs(u@);
    let mut kept: Vec<ConstraintExpr> = Vec::new();
    proof {
        assert(view_exprs(kept@) =~= Seq::<ExprView>::empty());
        assert(uv.take(0) =~= Seq::<ExprView>::empty());
    }
    let n = u.len();
    let mut k: usize = 0;
    while k < n
        invariant
            0 <= k <= n,
            forall|v: Value| mem_union(v, view_exprs(kept@)) ==> mem_union(v, uv.take(k as int)),
            forall|v: Value|
                mem_union(v, uv.take(k as int)) ==> mem_union(v, view_exprs(kept@)) || mem(
                    v,
                    c@,
                ),
            seq_expr_size(view_exprs(kept@)) <= seq_expr_size(uv.take(k as int)),
            view_exprs(kept@).len() == kept@.len(),
            kept@.len() <= k,
            (forall|kk: int| 0 <= kk < n ==> !(#[trigger] uv[kk] is Union)) ==> forall|kk: int|
                0 <= kk < kept@.len() ==> !(#[trigger] view_exprs(kept@)[kk] is Union),
            forall|kk: int|
                0 <= kk < kept@.len() ==> exists|jj: int|
                    0 <= jj < k && #[trigger] view_exprs(kept@)[kk] == uv[jj],
            forall|kk: int|
                0 <= kk < kept@.len() ==> !super_spec(c@, #[trigger] view_exprs(kept@)[kk]),
            pairwise_reduced(uv) ==> pairwise_reduced(view_exprs(kept@)),
        decreases n - k,
    {
        let ghost kept_before = view_exprs(kept@);
        proof {
            lemma_view_exprs(kept@);
            lemma_mem_union_take(uv, k as int);
            lemma_seq_size_take(uv, k as int);
        }
        if c.super_of(&u[k]) {
            proof {
                assert(uv[k as int] == u@[k as int]@);
                lemma_super_sound(c@, u@[k as int]@);
                assert forall|v: Value| mem_union(v, uv.take(k as int + 1)) implies mem_union(
                    v,
                    view_exprs(kept@),
                ) || mem(v, c@) by {
                    assert(mem_union(v, uv.take(k as int)) || mem(v, uv[k as int]));
                    if mem(v, uv[k as int]) {
                        assert(mem(v, c@));
                    }
                }
                assert forall|v: Value| mem_union(v, view_exprs(kept@)) implies mem_union(
                    v,
                    uv.take(k as int + 1),
                ) by {
                    assert(mem_union(v, uv.take(k as int)));
                    assert(mem_union(v, uv.take(k as int + 1)));
                }
            }
        } else {
            let kc = u[k].clone();
            let ghost kb_exec = kept@;
            kept.push(kc);
            proof {
                lemma_view_exprs(kept@);
                assert(kept@.drop_last() =~= kb_exec);
                assert(view_exprs(kept@) == view_exprs(kept@.drop_last()).push(kept@.last()@));
                assert(view_exprs(kept@) == kept_before.push(uv[k as int]));
                lemma_mem_union_push(kept_before, uv[k as int]);
                lemma_seq_size_push(kept_before, uv[k as int]);
                if forall|kk: int| 0 <= kk < n ==> !(#[trigger] uv[kk] is Union) {
                    assert(!(uv[k as int] is Union));
                    assert(forall|kk: int|
                        0 <= kk < kept_before.len() ==> !(#[trigger] kept_before[kk] is Union));
                    lemma_nonunion_push(kept_before, uv[k as int]);
                }
                assert forall|kk: int| 0 <= kk < kept@.len() implies exists|jj: int|
                    0 <= jj < k + 1 && #[trigger] view_exprs(kept@)[kk] == uv[jj] by {
                    if kk < kept_before.len() {
                        assert(view_exprs(kept@)[kk] == kept_before[kk]);
                    } else {
                        assert(view_exprs(kept@)[kk] == uv[k as int]);
                    }
                }
                if pairwise_reduced(uv) {
                    assert forall|i1: int, j1: int|
                        0 <= i1 < view_exprs(kept@).len() && 0 <= j1 < view_exprs(kept@).len()
                            && i1 != j1 implies !super_spec(
                        #[trigger] view_exprs(kept@)[i1],
                        #[trigger] view_exprs(kept@)[j1],
                    ) && !pair_mergeable(view_exprs(kept@)[i1], view_exprs(kept@)[j1]) by {
                        if i1 < kept_before.len() && j1 < kept_before.len() {
                            assert(view_exprs(kept@)[i1] == kept_before[i1]);
                            assert(view_exprs(kept@)[j1] == kept_before[j1]);
                        } else if j1 == kept_before.len() {
                            assert(view_exprs(kept@)[j1] == uv[k as int]);
                            assert(view_exprs(kept@)[i1] == kept_before[i1]);
                            let jj = choose|jj: int|
                                0 <= jj < k && #[trigger] kept_before[i1] == uv[jj];
                            assert(!super_spec(uv[jj], uv[k as int]) && !pair_mergeable(
                                uv[jj],
                                uv[k as int],
                            ));
                            assert(!super_spec(uv[k as int], uv[jj]) && !pair_mergeable(
                                uv[k as int],
                                uv[jj],
                            ));
                        } else {
                            assert(view_exprs(kept@)[i1] == uv[k as int]);
                            assert(view_exprs(kept@)[j1] == kept_before[j1]);
                            let jj = choose|jj: int|
                                0 <= jj < k && #[trigger] kept_before[j1] == uv[jj];
                            assert(!super_spec(uv[jj], uv[k as int]) && !pair_mergeable(
                                uv[jj],
                                uv[k as int],
                            ));
                            assert(!super_spec(uv[k as int], uv[jj]) && !pair_mergeable(
                                uv[k as int],
                                uv[jj],
                            ));
                        }
                    }
                }
                assert forall|v: Value| mem_union(v, view_exprs(kept@)) implies mem_union(
                    v,
                    uv.take(k as int + 1),
                ) by {
                    assert(mem_union(v, kept_before) || mem(v, uv[k as int]));
                    if mem_union(v, kept_before) {
                        assert(mem_union(v, uv.take(k as int)));
                    }
                    assert(mem_union(v, uv.take(k as int + 1)));
                }
                assert forall|v: Value| mem_union(v, uv.take(k as int + 1)) implies mem_union(
                    v,
                    view_exprs(kept@),
                ) || mem(v, c@) by {
                    assert(mem_union(v, uv.take(k as int)) || mem(v, uv[k as int]));
                    if mem_union(v, uv.take(k as int)) {
                        assert(mem_union(v, kept_before) || mem(v, c@));
                    }
                }
            }
        }
        k += 1;
    }
    proof {
        assert(uv.take(n as int) =~= uv);
    }
    kept
}

/// Reduces a list of constraints to the canonical form of their union:
/// bottoms and empty intervals are dropped, nested unions flattened, subsumed
/// members absorbed, and mergeable members merged, until no member can be
/// absorbed or merged; members are then recursively reduced. The result holds
/// exactly the values of the members given.
#[verifier::loop_isolation(false)]
fn reduce_union(es: Vec<ConstraintExpr>) -> (r: ConstraintExpr)
    ensures
        forall|v: Value| mem(v, r@) == mem_union(v, view_exprs(es@)),
        expr_size(r@) <= seq_expr_size(view_exprs(es@)) + 1,
        is_canon(r@),
    decreases seq_expr_size(view_exprs(es@)) + 1, 0nat,
{
    broadcast use lemma_expr_view_shape;

    proof {
        lemma_view_exprs(es@);
    }
    let ghost orig = view_exprs(es@);
    let mut queue = es;
    let mut kept: Vec<ConstraintExpr> = Vec::new();
    proof {
        assert(view_exprs(kept@) =~= Seq::<ExprView>::empty());
    }
    while queue.len() > 0
        invariant
            forall|v: Value| #![trigger mem_union(v, orig)]
                (mem_union(v, view_exprs(queue@)) || mem_union(v, view_exprs(kept@)))
                    == mem_union(v, orig),
            seq_expr_size(view_exprs(queue@)) + seq_expr_size(view_exprs(kept@))
                <= seq_expr_size(orig),
            view_exprs(kept@).len() == kept@.len(),
            forall|k: int|
                0 <= k < kept@.len() ==> !(#[trigger] view_exprs(kept@)[k] is Union) && !(
                view_exprs(kept@)[k] is Bottom) && is_canon(view_exprs(kept@)[k]),
            pairwise_reduced(view_exprs(kept@)),
        decreases seq_queue_weight(view_exprs(queue@)) + 3 * kept@.len(),
    {
        let ghost queue_before = view_exprs(queue@);
        let ghost kept_before = view_exprs(kept@);
        proof {
            lemma_view_exprs_drop_last(queue@);
            lemma_mem_union_drop_last(queue_before);
            lemma_seq_size_drop_last(queue_before);
            assert(seq_queue_weight(queue_before) == seq_queue_weight(queue_before.drop_last())
                + queue_weight(queue_before.last()) + 2);
        }
        let c = queue.pop().unwrap();
        let ghost cv = c@;
        proof {
            assert(cv == queue_before.last());
            assert(view_exprs(queue@) == queue_before.drop_last());
        }
        let empty_interval = match &c {
            ConstraintExpr::Bound(lo, hi) => {
                let field = IntField::new(*lo, *hi);
                field.is_empty()
            },
            ConstraintExpr::FloatBound(lo, hi) => {
                let field = FloatField::new(*lo, *hi);
                field.is_empty()
            },
            _ => false,
        };
        match c {
            ConstraintExpr::Bottom => {
                proof {
                    assert(forall|v: Value| !mem(v, cv));
                    assert forall|v: Value| #![trigger mem_union(v, orig)]
                        (mem_union(v, view_exprs(queue@)) || mem_union(v, view_exprs(kept@)))
                            == mem_union(v, orig) by {
                        assert((mem_union(v, queue_before) || mem_union(v, kept_before))
                            == mem_union(v, orig));
                    }
                }
            },
            ConstraintExpr::Union(ms) => {
                proof {
                    lemma_view_exprs(ms@);
                    assert(cv == ExprView::Union(view_exprs(ms@)));
                    assert(forall|v: Value| mem(v, cv) == mem_union(v, view_exprs(ms@)));
                    assert(expr_size(cv) == 1 + seq_expr_size(view_exprs(ms@)));
                    assert(queue_weight(cv) == 2 + seq_queue_weight(view_exprs(ms@)));
                }
                let mut ms = ms;
                let ghost msv = view_exprs(ms@);
                let ghost ms_exec = ms@;
                let ghost q_exec = queue@;
                queue.append(&mut ms);
                proof {
                    assert(queue@ == q_exec + ms_exec);
                    lemma_view_exprs_concat(q_exec, ms_exec);
                    assert(view_exprs(queue@) == queue_before.drop_last() + msv);
                    lemma_mem_union_concat(queue_before.drop_last(), msv);
                    lemma_seq_size_concat(queue_before.drop_last(), msv);
                    lemma_qweight_concat(queue_before.drop_last(), msv);
                    assert forall|v: Value| #![trigger mem_union(v, orig)]
                        (mem_union(v, view_exprs(queue@)) || mem_union(v, view_exprs(kept@)))
                            == mem_union(v, orig) by {
                        assert((mem_union(v, queue_before) || mem_union(v, kept_before))
                            == mem_union(v, orig));
                        assert(mem_union(v, view_exprs(queue@)) == (mem_union(
                            v,
                            queue_before.drop_last(),
                        ) || mem_union(v, msv)));
                    }
                }
            },
            ConstraintExpr::Tuple(items) => {
                let whole = ConstraintExpr::Tuple(items);
                proof {
                    assert(whole@ == cv);
                }
                let flat = whole.reduce();
                let ghost fv = flat@;
                proof {
                    assert(forall|v: Value| mem(v, fv) == mem(v, cv));
                    assert(!(fv is Union));
                    assert(!(fv is Bottom));
                    assert(queue_weight(fv) == 2 && queue_weight(cv) == 2);
                }
                sift_atom(flat, &mut queue, &mut kept);
                proof {
                    assert(sift_post(
                        fv,
                        queue_before.drop_last(),
                        kept_before,
                        view_exprs(queue@),
                        view_exprs(kept@),
                    ));
                    assert forall|v: Value| #![trigger mem_union(v, orig)]
                        (mem_union(v, view_exprs(queue@)) || mem_union(v, view_exprs(kept@)))
                            == mem_union(v, orig) by {
                        assert((mem_union(v, view_exprs(queue@)) || mem_union(
                            v,
                            view_exprs(kept@),
                        )) == (mem_union(v, queue_before.drop_last()) || mem_union(
                            v,
                            kept_before,
                        ) || mem(v, fv)));
                        assert(mem(v, fv) == mem(v, cv));
                        assert((mem_union(v, queue_before) || mem_union(v, kept_before))
                            == mem_union(v, orig));
                    }
                }
            },
            other_atom => {
                if empty_interval {
                    proof {
                        lemma_empty_interval_no_mem(cv);
                        assert forall|v: Value| #![trigger mem_union(v, orig)]
                            (mem_union(v, view_exprs(queue@)) || mem_union(v, view_exprs(kept@)))
                                == mem_union(v, orig) by {
                            assert((mem_union(v, queue_before) || mem_union(v, kept_before))
                                == mem_union(v, orig));
                        }
                    }
                } else {
                    proof {
                        assert(!(cv is Union));
                        assert(!(cv is Bottom));
                        assert(is_canon(cv));
                    }
                    sift_atom(other_atom, &mut queue, &mut kept);
                    proof {
                        assert(sift_post(
                            cv,
                            queue_before.drop_last(),
                            kept_before,
                            view_exprs(queue@),
                            view_exprs(kept@),
                        ));
                        assert forall|v: Value| #![trigger mem_union(v, orig)]
                            (mem_union(v, view_exprs(queue@)) || mem_union(v, view_exprs(kept@)))
                                == mem_union(v, orig) by {
                            assert((mem_union(v, view_exprs(queue@)) || mem_union(
                                v,
                                view_exprs(kept@),
                            )) == (mem_union(v, queue_before.drop_last()) || mem_union(
                                v,
                                kept_before,
                            ) || mem(v, cv)));
                            assert((mem_union(v, queue_before) || mem_union(v, kept_before))
                                == mem_union(v, orig));
                        }
                    }
                }
            },
        }
    }
    proof {
        assert(view_exprs(queue@) =~= Seq::<ExprView>::empty());
    }
    if kept.len() == 0 {
        proof {
            assert(forall|v: Value| !mem_union(v, view_exprs(kept@)));
        }
        ConstraintExpr::Bottom
    } else if kept.len() == 1 {
        let ghost kv1 = view_exprs(kept@);
        let single = kept.pop().unwrap();
        proof {
            lemma_view_exprs(kept@);
            lemma_mem_union_drop_last(kv1);
            lemma_seq_size_drop_last(kv1);
            assert(kv1.drop_last() =~= Seq::<ExprView>::empty());
            assert(single@ == kv1.last());
        }
        single
    } else {
        let ghost kv = view_exprs(kept@);
        let r = ConstraintExpr::Union(kept);
        proof {
            assert(r@ == ExprView::Union(kv));
            assert forall|v: Value| mem(v, r@) == mem_union(v, orig) by {
                assert(mem(v, r@) == mem_union(v, kv));
                assert((mem_union(v, view_exprs(queue@)) || mem_union(v, kv)) == mem_union(
                    v,
                    orig,
                ));
            }
            assert forall|i: int| 0 <= i < kv.len() implies !((#[trigger] kv[i]) is Union) && !(
            kv[i] is Bottom) && !(kv[i] is Top) && is_canon(kv[i]) by {
                if kv[i] is Top {
                    let j: int = if i == 0 {
                        1
                    } else {
                        0
                    };
                    assert(!super_spec(kv[i], kv[j]));
                    assert(super_spec(ExprView::Top, kv[j]));
                }
            }
            assert(is_canon(r@));
        }
        r
    }
}

impl ConstraintExpr {
    /// The canonical form: unions are reduced, empty intervals fall to
    /// `Bottom`; the result describes exactly the same values.
    #[verifier::loop_isolation(false)]
    pub fn reduce(&self) -> (r: ConstraintExpr)
        ensures
            forall|v: Value| mem(v, r@) == mem(v, self@),
            expr_size(r@) <= expr_size(self@),
            is_canon(r@),
            self@ is Tuple ==> r@ is Tuple,
        decreases expr_size(self@), 1nat,
    {
        broadcast use lemma_expr_view_shape;

        match self {
            ConstraintExpr::Union(es) => {
                proof {
                    lemma_view_exprs(es@);
                }
                let members = clone_exprs(es);
                reduce_union(members)
            },
            ConstraintExpr::Tuple(es) => {
                proof {
                    lemma_view_exprs(es@);
                }
                let ghost esv = view_exprs(es@);
                let mut out: Vec<ConstraintExpr> = Vec::new();
                proof {
                    assert(view_exprs(out@) =~= Seq::<ExprView>::empty());
                    assert(esv.take(0) =~= Seq::<ExprView>::empty());
                }
                let n = es.len();
                let mut i: usize = 0;
                while i < n
                    invariant
                        0 <= i <= n,
                        view_exprs(out@).len() == i as int,
                        forall|k: int, v: Value|
                            0 <= k < i ==> #[trigger] mem(v, view_exprs(out@)[k]) == mem(
                                v,
                                esv[k],
                            ),
                        forall|k: int|
                            0 <= k < i ==> is_canon(#[trigger] view_exprs(out@)[k]),
                        seq_expr_size(view_exprs(out@)) <= seq_expr_size(esv.take(i as int)),
                    decreases n - i,
                {
                    proof {
                        lemma_seq_expr_size_elem(esv, i as int);
                        lemma_seq_size_take(esv, i as int);
                    }
                    let item = es[i].reduce();
                    let ghost ob = view_exprs(out@);
                    let ghost ob_exec = out@;
                    out.push(item);
                    proof {
                        assert(out@.drop_last() =~= ob_exec);
                        assert(view_exprs(out@) == view_exprs(out@.drop_last()).push(
                            out@.last()@,
                        ));
                        lemma_seq_size_push(ob, out@.last()@);
                        assert forall|k: int, v: Value| 0 <= k < i + 1 implies #[trigger] mem(
                            v,
                            view_exprs(out@)[k],
                        ) == mem(v, esv[k]) by {
                            if k < i {
                                assert(view_exprs(out@)[k] == ob[k]);
                            }
                        }
                    }
                    i += 1;
                }
                let r = ConstraintExpr::Tuple(out);
                proof {
                    assert(esv.take(n as int) =~= esv);
                    assert(r@ == ExprView::Tuple(view_exprs(out@)));
                    assert(forall|k: int, v: Value|
                        0 <= k < n ==> #[trigger] mem(v, view_exprs(out@)[k]) == mem(v, esv[k]));
                    assert forall|v: Value| mem(v, r@) == mem(v, self@) by {
                        match v {
                            Value::VTuple(vs) => {
                                lemma_mem_tuple_pointwise(vs, view_exprs(out@), esv);
                            },
                            _ => {},
                        }
                    }
                }
                r
            },
            ConstraintExpr::Bound(lo, hi) => {
                let field = IntField::new(*lo, *hi);
                if field.is_empty() {
                    proof {
                        assert(forall|v: Value| !mem(v, self@));
                    }
                    ConstraintExpr::Bottom
                } else {
                    self.clone()
                }
            },
            ConstraintExpr::FloatBound(lo, hi) => {
                let field = FloatField::new(*lo, *hi);
                if field.is_empty() {
                    proof {
                        assert(forall|v: Value| !mem(v, self@));
                    }
                    ConstraintExpr::Bottom
                } else {
                    self.clone()
                }
            },
            _ => self.clone(),
        }
    }

    /// The union of the two constraints: it describes exactly the values of
    /// either side. A side that subsumes the other is returned as it stands;
    /// otherwise the members of both sides are reduced together.
    #[verifier::loop_isolation(false)]
    pub fn union(&self, other: &Self) -> (r: ConstraintExpr)
        ensures
            forall|v: Value| mem(v, r@) == (mem(v, self@) || mem(v, other@)),
            self@ == other@ ==> r@ == self@,
            !super_spec(self@, other@) && !super_spec(other@, self@) ==> is_canon(r@),
    {
        proof {
            lemma_super_reflexive(self@);
        }
        if self.super_of(other) {
            proof {
                lemma_super_sound(self@, other@);
            }
            return self.clone();
        }
        if other.super_of(self) {
            proof {
                lemma_super_sound(other@, self@);
            }
            return other.clone();
        }
        let mut list: Vec<ConstraintExpr> = Vec::new();
        proof {
            assert(view_exprs(list@) =~= Seq::<ExprView>::empty());
        }
        push_members(&mut list, self);
        push_members(&mut list, other);
        proof {
            lemma_mem_union_concat(to_members(self@), to_members(other@));
            lemma_mem_union_concat(Seq::<ExprView>::empty(), to_members(self@));
            assert(Seq::<ExprView>::empty() + to_members(self@) =~= to_members(self@));
            assert(view_exprs(list@) == to_members(self@) + to_members(other@));
            lemma_mem_to_members(self@);
            lemma_mem_to_members(other@);
        }
        reduce_union(list)
    }

    /// The intersection of the two constraints: every value it describes is a
    /// value of both sides. A side subsumed by the other is returned as it
    /// stands; otherwise members are intersected pairwise and reduced. The
    /// pairwise step under-approximates on pairs its rules do not cover, so
    /// only soundness is stated.
    #[verifier::loop_isolation(false)]
    pub fn intersection(&self, other: &Self) -> (r: ConstraintExpr)
        ensures
            forall|v: Value| mem(v, r@) ==> mem(v, self@) && mem(v, other@),
            self@ == other@ ==> r@ == self@,
            !(self@ is Union) && !(other@ is Union) && table_covered(self@, other@)
                ==> forall|v: Value| mem(v, r@) == (mem(v, self@) && mem(v, other@)),
            !super_spec(self@, other@) && !super_spec(other@, self@) ==> is_canon(r@),
    {
        broadcast use lemma_expr_view_shape;

        proof {
            lemma_super_reflexive(self@);
        }
        if self.super_of(other) {
            proof {
                lemma_super_sound(self@, other@);
            }
            return other.clone();
        }
        if other.super_of(self) {
            proof {
                lemma_super_sound(other@, self@);
            }
            return self.clone();
        }
        let both_atoms = match (self, other) {
            (ConstraintExpr::Union(_), _) => false,
            (_, ConstraintExpr::Union(_)) => false,
            _ => true,
        };
        if both_atoms {
            let piece = direct_intersection(self, other);
            let ghost piece_v = piece@;
            let mut single: Vec<ConstraintExpr> = Vec::new();
            proof {
                assert(view_exprs(single@) =~= Seq::<ExprView>::empty());
            }
            let ghost s0 = single@;
            single.push(piece);
            proof {
                assert(single@.drop_last() =~= s0);
                assert(view_exprs(single@) == view_exprs(single@.drop_last()).push(
                    single@.last()@,
                ));
                lemma_mem_union_push(Seq::<ExprView>::empty(), piece_v);
            }
            let r = reduce_union(single);
            proof {
                assert forall|v: Value| mem(v, r@) implies mem(v, self@) && mem(v, other@) by {
                    assert(mem_union(v, view_exprs(single@)));
                    assert(mem(v, piece_v));
                }
                if table_covered(self@, other@) {
                    assert forall|v: Value|
                        mem(v, r@) == (mem(v, self@) && mem(v, other@)) by {
                        assert(mem(v, r@) == mem_union(v, view_exprs(single@)));
                        assert(mem_union(v, view_exprs(single@)) == mem(v, piece_v));
                        assert(mem(v, piece_v) == (mem(v, self@) && mem(v, other@)));
                    }
                }
            }
            return r;
        }
        let mut a_members: Vec<ConstraintExpr> = Vec::new();
        let mut b_members: Vec<ConstraintExpr> = Vec::new();
        proof {
            assert(view_exprs(a_members@) =~= Seq::<ExprView>::empty());
            assert(view_exprs(b_members@) =~= Seq::<ExprView>::empty());
        }
        push_members(&mut a_members, self);
        push_members(&mut b_members, other);
        proof {
            assert(Seq::<ExprView>::empty() + to_members(self@) =~= to_members(self@));
            assert(Seq::<ExprView>::empty() + to_members(other@) =~= to_members(other@));
            lemma_mem_to_members(self@);
            lemma_mem_to_members(other@);
            lemma_view_exprs(a_members@);
            lemma_view_exprs(b_members@);
        }
        let ghost av = view_exprs(a_members@);
        let ghost bv = view_exprs(b_members@);
        let mut prods: Vec<ConstraintExpr> = Vec::new();
        proof {
            assert(view_exprs(prods@) =~= Seq::<ExprView>::empty());
        }
        let an = a_members.len();
        let bn = b_members.len();
        let mut i: usize = 0;
        while i < an
            invariant
                0 <= i <= an,
                forall|k: int, v: Value|
                    0 <= k < view_exprs(prods@).len() ==> #[trigger] mem(
                        v,
                        view_exprs(prods@)[k],
                    ) ==> mem(v, self@) && mem(v, other@),
            decreases an - i,
        {
            let mut j: usize = 0;
            while j < bn
                invariant
                    0 <= i < an,
                    0 <= j <= bn,
                    forall|k: int, v: Value|
                        0 <= k < view_exprs(prods@).len() ==> #[trigger] mem(
                            v,
                            view_exprs(prods@)[k],
                        ) ==> mem(v, self@) && mem(v, other@),
                decreases bn - j,
            {
                let piece = direct_intersection(&a_members[i], &b_members[j]);
                let ghost pb = view_exprs(prods@);
                let ghost pb_exec = prods@;
                let ghost piece_v = piece@;
                proof {
                    assert(av[i as int] == a_members@[i as int]@);
                    assert(bv[j as int] == b_members@[j as int]@);
                    assert forall|v: Value| mem(v, piece_v) implies mem(v, self@) && mem(
                        v,
                        other@,
                    ) by {
                        assert(mem(v, av[i as int]) && mem(v, bv[j as int]));
                        assert(mem_union(v, to_members(self@)));
                        assert(mem_union(v, to_members(other@)));
                    }
                }
                prods.push(piece);
                proof {
                    assert(prods@.drop_last() =~= pb_exec);
                    assert(view_exprs(prods@) == view_exprs(prods@.drop_last()).push(
                        prods@.last()@,
                    ));
                    assert forall|k: int, v: Value|
                        0 <= k < view_exprs(prods@).len() && #[trigger] mem(
                            v,
                            view_exprs(prods@)[k],
                        ) implies mem(v, self@) && mem(v, other@) by {
                        if k < pb.len() {
                            assert(view_exprs(prods@)[k] == pb[k]);
                        } else {
                            assert(view_exprs(prods@)[k] == piece_v);
                        }
                    }
                }
                j += 1;
            }
            i += 1;
        }
        let r = reduce_union(prods);
        proof {
            assert forall|v: Value| mem(v, r@) implies mem(v, self@) && mem(v, other@) by {
                let k = choose|k: int|
                    0 <= k < view_exprs(prods@).len() && mem(v, #[trigger] view_exprs(prods@)[k]);
            }
        }
        r
    }

    /// The union of a list of constraints, reduced to canonical form.
    pub fn make_union(members: Vec<ConstraintExpr>) -> (r: ConstraintExpr)
        ensures
            forall|v: Value| mem(v, r@) == mem_union(v, view_exprs(members@)),
            is_canon(r@),
    {
        reduce_union(members)
    }

    /// An ordered tuple of the given component constraints.
    pub fn make_tuple(items: Vec<ConstraintExpr>) -> (r: ConstraintExpr)
        ensures
            r@ == ExprView::Tuple(view_exprs(items@)),
    {
        ConstraintExpr::Tuple(items)
    }

    /// An ordered pair: a tuple of two components.
    pub fn make_pair(first: ConstraintExpr, second: ConstraintExpr) -> (r: ConstraintExpr)
        ensures
            r@ == ExprView::Tuple(seq![first@, second@]),
    {
        let ghost fv = first@;
        let ghost sv = second@;
        let mut items: Vec<ConstraintExpr> = Vec::new();
        proof {
            assert(view_exprs(items@) =~= Seq::<ExprView>::empty());
        }
        let ghost e0 = items@;
        items.push(first);
        let ghost e1 = items@;
        proof {
            assert(items@.drop_last() =~= e0);
            assert(view_exprs(items@) == view_exprs(items@.drop_last()).push(items@.last()@));
        }
        items.push(second);
        proof {
            assert(items@.drop_last() =~= e1);
            assert(view_exprs(items@) == view_exprs(items@.drop_last()).push(items@.last()@));
            assert(view_exprs(items@) =~= seq![fv, sv]);
        }
        ConstraintExpr::Tuple(items)
    }
}

/// Union is commutative on the values described: two results that each hold
/// exactly the values of `a` and of `b`, taken in either order, describe the
/// same set. `union` ensures exactly the hypotheses.
pub proof fn lemma_union_commutative(
    a: ExprView,
    b: ExprView,
    ab: ExprView,
    ba: ExprView,
)
    requires
        forall|v: Value| mem(v, ab) == (mem(v, a) || mem(v, b)),
        forall|v: Value| mem(v, ba) == (mem(v, b) || mem(v, a)),
    ensures
        forall|v: Value| mem(v, ab) == mem(v, ba),
{
}

/// Union is associative on the values described: joining `a` with `b`-then-`c`
/// describes the same set as joining `a`-then-`b` with `c`.
pub proof fn lemma_union_associative(
    a: ExprView,
    b: ExprView,
    c: ExprView,
    ab: ExprView,
    bc: ExprView,
    ab_c: ExprView,
    a_bc: ExprView,
)
    requires
        forall|v: Value| mem(v, ab) == (mem(v, a) || mem(v, b)),
        forall|v: Value| mem(v, bc) == (mem(v, b) || mem(v, c)),
        forall|v: Value| mem(v, ab_c) == (mem(v, ab) || mem(v, c)),
        forall|v: Value| mem(v, a_bc) == (mem(v, a) || mem(v, bc)),
    ensures
        forall|v: Value| mem(v, ab_c) == mem(v, a_bc),
{
}

/// Absorption on the values described: joining `a` with any part of `a` — in
/// particular `a.intersection(b)`, which `intersection` ensures is such a
/// part — gives back exactly the values of `a`.
pub proof fn lemma_union_absorbs_part(a: ExprView, part: ExprView, joined: ExprView)
    requires
        forall|v: Value| mem(v, part) ==> mem(v, a),
        forall|v: Value| mem(v, joined) == (mem(v, a) || mem(v, part)),
    ensures
        forall|v: Value| mem(v, joined) == mem(v, a),
{
}

/// Componentwise equal constraint lists are satisfied by the same tuples.
proof fn lemma_mem_tuple_pointwise(vs: Seq<Value>, a: Seq<ExprView>, b: Seq<ExprView>)
    requires
        a.len() == b.len(),
        forall|k: int, v: Value| 0 <= k < a.len() ==> #[trigger] mem(v, a[k]) == mem(v, b[k]),
    ensures
        mem_tuple(vs, a) == mem_tuple(vs, b),
{
    if vs.len() == a.len() {
        if mem_tuple(vs, a) {
            assert forall|i: int| 0 <= i < b.len() implies mem(#[trigger] vs[i], b[i]) by {
                assert(mem(vs[i], a[i]));
            }
        }
        if mem_tuple(vs, b) {
            assert forall|i: int| 0 <= i < a.len() implies mem(#[trigger] vs[i], a[i]) by {
                assert(mem(vs[i], b[i]));
            }
        }
    }
}

/// Every constraint describes exactly the values of its member list.
proof fn lemma_mem_to_members(e: ExprView)
    ensures
        forall|v: Value| mem(v, e) == mem_union(v, to_members(e)),
{
    match e {
        ExprView::Union(es) => {},
        _ => {
            assert forall|v: Value| mem(v, e) == mem_union(v, to_members(e)) by {
                assert(to_members(e) == seq![e]);
                assert(to_members(e)[0] == e);
                if mem_union(v, to_members(e)) {
                    let k = choose|k: int|
                        0 <= k < to_members(e).len() && mem(v, #[trigger] to_members(e)[k]);
                }
                if mem(v, e) {
                    assert(mem(v, to_members(e)[0]));
                }
            }
        },
    }
}

/// Appends the member list of a constraint: a union's members, anything else
/// the constraint itself.
fn push_members(list: &mut Vec<ConstraintExpr>, e: &ConstraintExpr)
    ensures
        view_exprs(final(list)@) == view_exprs(old(list)@) + to_members(e@),
{
    broadcast use lemma_expr_view_shape;

    match e {
        ConstraintExpr::Union(ms) => {
            proof {
                lemma_view_exprs(ms@);
            }
            let mut copies = clone_exprs(ms);
            let ghost l_exec = list@;
            let ghost c_exec = copies@;
            list.append(&mut copies);
            proof {
                assert(list@ == l_exec + c_exec);
                lemma_view_exprs_concat(l_exec, c_exec);
            }
        },
        _ => {
            let ghost l_exec = list@;
            list.push(e.clone());
            proof {
                assert(list@.drop_last() =~= l_exec);
                assert(view_exprs(list@) == view_exprs(list@.drop_last()).push(list@.last()@));
                assert(view_exprs(list@) =~= view_exprs(l_exec) + to_members(e@));
            }
        },
    }
}

/// Intersects two non-union constraints directly: the specialized rules of
/// the kind and interval table first, then narrowing by subsumption. Every
/// value of the result is a value of both sides; pairs outside the table may
/// come out under-approximated, `Bottom` at worst.
fn direct_intersection(a: &ConstraintExpr, b: &ConstraintExpr) -> (r: ConstraintExpr)
    ensures
        forall|v: Value| mem(v, r@) ==> mem(v, a@) && mem(v, b@),
        table_covered(a@, b@) ==> forall|v: Value|
            mem(v, r@) == (mem(v, a@) && mem(v, b@)),
{
    broadcast use lemma_expr_view_shape;

    match (a, b) {
        (ConstraintExpr::Top, _) => b.clone(),
        (_, ConstraintExpr::Top) => a.clone(),
        (ConstraintExpr::Bottom, _) => ConstraintExpr::Bottom,
        (_, ConstraintExpr::Bottom) => ConstraintExpr::Bottom,
        (ConstraintExpr::Int, ConstraintExpr::Int) => ConstraintExpr::Int,
        (ConstraintExpr::Float, ConstraintExpr::Float) => ConstraintExpr::Float,
        (ConstraintExpr::Bool, ConstraintExpr::Bool) => ConstraintExpr::Bool,
        (ConstraintExpr::String, ConstraintExpr::String) => ConstraintExpr::String,
        (ConstraintExpr::Int, ConstraintExpr::LiteralInt(n))
        | (ConstraintExpr::LiteralInt(n), ConstraintExpr::Int) => ConstraintExpr::LiteralInt(*n),
        (ConstraintExpr::Bool, ConstraintExpr::LiteralBool(x))
        | (ConstraintExpr::LiteralBool(x), ConstraintExpr::Bool) => ConstraintExpr::LiteralBool(*x),
        (ConstraintExpr::String, ConstraintExpr::LiteralString(x))
        | (ConstraintExpr::LiteralString(x), ConstraintExpr::String) => ConstraintExpr::LiteralString(
            x.clone(),
        ),
        (ConstraintExpr::Float, ConstraintExpr::LiteralFloat(x))
        | (ConstraintExpr::LiteralFloat(x), ConstraintExpr::Float) => ConstraintExpr::LiteralFloat(
            *x,
        ),
        (ConstraintExpr::Int, ConstraintExpr::Bound(l, h))
        | (ConstraintExpr::Bound(l, h), ConstraintExpr::Int) => ConstraintExpr::Bound(*l, *h),
        (ConstraintExpr::Float, ConstraintExpr::FloatBound(l, h))
        | (ConstraintExpr::FloatBound(l, h), ConstraintExpr::Float) => ConstraintExpr::FloatBound(
            *l,
            *h,
        ),
        (ConstraintExpr::Float, ConstraintExpr::Int)
        | (ConstraintExpr::Int, ConstraintExpr::Float) => ConstraintExpr::Int,
        (ConstraintExpr::Float, ConstraintExpr::LiteralInt(n))
        | (ConstraintExpr::LiteralInt(n), ConstraintExpr::Float) => {
            // an integer too wide for the fixed-point range stays an integer
            // literal, the same single value
            if -9_223_372_036_854 <= *n && *n <= 9_223_372_036_854 {
                let x = Real::from_units(*n);
                proof {
                    assert(is_whole(x.value()));
                    assert(floor_units_of(x.value()) == *n as int);
                }
                ConstraintExpr::LiteralFloat(x)
            } else {
                ConstraintExpr::LiteralInt(*n)
            }
        },
        (ConstraintExpr::Float, ConstraintExpr::Bound(l, h))
        | (ConstraintExpr::Bound(l, h), ConstraintExpr::Float) => ConstraintExpr::Bound(*l, *h),
        (ConstraintExpr::Int, ConstraintExpr::LiteralFloat(x))
        | (ConstraintExpr::LiteralFloat(x), ConstraintExpr::Int) => {
            if x.is_integral() {
                ConstraintExpr::LiteralInt(x.floor_units())
            } else {
                ConstraintExpr::Bottom
            }
        },
        (ConstraintExpr::Int, ConstraintExpr::FloatBound(l, h))
        | (ConstraintExpr::FloatBound(l, h), ConstraintExpr::Int) => tighten_to_int(*l, *h),
        (ConstraintExpr::Bound(l1, h1), ConstraintExpr::Bound(l2, h2)) => {
            let meet = IntField::new(*l1, *h1).intersection(&IntField::new(*l2, *h2));
            if meet.is_empty() {
                ConstraintExpr::Bottom
            } else {
                ConstraintExpr::Bound(meet.lo, meet.hi)
            }
        },
        (ConstraintExpr::FloatBound(l1, h1), ConstraintExpr::FloatBound(l2, h2)) => {
            let meet = FloatField::new(*l1, *h1).intersection(&FloatField::new(*l2, *h2));
            if meet.is_empty() {
                ConstraintExpr::Bottom
            } else {
                ConstraintExpr::FloatBound(meet.lo, meet.hi)
            }
        },
        (ConstraintExpr::Bound(l, h), ConstraintExpr::LiteralInt(n))
        | (ConstraintExpr::LiteralInt(n), ConstraintExpr::Bound(l, h)) => {
            if IntField::new(*l, *h).contains_value(*n) {
                ConstraintExpr::LiteralInt(*n)
            } else {
                ConstraintExpr::Bottom
            }
        },
        (ConstraintExpr::FloatBound(l, h), ConstraintExpr::LiteralFloat(x))
        | (ConstraintExpr::LiteralFloat(x), ConstraintExpr::FloatBound(l, h)) => {
            if FloatField::new(*l, *h).contains_value(*x) {
                ConstraintExpr::LiteralFloat(*x)
            } else {
                ConstraintExpr::Bottom
            }
        },
        (ConstraintExpr::FloatBound(l, h), ConstraintExpr::LiteralInt(n))
        | (ConstraintExpr::LiteralInt(n), ConstraintExpr::FloatBound(l, h)) => {
            if FloatField::new(*l, *h).contains_units(*n) {
                ConstraintExpr::LiteralInt(*n)
            } else {
                ConstraintExpr::Bottom
            }
        },
        _ => {
            if a.super_of(b) {
                proof {
                    lemma_super_sound(a@, b@);
                }
                b.clone()
            } else if b.super_of(a) {
                proof {
                    lemma_super_sound(b@, a@);
                }
                a.clone()
            } else {
                ConstraintExpr::Bottom
            }
        },
    }
}

/// The integers inside a real interval, as an integer interval: inclusive
/// endpoints round inward, exclusive ones step past the excluded value.
fn tighten_to_int(l: FloatBound, h: FloatBound) -> (r: ConstraintExpr)
    ensures
        forall|v: Value| mem(v, r@) ==> v is VInt && mem(v, ExprView::FloatBound(l, h)),
        forall|v: Value| v is VInt && mem(v, ExprView::FloatBound(l, h)) ==> mem(v, r@),
{
    broadcast use lemma_expr_view_shape;

    let lo2 = match l {
        FloatBound::Inclusive(x) => Bound::Inclusive(x.ceil_units()),
        FloatBound::Exclusive(x) => Bound::Inclusive(x.floor_units() + 1),
        FloatBound::NegativeInfinity => Bound::NegativeInfinity,
        FloatBound::PositiveInfinity => Bound::PositiveInfinity,
    };
    let hi2 = match h {
        FloatBound::Inclusive(x) => Bound::Inclusive(x.floor_units()),
        FloatBound::Exclusive(x) => Bound::Inclusive(x.ceil_units() - 1),
        FloatBound::NegativeInfinity => Bound::NegativeInfinity,
        FloatBound::PositiveInfinity => Bound::PositiveInfinity,
    };
    let field = IntField::new(lo2, hi2);
    if field.is_empty() {
        ConstraintExpr::Bottom
    } else {
        let r = ConstraintExpr::Bound(lo2, hi2);
        proof {
            assert forall|v: Value| mem(v, r@) implies v is VInt && mem(
                v,
                ExprView::FloatBound(l, h),
            ) by {
                match v {
                    Value::VInt(n) => {
                        match l {
                            FloatBound::Inclusive(x) => {
                                crate::fixed::lemma_units_rounding(n, x.value());
                            },
                            FloatBound::Exclusive(x) => {
                                crate::fixed::lemma_units_rounding(n, x.value());
                            },
                            _ => {},
                        }
                        match h {
                            FloatBound::Inclusive(x) => {
                                crate::fixed::lemma_units_rounding(n, x.value());
                            },
                            FloatBound::Exclusive(x) => {
                                crate::fixed::lemma_units_rounding(n, x.value());
                            },
                            _ => {},
                        }
                    },
                    _ => {},
                }
            }
        }
        r
    }
}

/// What filing an atom keeps true: the values covered by the queue and the
/// members together are unchanged but for the atom's own values joining them.
pub(crate) open spec fn sift_post(
    c: ExprView,
    q0: Seq<ExprView>,
    k0: Seq<ExprView>,
    q1: Seq<ExprView>,
    k1: Seq<ExprView>,
) -> bool {
    forall|v: Value|
        (mem_union(v, q1) || mem_union(v, k1)) == (mem_union(v, q0) || mem_union(v, k0) || mem(
            v,
            c,
        ))
}

/// Files one non-union, non-bottom, non-empty atom into the reduced members:
/// it is dropped when a member subsumes it, absorbs the members it subsumes,
/// re-enters the queue merged when a member can merge with it, and joins the
/// members otherwise.
#[verifier::loop_isolation(false)]
fn sift_atom(
    c: ConstraintExpr,
    queue: &mut Vec<ConstraintExpr>,
    kept: &mut Vec<ConstraintExpr>,
)
    requires
        !(c@ is Union),
        !(c@ is Bottom),
        is_canon(c@),
        forall|k: int|
            0 <= k < old(kept)@.len() ==> !(#[trigger] view_exprs(old(kept)@)[k] is Union) && !(
            view_exprs(old(kept)@)[k] is Bottom) && is_canon(view_exprs(old(kept)@)[k]),
        pairwise_reduced(view_exprs(old(kept)@)),
    ensures
        sift_post(
            c@,
            view_exprs(old(queue)@),
            view_exprs(old(kept)@),
            view_exprs(final(queue)@),
            view_exprs(final(kept)@),
        ),
        seq_expr_size(view_exprs(final(queue)@)) + seq_expr_size(view_exprs(final(kept)@))
            <= seq_expr_size(view_exprs(old(queue)@)) + seq_expr_size(view_exprs(old(kept)@))
            + expr_size(c@),
        seq_queue_weight(view_exprs(final(queue)@)) + 3 * final(kept)@.len()
            < seq_queue_weight(view_exprs(old(queue)@)) + 3 * old(kept)@.len() + queue_weight(c@)
            + 2,
        forall|k: int|
            0 <= k < final(kept)@.len() ==> !(#[trigger] view_exprs(final(kept)@)[k] is Union)
                && !(view_exprs(final(kept)@)[k] is Bottom) && is_canon(
                view_exprs(final(kept)@)[k],
            ),
        pairwise_reduced(view_exprs(final(kept)@)),
        view_exprs(old(kept)@).len() == old(kept)@.len() ==> view_exprs(final(kept)@).len()
            == final(kept)@.len(),
{
    let ghost cv = c@;
    let ghost old_kv = view_exprs(kept@);
    let ghost old_qv = view_exprs(queue@);
    proof {
        lemma_view_exprs(kept@);
        lemma_view_exprs(queue@);
    }
    if subsumed_by_any(kept, &c) {
        proof {
            let k = choose|k: int|
                0 <= k < kept@.len() && super_spec(#[trigger] view_exprs(kept@)[k], cv);
            lemma_super_sound(view_exprs(kept@)[k], cv);
            assert forall|v: Value| mem(v, cv) implies mem_union(v, view_exprs(kept@)) by {
                assert(mem(v, view_exprs(kept@)[k]));
            }
            assert(sift_post(cv, old_qv, old_kv, view_exprs(queue@), view_exprs(kept@)));
        }
        return ;
    }
    let pruned = prune_subsumed(kept, &c);
    *kept = pruned;
    let ghost pv = view_exprs(kept@);
    proof {
        lemma_view_exprs(kept@);
        assert(forall|k: int| 0 <= k < kept@.len() ==> !(#[trigger] pv[k] is Union));
        assert forall|k: int| 0 <= k < kept@.len() implies !((#[trigger] pv[k]) is Bottom)
            && is_canon(pv[k]) by {
            let j0 = choose|j0: int| 0 <= j0 < old_kv.len() && pv[k] == old_kv[j0];
        }
        assert(pairwise_reduced(pv));
    }
    // scan the members newest first for one that merges with the atom; a
    // merged atom re-enters the queue.
    let n = kept.len();
    let mut j: usize = n;
    while j > 0
        invariant
            0 <= j <= n,
            n == kept@.len(),
            view_exprs(kept@) == pv,
            view_exprs(queue@) == old_qv,
            forall|jj: int|
                j <= jj < n ==> !super_spec(cv, #[trigger] pv[jj]) && !super_spec(pv[jj], cv)
                    && !pair_mergeable(cv, pv[jj]) && !pair_mergeable(pv[jj], cv),
        decreases j,
    {
        j -= 1;
        proof {
            lemma_view_exprs(kept@);
        }
        let merged = direct_union(&c, &kept[j]);
        match merged {
            Some(m) => {
                let ghost mv = m@;
                let ghost kept_pre = kept@;
                let removed = kept.remove(j);
                proof {
                    assert(kept@ == kept_pre.remove(j as int));
                    lemma_view_exprs_remove(kept_pre, j as int);
                    assert(view_exprs(kept@) == pv.remove(j as int));
                }
                let ghost q_pre = queue@;
                queue.push(m);
                proof {
                    assert(queue@.drop_last() =~= q_pre);
                    assert(view_exprs(queue@) == view_exprs(queue@.drop_last()).push(
                        queue@.last()@,
                    ));
                    assert(view_exprs(queue@) == old_qv.push(mv));
                    lemma_mem_union_push(old_qv, mv);
                    lemma_queue_weight_push(old_qv, mv);
                    lemma_seq_size_push(old_qv, mv);
                    lemma_mem_union_remove(pv, j as int);
                    lemma_seq_size_remove(pv, j as int);
                    lemma_nonunion_remove(pv, j as int);
                    lemma_pairwise_remove(pv, j as int);
                    lemma_view_exprs(kept@);
                    assert forall|k: int| 0 <= k < kept@.len() implies !((
                    #[trigger] view_exprs(kept@)[k]) is Union) && !(view_exprs(kept@)[k]
                        is Bottom) && is_canon(view_exprs(kept@)[k]) by {
                        if k < j {
                            assert(view_exprs(kept@)[k] == pv[k]);
                        } else {
                            assert(view_exprs(kept@)[k] == pv[k + 1]);
                        }
                    }
                    assert forall|v: Value|
                        (mem_union(v, view_exprs(queue@)) || mem_union(v, view_exprs(kept@)))
                            == (mem_union(v, old_qv) || mem_union(v, old_kv) || mem(v, cv)) by {
                        assert(mem_union(v, view_exprs(queue@)) == (mem_union(v, old_qv) || mem(
                            v,
                            mv,
                        )));
                        assert(mem(v, mv) == (mem(v, cv) || mem(v, pv[j as int])));
                        assert(mem_union(v, pv) == (mem_union(v, pv.remove(j as int)) || mem(
                            v,
                            pv[j as int],
                        )));
                        if mem_union(v, pv) {
                            assert(mem_union(v, old_kv));
                        }
                        if mem_union(v, old_kv) {
                            assert(mem_union(v, pv) || mem(v, cv));
                        }
                    }
                    assert(sift_post(cv, old_qv, old_kv, view_exprs(queue@), view_exprs(kept@)));
                }
                return ;
            },
            None => {},
        }
    }
    let ghost kb_exec = kept@;
    kept.push(c);
    proof {
        lemma_view_exprs(kept@);
        assert(kept@.drop_last() =~= kb_exec);
        assert(view_exprs(kept@) == view_exprs(kept@.drop_last()).push(kept@.last()@));
        assert(view_exprs(kept@) == pv.push(cv));
        lemma_mem_union_push(pv, cv);
        lemma_seq_size_push(pv, cv);
        lemma_nonunion_push(pv, cv);
        assert forall|k: int| 0 <= k < kept@.len() implies !((
        #[trigger] view_exprs(kept@)[k]) is Union) && !(view_exprs(kept@)[k] is Bottom)
            && is_canon(view_exprs(kept@)[k]) by {
            if k < pv.len() {
                assert(view_exprs(kept@)[k] == pv[k]);
            } else {
                assert(view_exprs(kept@)[k] == cv);
            }
        }
        assert forall|i1: int, j1: int|
            0 <= i1 < view_exprs(kept@).len() && 0 <= j1 < view_exprs(kept@).len() && i1 != j1
                implies !super_spec(
            #[trigger] view_exprs(kept@)[i1],
            #[trigger] view_exprs(kept@)[j1],
        ) && !pair_mergeable(view_exprs(kept@)[i1], view_exprs(kept@)[j1]) by {
            if i1 < pv.len() && j1 < pv.len() {
                assert(view_exprs(kept@)[i1] == pv[i1]);
                assert(view_exprs(kept@)[j1] == pv[j1]);
            } else if j1 == pv.len() {
                assert(view_exprs(kept@)[i1] == pv[i1]);
                assert(view_exprs(kept@)[j1] == cv);
            } else {
                assert(view_exprs(kept@)[i1] == cv);
                assert(view_exprs(kept@)[j1] == pv[j1]);
            }
        }
        assert forall|v: Value|
            (mem_union(v, view_exprs(queue@)) || mem_union(v, view_exprs(kept@))) == (mem_union(
                v,
                old_qv,
            ) || mem_union(v, old_kv) || mem(v, cv)) by {
            assert(mem_union(v, view_exprs(kept@)) == (mem_union(v, pv) || mem(v, cv)));
            if mem_union(v, pv) {
                assert(mem_union(v, old_kv));
            }
            if mem_union(v, old_kv) {
                assert(mem_union(v, pv) || mem(v, cv));
            }
        }
        assert(sift_post(cv, old_qv, old_kv, view_exprs(queue@), view_exprs(kept@)));
    }
}

/// Removing an element keeps the others free of unions.
proof fn lemma_nonunion_remove(s: Seq<ExprView>, j: int)
    requires
        0 <= j < s.len(),
        forall|k: int| 0 <= k < s.len() ==> !(#[trigger] s[k] is Union),
    ensures
        forall|k: int| 0 <= k < s.remove(j).len() ==> !(#[trigger] s.remove(j)[k] is Union),
{
    assert forall|k: int| 0 <= k < s.remove(j).len() implies !(#[trigger] s.remove(j)[k]
        is Union) by {
        if k < j {
            assert(s.remove(j)[k] == s[k]);
        } else {
            assert(s.remove(j)[k] == s[k + 1]);
        }
    }
}

/// Appending a non-union keeps the members free of unions.
proof fn lemma_nonunion_push(s: Seq<ExprView>, x: ExprView)
    requires
        !(x is Union),
        forall|k: int| 0 <= k < s.len() ==> !(#[trigger] s[k] is Union),
    ensures
        forall|k: int| 0 <= k < s.push(x).len() ==> !(#[trigger] s.push(x)[k] is Union),
{
    assert forall|k: int| 0 <= k < s.push(x).len() implies !(#[trigger] s.push(x)[k] is Union) by {
        if k < s.len() {
            assert(s.push(x)[k] == s[k]);
        } else {
            assert(s.push(x)[k] == x);
        }
    }
}

} // verus!
