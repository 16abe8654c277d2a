use constraint_algebra::expr::ConstraintExpr;
use constraint_algebra::fixed::Real;
use constraint_algebra::interval::Bound;
use constraint_algebra::interval::FloatBound;
use constraint_algebra::interval::FloatField;

fn lit(n: i64) -> ConstraintExpr {
    ConstraintExpr::LiteralInt(n)
}

fn bound(lo: i64, hi: i64) -> ConstraintExpr {
    ConstraintExpr::Bound(Bound::Inclusive(lo), Bound::Inclusive(hi))
}

fn exact(micros: i64) -> Real {
    Real::from_micros(micros)
}

fn ints(ns: &[i64]) -> ConstraintExpr {
    ConstraintExpr::Union(ns.iter().map(|n| lit(*n)).collect())
}

#[test]
fn interval_absorbs_inner_literal() {
    let interval = bound(1, 10);
    let inside = lit(5);
    let joined = interval.union(&inside);
    assert!(joined.equals(&bound(1, 10)));
}

#[test]
fn interval_keeps_outer_literal() {
    let interval = bound(1, 10);
    let outside = lit(15);
    let joined = interval.union(&outside);
    let expected = ConstraintExpr::make_union(vec![bound(1, 10), lit(15)]);
    assert!(joined.equals(&expected));
    assert!(!joined.equals(&bound(1, 10)));
}

#[test]
fn union_subsumption_on_literals() {
    let big = ints(&[1, 2, 3]);
    assert_eq!(big.super_of(&ints(&[1, 3])), true);
    assert_eq!(big.super_of(&ints(&[1, 4])), false);
}

#[test]
fn adjacent_intervals_merge() {
    let merged = bound(0, 5).union(&bound(5, 10));
    assert!(merged.equals(&bound(0, 10)));

    let unit_adjacent = bound(1, 5).union(&bound(6, 10));
    assert!(unit_adjacent.equals(&bound(1, 10)));

    let gap = bound(1, 5).union(&bound(7, 10));
    assert!(!gap.equals(&bound(1, 10)));
    assert_eq!(bound(1, 10).super_of(&gap), true);
}

#[test]
fn float_and_int_cross_rules() {
    assert_eq!(ConstraintExpr::Float.super_of(&lit(42)), true);
    assert_eq!(ConstraintExpr::Float.super_of(&ConstraintExpr::Int), true);
    assert_eq!(ConstraintExpr::Int.super_of(&ConstraintExpr::Float), false);

    // Int cut out of the reals below ten and a half.
    let reals_below = ConstraintExpr::FloatBound(
        FloatBound::NegativeInfinity,
        FloatBound::Exclusive(exact(10_500_000)),
    );
    let meet = ConstraintExpr::Int.intersection(&reals_below);
    let expected = ConstraintExpr::Bound(Bound::NegativeInfinity, Bound::Inclusive(10));
    assert!(meet.equals(&expected));

    // An integral real literal meets Int in the matching integer.
    let two = ConstraintExpr::LiteralFloat(exact(2_000_000));
    assert!(ConstraintExpr::Int.intersection(&two).equals(&lit(2)));
    let half = ConstraintExpr::LiteralFloat(exact(500_000));
    assert!(ConstraintExpr::Int.intersection(&half).equals(&ConstraintExpr::Bottom));
}

#[test]
fn tuple_intersection_picks_the_indexed_pair() {
    let table = ConstraintExpr::make_union(vec![
        ConstraintExpr::make_pair(lit(0), lit(2)),
        ConstraintExpr::make_pair(lit(1), ConstraintExpr::LiteralFloat(exact(3_140_000))),
        ConstraintExpr::make_pair(lit(3), ConstraintExpr::LiteralString("hello".to_string())),
    ]);
    let index = ConstraintExpr::make_pair(lit(0), ConstraintExpr::Top);
    let looked_up = table.intersection(&index);
    assert!(looked_up.equals(&ConstraintExpr::make_pair(lit(0), lit(2))));
}

#[test]
fn reflexivity_and_self_operations() {
    let samples = vec![
        ConstraintExpr::Top,
        ConstraintExpr::Bottom,
        lit(7),
        bound(1, 3),
        ints(&[1, 2]),
        ConstraintExpr::make_pair(ConstraintExpr::Int, ConstraintExpr::String),
    ];
    for a in samples {
        assert_eq!(a.super_of(&a), true);
        assert!(a.equals(&a));
        assert!(a.union(&a).equals(&a));
        assert!(a.intersection(&a).equals(&a));
        assert!(a.reduce().reduce().equals(&a.reduce()));
    }
}

#[test]
fn top_and_bottom_are_extremes() {
    let things = vec![lit(1), bound(2, 4), ints(&[5, 6]), ConstraintExpr::Bool];
    for a in things {
        assert_eq!(ConstraintExpr::Top.super_of(&a), true);
        assert_eq!(a.super_of(&ConstraintExpr::Bottom), true);
        assert_eq!(ConstraintExpr::Bottom.super_of(&a), false);
        assert_eq!(a.super_of(&ConstraintExpr::Top), false);
    }
}

#[test]
fn union_is_commutative_and_associative_up_to_equals() {
    let a = bound(1, 5);
    let b = lit(9);
    let c = ints(&[12, 13]);
    assert!(a.union(&b).equals(&b.union(&a)));
    assert!(a.union(&b).union(&c).equals(&a.union(&b.union(&c))));
    assert!(a.intersection(&b).equals(&b.intersection(&a)));
    assert!(
        a.intersection(&b).intersection(&c).equals(&a.intersection(&b.intersection(&c)))
    );
}

#[test]
fn absorption_on_samples() {
    let a = bound(1, 10);
    let b = ints(&[3, 20]);
    assert!(a.union(&a.intersection(&b)).equals(&a));
    assert!(a.intersection(&a.union(&b)).equals(&a));
}

#[test]
fn refine_keeps_or_empties() {
    let a = bound(1, 10);
    let inside = lit(4);
    let outside = lit(40);
    assert!(a.refine(&inside).equals(&inside));
    assert!(a.refine(&outside).equals(&ConstraintExpr::Bottom));
    assert_eq!(a.super_of(&a.refine(&inside)), true);
    assert_eq!(a.super_of(&a.refine(&outside)), true);
}

#[test]
fn tuples_compare_componentwise() {
    let wide = ConstraintExpr::make_pair(bound(1, 5), ConstraintExpr::Top);
    let narrow = ConstraintExpr::make_pair(lit(3), lit(10));
    let mismatched = ConstraintExpr::make_pair(lit(6), lit(10));
    assert_eq!(wide.super_of(&narrow), true);
    assert_eq!(wide.super_of(&mismatched), false);
    let triple = ConstraintExpr::make_tuple(vec![lit(1), lit(2), lit(3)]);
    assert_eq!(wide.super_of(&triple), false);

    let nested = ConstraintExpr::make_pair(
        ConstraintExpr::make_pair(ConstraintExpr::Int, ConstraintExpr::Float),
        ConstraintExpr::String,
    );
    let concrete = ConstraintExpr::make_pair(
        ConstraintExpr::make_pair(lit(10), ConstraintExpr::LiteralFloat(exact(3_140_000))),
        ConstraintExpr::LiteralString("world".to_string()),
    );
    assert_eq!(nested.super_of(&concrete), true);
}

#[test]
fn reduce_flattens_and_absorbs() {
    let nested = ConstraintExpr::Union(vec![ints(&[1, 2]), lit(2), lit(3)]);
    assert!(nested.reduce().equals(&ints(&[1, 2, 3])));

    let mixed = ConstraintExpr::make_union(vec![
        lit(1),
        ConstraintExpr::Int,
        ConstraintExpr::LiteralFloat(exact(2_500_000)),
        ConstraintExpr::Float,
        ConstraintExpr::Bottom,
    ]);
    assert!(mixed.equals(&ConstraintExpr::Float));

    let with_top = ConstraintExpr::make_union(vec![
        ConstraintExpr::Top,
        ConstraintExpr::Int,
        ConstraintExpr::String,
    ]);
    assert!(with_top.equals(&ConstraintExpr::Top));

    let empty_interval = ConstraintExpr::Bound(Bound::Inclusive(5), Bound::Inclusive(1));
    assert!(empty_interval.reduce().equals(&ConstraintExpr::Bottom));
}

#[test]
fn bool_kind_covers_both_literals() {
    let both = ConstraintExpr::make_union(vec![
        ConstraintExpr::LiteralBool(true),
        ConstraintExpr::LiteralBool(false),
    ]);
    assert_eq!(ConstraintExpr::Bool.super_of(&both), true);
    assert!(ConstraintExpr::Bool.union(&both).equals(&ConstraintExpr::Bool));
}

#[test]
fn float_interval_edges() {
    let empty = FloatField::new(
        FloatBound::Exclusive(exact(0)),
        FloatBound::Inclusive(exact(0)),
    );
    assert_eq!(empty.is_empty(), true);

    let closed_then_open = ConstraintExpr::FloatBound(
        FloatBound::Inclusive(exact(0)),
        FloatBound::Exclusive(exact(1_000_000)),
    );
    let touching = ConstraintExpr::FloatBound(
        FloatBound::Inclusive(exact(1_000_000)),
        FloatBound::Inclusive(exact(2_000_000)),
    );
    let merged = closed_then_open.union(&touching);
    let expected = ConstraintExpr::FloatBound(
        FloatBound::Inclusive(exact(0)),
        FloatBound::Inclusive(exact(2_000_000)),
    );
    assert!(merged.equals(&expected));

    let span = ConstraintExpr::FloatBound(
        FloatBound::Inclusive(exact(-10_000_000)),
        FloatBound::Inclusive(exact(10_000_000)),
    );
    assert_eq!(span.super_of(&lit(5)), true);
    assert!(span.union(&lit(5)).equals(&span));
}
