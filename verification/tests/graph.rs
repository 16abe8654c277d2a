use constraint_algebra::node::AtomicConstraint;
use constraint_algebra::node::ConstraintNode;
use constraint_algebra::Constraint;

#[test]
fn test1() {
    let mut list_def = Constraint::new("L_T".to_string());
    list_def.add_node(
        "L_T".to_string(),
        ConstraintNode::Enum(vec![
            ConstraintNode::Pair(
                ConstraintNode::T.into(),
                ConstraintNode::Def("L_T".to_string()).into(),
            ),
            ConstraintNode::Leaf(AtomicConstraint::Nil),
        ]),
    );

    let mut simple_list = Constraint::new("S_L".to_string());
    simple_list.add_node(
        "S_L".to_string(),
        ConstraintNode::Pair(
            ConstraintNode::Leaf(AtomicConstraint::LiteralInt(1)).into(),
            ConstraintNode::Pair(
                ConstraintNode::Leaf(AtomicConstraint::LiteralInt(1)).into(),
                ConstraintNode::T.into(),
            )
            .into(),
        ),
    );

    println!("List definition: {}", list_def.to_text());
    println!("Simple list: {}", simple_list.to_text());

    assert_eq!(list_def.super_of(&simple_list), false);
}

#[test]
fn test2() {
    let mut list_def = Constraint::new("L_T".to_string());
    list_def.add_node(
        "L_T".to_string(),
        ConstraintNode::Enum(vec![
            ConstraintNode::Pair(
                ConstraintNode::T.into(),
                ConstraintNode::Def("L_T".to_string()).into(),
            ),
            ConstraintNode::Leaf(AtomicConstraint::Nil),
        ]),
    );

    let mut simple_list = Constraint::new("S_L".to_string());
    simple_list.add_node(
        "S_L".to_string(),
        ConstraintNode::Pair(
            ConstraintNode::Leaf(AtomicConstraint::LiteralInt(1)).into(),
            ConstraintNode::Pair(
                ConstraintNode::Leaf(AtomicConstraint::LiteralInt(1)).into(),
                ConstraintNode::Leaf(AtomicConstraint::Nil).into(),
            )
            .into(),
        ),
    );

    println!("List definition: {}", list_def.to_text());
    println!("Simple list: {}", simple_list.to_text());

    assert_eq!(list_def.super_of(&simple_list), true);
}

#[test]
fn test3() {
    let mut list_def = Constraint::new("L_T".to_string());
    list_def.add_node(
        "L_T".to_string(),
        ConstraintNode::Enum(vec![
            ConstraintNode::Pair(
                ConstraintNode::T.into(),
                ConstraintNode::Def("L_T".to_string()).into(),
            ),
            ConstraintNode::Leaf(AtomicConstraint::Nil),
        ]),
    );

    let mut double_list_def = Constraint::new("L_T_2".to_string());
    double_list_def.add_node(
        "L_T_2".to_string(),
        ConstraintNode::Enum(vec![
            ConstraintNode::Pair(
                ConstraintNode::T.into(),
                ConstraintNode::Pair(
                    ConstraintNode::T.into(),
                    ConstraintNode::Def("L_T_2".to_string()).into(),
                )
                .into(),
            ),
            ConstraintNode::Leaf(AtomicConstraint::Nil),
        ]),
    );

    println!("List definition: {}", list_def.to_text());
    println!("Double list definition: {}", double_list_def.to_text());

    assert_eq!(list_def.super_of(&double_list_def), true);
    println!("----------");
    assert_eq!(double_list_def.super_of(&list_def), false);
}

fn leaf(v: i32) -> ConstraintNode {
    ConstraintNode::Leaf(AtomicConstraint::LiteralInt(v))
}

fn single(entry: &str, node: ConstraintNode) -> Constraint {
    let mut c = Constraint::new(entry.to_string());
    c.add_node(entry.to_string(), node);
    c
}

#[test]
fn enum_subsumes_smaller_enum() {
    let big = single("a", ConstraintNode::Enum(vec![leaf(1), leaf(2), leaf(3)]));
    let inside = single("b", ConstraintNode::Enum(vec![leaf(1), leaf(3)]));
    let outside = single("c", ConstraintNode::Enum(vec![leaf(1), leaf(4)]));
    assert_eq!(big.super_of(&inside), true);
    assert_eq!(big.super_of(&outside), false);
}

#[test]
fn super_of_is_reflexive() {
    let mut list_def = Constraint::new("L_T".to_string());
    list_def.add_node(
        "L_T".to_string(),
        ConstraintNode::Enum(vec![
            ConstraintNode::Pair(
                ConstraintNode::T.into(),
                ConstraintNode::Def("L_T".to_string()).into(),
            ),
            ConstraintNode::Leaf(AtomicConstraint::Nil),
        ]),
    );
    assert_eq!(list_def.super_of(&list_def), true);
    assert_eq!(list_def.equals(&list_def), true);

    let pair = single("p", ConstraintNode::Pair(leaf(3).into(), ConstraintNode::T.into()));
    assert_eq!(pair.super_of(&pair), true);
    assert_eq!(pair.equals(&pair), true);
}

#[test]
fn top_subsumes_and_bottom_is_subsumed() {
    let top = single("t", ConstraintNode::T);
    let bottom = single("f", ConstraintNode::F);
    let value = single("v", leaf(7));
    assert_eq!(top.super_of(&value), true);
    assert_eq!(top.super_of(&bottom), true);
    assert_eq!(value.super_of(&bottom), true);
    assert_eq!(value.super_of(&top), false);
    assert_eq!(bottom.super_of(&value), false);
    assert_eq!(bottom.super_of(&bottom), true);
    assert_eq!(top.super_of(&top), true);
}

#[test]
fn refine_narrows_or_empties() {
    let ints = single("i", ConstraintNode::Enum(vec![leaf(1), leaf(2)]));
    let one = single("o", leaf(1));
    let three = single("h", leaf(3));

    let kept = ints.refine(&one);
    assert_eq!(kept.equals(&one), true);
    assert_eq!(ints.super_of(&kept), true);

    let emptied = ints.refine(&three);
    assert_eq!(emptied.super_of(&single("f", ConstraintNode::F)), true);
    assert_eq!(single("f", ConstraintNode::F).super_of(&emptied), true);
    assert_eq!(ints.super_of(&emptied), true);
}

#[test]
fn equals_is_mutual_subsumption() {
    let a = single("a", ConstraintNode::Enum(vec![leaf(1), leaf(2)]));
    let b = single("b", ConstraintNode::Enum(vec![leaf(2), leaf(1)]));
    let c = single("c", ConstraintNode::Enum(vec![leaf(1), leaf(3)]));
    assert_eq!(a.equals(&b), true);
    assert_eq!(b.equals(&a), true);
    assert_eq!(a.equals(&c), false);
}

#[test]
fn pair_subsumption_is_componentwise() {
    let wide = single(
        "w",
        ConstraintNode::Pair(
            ConstraintNode::Enum(vec![leaf(1), leaf(2)]).into(),
            ConstraintNode::T.into(),
        ),
    );
    let narrow = single("n", ConstraintNode::Pair(leaf(2).into(), leaf(9).into()));
    let mismatched = single("m", ConstraintNode::Pair(leaf(3).into(), leaf(9).into()));
    assert_eq!(wide.super_of(&narrow), true);
    assert_eq!(wide.super_of(&mismatched), false);
    assert_eq!(narrow.super_of(&wide), false);
}

#[test]
fn missing_entry_is_never_super() {
    let empty = Constraint::new("nowhere".to_string());
    let value = single("v", leaf(1));
    assert_eq!(empty.super_of(&value), false);
    assert_eq!(value.super_of(&empty), false);
    assert_eq!(empty.super_of(&empty), false);
}

#[test]
fn graph_accessors() {
    let mut c = Constraint::new("start".to_string());
    assert_eq!(c.entry(), "start");
    assert!(c.get_node("start").is_none());
    c.add_node("start".to_string(), ConstraintNode::T);
    assert!(matches!(c.get_node("start"), Some(ConstraintNode::T)));
    c.add_node("start".to_string(), ConstraintNode::F);
    assert!(matches!(c.get_node("start"), Some(ConstraintNode::F)));
    assert!(c.get_node("other").is_none());
}

#[test]
fn node_equality_is_structural() {
    let a = ConstraintNode::Pair(
        ConstraintNode::Def("x".to_string()).into(),
        ConstraintNode::Enum(vec![leaf(1), ConstraintNode::Leaf(AtomicConstraint::Nil)]).into(),
    );
    let b = ConstraintNode::Pair(
        ConstraintNode::Def("x".to_string()).into(),
        ConstraintNode::Enum(vec![leaf(1), ConstraintNode::Leaf(AtomicConstraint::Nil)]).into(),
    );
    let c = ConstraintNode::Pair(
        ConstraintNode::Def("y".to_string()).into(),
        ConstraintNode::Enum(vec![leaf(1), ConstraintNode::Leaf(AtomicConstraint::Nil)]).into(),
    );
    assert!(a == b);
    assert!(a != c);
    assert!(a == a.clone());
}

#[test]
fn mutual_recursion_across_graphs() {
    // The same recursive list written under two different names subsumes
    // itself in both directions.
    let mut left = Constraint::new("L".to_string());
    left.add_node(
        "L".to_string(),
        ConstraintNode::Enum(vec![
            ConstraintNode::Pair(
                ConstraintNode::T.into(),
                ConstraintNode::Def("L".to_string()).into(),
            ),
            ConstraintNode::Leaf(AtomicConstraint::Nil),
        ]),
    );
    let mut right = Constraint::new("R".to_string());
    right.add_node(
        "R".to_string(),
        ConstraintNode::Enum(vec![
            ConstraintNode::Pair(
                ConstraintNode::T.into(),
                ConstraintNode::Def("R".to_string()).into(),
            ),
            ConstraintNode::Leaf(AtomicConstraint::Nil),
        ]),
    );
    assert_eq!(left.super_of(&right), true);
    assert_eq!(right.super_of(&left), true);
    assert_eq!(left.equals(&right), true);
}
