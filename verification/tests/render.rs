use constraint_algebra::node::AtomicConstraint;
use constraint_algebra::node::ConstraintNode;
use constraint_algebra::Constraint;

fn single(entry: &str, node: ConstraintNode) -> Constraint {
    let mut c = Constraint::new(entry.to_string());
    c.add_node(entry.to_string(), node);
    c
}

#[test]
fn renders_atoms() {
    assert_eq!(single("e", ConstraintNode::T).to_text(), "T");
    assert_eq!(single("e", ConstraintNode::F).to_text(), "F");
    assert_eq!(single("e", ConstraintNode::Leaf(AtomicConstraint::Nil)).to_text(), "Nil");
    assert_eq!(single("e", ConstraintNode::Leaf(AtomicConstraint::LiteralInt(42))).to_text(), "42");
    assert_eq!(
        single("e", ConstraintNode::Leaf(AtomicConstraint::LiteralInt(-7))).to_text(),
        "-7"
    );
}

#[test]
fn renders_pairs_and_simple_enums() {
    let pair = single(
        "e",
        ConstraintNode::Pair(
            ConstraintNode::Leaf(AtomicConstraint::LiteralInt(1)).into(),
            ConstraintNode::Leaf(AtomicConstraint::Nil).into(),
        ),
    );
    assert_eq!(pair.to_text(), "(1, Nil)");

    let alternatives = single(
        "e",
        ConstraintNode::Enum(vec![
            ConstraintNode::Leaf(AtomicConstraint::LiteralInt(1)),
            ConstraintNode::Leaf(AtomicConstraint::LiteralInt(2)),
        ]),
    );
    assert_eq!(alternatives.to_text(), "1 | 2");

    let empty = single("e", ConstraintNode::Enum(vec![]));
    assert_eq!(empty.to_text(), "Never");
}

#[test]
fn renders_missing_entry_as_error() {
    let c = Constraint::new("gone".to_string());
    assert_eq!(c.to_text(), "Error: Entry 'gone' not found in constraint graph.");
}

#[test]
fn expands_each_definition_once() {
    let mut list_def = Constraint::new("L".to_string());
    list_def.add_node(
        "L".to_string(),
        ConstraintNode::Pair(
            ConstraintNode::T.into(),
            ConstraintNode::Def("L".to_string()).into(),
        ),
    );
    // The recursive reference is expanded on first sight and printed as a
    // bare name inside its own expansion.
    assert_eq!(list_def.to_text(), "(T, L := (T, L))");
}
