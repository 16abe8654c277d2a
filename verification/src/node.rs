//! Constraint nodes: the vertices of a constraint graph.
//!
//! A node is either the universe `T`, the empty set `F`, an atomic leaf,
//! a finite union of alternatives (`Enum`), an ordered pair, or a named
//! reference `Def` into the enclosing graph.

use vstd::prelude::*;

verus! {

/// An atomic constraint: the end of a list (`Nil`) or a single integer.
#[derive(Debug, Clone, Copy, PartialEq, Eq, Structural)]
pub enum AtomicConstraint {
    Nil,
    LiteralInt(i32),
}

/// One node of a constraint graph.
#[derive(Debug)]
pub enum ConstraintNode {
    /// The universe: every value satisfies it.
    T,
    /// The empty set: no value satisfies it.
    F,
    /// A single atomic value.
    Leaf(AtomicConstraint),
    /// The union of the alternatives.
    Enum(Vec<ConstraintNode>),
    /// An ordered pair of constraints.
    Pair(Box<ConstraintNode>, Box<ConstraintNode>),
    /// A reference to a named node of the enclosing graph.
    Def(String),
}

/// The mathematical shape of a `ConstraintNode`: the same tree with
/// sequences in place of vectors and character sequences in place of names.
pub enum NodeView {
    T,
    F,
    Leaf(AtomicConstraint),
    Enum(Seq<NodeView>),
    Pair(Box<NodeView>, Box<NodeView>),
    Def(Seq<char>),
}

impl View for ConstraintNode {
    type V = NodeView;

    closed spec fn view(&self) -> NodeView
        decreases self,
    {
        match self {
            ConstraintNode::T => NodeView::T,
            ConstraintNode::F => NodeView::F,
            ConstraintNode::Leaf(a) => NodeView::Leaf(*a),
            ConstraintNode::Enum(cs) => NodeView::Enum(view_seq(cs@)),
            ConstraintNode::Pair(l, r) => NodeView::Pair(Box::new((**l)@), Box::new((**r)@)),
            ConstraintNode::Def(name) => NodeView::Def(name@),
        }
    }
}

/// The views of the elements of a sequence of nodes.
pub closed spec fn view_seq(s: Seq<ConstraintNode>) -> Seq<NodeView>
    decreases s,
{
    if s.len() == 0 {
        Seq::empty()
    } else {
        view_seq(s.drop_last()).push(s.last()@)
    }
}

pub proof fn lemma_view_seq(s: Seq<ConstraintNode>)
    ensures
        view_seq(s).len() == s.len(),
        forall|i: int| 0 <= i < s.len() ==> view_seq(s)[i] == s[i]@,
    decreases s.len(),
{
    if s.len() > 0 {
        lemma_view_seq(s.drop_last());
        assert(view_seq(s) == view_seq(s.drop_last()).push(s.last()@));
        assert(s.last() == s[s.len() - 1]);
        assert forall|i: int| 0 <= i < s.len() implies view_seq(s)[i] == s[i]@ by {
            if i < s.len() - 1 {
                assert(s.drop_last()[i] == s[i]);
            }
        }
    }
}

/// How the views of the variants of a `ConstraintNode` look, so that callers
/// of `view` need not unfold it case by case.
pub broadcast proof fn lemma_node_view_shape(n: &ConstraintNode)
    ensures
        #![trigger n@]
        n is T ==> n@ == NodeView::T,
        n is F ==> n@ == NodeView::F,
        n matches ConstraintNode::Leaf(a) ==> n@ == NodeView::Leaf(*a),
        n matches ConstraintNode::Enum(cs) ==> n@ == NodeView::Enum(view_seq(cs@)),
        n matches ConstraintNode::Pair(l, r) ==> n@ == NodeView::Pair(
            Box::new((**l)@),
            Box::new((**r)@),
        ),
        n matches ConstraintNode::Def(name) ==> n@ == NodeView::Def(name@),
{
}

/// The number of constructors in a node; the structural part of the
/// termination measure of the subsumption check.
pub open spec fn node_size(n: NodeView) -> nat
    decreases n,
{
    match n {
        NodeView::Enum(cs) => 1 + seq_node_size(cs),
        NodeView::Pair(l, r) => 1 + node_size(*l) + node_size(*r),
        _ => 1,
    }
}

/// The total size of a sequence of nodes.
pub open spec fn seq_node_size(s: Seq<NodeView>) -> nat
    decreases s,
{
    if s.len() == 0 {
        0
    } else {
        node_size(s.first()) + seq_node_size(s.drop_first())
    }
}

pub proof fn lemma_seq_node_size_elem(s: Seq<NodeView>, i: int)
    requires
        0 <= i < s.len(),
    ensures
        node_size(s[i]) <= seq_node_size(s),
    decreases s.len(),
{
    assert(seq_node_size(s) == node_size(s.first()) + seq_node_size(s.drop_first()));
    if i > 0 {
        lemma_seq_node_size_elem(s.drop_first(), i - 1);
        assert(s.drop_first()[i - 1] == s[i]);
    }
}

/// The halves of a `Pair` node are smaller than the node.
pub proof fn lemma_pair_children_smaller(n: NodeView)
    requires
        n is Pair,
    ensures
        n matches NodeView::Pair(l, r) ==> node_size(*l) < node_size(n) && node_size(*r)
            < node_size(n),
{
}

/// The alternatives of an `Enum` node are smaller than the node.
pub proof fn lemma_enum_children_smaller(n: NodeView, cs: Seq<NodeView>)
    requires
        n == NodeView::Enum(cs),
    ensures
        forall|i: int| 0 <= i < cs.len() ==> node_size(#[trigger] cs[i]) < node_size(n),
{
    assert forall|i: int| 0 <= i < cs.len() implies node_size(#[trigger] cs[i]) < node_size(n) by {
        lemma_seq_node_size_elem(cs, i);
    }
}

/// A sequence's total size splits at its last element.
pub proof fn lemma_seq_node_size_last(s: Seq<NodeView>)
    requires
        s.len() > 0,
    ensures
        seq_node_size(s.drop_last()) + node_size(s.last()) == seq_node_size(s),
        seq_node_size(s.drop_last()) < seq_node_size(s),
    decreases s.len(),
{
    assert(seq_node_size(s) == node_size(s.first()) + seq_node_size(s.drop_first()));
    if s.len() == 1 {
        assert(s.drop_last() =~= Seq::<NodeView>::empty());
        assert(s.last() == s.first());
    } else {
        assert(s.drop_last().drop_first() =~= s.drop_first().drop_last());
        assert(s.drop_last().first() == s.first());
        assert(s.drop_first().last() == s.last());
        lemma_seq_node_size_last(s.drop_first());
        assert(seq_node_size(s.drop_last()) == node_size(s.drop_last().first()) + seq_node_size(
            s.drop_last().drop_first(),
        ));
    }
}

/// The members of an `Enum` node weigh less, together, than the node.
pub proof fn lemma_enum_members_weigh_less(n: NodeView, cs: Seq<NodeView>)
    requires
        n == NodeView::Enum(cs),
    ensures
        seq_node_size(cs) < node_size(n),
{
}

/// Every node of the tree rooted at `n`, the root included.
pub open spec fn subterms(n: NodeView) -> Set<NodeView>
    decreases n,
{
    match n {
        NodeView::Enum(cs) => seq_subterms(cs).insert(n),
        NodeView::Pair(l, r) => subterms(*l).union(subterms(*r)).insert(n),
        _ => Set::empty().insert(n),
    }
}

/// The union of the subterms of the elements of a sequence of nodes.
pub open spec fn seq_subterms(s: Seq<NodeView>) -> Set<NodeView>
    decreases s,
{
    if s.len() == 0 {
        Set::empty()
    } else {
        subterms(s.first()).union(seq_subterms(s.drop_first()))
    }
}

pub proof fn lemma_subterms_self(n: NodeView)
    ensures
        subterms(n).contains(n),
{
}

pub proof fn lemma_subterms_finite(n: NodeView)
    ensures
        subterms(n).finite(),
    decreases n,
{
    match n {
        NodeView::Enum(cs) => {
            lemma_seq_subterms_finite(cs);
        },
        NodeView::Pair(l, r) => {
            lemma_subterms_finite(*l);
            lemma_subterms_finite(*r);
        },
        _ => {},
    }
}

pub proof fn lemma_seq_subterms_finite(s: Seq<NodeView>)
    ensures
        seq_subterms(s).finite(),
    decreases s,
{
    if s.len() > 0 {
        lemma_subterms_finite(s.first());
        lemma_seq_subterms_finite(s.drop_first());
    }
}

pub proof fn lemma_seq_subterms_elem(s: Seq<NodeView>, i: int)
    requires
        0 <= i < s.len(),
    ensures
        subterms(s[i]).subset_of(seq_subterms(s)),
    decreases s.len(),
{
    if i > 0 {
        lemma_seq_subterms_elem(s.drop_first(), i - 1);
        assert(s.drop_first()[i - 1] == s[i]);
    }
}

/// Membership in `subterms` is transitive: the subterms of a subterm of `n`
/// are subterms of `n`.
pub proof fn lemma_subterms_trans(n: NodeView, m: NodeView)
    requires
        subterms(n).contains(m),
    ensures
        subterms(m).subset_of(subterms(n)),
    decreases n,
{
    if m != n {
        match n {
            NodeView::Enum(cs) => {
                lemma_seq_subterms_trans(cs, m);
            },
            NodeView::Pair(l, r) => {
                if subterms(*l).contains(m) {
                    lemma_subterms_trans(*l, m);
                } else {
                    lemma_subterms_trans(*r, m);
                }
            },
            _ => {},
        }
    }
}

pub proof fn lemma_seq_subterms_trans(s: Seq<NodeView>, m: NodeView)
    requires
        seq_subterms(s).contains(m),
    ensures
        subterms(m).subset_of(seq_subterms(s)),
    decreases s,
{
    if s.len() > 0 {
        if subterms(s.first()).contains(m) {
            lemma_subterms_trans(s.first(), m);
        } else {
            lemma_seq_subterms_trans(s.drop_first(), m);
        }
    }
}

impl PartialEq for ConstraintNode {
    /// Structural equality: the same tree, with names compared by their
    /// characters.
    #[verifier::loop_isolation(false)]
    fn eq(&self, other: &Self) -> (r: bool)
        decreases self,
    {
        broadcast use lemma_node_view_shape;

        match (self, other) {
            (ConstraintNode::T, ConstraintNode::T) => true,
            (ConstraintNode::F, ConstraintNode::F) => true,
            (ConstraintNode::Leaf(a), ConstraintNode::Leaf(b)) => a == b,
            (ConstraintNode::Enum(xs), ConstraintNode::Enum(ys)) => {
                proof {
                    lemma_view_seq(xs@);
                    lemma_view_seq(ys@);
                }
                if xs.len() != ys.len() {
                    assert(view_seq(xs@).len() != view_seq(ys@).len());
                    return false;
                }
                let n = xs.len();
                let mut i: usize = 0;
                while i < n
                    invariant
                        0 <= i <= n,
                        n == xs.len() == ys.len(),
                        view_seq(xs@).len() == view_seq(ys@).len() == n,
                        forall|k: int| 0 <= k < i ==> view_seq(xs@)[k] == view_seq(ys@)[k],
                        forall|k: int| 0 <= k < xs@.len() ==> view_seq(xs@)[k] == xs@[k]@,
                        forall|k: int| 0 <= k < ys@.len() ==> view_seq(ys@)[k] == ys@[k]@,
                    decreases n - i,
                {
                    if !(xs[i] == ys[i]) {
                        assert(view_seq(xs@)[i as int] != view_seq(ys@)[i as int]);
                        return false;
                    }
                    i += 1;
                }
                assert(view_seq(xs@) =~= view_seq(ys@));
                true
            },
            (ConstraintNode::Pair(l1, r1), ConstraintNode::Pair(l2, r2)) => {
                let le: bool = (**l1).eq(&**l2);
                let re: bool = (**r1).eq(&**r2);
                le && re
            },
            (ConstraintNode::Def(n1), ConstraintNode::Def(n2)) => *n1 == *n2,
            _ => false,
        }
    }
}

impl vstd::std_specs::cmp::PartialEqSpecImpl for ConstraintNode {
    open spec fn obeys_eq_spec() -> bool {
        true
    }

    open spec fn eq_spec(&self, other: &Self) -> bool {
        self@ == other@
    }
}

impl Clone for ConstraintNode {
    /// A deep copy with the same view.
    #[verifier::loop_isolation(false)]
    fn clone(&self) -> (r: Self)
        ensures
            r@ == self@,
        decreases self,
    {
        broadcast use lemma_node_view_shape;

        match self {
            ConstraintNode::T => ConstraintNode::T,
            ConstraintNode::F => ConstraintNode::F,
            ConstraintNode::Leaf(a) => ConstraintNode::Leaf(*a),
            ConstraintNode::Enum(cs) => {
                let mut copies: Vec<ConstraintNode> = Vec::new();
                let n = cs.len();
                let mut i: usize = 0;
                while i < n
                    invariant
                        0 <= i <= n,
                        n == cs.len(),
                        copies@.len() == i,
                        forall|k: int| 0 <= k < i ==> copies@[k]@ == cs@[k]@,
                    decreases n - i,
                {
                    copies.push(cs[i].clone());
                    i += 1;
                }
                proof {
                    lemma_view_seq(cs@);
                    lemma_view_seq(copies@);
                    assert(view_seq(copies@) =~= view_seq(cs@));
                }
                ConstraintNode::Enum(copies)
            },
            ConstraintNode::Pair(l, r) => ConstraintNode::Pair(
                Box::new((**l).clone()),
                Box::new((**r).clone()),
            ),
            ConstraintNode::Def(name) => ConstraintNode::Def(name.clone()),
        }
    }
}

} // verus!
