//! Recursive constraint graphs and their subsumption check.
//!
//! A `Constraint` is a named graph of `ConstraintNode`s together with an
//! entry name. `Def(name)` inside a node refers back to the graph that owns
//! it. Subsumption (`super_of`) walks two graphs coinductively: it carries a
//! set of assumed node pairs, so recursive definitions on either side are
//! decided in finitely many steps.

use vstd::prelude::*;

use crate::node::AtomicConstraint;
use crate::node::ConstraintNode;
use crate::node::NodeView;
use crate::node::lemma_node_view_shape;
use crate::node::lemma_seq_node_size_elem;
use crate::node::lemma_seq_subterms_elem;
use crate::node::lemma_subterms_finite;
use crate::node::lemma_subterms_trans;
use crate::node::node_size;
use crate::node::seq_node_size;
use crate::node::seq_subterms;
use crate::node::subterms;
use crate::node::view_seq;

verus! {

/// Relies on `str`'s `==`: true exactly when the two strings hold the same
/// characters.
#[verifier::external_body]
pub(crate) fn str_eq(a: &str, b: &str) -> (r: bool)
    ensures
        r == (a@ == b@),
{
    a == b
}

/// A named graph of constraint nodes with an entry name.
#[derive(Debug)]
pub struct Constraint {
    graph: Vec<(String, ConstraintNode)>,
    entry: String,
}

/// The mathematical shape of a `Constraint`: a map from names to node views,
/// and the entry name. A name added twice keeps its latest node.
pub struct ConstraintView {
    pub graph: Map<Seq<char>, NodeView>,
    pub entry: Seq<char>,
}

/// The map described by a sequence of name/node entries, later entries
/// overriding earlier ones.
pub closed spec fn map_of(s: Seq<(String, ConstraintNode)>) -> Map<Seq<char>, NodeView>
    decreases s.len(),
{
    if s.len() == 0 {
        Map::empty()
    } else {
        map_of(s.drop_last()).insert(s.last().0@, s.last().1@)
    }
}

impl View for Constraint {
    type V = ConstraintView;

    closed spec fn view(&self) -> ConstraintView {
        ConstraintView { graph: map_of(self.graph@), entry: self.entry@ }
    }
}

/// A key is in the map exactly when some entry of the sequence holds it.
proof fn lemma_map_of_contains(s: Seq<(String, ConstraintNode)>, k: Seq<char>)
    ensures
        map_of(s).contains_key(k) <==> exists|i: int| 0 <= i < s.len() && s[i].0@ == k,
    decreases s.len(),
{
    if s.len() > 0 {
        lemma_map_of_contains(s.drop_last(), k);
        if map_of(s).contains_key(k) {
            if s.last().0@ == k {
                assert(s[s.len() - 1].0@ == k);
            } else {
                let i = choose|i: int| 0 <= i < s.drop_last().len() && s.drop_last()[i].0@ == k;
                assert(s[i].0@ == k);
            }
        }
        if exists|i: int| 0 <= i < s.len() && s[i].0@ == k {
            let i = choose|i: int| 0 <= i < s.len() && s[i].0@ == k;
            if s[i].0@ != s.last().0@ {
                assert(s.drop_last()[i].0@ == k);
            }
        }
    }
}

/// The value under a key is the node of the last entry holding the key.
proof fn lemma_map_of_at(s: Seq<(String, ConstraintNode)>, k: Seq<char>, i: int)
    requires
        0 <= i < s.len(),
        s[i].0@ == k,
        forall|j: int| i < j < s.len() ==> s[j].0@ != k,
    ensures
        map_of(s).contains_key(k),
        map_of(s)[k] == s[i].1@,
    decreases s.len(),
{
    if i == s.len() - 1 {
        assert(s.last() == s[i]);
    } else {
        assert(s.last().0@ != k);
        assert(s.drop_last()[i] == s[i]);
        lemma_map_of_at(s.drop_last(), k, i);
    }
}

/// The dom of the map of a sequence is finite.
proof fn lemma_map_of_dom_finite(s: Seq<(String, ConstraintNode)>)
    ensures
        map_of(s).dom().finite(),
    decreases s.len(),
{
    if s.len() > 0 {
        lemma_map_of_dom_finite(s.drop_last());
    }
}

impl Constraint {
    /// A constraint graph with no nodes yet and the given entry name.
    pub fn new(entry: String) -> (r: Self)
        ensures
            r@.graph == Map::<Seq<char>, NodeView>::empty(),
            r@.entry == entry@,
    {
        Constraint { graph: Vec::new(), entry }
    }

    /// Adds a node under a name; a name added twice keeps the latest node.
    pub fn add_node(&mut self, name: String, node: ConstraintNode)
        ensures
            final(self)@.graph == old(self)@.graph.insert(name@, node@),
            final(self)@.entry == old(self)@.entry,
    {
        let ghost old_seq = self.graph@;
        let ghost name_view = name@;
        let ghost node_view = node@;
        self.graph.push((name, node));
        proof {
            assert(self.graph@.drop_last() =~= old_seq);
            assert(self.graph@.last().0@ == name_view);
            assert(self.graph@.last().1@ == node_view);
            assert(map_of(self.graph@) == map_of(old_seq).insert(name_view, node_view));
        }
    }

    /// Looks a node up by its name.
    pub fn get_node(&self, name: &str) -> (r: Option<&ConstraintNode>)
        ensures
            match r {
                Some(node) => self@.graph.contains_key(name@) && node@ == self@.graph[name@],
                None => !self@.graph.contains_key(name@),
            },
    {
        let n = self.graph.len();
        let mut i: usize = n;
        while i > 0
            invariant
                0 <= i <= n,
                n == self.graph.len(),
                forall|j: int| i <= j < n ==> self.graph@[j].0@ != name@,
            decreases i,
        {
            i -= 1;
            if str_eq(self.graph[i].0.as_str(), name) {
                proof {
                    lemma_map_of_at(self.graph@, name@, i as int);
                }
                return Some(&self.graph[i].1);
            }
        }
        proof {
            lemma_map_of_contains(self.graph@, name@);
        }
        None
    }

    /// The entry name of the graph.
    pub fn entry(&self) -> (r: &String)
        ensures
            r@ == self@.entry,
    {
        &self.entry
    }
}

impl Clone for Constraint {
    /// A copy with the same view.
    #[verifier::loop_isolation(false)]
    fn clone(&self) -> (r: Self)
        ensures
            r@ == self@,
    {
        let mut graph: Vec<(String, ConstraintNode)> = Vec::new();
        let n = self.graph.len();
        let mut i: usize = 0;
        while i < n
            invariant
                0 <= i <= n,
                graph@.len() == i,
                forall|j: int|
                    0 <= j < i ==> graph@[j].0@ == self.graph@[j].0@ && graph@[j].1@
                        == self.graph@[j].1@ && graph@[j].0 == self.graph@[j].0,
            decreases n - i,
        {
            let name = self.graph[i].0.clone();
            let node = self.graph[i].1.clone();
            graph.push((name, node));
            i += 1;
        }
        let r = Constraint { graph, entry: self.entry.clone() };
        proof {
            lemma_map_of_same(r.graph@, self.graph@);
        }
        r
    }
}

/// Every node that occurs anywhere in a graph: the subterms of all its named
/// nodes. The subsumption check only ever visits nodes of this set.
pub open spec fn graph_univ(g: Map<Seq<char>, NodeView>) -> Set<NodeView> {
    Set::new(
        |n: NodeView|
            exists|k: Seq<char>| #[trigger] g.dom().contains(k) && subterms(g[k]).contains(n),
    )
}

/// A graph is closed when every `Def` that occurs in it resolves.
pub open spec fn graph_closed(g: Map<Seq<char>, NodeView>) -> bool {
    forall|nm: Seq<char>| #[trigger]
        graph_univ(g).contains(NodeView::Def(nm)) ==> g.dom().contains(nm)
}

/// The conditions under which the subsumption check is defined: both graphs
/// are finite and closed, and both nodes occur in their graphs.
pub open spec fn wf_subsumption(
    ga: Map<Seq<char>, NodeView>,
    gb: Map<Seq<char>, NodeView>,
    a: NodeView,
    b: NodeView,
) -> bool {
    &&& ga.dom().finite()
    &&& gb.dom().finite()
    &&& graph_closed(ga)
    &&& graph_closed(gb)
    &&& graph_univ(ga).contains(a)
    &&& graph_univ(gb).contains(b)
}

/// All pairs of a node of the left universe with one of the right universe.
pub open spec fn node_pairs(ua: Set<NodeView>, ub: Set<NodeView>) -> Set<(NodeView, NodeView)> {
    Set::new(|p: (NodeView, NodeView)| ua.contains(p.0) && ub.contains(p.1))
}

/// How many node pairs may still be assumed: the coinductive part of the
/// termination measure of the subsumption check.
pub open spec fn assumed_measure(
    ga: Map<Seq<char>, NodeView>,
    gb: Map<Seq<char>, NodeView>,
    assumed: Set<(NodeView, NodeView)>,
) -> nat {
    node_pairs(graph_univ(ga), graph_univ(gb)).difference(assumed).len()
}

/// The universe of a finite graph is finite.
proof fn lemma_graph_univ_finite(g: Map<Seq<char>, NodeView>)
    requires
        g.dom().finite(),
    ensures
        graph_univ(g).finite(),
    decreases g.dom().len(),
{
    if g.dom().len() == 0 {
        assert(g.dom() =~= Set::empty());
        assert(graph_univ(g) =~= Set::empty());
    } else {
        let k = g.dom().choose();
        let rest = g.remove(k);
        lemma_graph_univ_finite(rest);
        lemma_subterms_finite(g[k]);
        assert forall|n: NodeView| graph_univ(g).contains(n) implies graph_univ(rest).union(
            subterms(g[k]),
        ).contains(n) by {
            let k2 = choose|k2: Seq<char>| #[trigger]
                g.dom().contains(k2) && subterms(g[k2]).contains(n);
            if k2 != k {
                assert(rest.dom().contains(k2) && subterms(rest[k2]).contains(n));
            }
        }
        assert forall|n: NodeView| graph_univ(rest).union(subterms(g[k])).contains(n)
            implies graph_univ(g).contains(n) by {
            if graph_univ(rest).contains(n) {
                let k2 = choose|k2: Seq<char>| #[trigger]
                    rest.dom().contains(k2) && subterms(rest[k2]).contains(n);
                assert(g.dom().contains(k2) && subterms(g[k2]).contains(n));
            } else {
                assert(g.dom().contains(k) && subterms(g[k]).contains(n));
            }
        }
        assert(graph_univ(g) =~= graph_univ(rest).union(subterms(g[k])));
    }
}

/// The product of two finite sets of nodes is finite.
proof fn lemma_node_pairs_finite(ua: Set<NodeView>, ub: Set<NodeView>)
    requires
        ua.finite(),
        ub.finite(),
    ensures
        node_pairs(ua, ub).finite(),
    decreases ua.len(),
{
    if ua.len() == 0 {
        assert(ua =~= Set::empty());
        assert(node_pairs(ua, ub) =~= Set::empty());
    } else {
        let a = ua.choose();
        let rest = ua.remove(a);
        lemma_node_pairs_finite(rest, ub);
        let row = ub.map(|b: NodeView| (a, b));
        ub.lemma_map_finite(|b: NodeView| (a, b));
        assert forall|p: (NodeView, NodeView)| node_pairs(ua, ub).contains(p) implies node_pairs(
            rest,
            ub,
        ).union(row).contains(p) by {
            if p.0 == a {
                assert(ub.contains(p.1) && (|b: NodeView| (a, b))(p.1) == p);
                assert(row.contains(p));
            }
        }
        assert forall|p: (NodeView, NodeView)| node_pairs(rest, ub).union(row).contains(p)
            implies node_pairs(ua, ub).contains(p) by {
            if row.contains(p) {
                let b = choose|b: NodeView| ub.contains(b) && (|b: NodeView| (a, b))(b) == p;
                assert(p == (a, b));
            }
        }
        assert(node_pairs(ua, ub) =~= node_pairs(rest, ub).union(row));
    }
}

/// The universe is closed under subterms.
proof fn lemma_univ_closed(g: Map<Seq<char>, NodeView>, n: NodeView, m: NodeView)
    requires
        graph_univ(g).contains(n),
        subterms(n).contains(m),
    ensures
        graph_univ(g).contains(m),
{
    let k = choose|k: Seq<char>| #[trigger] g.dom().contains(k) && subterms(g[k]).contains(n);
    lemma_subterms_trans(g[k], n);
    assert(g.dom().contains(k) && subterms(g[k]).contains(m));
}

/// Every named node of a graph is in the universe.
proof fn lemma_univ_of_named(g: Map<Seq<char>, NodeView>, k: Seq<char>)
    requires
        g.dom().contains(k),
    ensures
        graph_univ(g).contains(g[k]),
{
    crate::node::lemma_subterms_self(g[k]);
}

/// Decides `a` ⊇ `b`, where `a` lives in the graph `ga` and `b` in `gb`, under
/// the assumed pairs `assumed`. A pair already assumed holds outright; a `Def`
/// on either side is assumed before it is resolved in its own graph, which
/// breaks cycles through recursive definitions.
pub open spec fn subsumes(
    ga: Map<Seq<char>, NodeView>,
    gb: Map<Seq<char>, NodeView>,
    a: NodeView,
    b: NodeView,
    assumed: Set<(NodeView, NodeView)>,
) -> bool
    decreases assumed_measure(ga, gb, assumed), node_size(a) + node_size(b), 0int,
    when wf_subsumption(ga, gb, a, b)
    via subsumes_decreases
{
    if assumed.contains((a, b)) {
        true
    } else {
        match (a, b) {
            (NodeView::T, _) => true,
            (_, NodeView::F) => true,
            (NodeView::F, _) => false,
            (_, NodeView::T) => false,
            (NodeView::Leaf(la), NodeView::Leaf(lb)) => la == lb,
            (NodeView::Enum(asq), NodeView::Enum(bsq)) => subsumes_each_some(
                ga,
                gb,
                asq,
                bsq,
                assumed,
            ),
            (aa, NodeView::Enum(bsq)) => subsumes_each(ga, gb, aa, bsq, assumed),
            (NodeView::Enum(asq), bb) => subsumes_some(ga, gb, asq, bb, assumed),
            (NodeView::Pair(al, ar), NodeView::Pair(bl, br)) => subsumes(ga, gb, *al, *bl, assumed)
                && subsumes(ga, gb, *ar, *br, assumed),
            (NodeView::Def(na), NodeView::Def(nb)) => subsumes(
                ga,
                gb,
                ga[na],
                gb[nb],
                assumed.insert((a, b)),
            ),
            (NodeView::Def(na), bb) => subsumes(ga, gb, ga[na], bb, assumed.insert((a, b))),
            (aa, NodeView::Def(nb)) => subsumes(ga, gb, aa, gb[nb], assumed.insert((a, b))),
            _ => false,
        }
    }
}

/// Some member of `asq` subsumes `b`.
pub open spec fn subsumes_some(
    ga: Map<Seq<char>, NodeView>,
    gb: Map<Seq<char>, NodeView>,
    asq: Seq<NodeView>,
    b: NodeView,
    assumed: Set<(NodeView, NodeView)>,
) -> bool
    decreases assumed_measure(ga, gb, assumed), seq_node_size(asq) + node_size(b), 1int,
    via subsumes_some_decreases
{
    exists|i: int| 0 <= i < asq.len() && subsumes(ga, gb, #[trigger] asq[i], b, assumed)
}

/// `a` subsumes every member of `bsq`.
pub open spec fn subsumes_each(
    ga: Map<Seq<char>, NodeView>,
    gb: Map<Seq<char>, NodeView>,
    a: NodeView,
    bsq: Seq<NodeView>,
    assumed: Set<(NodeView, NodeView)>,
) -> bool
    decreases assumed_measure(ga, gb, assumed), node_size(a) + seq_node_size(bsq), 1int,
    via subsumes_each_decreases
{
    forall|j: int| 0 <= j < bsq.len() ==> subsumes(ga, gb, a, #[trigger] bsq[j], assumed)
}

/// Every member of `bsq` is subsumed by some member of `asq`.
pub open spec fn subsumes_each_some(
    ga: Map<Seq<char>, NodeView>,
    gb: Map<Seq<char>, NodeView>,
    asq: Seq<NodeView>,
    bsq: Seq<NodeView>,
    assumed: Set<(NodeView, NodeView)>,
) -> bool
    decreases assumed_measure(ga, gb, assumed), seq_node_size(asq) + seq_node_size(bsq), 2int,
    via subsumes_each_some_decreases
{
    forall|j: int| 0 <= j < bsq.len() ==> subsumes_some(ga, gb, asq, #[trigger] bsq[j], assumed)
}

#[via_fn]
proof fn subsumes_some_decreases(
    ga: Map<Seq<char>, NodeView>,
    gb: Map<Seq<char>, NodeView>,
    asq: Seq<NodeView>,
    b: NodeView,
    assumed: Set<(NodeView, NodeView)>,
) {
    assert forall|i: int| 0 <= i < asq.len() implies node_size(#[trigger] asq[i])
        <= seq_node_size(asq) by {
        lemma_seq_node_size_elem(asq, i);
    }
}

#[via_fn]
proof fn subsumes_each_decreases(
    ga: Map<Seq<char>, NodeView>,
    gb: Map<Seq<char>, NodeView>,
    a: NodeView,
    bsq: Seq<NodeView>,
    assumed: Set<(NodeView, NodeView)>,
) {
    assert forall|j: int| 0 <= j < bsq.len() implies node_size(#[trigger] bsq[j])
        <= seq_node_size(bsq) by {
        lemma_seq_node_size_elem(bsq, j);
    }
}

#[via_fn]
proof fn subsumes_each_some_decreases(
    ga: Map<Seq<char>, NodeView>,
    gb: Map<Seq<char>, NodeView>,
    asq: Seq<NodeView>,
    bsq: Seq<NodeView>,
    assumed: Set<(NodeView, NodeView)>,
) {
    assert forall|j: int| 0 <= j < bsq.len() implies node_size(#[trigger] bsq[j])
        <= seq_node_size(bsq) by {
        lemma_seq_node_size_elem(bsq, j);
    }
}

#[via_fn]
proof fn subsumes_decreases(
    ga: Map<Seq<char>, NodeView>,
    gb: Map<Seq<char>, NodeView>,
    a: NodeView,
    b: NodeView,
    assumed: Set<(NodeView, NodeView)>,
) {
    lemma_wf_gives_measure_facts(ga, gb, a, b, assumed);
}

/// What the termination of each branch of `subsumes` needs: children of the
/// two nodes are smaller and stay in the universes, and assuming a fresh pair
/// shrinks the set of pairs still assumable.
proof fn lemma_wf_gives_measure_facts(
    ga: Map<Seq<char>, NodeView>,
    gb: Map<Seq<char>, NodeView>,
    a: NodeView,
    b: NodeView,
    assumed: Set<(NodeView, NodeView)>,
)
    requires
        wf_subsumption(ga, gb, a, b),
    ensures
        (a matches NodeView::Enum(asq) ==> forall|i: int|
            0 <= i < asq.len() ==> node_size(#[trigger] asq[i]) < node_size(a)),
        (b matches NodeView::Enum(bsq) ==> forall|j: int|
            0 <= j < bsq.len() ==> node_size(#[trigger] bsq[j]) < node_size(b)),
        (a matches NodeView::Pair(al, ar) ==> node_size(*al) < node_size(a) && node_size(*ar)
            < node_size(a)),
        (b matches NodeView::Pair(bl, br) ==> node_size(*bl) < node_size(b) && node_size(*br)
            < node_size(b)),
        !assumed.contains((a, b)) ==> assumed_measure(ga, gb, assumed.insert((a, b))) < assumed_measure(
            ga,
            gb,
            assumed,
        ),
{
    match a {
        NodeView::Enum(asq) => {
            assert forall|i: int| 0 <= i < asq.len() implies node_size(#[trigger] asq[i])
                < node_size(a) by {
                lemma_seq_node_size_elem(asq, i);
            }
        },
        _ => {},
    }
    match b {
        NodeView::Enum(bsq) => {
            assert forall|j: int| 0 <= j < bsq.len() implies node_size(#[trigger] bsq[j])
                < node_size(b) by {
                lemma_seq_node_size_elem(bsq, j);
            }
        },
        _ => {},
    }
    if !assumed.contains((a, b)) {
        lemma_graph_univ_finite(ga);
        lemma_graph_univ_finite(gb);
        lemma_node_pairs_finite(graph_univ(ga), graph_univ(gb));
        let pairs = node_pairs(graph_univ(ga), graph_univ(gb));
        assert(pairs.contains((a, b)));
        pairs.lemma_set_insert_diff_decreases(assumed, (a, b));
    }
}

/// The pairs of node views that a vector of assumed node pairs holds.
pub open spec fn assumed_set(s: Seq<(ConstraintNode, ConstraintNode)>) -> Set<(NodeView, NodeView)> {
    s.map_values(|p: (ConstraintNode, ConstraintNode)| (p.0@, p.1@)).to_set()
}

proof fn lemma_assumed_set_push(s: Seq<(ConstraintNode, ConstraintNode)>, p: (
    ConstraintNode,
    ConstraintNode,
))
    ensures
        assumed_set(s.push(p)) == assumed_set(s).insert((p.0@, p.1@)),
{
    let f = |q: (ConstraintNode, ConstraintNode)| (q.0@, q.1@);
    assert forall|x: (NodeView, NodeView)| assumed_set(s.push(p)).contains(x) implies assumed_set(
        s,
    ).insert(f(p)).contains(x) by {
        let i = choose|i: int| 0 <= i < s.push(p).len() && s.push(p).map_values(f)[i] == x;
        if i < s.len() {
            assert(s.map_values(f)[i] == x);
        }
    }
    assert forall|x: (NodeView, NodeView)| assumed_set(s).insert(f(p)).contains(x)
        implies assumed_set(s.push(p)).contains(x) by {
        if assumed_set(s).contains(x) {
            let i = choose|i: int| 0 <= i < s.len() && s.map_values(f)[i] == x;
            assert(s.push(p).map_values(f)[i] == x);
        } else {
            assert(s.push(p).map_values(f)[s.len() as int] == x);
        }
    }
    assert(assumed_set(s.push(p)) =~= assumed_set(s).insert(f(p)));
}

/// Whether the pair of the two nodes is among the assumed pairs.
fn assumption_contains(
    assumption: &Vec<(ConstraintNode, ConstraintNode)>,
    a: &ConstraintNode,
    b: &ConstraintNode,
) -> (r: bool)
    ensures
        r == assumed_set(assumption@).contains((a@, b@)),
{
    let n = assumption.len();
    let mut i: usize = 0;
    while i < n
        invariant
            0 <= i <= n,
            n == assumption.len(),
            forall|j: int| 0 <= j < i ==> (assumption@[j].0@, assumption@[j].1@) != (a@, b@),
        decreases n - i,
    {
        let hit_a = assumption[i].0.eq(a);
        let hit_b = assumption[i].1.eq(b);
        if hit_a && hit_b {
            let ghost f = |q: (ConstraintNode, ConstraintNode)| (q.0@, q.1@);
            assert(assumption@.map_values(f)[i as int] == (a@, b@));
            return true;
        }
        i += 1;
    }
    proof {
        let f = |q: (ConstraintNode, ConstraintNode)| (q.0@, q.1@);
        if assumed_set(assumption@).contains((a@, b@)) {
            let j = choose|j: int|
                0 <= j < assumption@.len() && assumption@.map_values(f)[j] == (a@, b@);
            assert((assumption@[j].0@, assumption@[j].1@) == (a@, b@));
        }
    }
    false
}

/// Checks `node_a` ⊇ `node_b` under the current assumptions. The assumption
/// vector is handed back as it came.
fn check_subsumption(
    constraint_a: &Constraint,
    constraint_b: &Constraint,
    node_a: &ConstraintNode,
    node_b: &ConstraintNode,
    assumption: &mut Vec<(ConstraintNode, ConstraintNode)>,
) -> (r: bool)
    requires
        wf_subsumption(constraint_a@.graph, constraint_b@.graph, node_a@, node_b@),
    ensures
        r == subsumes(
            constraint_a@.graph,
            constraint_b@.graph,
            node_a@,
            node_b@,
            assumed_set(old(assumption)@),
        ),
        final(assumption)@ == old(assumption)@,
    decreases
            assumed_measure(
                constraint_a@.graph,
                constraint_b@.graph,
                assumed_set(assumption@),
            ),
            node_size(node_a@) + node_size(node_b@),
            1int,
{
    check_subsumption_inner(constraint_a, constraint_b, node_a, node_b, assumption)
}

/// The case analysis of the subsumption check; `a >= b`.
#[verifier::loop_isolation(false)]
fn check_subsumption_inner(
    constraint_a: &Constraint,
    constraint_b: &Constraint,
    node_a: &ConstraintNode,
    node_b: &ConstraintNode,
    assumption: &mut Vec<(ConstraintNode, ConstraintNode)>,
) -> (r: bool)
    requires
        wf_subsumption(constraint_a@.graph, constraint_b@.graph, node_a@, node_b@),
    ensures
        r == subsumes(
            constraint_a@.graph,
            constraint_b@.graph,
            node_a@,
            node_b@,
            assumed_set(old(assumption)@),
        ),
        final(assumption)@ == old(assumption)@,
    decreases
            assumed_measure(
                constraint_a@.graph,
                constraint_b@.graph,
                assumed_set(assumption@),
            ),
            node_size(node_a@) + node_size(node_b@),
            0int,
{
    broadcast use lemma_node_view_shape;

    let ghost ga = constraint_a@.graph;
    let ghost gb = constraint_b@.graph;
    let ghost assumed = assumed_set(assumption@);
    if assumption_contains(assumption, node_a, node_b) {
        return true;
    }
    match (node_a, node_b) {
        (ConstraintNode::T, _) => true,
        (_, ConstraintNode::F) => true,
        (ConstraintNode::F, _) => false,
        (_, ConstraintNode::T) => false,
        (ConstraintNode::Leaf(a_lit), ConstraintNode::Leaf(b_lit)) => a_lit == b_lit,
        (ConstraintNode::Enum(a_nodes), ConstraintNode::Enum(b_nodes)) => {
            proof {
                crate::node::lemma_view_seq(a_nodes@);
                crate::node::lemma_view_seq(b_nodes@);
            }
            let ghost asq = view_seq(a_nodes@);
            let ghost bsq = view_seq(b_nodes@);
            let bn = b_nodes.len();
            let an = a_nodes.len();
            let mut j: usize = 0;
            while j < bn
                invariant
                    0 <= j <= bn,
                    assumption@ == old(assumption)@,
                    forall|jj: int|
                        0 <= jj < j ==> subsumes_some(ga, gb, asq, #[trigger] bsq[jj], assumed),
                decreases bn - j,
            {
                proof {
                    lemma_child_in_univ_enum(gb, node_b@, bsq, j as int);
                    assert forall|ii: int| 0 <= ii < asq.len() implies wf_subsumption(
                        ga,
                        gb,
                        #[trigger] asq[ii],
                        bsq[j as int],
                    ) by {
                        lemma_child_in_univ_enum(ga, node_a@, asq, ii);
                    }
                }
                let mut i: usize = 0;
                let mut found = false;
                while i < an && !found
                    invariant
                        0 <= i <= an,
                        0 <= j < bn,
                        assumption@ == old(assumption)@,
                        found ==> subsumes_some(ga, gb, asq, bsq[j as int], assumed),
                        !found ==> forall|ii: int|
                            0 <= ii < i ==> !subsumes(
                                ga,
                                gb,
                                #[trigger] asq[ii],
                                bsq[j as int],
                                assumed,
                            ),
                    decreases an - i + if found { 0int } else { 1int },
                {
                    proof {
                        lemma_child_in_univ_enum(ga, node_a@, asq, i as int);
                    }
                    if check_subsumption(
                        constraint_a,
                        constraint_b,
                        &a_nodes[i],
                        &b_nodes[j],
                        assumption,
                    ) {
                        proof {
                            assert(subsumes(ga, gb, asq[i as int], bsq[j as int], assumed));
                        }
                        found = true;
                    } else {
                        i += 1;
                    }
                }
                if !found {
                    proof {
                        assert(node_a@ == NodeView::Enum(asq));
                        assert(node_b@ == NodeView::Enum(bsq));
                        assert(graph_univ(ga).contains(NodeView::Enum(asq)));
                        assert(graph_univ(gb).contains(bsq[j as int]));
                        assert(wf_subsumption(ga, gb, NodeView::Enum(asq), bsq[j as int]));
                        assert(wf_subsumption(ga, gb, NodeView::Enum(asq), NodeView::Enum(bsq)));
                        assert(!subsumes_some(ga, gb, asq, bsq[j as int], assumed));
                        assert(!subsumes_each_some(ga, gb, asq, bsq, assumed));
                    }
                    return false;
                }
                j += 1;
            }
            proof {
                assert(subsumes_each_some(ga, gb, asq, bsq, assumed));
            }
            true
        },
        (_, ConstraintNode::Enum(b_nodes)) => {
            proof {
                crate::node::lemma_view_seq(b_nodes@);
            }
            let ghost bsq = view_seq(b_nodes@);
            proof {
                assert forall|jj: int| 0 <= jj < bsq.len() implies wf_subsumption(
                    ga,
                    gb,
                    node_a@,
                    #[trigger] bsq[jj],
                ) by {
                    lemma_child_in_univ_enum(gb, node_b@, bsq, jj);
                }
            }
            let bn = b_nodes.len();
            let mut j: usize = 0;
            while j < bn
                invariant
                    0 <= j <= bn,
                    assumption@ == old(assumption)@,
                    forall|jj: int|
                        0 <= jj < j ==> subsumes(ga, gb, node_a@, #[trigger] bsq[jj], assumed),
                decreases bn - j,
            {
                proof {
                    lemma_child_in_univ_enum(gb, node_b@, bsq, j as int);
                }
                if !check_subsumption(constraint_a, constraint_b, node_a, &b_nodes[j], assumption) {
                    proof {
                        assert(!subsumes_each(ga, gb, node_a@, bsq, assumed));
                    }
                    return false;
                }
                j += 1;
            }
            proof {
                assert(subsumes_each(ga, gb, node_a@, bsq, assumed));
            }
            true
        },
        (ConstraintNode::Enum(a_nodes), _) => {
            proof {
                crate::node::lemma_view_seq(a_nodes@);
            }
            let ghost asq = view_seq(a_nodes@);
            proof {
                assert forall|ii: int| 0 <= ii < asq.len() implies wf_subsumption(
                    ga,
                    gb,
                    #[trigger] asq[ii],
                    node_b@,
                ) by {
                    lemma_child_in_univ_enum(ga, node_a@, asq, ii);
                }
            }
            let an = a_nodes.len();
            let mut i: usize = 0;
            while i < an
                invariant
                    0 <= i <= an,
                    assumption@ == old(assumption)@,
                    forall|ii: int|
                        0 <= ii < i ==> !subsumes(ga, gb, #[trigger] asq[ii], node_b@, assumed),
                decreases an - i,
            {
                proof {
                    lemma_child_in_univ_enum(ga, node_a@, asq, i as int);
                }
                if check_subsumption(constraint_a, constraint_b, &a_nodes[i], node_b, assumption) {
                    proof {
                        assert(subsumes_some(ga, gb, asq, node_b@, assumed));
                    }
                    return true;
                }
                i += 1;
            }
            proof {
                assert(!subsumes_some(ga, gb, asq, node_b@, assumed));
            }
            false
        },
        (ConstraintNode::Pair(a_left, a_right), ConstraintNode::Pair(b_left, b_right)) => {
            proof {
                lemma_child_in_univ_pair(ga, node_a@);
                lemma_child_in_univ_pair(gb, node_b@);
            }
            let left_ok = check_subsumption(constraint_a, constraint_b, a_left, b_left, assumption);
            if left_ok {
                check_subsumption(constraint_a, constraint_b, a_right, b_right, assumption)
            } else {
                false
            }
        },
        (ConstraintNode::Def(a_name), ConstraintNode::Def(b_name)) => {
            proof {
                lemma_def_resolves(ga, node_a@);
                lemma_def_resolves(gb, node_b@);
                lemma_wf_gives_measure_facts(ga, gb, node_a@, node_b@, assumed);
            }
            let pair = (node_a.clone(), node_b.clone());
            assumption.push(pair);
            proof {
                lemma_assumed_set_push(old(assumption)@, (pair.0, pair.1));
            }
            let resolved_a = constraint_a.get_node(a_name.as_str()).unwrap();
            let resolved_b = constraint_b.get_node(b_name.as_str()).unwrap();
            let r = check_subsumption(constraint_a, constraint_b, resolved_a, resolved_b, assumption);
            let _ = assumption.pop();
            proof {
                assert(assumption@ =~= old(assumption)@);
            }
            r
        },
        (ConstraintNode::Def(a_name), _) => {
            proof {
                lemma_def_resolves(ga, node_a@);
                lemma_wf_gives_measure_facts(ga, gb, node_a@, node_b@, assumed);
            }
            let pair = (node_a.clone(), node_b.clone());
            assumption.push(pair);
            proof {
                lemma_assumed_set_push(old(assumption)@, (pair.0, pair.1));
            }
            let resolved_a = constraint_a.get_node(a_name.as_str()).unwrap();
            let r = check_subsumption(constraint_a, constraint_b, resolved_a, node_b, assumption);
            let _ = assumption.pop();
            proof {
                assert(assumption@ =~= old(assumption)@);
            }
            r
        },
        (_, ConstraintNode::Def(b_name)) => {
            proof {
                lemma_def_resolves(gb, node_b@);
                lemma_wf_gives_measure_facts(ga, gb, node_a@, node_b@, assumed);
            }
            let pair = (node_a.clone(), node_b.clone());
            assumption.push(pair);
            proof {
                lemma_assumed_set_push(old(assumption)@, (pair.0, pair.1));
            }
            let resolved_b = constraint_b.get_node(b_name.as_str()).unwrap();
            let r = check_subsumption(constraint_a, constraint_b, node_a, resolved_b, assumption);
            let _ = assumption.pop();
            proof {
                assert(assumption@ =~= old(assumption)@);
            }
            r
        },
        _ => false,
    }
}

/// The elements of an `Enum` node of the universe are in the universe.
proof fn lemma_child_in_univ_enum(
    g: Map<Seq<char>, NodeView>,
    n: NodeView,
    children: Seq<NodeView>,
    i: int,
)
    requires
        graph_univ(g).contains(n),
        n == NodeView::Enum(children),
        0 <= i < children.len(),
    ensures
        graph_univ(g).contains(children[i]),
        node_size(children[i]) < node_size(n),
{
    lemma_seq_subterms_elem(children, i);
    crate::node::lemma_subterms_self(children[i]);
    lemma_univ_closed(g, n, children[i]);
    lemma_seq_node_size_elem(children, i);
}

/// The halves of a `Pair` node of the universe are in the universe.
proof fn lemma_child_in_univ_pair(g: Map<Seq<char>, NodeView>, n: NodeView)
    requires
        graph_univ(g).contains(n),
        n is Pair,
    ensures
        n matches NodeView::Pair(l, r) ==> graph_univ(g).contains(*l) && graph_univ(g).contains(*r)
            && node_size(*l) < node_size(n) && node_size(*r) < node_size(n),
{
    match n {
        NodeView::Pair(l, r) => {
            crate::node::lemma_subterms_self(*l);
            crate::node::lemma_subterms_self(*r);
            lemma_univ_closed(g, n, *l);
            lemma_univ_closed(g, n, *r);
        },
        _ => {},
    }
}

/// A `Def` node of a closed graph resolves, and what it resolves to is in the
/// universe.
proof fn lemma_def_resolves(g: Map<Seq<char>, NodeView>, n: NodeView)
    requires
        graph_closed(g),
        graph_univ(g).contains(n),
        n is Def,
    ensures
        n matches NodeView::Def(name) ==> g.dom().contains(name) && graph_univ(g).contains(
            g[name],
        ),
{
    match n {
        NodeView::Def(name) => {
            lemma_univ_of_named(g, name);
        },
        _ => {},
    }
}

impl ConstraintView {
    /// A constraint graph the subsumption check can run on: finitely many
    /// names, and every `Def` that occurs in it resolves. A lookup miss during
    /// subsumption is a usage fault, so closedness is asked of callers.
    pub open spec fn well_formed(self) -> bool {
        self.graph.dom().finite() && graph_closed(self.graph)
    }

    /// Whether the entry name resolves.
    pub open spec fn has_entry(self) -> bool {
        self.graph.contains_key(self.entry)
    }

    /// What `super_of` decides: the subsumption check on the two entry nodes,
    /// starting from no assumptions; false when an entry is missing.
    pub open spec fn super_spec(self, other: ConstraintView) -> bool {
        if self.has_entry() && other.has_entry() {
            subsumes(
                self.graph,
                other.graph,
                self.graph[self.entry],
                other.graph[other.entry],
                Set::empty(),
            )
        } else {
            false
        }
    }

    /// The constraint that nothing satisfies: a graph whose entry is `F`.
    pub open spec fn bottom() -> ConstraintView {
        ConstraintView {
            graph: Map::empty().insert("F"@, NodeView::F),
            entry: "F"@,
        }
    }
}

impl Constraint {
    /// Whether this constraint subsumes `other`: every value that satisfies
    /// `other` satisfies `self`. Recursive definitions on both sides are
    /// decided coinductively, so the check terminates on every input pair.
    pub fn super_of(&self, other: &Self) -> (r: bool)
        requires
            self@.well_formed(),
            other@.well_formed(),
        ensures
            r == self@.super_spec(other@),
    {
        let mut assumption: Vec<(ConstraintNode, ConstraintNode)> = Vec::new();
        match self.get_node(self.entry.as_str()) {
            Some(node_a) => match other.get_node(other.entry.as_str()) {
                Some(node_b) => {
                    proof {
                        lemma_univ_of_named(self@.graph, self@.entry);
                        lemma_univ_of_named(other@.graph, other@.entry);
                        assert(assumed_set(assumption@) =~= Set::empty());
                    }
                    check_subsumption(self, other, node_a, node_b, &mut assumption)
                },
                None => false,
            },
            None => false,
        }
    }

    /// Both directions of `super_of`: the two constraints describe the same
    /// set of values, decided semantically, never by structural comparison.
    /// A well-formed constraint whose entry resolves equals itself.
    pub fn equals(&self, other: &Self) -> (r: bool)
        requires
            self@.well_formed(),
            other@.well_formed(),
        ensures
            r == (self@.super_spec(other@) && other@.super_spec(self@)),
            self@ == other@ && self@.has_entry() ==> r,
    {
        proof {
            if self@ == other@ && self@.has_entry() {
                lemma_super_of_reflexive(self@);
            }
        }
        self.super_of(other) && other.super_of(self)
    }

    /// Narrows `v` by this constraint: `v` itself when this constraint
    /// subsumes it, the bottom constraint otherwise. The last clause is the
    /// refine law: the result is always subsumed by `self`.
    pub fn refine(&self, v: &Self) -> (r: Self)
        requires
            self@.well_formed(),
            v@.well_formed(),
        ensures
            self@.super_spec(v@) ==> r@ == v@,
            !self@.super_spec(v@) ==> r@ == ConstraintView::bottom(),
            self@.has_entry() ==> self@.super_spec(r@),
    {
        if self.super_of(v) {
            return v.clone();
        }
        let mut bottom = Constraint::new("F".to_owned());
        bottom.add_node("F".to_owned(), ConstraintNode::F);
        proof {
            broadcast use lemma_node_view_shape;

            assert(bottom@.graph =~= ConstraintView::bottom().graph);
            if self@.has_entry() {
                lemma_bottom_is_bottom(self@);
            }
        }
        bottom
    }

    /// The domain of the view of a constraint graph is always finite; callers
    /// discharge half of `well_formed` with this.
    pub proof fn lemma_graph_finite(self)
        ensures
            self@.graph.dom().finite(),
    {
        lemma_map_of_dom_finite(self.graph@);
    }
}

/// Everything subsumes the bottom constraint: its entry node is `F`, and `F`
/// is subsumed by every node.
proof fn lemma_bottom_is_bottom(c: ConstraintView)
    requires
        c.well_formed(),
        c.has_entry(),
    ensures
        c.super_spec(ConstraintView::bottom()),
{
    let bot = ConstraintView::bottom();
    lemma_univ_of_named(c.graph, c.entry);
    lemma_univ_of_named(bot.graph, bot.entry);
    assert(graph_univ(bot.graph) =~= subterms(NodeView::F));
    assert(wf_subsumption(c.graph, bot.graph, c.graph[c.entry], NodeView::F));
    assert(subsumes(c.graph, bot.graph, c.graph[c.entry], NodeView::F, Set::empty()));
}

/// Subsumption is reflexive on the nodes of a closed graph, under any
/// assumption set.
proof fn lemma_subsumes_reflexive(
    g: Map<Seq<char>, NodeView>,
    n: NodeView,
    assumed: Set<(NodeView, NodeView)>,
)
    requires
        g.dom().finite(),
        graph_closed(g),
        graph_univ(g).contains(n),
    ensures
        subsumes(g, g, n, n, assumed),
    decreases assumed_measure(g, g, assumed), node_size(n),
{
    if !assumed.contains((n, n)) {
        match n {
            NodeView::Enum(cs) => {
                assert forall|j: int| 0 <= j < cs.len() implies subsumes_some(
                    g,
                    g,
                    cs,
                    #[trigger] cs[j],
                    assumed,
                ) by {
                    lemma_child_in_univ_enum(g, n, cs, j);
                    lemma_subsumes_reflexive(g, cs[j], assumed);
                    assert(0 <= j < cs.len() && subsumes(g, g, cs[j], cs[j], assumed));
                }
                assert(subsumes_each_some(g, g, cs, cs, assumed));
            },
            NodeView::Pair(l, r) => {
                lemma_child_in_univ_pair(g, n);
                lemma_subsumes_reflexive(g, *l, assumed);
                lemma_subsumes_reflexive(g, *r, assumed);
            },
            NodeView::Def(nm) => {
                lemma_def_resolves(g, n);
                lemma_wf_gives_measure_facts(g, g, n, n, assumed);
                lemma_subsumes_reflexive(g, g[nm], assumed.insert((n, n)));
            },
            _ => {},
        }
    }
}

/// Reflexivity: every well-formed constraint subsumes, and so also equals,
/// itself.
pub proof fn lemma_super_of_reflexive(c: ConstraintView)
    requires
        c.well_formed(),
        c.has_entry(),
    ensures
        c.super_spec(c),
{
    lemma_univ_of_named(c.graph, c.entry);
    lemma_subsumes_reflexive(c.graph, c.graph[c.entry], Set::empty());
}

/// A constraint whose entry node is `T` subsumes every well-formed constraint
/// whose entry resolves.
pub proof fn lemma_top_super_of(a: ConstraintView, b: ConstraintView)
    requires
        a.well_formed(),
        b.well_formed(),
        a.has_entry(),
        b.has_entry(),
        a.graph[a.entry] == NodeView::T,
    ensures
        a.super_spec(b),
{
    lemma_univ_of_named(a.graph, a.entry);
    lemma_univ_of_named(b.graph, b.entry);
    assert(subsumes(a.graph, b.graph, NodeView::T, b.graph[b.entry], Set::empty()));
}

/// A constraint whose entry node is `F` is subsumed by every well-formed
/// constraint whose entry resolves.
pub proof fn lemma_super_of_bottom(a: ConstraintView, b: ConstraintView)
    requires
        a.well_formed(),
        b.well_formed(),
        a.has_entry(),
        b.has_entry(),
        b.graph[b.entry] == NodeView::F,
    ensures
        a.super_spec(b),
{
    lemma_univ_of_named(a.graph, a.entry);
    lemma_univ_of_named(b.graph, b.entry);
    assert(subsumes(a.graph, b.graph, a.graph[a.entry], NodeView::F, Set::empty()));
}

/// The universe node subsumes every node, under any assumption set.
pub proof fn lemma_subsumes_top(
    ga: Map<Seq<char>, NodeView>,
    gb: Map<Seq<char>, NodeView>,
    b: NodeView,
    assumed: Set<(NodeView, NodeView)>,
)
    requires
        wf_subsumption(ga, gb, NodeView::T, b),
    ensures
        subsumes(ga, gb, NodeView::T, b, assumed),
{
}

/// Every node subsumes the empty node, under any assumption set.
pub proof fn lemma_subsumes_bottom(
    ga: Map<Seq<char>, NodeView>,
    gb: Map<Seq<char>, NodeView>,
    a: NodeView,
    assumed: Set<(NodeView, NodeView)>,
)
    requires
        wf_subsumption(ga, gb, a, NodeView::F),
    ensures
        subsumes(ga, gb, a, NodeView::F, assumed),
{
}

/// Pair subsumption is exactly componentwise subsumption, under any
/// assumption set that does not already assume the pair itself.
pub proof fn lemma_subsumes_pair_componentwise(
    ga: Map<Seq<char>, NodeView>,
    gb: Map<Seq<char>, NodeView>,
    a1: NodeView,
    a2: NodeView,
    b1: NodeView,
    b2: NodeView,
    assumed: Set<(NodeView, NodeView)>,
)
    requires
        wf_subsumption(
            ga,
            gb,
            NodeView::Pair(Box::new(a1), Box::new(a2)),
            NodeView::Pair(Box::new(b1), Box::new(b2)),
        ),
        !assumed.contains(
            (
                NodeView::Pair(Box::new(a1), Box::new(a2)),
                NodeView::Pair(Box::new(b1), Box::new(b2)),
            ),
        ),
    ensures
        subsumes(
            ga,
            gb,
            NodeView::Pair(Box::new(a1), Box::new(a2)),
            NodeView::Pair(Box::new(b1), Box::new(b2)),
            assumed,
        ) == (subsumes(ga, gb, a1, b1, assumed) && subsumes(ga, gb, a2, b2, assumed)),
{
    lemma_child_in_univ_pair(ga, NodeView::Pair(Box::new(a1), Box::new(a2)));
    lemma_child_in_univ_pair(gb, NodeView::Pair(Box::new(b1), Box::new(b2)));
    assert(wf_subsumption(ga, gb, a1, b1));
    assert(wf_subsumption(ga, gb, a2, b2));
}

/// Two enums whose member lists hold the same nodes subsume each other: the
/// member order never matters, and a duplicated member never changes the
/// decision. Both graphs are the same graph, as in an `equals` check.
pub proof fn lemma_subsumes_same_members(
    g: Map<Seq<char>, NodeView>,
    ms1: Seq<NodeView>,
    ms2: Seq<NodeView>,
    assumed: Set<(NodeView, NodeView)>,
)
    requires
        g.dom().finite(),
        graph_closed(g),
        graph_univ(g).contains(NodeView::Enum(ms1)),
        graph_univ(g).contains(NodeView::Enum(ms2)),
        forall|j: int| 0 <= j < ms2.len() ==> ms1.contains(#[trigger] ms2[j]),
        !assumed.contains((NodeView::Enum(ms1), NodeView::Enum(ms2))),
    ensures
        subsumes(g, g, NodeView::Enum(ms1), NodeView::Enum(ms2), assumed),
{
    assert forall|j: int| 0 <= j < ms2.len() implies subsumes_some(
        g,
        g,
        ms1,
        #[trigger] ms2[j],
        assumed,
    ) by {
        let i = choose|i: int| 0 <= i < ms1.len() && ms1[i] == ms2[j];
        lemma_child_in_univ_enum(g, NodeView::Enum(ms1), ms1, i);
        lemma_child_in_univ_enum(g, NodeView::Enum(ms2), ms2, j);
        lemma_subsumes_reflexive(g, ms1[i], assumed);
        assert(wf_subsumption(g, g, ms1[i], ms2[j]));
        assert(0 <= i < ms1.len() && subsumes(g, g, ms1[i], ms2[j], assumed));
    }
    assert(subsumes_each_some(g, g, ms1, ms2, assumed));
}

/// Order does not matter: an enum subsumes, and equals, any permutation of
/// itself.
pub proof fn lemma_subsumes_enum_permutation(
    g: Map<Seq<char>, NodeView>,
    ms1: Seq<NodeView>,
    ms2: Seq<NodeView>,
)
    requires
        g.dom().finite(),
        graph_closed(g),
        graph_univ(g).contains(NodeView::Enum(ms1)),
        graph_univ(g).contains(NodeView::Enum(ms2)),
        ms1.to_multiset() == ms2.to_multiset(),
    ensures
        subsumes(g, g, NodeView::Enum(ms1), NodeView::Enum(ms2), Set::empty()),
        subsumes(g, g, NodeView::Enum(ms2), NodeView::Enum(ms1), Set::empty()),
{
    broadcast use vstd::seq_lib::group_to_multiset_ensures;

    assert forall|j: int| 0 <= j < ms2.len() implies ms1.contains(#[trigger] ms2[j]) by {
        assert(ms2.to_multiset().count(ms2[j]) > 0);
    }
    assert forall|j: int| 0 <= j < ms1.len() implies ms2.contains(#[trigger] ms1[j]) by {
        assert(ms1.to_multiset().count(ms1[j]) > 0);
    }
    lemma_subsumes_same_members(g, ms1, ms2, Set::empty());
    lemma_subsumes_same_members(g, ms2, ms1, Set::empty());
}

/// Duplicating a member never changes the decision: an enum equals itself
/// with one of its members repeated.
pub proof fn lemma_subsumes_enum_duplicate(
    g: Map<Seq<char>, NodeView>,
    ms: Seq<NodeView>,
    m: NodeView,
)
    requires
        g.dom().finite(),
        graph_closed(g),
        graph_univ(g).contains(NodeView::Enum(ms)),
        graph_univ(g).contains(NodeView::Enum(ms.push(m))),
        ms.contains(m),
    ensures
        subsumes(g, g, NodeView::Enum(ms), NodeView::Enum(ms.push(m)), Set::empty()),
        subsumes(g, g, NodeView::Enum(ms.push(m)), NodeView::Enum(ms), Set::empty()),
{
    assert forall|j: int| 0 <= j < ms.push(m).len() implies ms.contains(
        #[trigger] ms.push(m)[j],
    ) by {
        if j < ms.len() {
            assert(ms.push(m)[j] == ms[j]);
        } else {
            assert(ms.push(m)[j] == m);
        }
    }
    assert forall|j: int| 0 <= j < ms.len() implies ms.push(m).contains(#[trigger] ms[j]) by {
        assert(ms.push(m)[j] == ms[j]);
    }
    lemma_subsumes_same_members(g, ms, ms.push(m), Set::empty());
    lemma_subsumes_same_members(g, ms.push(m), ms, Set::empty());
}

/// Whether a node is an enum holding `x` as a member.
pub open spec fn grouped_in(o: NodeView, x: NodeView) -> bool {
    o matches NodeView::Enum(sub) && sub.contains(x)
}

/// Grouping members into a nested enum never loses them: an enum whose
/// members carry every member of a flat enum, directly or inside a nested
/// enum member, subsumes the flat enum. (The converse direction does not hold
/// in general: the rules never flatten a nested enum on the right.)
pub proof fn lemma_subsumes_enum_grouping(
    g: Map<Seq<char>, NodeView>,
    outer: Seq<NodeView>,
    flat: Seq<NodeView>,
)
    requires
        g.dom().finite(),
        graph_closed(g),
        graph_univ(g).contains(NodeView::Enum(outer)),
        graph_univ(g).contains(NodeView::Enum(flat)),
        forall|j: int|
            0 <= j < flat.len() ==> outer.contains(#[trigger] flat[j]) || (!(flat[j] is T) && !(
            flat[j] is Enum) && exists|i: int|
                0 <= i < outer.len() && grouped_in(#[trigger] outer[i], flat[j])),
    ensures
        subsumes(g, g, NodeView::Enum(outer), NodeView::Enum(flat), Set::empty()),
{
    let empty_set = Set::<(NodeView, NodeView)>::empty();
    assert forall|j: int| 0 <= j < flat.len() implies subsumes_some(
        g,
        g,
        outer,
        #[trigger] flat[j],
        empty_set,
    ) by {
        lemma_child_in_univ_enum(g, NodeView::Enum(flat), flat, j);
        if outer.contains(flat[j]) {
            let i = choose|i: int| 0 <= i < outer.len() && outer[i] == flat[j];
            lemma_child_in_univ_enum(g, NodeView::Enum(outer), outer, i);
            lemma_subsumes_reflexive(g, outer[i], empty_set);
            assert(0 <= i < outer.len() && subsumes(g, g, outer[i], flat[j], empty_set));
        } else {
            let i = choose|i: int| 0 <= i < outer.len() && grouped_in(#[trigger] outer[i], flat[j]);
            lemma_child_in_univ_enum(g, NodeView::Enum(outer), outer, i);
            match outer[i] {
                NodeView::Enum(sub) => {
                    let idx = choose|idx: int| 0 <= idx < sub.len() && sub[idx] == flat[j];
                    lemma_child_in_univ_enum(g, outer[i], sub, idx);
                    lemma_subsumes_reflexive(g, sub[idx], empty_set);
                    assert(wf_subsumption(g, g, sub[idx], flat[j]));
                    assert(0 <= idx < sub.len() && subsumes(g, g, sub[idx], flat[j], empty_set));
                    assert(subsumes_some(g, g, sub, flat[j], empty_set));
                    assert(wf_subsumption(g, g, outer[i], flat[j]));
                    assert(subsumes(g, g, outer[i], flat[j], empty_set));
                },
                _ => {},
            }
            assert(0 <= i < outer.len() && subsumes(g, g, outer[i], flat[j], empty_set));
        }
    }
    assert(subsumes_each_some(g, g, outer, flat, empty_set));
}

/// Absorption: an enum of a member `a` together with a member that `a`
/// subsumes equals `a` alone, when `a` is not itself `T`, `F` or an enum.
pub proof fn lemma_subsumes_enum_absorb(
    g: Map<Seq<char>, NodeView>,
    a: NodeView,
    b: NodeView,
)
    requires
        g.dom().finite(),
        graph_closed(g),
        graph_univ(g).contains(NodeView::Enum(seq![a, b])),
        graph_univ(g).contains(a),
        subsumes(g, g, a, b, Set::<(NodeView, NodeView)>::empty()),
        !(a is T),
        !(a is F),
        !(a is Enum),
    ensures
        subsumes(g, g, a, NodeView::Enum(seq![a, b]), Set::empty()),
        subsumes(g, g, NodeView::Enum(seq![a, b]), a, Set::empty()),
{
    let ms = seq![a, b];
    let empty_set = Set::<(NodeView, NodeView)>::empty();
    lemma_subsumes_reflexive(g, a, empty_set);
    assert forall|j: int| 0 <= j < ms.len() implies subsumes(g, g, a, #[trigger] ms[j], empty_set)
        && wf_subsumption(g, g, a, ms[j]) by {
        lemma_child_in_univ_enum(g, NodeView::Enum(ms), ms, j);
        if j == 0 {
            assert(ms[j] == a);
        } else {
            assert(ms[j] == b);
        }
    }
    assert(subsumes_each(g, g, a, ms, empty_set));
    lemma_child_in_univ_enum(g, NodeView::Enum(ms), ms, 0);
    assert(wf_subsumption(g, g, ms[0], a));
    assert(0 <= 0 < ms.len() && subsumes(g, g, ms[0], a, empty_set));
    assert(subsumes_some(g, g, ms, a, empty_set));
}

/// Sequences of entries with equal names and equal node views describe the
/// same map.
proof fn lemma_map_of_same(s1: Seq<(String, ConstraintNode)>, s2: Seq<(String, ConstraintNode)>)
    requires
        s1.len() == s2.len(),
        forall|j: int| 0 <= j < s1.len() ==> s1[j].0@ == s2[j].0@ && s1[j].1@ == s2[j].1@,
    ensures
        map_of(s1) == map_of(s2),
    decreases s1.len(),
{
    if s1.len() > 0 {
        lemma_map_of_same(s1.drop_last(), s2.drop_last());
        assert(map_of(s1) =~= map_of(s2));
    }
}

} // verus!
