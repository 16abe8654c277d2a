//! A diagnostic rendering of constraint graphs.
//!
//! `render` states the format at the specification level: atoms print as
//! their names or decimal values, pairs in parentheses, an enum of up to
//! three leaves inline with `|`, a larger enum one member per indented line,
//! and each named definition is expanded at most once per rendering — later
//! occurrences print the bare name — so recursive definitions print finitely.
//! The executable formatter is proved to emit exactly that text.

use vstd::prelude::*;
use vstd::string::StringExecFns;

use crate::constraint::Constraint;
use crate::node::AtomicConstraint;
use crate::node::ConstraintNode;
use crate::node::NodeView;
use crate::node::node_size;
use crate::node::seq_node_size;

verus! {

/// The names a rendering has already expanded.
pub open spec fn visited_set(s: Seq<String>) -> Set<Seq<char>> {
    s.map_values(|x: String| x@).to_set()
}

proof fn lemma_visited_set_push(s: Seq<String>, x: String)
    ensures
        visited_set(s.push(x)) == visited_set(s).insert(x@),
{
    let f = |q: String| q@;
    assert forall|v: Seq<char>| visited_set(s.push(x)).contains(v) implies visited_set(s).insert(
        x@,
    ).contains(v) by {
        let i = choose|i: int| 0 <= i < s.push(x).len() && s.push(x).map_values(f)[i] == v;
        if i < s.len() {
            assert(s.map_values(f)[i] == v);
        }
    }
    assert forall|v: Seq<char>| visited_set(s).insert(x@).contains(v) implies visited_set(
        s.push(x),
    ).contains(v) by {
        if visited_set(s).contains(v) {
            let i = choose|i: int| 0 <= i < s.len() && s.map_values(f)[i] == v;
            assert(s.push(x).map_values(f)[i] == v);
        } else {
            assert(s.push(x).map_values(f)[s.len() as int] == v);
        }
    }
    assert(visited_set(s.push(x)) =~= visited_set(s).insert(x@));
}

/// How many names of the graph a rendering may still expand.
pub open spec fn unexpanded(g: Map<Seq<char>, NodeView>, visited: Set<Seq<char>>) -> nat {
    g.dom().difference(visited).len()
}

/// Growing the visited names never grows the count of unexpanded ones.
proof fn lemma_unexpanded_monotone(g: Map<Seq<char>, NodeView>, a: Set<Seq<char>>, b: Set<Seq<char>>)
    requires
        g.dom().finite(),
        a.subset_of(b),
    ensures
        unexpanded(g, b) <= unexpanded(g, a),
{
    assert(g.dom().difference(b).subset_of(g.dom().difference(a)));
    vstd::set_lib::lemma_len_subset(g.dom().difference(b), g.dom().difference(a));
}

/// The decimal digit characters.
pub open spec fn dec_digit(d: int) -> char {
    if d == 0 {
        '0'
    } else if d == 1 {
        '1'
    } else if d == 2 {
        '2'
    } else if d == 3 {
        '3'
    } else if d == 4 {
        '4'
    } else if d == 5 {
        '5'
    } else if d == 6 {
        '6'
    } else if d == 7 {
        '7'
    } else if d == 8 {
        '8'
    } else {
        '9'
    }
}

/// The decimal rendering of a nonnegative number.
pub open spec fn dec_nat(n: int) -> Seq<char>
    decreases n,
{
    if n < 10 {
        seq![dec_digit(n)]
    } else {
        dec_nat(n / 10).push(dec_digit(n % 10))
    }
}

/// The decimal rendering of an integer, with a leading minus where negative.
pub open spec fn dec_int(n: int) -> Seq<char> {
    if n < 0 {
        seq!['-'] + dec_nat(-n)
    } else {
        dec_nat(n)
    }
}

/// Two spaces per indent level.
pub open spec fn indent_text(n: nat) -> Seq<char>
    decreases n,
{
    if n == 0 {
        Seq::empty()
    } else {
        indent_text((n - 1) as nat) + ("  ")@
    }
}

/// The text of a leaf-like node: `T`, `F`, `Nil` or a decimal integer.
pub open spec fn leaf_text(n: NodeView) -> Seq<char> {
    match n {
        NodeView::T => ("T")@,
        NodeView::F => ("F")@,
        NodeView::Leaf(AtomicConstraint::Nil) => ("Nil")@,
        NodeView::Leaf(AtomicConstraint::LiteralInt(i)) => dec_int(i as int),
        _ => Seq::empty(),
    }
}

/// Whether every member of an enum is an atomic leaf.
pub open spec fn all_leaves(s: Seq<NodeView>) -> bool {
    forall|i: int| 0 <= i < s.len() ==> (#[trigger] s[i]) is Leaf
}

/// Up to three leaves on one line, joined by `|`.
pub open spec fn inline_text(s: Seq<NodeView>) -> Seq<char>
    decreases s.len(),
{
    if s.len() == 0 {
        Seq::empty()
    } else if s.len() == 1 {
        leaf_text(s[0])
    } else {
        inline_text(s.drop_last()) + (" | ")@ + leaf_text(s.last())
    }
}

/// What rendering a node emits, and the names it leaves expanded: atoms by
/// `leaf_text`, pairs parenthesized, enums inline or one member per indented
/// line, and a `Def` expanded through its graph the first time its name is
/// met. Rendering a part can only grow the visited names, so the sets passed
/// on are joined with the set received.
pub open spec fn render(
    g: Map<Seq<char>, NodeView>,
    node: NodeView,
    ind: nat,
    vis: Set<Seq<char>>,
) -> (Seq<char>, Set<Seq<char>>)
    decreases unexpanded(g, vis), node_size(node), 0nat,
    when g.dom().finite()
    via render_dec
{
    match node {
        NodeView::T => (("T")@, vis),
        NodeView::F => (("F")@, vis),
        NodeView::Leaf(_) => (leaf_text(node), vis),
        NodeView::Pair(l, r) => {
            let (t1, v1) = render(g, *l, ind, vis);
            let (t2, v2) = render(g, *r, ind, vis.union(v1));
            ((("(")@ + t1 + (", ")@ + t2 + (")")@), vis.union(v1).union(v2))
        },
        NodeView::Enum(cs) => {
            if cs.len() == 0 {
                (("Never")@, vis)
            } else if all_leaves(cs) && cs.len() <= 3 {
                (inline_text(cs), vis)
            } else {
                let deeper: nat = if ind < usize::MAX { ind + 1 } else { ind };
                let (t, v2) = render_block(g, cs, deeper, vis);
                ((t + ("\n")@ + indent_text(ind)), vis.union(v2))
            }
        },
        NodeView::Def(name) => {
            if vis.contains(name) {
                (name, vis)
            } else {
                let vis1 = vis.insert(name);
                if g.dom().contains(name) {
                    let (t, v2) = render(g, g[name], ind, vis1);
                    ((name + (" := ")@ + t), vis1.union(v2))
                } else {
                    (name, vis1)
                }
            }
        },
    }
}

/// The members of a large enum, each on its own indented line, with ` |`
/// between members.
pub open spec fn render_block(
    g: Map<Seq<char>, NodeView>,
    cs: Seq<NodeView>,
    ind: nat,
    vis: Set<Seq<char>>,
) -> (Seq<char>, Set<Seq<char>>)
    decreases unexpanded(g, vis), seq_node_size(cs), 1nat,
    when g.dom().finite()
    via render_block_dec
{
    if cs.len() == 0 {
        (Seq::empty(), vis)
    } else {
        let (t1, v1) = render_block(g, cs.drop_last(), ind, vis);
        let (t2, v2) = render(g, cs.last(), ind, vis.union(v1));
        let sep: Seq<char> = if cs.len() >= 2 {
            (" |")@
        } else {
            Seq::empty()
        };
        ((t1 + sep + ("\n")@ + indent_text(ind) + t2), vis.union(v1).union(v2))
    }
}

#[via_fn]
proof fn render_dec(g: Map<Seq<char>, NodeView>, node: NodeView, ind: nat, vis: Set<Seq<char>>) {
    assert forall|x: Set<Seq<char>>| #[trigger] unexpanded(g, vis.union(x)) <= unexpanded(
        g,
        vis,
    ) by {
        lemma_unexpanded_monotone(g, vis, vis.union(x));
    }
    match node {
        NodeView::Pair(l, r) => {
            crate::node::lemma_pair_children_smaller(node);
        },
        NodeView::Enum(cs) => {
            crate::node::lemma_enum_members_weigh_less(node, cs);
        },
        NodeView::Def(name) => {
            if !vis.contains(name) && g.dom().contains(name) {
                g.dom().lemma_set_insert_diff_decreases(vis, name);
            }
        },
        _ => {},
    }
}

#[via_fn]
proof fn render_block_dec(
    g: Map<Seq<char>, NodeView>,
    cs: Seq<NodeView>,
    ind: nat,
    vis: Set<Seq<char>>,
) {
    assert forall|x: Set<Seq<char>>| #[trigger] unexpanded(g, vis.union(x)) <= unexpanded(
        g,
        vis,
    ) by {
        lemma_unexpanded_monotone(g, vis, vis.union(x));
    }
    if cs.len() > 0 {
        crate::node::lemma_seq_node_size_last(cs);
    }
}

/// Rendering only ever grows the set of expanded names.
proof fn lemma_render_grows(
    g: Map<Seq<char>, NodeView>,
    node: NodeView,
    ind: nat,
    vis: Set<Seq<char>>,
)
    requires
        g.dom().finite(),
    ensures
        vis.subset_of(render(g, node, ind, vis).1),
{
    match node {
        NodeView::Def(name) => {
            if !vis.contains(name) {
                assert(vis.subset_of(vis.insert(name)));
            }
        },
        _ => {},
    }
}

/// The block form grows the set of expanded names too.
proof fn lemma_render_block_grows(
    g: Map<Seq<char>, NodeView>,
    cs: Seq<NodeView>,
    ind: nat,
    vis: Set<Seq<char>>,
)
    requires
        g.dom().finite(),
    ensures
        vis.subset_of(render_block(g, cs, ind, vis).1),
{
}

/// One decimal digit as text.
fn digit_str(d: u32) -> (r: &'static str)
    requires
        d < 10,
    ensures
        r@ == seq![dec_digit(d as int)],
{
    proof {
        reveal_strlit("0");
        reveal_strlit("1");
        reveal_strlit("2");
        reveal_strlit("3");
        reveal_strlit("4");
        reveal_strlit("5");
        reveal_strlit("6");
        reveal_strlit("7");
        reveal_strlit("8");
        reveal_strlit("9");
    }
    match d {
        0 => "0",
        1 => "1",
        2 => "2",
        3 => "3",
        4 => "4",
        5 => "5",
        6 => "6",
        7 => "7",
        8 => "8",
        _ => "9",
    }
}

/// Appends the decimal rendering of a nonnegative number.
fn push_dec_u32(out: &mut String, n: u32)
    ensures
        final(out)@ == old(out)@ + dec_nat(n as int),
    decreases n,
{
    if n < 10 {
        out.append(digit_str(n));
        proof {
            assert(final(out)@ =~= old(out)@ + dec_nat(n as int));
        }
    } else {
        push_dec_u32(out, n / 10);
        out.append(digit_str(n % 10));
        proof {
            assert(dec_nat(n as int) == dec_nat(n as int / 10).push(dec_digit(n as int % 10)));
            assert(final(out)@ =~= old(out)@ + dec_nat(n as int));
        }
    }
}

/// Appends the decimal rendering of an integer.
fn push_dec_i32(out: &mut String, v: i32)
    ensures
        final(out)@ == old(out)@ + dec_int(v as int),
{
    proof {
        reveal_strlit("-");
    }
    if v < 0 {
        out.append("-");
        let magnitude: u32 = (-(v as i64)) as u32;
        push_dec_u32(out, magnitude);
        proof {
            assert(final(out)@ =~= old(out)@ + dec_int(v as int));
        }
    } else {
        push_dec_u32(out, v as u32);
    }
}

/// Whether a name is among the visited ones.
fn visited_contains(visited: &Vec<String>, name: &str) -> (r: bool)
    ensures
        r == visited_set(visited@).contains(name@),
{
    let n = visited.len();
    let mut i: usize = 0;
    while i < n
        invariant
            0 <= i <= n,
            n == visited.len(),
            forall|j: int| 0 <= j < i ==> visited@[j]@ != name@,
        decreases n - i,
    {
        if crate::constraint::str_eq(visited[i].as_str(), name) {
            let ghost f = |q: String| q@;
            assert(visited@.map_values(f)[i as int] == name@);
            return true;
        }
        i += 1;
    }
    proof {
        let f = |q: String| q@;
        if visited_set(visited@).contains(name@) {
            let j = choose|j: int| 0 <= j < visited@.len() && visited@.map_values(f)[j] == name@;
            assert(visited@[j]@ == name@);
        }
    }
    false
}

/// Renders one constraint graph, expanding each definition at most once.
pub struct PrettyFormatter<'a> {
    constraint: &'a Constraint,
    indent_level: usize,
    visited_defs: Vec<String>,
}

impl<'a> PrettyFormatter<'a> {
    /// The graph being rendered.
    pub closed spec fn graph_of(self) -> crate::constraint::ConstraintView {
        self.constraint@
    }

    /// The names already expanded.
    pub closed spec fn visited(self) -> Set<Seq<char>> {
        visited_set(self.visited_defs@)
    }

    /// The current indent depth.
    pub closed spec fn indent(self) -> nat {
        self.indent_level as nat
    }

    /// A fresh rendering of the given graph.
    pub fn new(constraint: &'a Constraint) -> (r: Self)
        ensures
            r.graph_of() == constraint@,
            r.visited() == Set::<Seq<char>>::empty(),
            r.indent() == 0,
    {
        let r = PrettyFormatter { constraint, indent_level: 0, visited_defs: Vec::new() };
        proof {
            assert(visited_set(r.visited_defs@) =~= Set::<Seq<char>>::empty());
        }
        r
    }

    /// Appends two spaces per indent level.
    fn push_indent(&self, out: &mut String)
        ensures
            final(out)@ == old(out)@ + indent_text(self.indent()),
    {
        let n = self.indent_level;
        let mut i: usize = 0;
        while i < n
            invariant
                0 <= i <= n,
                out@ == old(out)@ + indent_text(i as nat),
            decreases n - i,
        {
            out.append("  ");
            proof {
                assert(out@ =~= old(out)@ + indent_text(i as nat + 1));
            }
            i += 1;
        }
    }

    /// Appends the rendering of `node` to `out`: exactly the text that
    /// `render` states, leaving exactly the names it states expanded.
    #[verifier::loop_isolation(false)]
    pub fn format_node(&mut self, out: &mut String, node: &ConstraintNode)
        requires
            old(self).graph_of().graph.dom().finite(),
        ensures
            final(self).graph_of() == old(self).graph_of(),
            final(self).indent() == old(self).indent(),
            final(out)@ == old(out)@ + render(
                old(self).graph_of().graph,
                node@,
                old(self).indent(),
                old(self).visited(),
            ).0,
            final(self).visited() == render(
                old(self).graph_of().graph,
                node@,
                old(self).indent(),
                old(self).visited(),
            ).1,
        decreases unexpanded(self.graph_of().graph, self.visited()), node_size(node@),
    {
        broadcast use crate::node::lemma_node_view_shape;

        let ghost g = self.constraint@.graph;
        let ghost vis0 = self.visited();
        let ghost ind0 = self.indent();
        match node {
            ConstraintNode::T => {
                out.append("T");
                proof {
                    assert(final(out)@ =~= old(out)@ + render(g, node@, ind0, vis0).0);
                }
            },
            ConstraintNode::F => {
                out.append("F");
                proof {
                    assert(final(out)@ =~= old(out)@ + render(g, node@, ind0, vis0).0);
                }
            },
            ConstraintNode::Leaf(atomic) => {
                match atomic {
                    AtomicConstraint::Nil => {
                        out.append("Nil");
                    },
                    AtomicConstraint::LiteralInt(i) => {
                        push_dec_i32(out, *i);
                    },
                }
                proof {
                    assert(final(out)@ =~= old(out)@ + render(g, node@, ind0, vis0).0);
                }
            },
            ConstraintNode::Pair(left, right) => {
                proof {
                    crate::node::lemma_pair_children_smaller(node@);
                }
                let ghost lv = (**left)@;
                let ghost rv = (**right)@;
                out.append("(");
                self.format_node(out, left);
                let ghost v1 = render(g, lv, ind0, vis0).1;
                out.append(", ");
                proof {
                    lemma_render_grows(g, lv, ind0, vis0);
                    assert(vis0.union(v1) =~= v1);
                    lemma_unexpanded_monotone(g, vis0, v1);
                }
                self.format_node(out, right);
                out.append(")");
                proof {
                    let (t2, v2) = render(g, rv, ind0, vis0.union(v1));
                    assert(final(out)@ =~= old(out)@ + render(g, node@, ind0, vis0).0);
                    assert(self.visited() =~= vis0.union(v1).union(v2));
                }
            },
            ConstraintNode::Enum(variants) => {
                proof {
                    crate::node::lemma_view_seq(variants@);
                }
                let ghost vsq = crate::node::view_seq(variants@);
                let n = variants.len();
                if n == 0 {
                    out.append("Never");
                    proof {
                        assert(final(out)@ =~= old(out)@ + render(g, node@, ind0, vis0).0);
                    }
                    return ;
                }
                let mut is_simple = true;
                let mut k: usize = 0;
                while k < n
                    invariant
                        0 <= k <= n,
                        is_simple == (forall|kk: int| 0 <= kk < k ==> (#[trigger] vsq[kk]) is Leaf),
                    decreases n - k,
                {
                    let keep: bool = match &variants[k] {
                        ConstraintNode::Leaf(_) => true,
                        _ => false,
                    };
                    proof {
                        assert(keep == ((vsq[k as int]) is Leaf));
                    }
                    is_simple = is_simple && keep;
                    k += 1;
                }
                proof {
                    crate::node::lemma_enum_children_smaller(node@, vsq);
                    assert(is_simple == all_leaves(vsq));
                }
                if is_simple && n <= 3 {
                    let ghost entry_text = out@;
                    self.format_node(out, &variants[0]);
                    proof {
                        assert(render(g, vsq[0], ind0, vis0) == (leaf_text(vsq[0]), vis0));
                        assert(vsq.take(1).drop_last() =~= Seq::<NodeView>::empty());
                        assert(vsq.take(1).last() == vsq[0]);
                        assert(out@ =~= entry_text + inline_text(vsq.take(1)));
                    }
                    let mut k: usize = 1;
                    while k < n
                        invariant
                            1 <= k <= n,
                            self.graph_of() == old(self).graph_of(),
                            self.indent() == old(self).indent(),
                            self.visited() == vis0,
                            out@ == entry_text + inline_text(vsq.take(k as int)),
                        decreases n - k,
                    {
                        out.append(" | ");
                        self.format_node(out, &variants[k]);
                        proof {
                            assert(render(g, vsq[k as int], ind0, vis0) == (
                                leaf_text(vsq[k as int]),
                                vis0,
                            ));
                            assert(vsq.take(k as int + 1).drop_last() =~= vsq.take(k as int));
                            assert(vsq.take(k as int + 1).last() == vsq[k as int]);
                            assert(out@ =~= entry_text + inline_text(vsq.take(k as int + 1)));
                        }
                        k += 1;
                    }
                    proof {
                        assert(vsq.take(n as int) =~= vsq);
                        assert(final(out)@ =~= old(out)@ + render(g, node@, ind0, vis0).0);
                    }
                } else {
                    let saved_level = self.indent_level;
                    if self.indent_level < usize::MAX {
                        self.indent_level += 1;
                    }
                    let ghost deeper = self.indent();
                    let ghost entry_text = out@;
                    proof {
                        assert(render_block(g, vsq.take(0), deeper, vis0) == (
                            Seq::<char>::empty(),
                            vis0,
                        ));
                        assert(out@ =~= entry_text + render_block(g, vsq.take(0), deeper, vis0).0);
                    }
                    let mut k: usize = 0;
                    while k < n
                        invariant
                            0 <= k <= n,
                            self.graph_of() == old(self).graph_of(),
                            self.indent() == deeper,
                            self.visited() == render_block(g, vsq.take(k as int), deeper, vis0).1,
                            out@ == entry_text + render_block(g, vsq.take(k as int), deeper, vis0).0,
                        decreases n - k,
                    {
                        if k > 0 {
                            out.append(" |");
                        }
                        out.append("\n");
                        self.push_indent(out);
                        let ghost v1 = render_block(g, vsq.take(k as int), deeper, vis0).1;
                        proof {
                            lemma_render_block_grows(g, vsq.take(k as int), deeper, vis0);
                            assert(vis0.union(v1) =~= v1);
                            lemma_unexpanded_monotone(g, vis0, v1);
                            crate::node::lemma_seq_node_size_elem(vsq, k as int);
                        }
                        self.format_node(out, &variants[k]);
                        proof {
                            assert(vsq.take(k as int + 1).drop_last() =~= vsq.take(k as int));
                            assert(vsq.take(k as int + 1).last() == vsq[k as int]);
                            let (t2, v2) = render(g, vsq[k as int], deeper, vis0.union(v1));
                            assert(out@ =~= entry_text + render_block(
                                g,
                                vsq.take(k as int + 1),
                                deeper,
                                vis0,
                            ).0);
                            assert(self.visited() =~= render_block(
                                g,
                                vsq.take(k as int + 1),
                                deeper,
                                vis0,
                            ).1);
                        }
                        k += 1;
                    }
                    self.indent_level = saved_level;
                    out.append("\n");
                    self.push_indent(out);
                    proof {
                        assert(vsq.take(n as int) =~= vsq);
                        assert(final(out)@ =~= old(out)@ + render(g, node@, ind0, vis0).0);
                        assert(self.visited() =~= render(g, node@, ind0, vis0).1);
                    }
                }
            },
            ConstraintNode::Def(name) => {
                if visited_contains(&self.visited_defs, name.as_str()) {
                    out.append(name.as_str());
                    proof {
                        assert(final(out)@ =~= old(out)@ + render(g, node@, ind0, vis0).0);
                    }
                } else {
                    proof {
                        lemma_visited_set_push(self.visited_defs@, *name);
                    }
                    self.visited_defs.push(name.clone());
                    out.append(name.as_str());
                    // a definition is expanded once per rendering: the name
                    // stays in the visited set.
                    match self.constraint.get_node(name.as_str()) {
                        Some(defined_node) => {
                            proof {
                                g.dom().lemma_set_insert_diff_decreases(vis0, name@);
                            }
                            out.append(" := ");
                            self.format_node(out, defined_node);
                            proof {
                                let vis1 = vis0.insert(name@);
                                let (t, v2) = render(g, g[name@], ind0, vis1);
                                lemma_render_grows(g, g[name@], ind0, vis1);
                                assert(final(out)@ =~= old(out)@ + render(g, node@, ind0, vis0).0);
                                assert(self.visited() =~= vis1.union(v2));
                            }
                        },
                        None => {
                            proof {
                                assert(final(out)@ =~= old(out)@ + render(
                                    g,
                                    node@,
                                    ind0,
                                    vis0,
                                ).0);
                            }
                        },
                    }
                }
            },
        }
    }
}

impl Constraint {
    /// The diagnostic rendering of this constraint: its entry node rendered
    /// from a fresh formatter, or a note naming the entry when it does not
    /// resolve.
    pub fn to_text(&self) -> (r: String)
        ensures
            self@.graph.contains_key(self@.entry) ==> r@ == render(
                self@.graph,
                self@.graph[self@.entry],
                0,
                Set::empty(),
            ).0,
            !self@.graph.contains_key(self@.entry) ==> r@ == ("Error: Entry '")@ + self@.entry + (
            "' not found in constraint graph.")@,
    {
        proof {
            self.lemma_graph_finite();
        }
        let mut out = String::new();
        match self.get_node(self.entry().as_str()) {
            Some(entry_node) => {
                let mut formatter = PrettyFormatter::new(self);
                formatter.format_node(&mut out, entry_node);
                proof {
                    assert(out@ =~= render(self@.graph, self@.graph[self@.entry], 0, Set::empty()).0);
                }
            },
            None => {
                out.append("Error: Entry '");
                out.append(self.entry().as_str());
                out.append("' not found in constraint graph.");
                proof {
                    assert(out@ =~= ("Error: Entry '")@ + self@.entry + (
                    "' not found in constraint graph.")@);
                }
            },
        }
        out
    }
}

} // verus!
