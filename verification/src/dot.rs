//! Drawing a parse tree in the DOT language of Graphviz: the tree is laid
//! into a petgraph graph, whose nodes and edges are then written out.

use vstd::prelude::*;
use crate::tree::{ParseTreeNode, SpecTree, tree_view, trees_view, lemma_trees_view};
use crate::text::{nat_text, usize_text, chars_of, concat};
use petgraph::graph::{NodeIndex, EdgeIndex};

verus! {

#[verifier::external_type_specification]
#[verifier::external_body]
#[verifier::reject_recursive_types(N)]
#[verifier::reject_recursive_types(E)]
#[verifier::reject_recursive_types(Ty)]
#[verifier::reject_recursive_types(Ix)]
pub struct ExGraph<N, E, Ty, Ix>(petgraph::Graph<N, E, Ty, Ix>);

#[verifier::external_type_specification]
#[verifier::external_body]
pub struct ExDirected(petgraph::Directed);

/// A directed graph whose nodes weigh a tree node's number, label and kind.
pub type TreeGraph = petgraph::Graph<(usize, String, String), ()>;

/// The weights of the nodes of a graph, by index.
pub uninterp spec fn graph_nodes(g: petgraph::Graph<(usize, String, String), ()>) -> Seq<(usize, Seq<char>, Seq<char>)>;

/// The endpoints of the edges of a graph, by index.
pub uninterp spec fn graph_edges(g: petgraph::Graph<(usize, String, String), ()>) -> Seq<(int, int)>;

/// The most nodes (or edges) a graph can hold: its indices are `u32`, and
/// the largest is kept as the "no index" mark.
pub open spec fn graph_capacity() -> int {
    4294967295
}

/// `Graph::new`: a graph with no node and no edge.
#[verifier::external_body]
fn graph_new() -> (r: TreeGraph)
    ensures
        graph_nodes(r) == Seq::<(usize, Seq<char>, Seq<char>)>::empty(),
        graph_edges(r) == Seq::<(int, int)>::empty(),
{
    petgraph::Graph::new()
}

/// `Graph::add_node`: the weight is added as the last node, whose index
/// (the former node count) comes back; the edges stay. It panics when the
/// graph is full, which `requires` rules out.
#[verifier::external_body]
fn graph_add_node(g: &mut TreeGraph, id: usize, label: String, kind: String) -> (r: usize)
    requires
        graph_nodes(*old(g)).len() < graph_capacity(),
    ensures
        r == graph_nodes(*old(g)).len(),
        graph_nodes(*final(g)) == graph_nodes(*old(g)).push((id, label@, kind@)),
        graph_edges(*final(g)) == graph_edges(*old(g)),
{
    g.add_node((id, label, kind)).index()
}

/// `Graph::add_edge`: an edge from node `a` to node `b` is added as the last
/// edge; the nodes stay. It panics when a node does not exist or the graph
/// is full, which `requires` rules out.
#[verifier::external_body]
fn graph_add_edge(g: &mut TreeGraph, a: usize, b: usize)
    requires
        a < graph_nodes(*old(g)).len(),
        b < graph_nodes(*old(g)).len(),
        graph_edges(*old(g)).len() < graph_capacity(),
    ensures
        graph_nodes(*final(g)) == graph_nodes(*old(g)),
        graph_edges(*final(g)) == graph_edges(*old(g)).push((a as int, b as int)),
{
    g.add_edge(NodeIndex::new(a), NodeIndex::new(b), ());
}

/// `Graph::node_count`: the number of nodes.
#[verifier::external_body]
fn graph_node_count(g: &TreeGraph) -> (r: usize)
    ensures
        r == graph_nodes(*g).len(),
{
    g.node_count()
}

/// `Graph::edge_count`: the number of edges.
#[verifier::external_body]
fn graph_edge_count(g: &TreeGraph) -> (r: usize)
    ensures
        r == graph_edges(*g).len(),
{
    g.edge_count()
}

/// Indexing a graph by a node index: the weight of node `i`.
#[verifier::external_body]
fn graph_node(g: &TreeGraph, i: usize) -> (r: (usize, String, String))
    requires
        i < graph_nodes(*g).len(),
    ensures
        r.0 == graph_nodes(*g)[i as int].0,
        r.1@ == graph_nodes(*g)[i as int].1,
        r.2@ == graph_nodes(*g)[i as int].2,
{
    let w = &g[NodeIndex::new(i)];
    (w.0, w.1.clone(), w.2.clone())
}

/// `Graph::edge_endpoints`: the source and target of edge `i`.
#[verifier::external_body]
fn graph_edge(g: &TreeGraph, i: usize) -> (r: (usize, usize))
    requires
        i < graph_edges(*g).len(),
    ensures
        (r.0 as int, r.1 as int) == graph_edges(*g)[i as int],
{
    let (a, b) = g.edge_endpoints(EdgeIndex::new(i)).unwrap();
    (a.index(), b.index())
}

/// The nodes of a tree in preorder, as (number, label, kind).
pub open spec fn preorder(t: SpecTree) -> Seq<(usize, Seq<char>, Seq<char>)>
    decreases t,
{
    seq![(t.id, t.label, t.kind)] + preorder_all(t.children)
}

/// The nodes of a sequence of trees in preorder.
pub open spec fn preorder_all(cs: Seq<SpecTree>) -> Seq<(usize, Seq<char>, Seq<char>)>
    decreases cs,
{
    if cs.len() == 0 {
        Seq::empty()
    } else {
        preorder_all(cs.subrange(0, cs.len() - 1)) + preorder(cs[cs.len() - 1])
    }
}

/// The edges laid for tree `t` placed from index `base` on (by node index,
/// parent first): each child's own edges, then the edge to that child.
pub open spec fn tree_edges(t: SpecTree, base: int) -> Seq<(int, int)>
    decreases t,
{
    forest_edges(t.children, base, base + 1)
}

/// The edges laid for the children `cs` of the node at `parent`, the first
/// child placed at `first`.
pub open spec fn forest_edges(cs: Seq<SpecTree>, parent: int, first: int) -> Seq<(int, int)>
    decreases cs,
{
    if cs.len() == 0 {
        Seq::empty()
    } else {
        let front = cs.subrange(0, cs.len() - 1);
        let at = first + preorder_all(front).len();
        forest_edges(front, parent, first) + tree_edges(cs[cs.len() - 1], at) + seq![(parent, at)]
    }
}

/// A label with `\` and `"` escaped by a backslash.
pub open spec fn escaped(s: Seq<char>) -> Seq<char>
    decreases s.len(),
{
    if s.len() == 0 {
        Seq::empty()
    } else {
        let e = escaped(s.drop_last());
        let c = s.last();
        if c == '\\' {
            e + seq!['\\', '\\']
        } else if c == '"' {
            e + seq!['\\', '"']
        } else {
            e.push(c)
        }
    }
}

/// The shape, fill color, font color and border color of a node of kind `kind`.
pub open spec fn node_style(kind: Seq<char>) -> (Seq<char>, Seq<char>, Seq<char>, Seq<char>) {
    if kind == "terminal"@ {
        ("box"@, "#10b981"@, "#ffffff"@, "#059669"@)
    } else if kind == "epsilon"@ {
        ("ellipse"@, "#1e293b"@, "#64748b"@, "#334155"@)
    } else {
        ("ellipse"@, "#f59e0b"@, "#0f172a"@, "#d97706"@)
    }
}

/// The DOT line of a node.
pub open spec fn node_line(w: (usize, Seq<char>, Seq<char>)) -> Seq<char> {
    let st = node_style(w.2);
    "\tn"@ + nat_text(w.0 as nat) + " [label=\""@ + escaped(w.1) + "\" shape="@ + st.0 + " style=\"filled,rounded\" fillcolor=\""@
        + st.1 + "\" fontcolor=\""@ + st.2 + "\" color=\""@ + st.3 + "\"];\n"@
}

/// The DOT lines of the nodes, in order.
pub open spec fn node_lines(ns: Seq<(usize, Seq<char>, Seq<char>)>) -> Seq<char>
    decreases ns.len(),
{
    if ns.len() == 0 {
        Seq::empty()
    } else {
        node_lines(ns.drop_last()) + node_line(ns.last())
    }
}

/// The DOT lines of the edges, each shown by the numbers of its nodes.
pub open spec fn edge_lines(ns: Seq<(usize, Seq<char>, Seq<char>)>, es: Seq<(int, int)>) -> Seq<char>
    decreases es.len(),
{
    if es.len() == 0 {
        Seq::empty()
    } else {
        let e = es.last();
        edge_lines(ns, es.drop_last()) + "\tn"@ + nat_text(ns[e.0].0 as nat) + " -> n"@ + nat_text(ns[e.1].0 as nat) + ";\n"@
    }
}

/// The head of the DOT text of a graph named `name`.
pub open spec fn dot_header(name: Seq<char>) -> Seq<char> {
    "digraph "@ + name
        + " {\n\trankdir=TB;\n\tbgcolor=\"transparent\";\n\tnode [fontname=\"Courier,monospace\" fontsize=13 margin=\"0.12,0.06\" penwidth=1.5];\n\tedge [color=\"#64748b\" arrowsize=0.75 penwidth=1.2];\n"@
}

/// The DOT text of tree `t` drawn as graph `name`: the head, a line per node
/// in preorder, a line per edge, and a closing brace.
pub open spec fn dot_of(name: Seq<char>, t: SpecTree) -> Seq<char> {
    let ns = preorder(t);
    dot_header(name) + node_lines(ns) + edge_lines(ns, tree_edges(t, 0)) + "}"@
}

/// Whether every edge joins two nodes of the graph.
pub open spec fn edges_within(ns: Seq<(usize, Seq<char>, Seq<char>)>, es: Seq<(int, int)>) -> bool {
    forall|j: int| 0 <= j < es.len() ==> 0 <= (#[trigger] es[j]).0 < ns.len() && 0 <= es[j].1 < ns.len()
}

pub proof fn lemma_edge_count(t: SpecTree, base: int)
    ensures
        tree_edges(t, base).len() + 1 == preorder(t).len(),
    decreases t,
{
    lemma_forest_edge_count(t.children, base, base + 1);
}

pub proof fn lemma_forest_edge_count(cs: Seq<SpecTree>, parent: int, first: int)
    ensures
        forest_edges(cs, parent, first).len() == preorder_all(cs).len(),
    decreases cs,
{
    if cs.len() > 0 {
        let front = cs.subrange(0, cs.len() - 1);
        lemma_forest_edge_count(front, parent, first);
        lemma_edge_count(cs[cs.len() - 1], first + preorder_all(front).len());
    }
}

/// Lays the tree `node` into the graph: its node, then each child's
/// subtree followed by the edge to the child; gives the node's index.
fn lay_out(node: &ParseTreeNode, g: &mut TreeGraph) -> (idx: usize)
    requires
        graph_nodes(*old(g)).len() + preorder(node@).len() < graph_capacity(),
        graph_edges(*old(g)).len() + preorder(node@).len() < graph_capacity(),
        edges_within(graph_nodes(*old(g)), graph_edges(*old(g))),
    ensures
        idx == graph_nodes(*old(g)).len(),
        edges_within(graph_nodes(*final(g)), graph_edges(*final(g))),
        graph_nodes(*final(g)) == graph_nodes(*old(g)) + preorder(node@),
        graph_edges(*final(g)) == graph_edges(*old(g)) + tree_edges(node@, idx as int),
    decreases node,
{
    let ghost n0 = graph_nodes(*g);
    let ghost e0 = graph_edges(*g);
    let ghost cv = trees_view(node.children@);
    proof {
        lemma_trees_view(node.children@);
        assert(node@.children == cv);
    }
    let idx = graph_add_node(g, node.id, node.label.clone(), node.node_type.clone());
    let ghost w = (node.id, node.label@, node.node_type@);
    assert(preorder(node@) == seq![w] + preorder_all(cv));
    assert(cv.subrange(0, 0) =~= Seq::<SpecTree>::empty());
    assert(graph_nodes(*g) =~= n0 + seq![w] + preorder_all(cv.subrange(0, 0)));
    assert(graph_edges(*g) =~= e0 + forest_edges(cv.subrange(0, 0), idx as int, idx + 1));
    let mut i: usize = 0;
    while i < node.children.len()
        invariant
            cv == trees_view(node.children@),
            cv.len() == node.children@.len(),
            forall|j: int| 0 <= j < cv.len() ==> #[trigger] cv[j] == tree_view(node.children@[j]),
            preorder(node@) == seq![w] + preorder_all(cv),
            idx == n0.len(),
            n0.len() + preorder(node@).len() < graph_capacity(),
            e0.len() + preorder(node@).len() < graph_capacity(),
            i <= cv.len(),
            graph_nodes(*g) == n0 + seq![w] + preorder_all(cv.subrange(0, i as int)),
            graph_edges(*g) == e0 + forest_edges(cv.subrange(0, i as int), idx as int, idx + 1),
            edges_within(graph_nodes(*g), graph_edges(*g)),
        decreases node.children.len() - i,
    {
        let ghost front = cv.subrange(0, i as int);
        let ghost upto = cv.subrange(0, i + 1);
        assert(upto.subrange(0, i as int) =~= front);
        assert(upto[i as int] == cv[i as int]);
        let c = &node.children[i];
        assert(cv[i as int] == c@);
        proof {
            lemma_preorder_all_prefix(cv, i + 1);
            lemma_forest_edge_count(front, idx as int, idx + 1);
        }
        let ghost at = idx + 1 + preorder_all(front).len();
        let ghost before_e = graph_edges(*g);
        assert(preorder_all(upto) == preorder_all(front) + preorder(c@));
        proof {
            lemma_edge_count(c@, at);
        }
        let child = lay_out(c, g);
        assert(child == at);
        graph_add_edge(g, idx, child);
        assert(forest_edges(upto, idx as int, idx + 1) == forest_edges(front, idx as int, idx + 1) + tree_edges(c@, at) + seq![(idx as int, at)]);
        assert(graph_nodes(*g) =~= n0 + seq![w] + preorder_all(upto));
        assert(graph_edges(*g) =~= e0 + forest_edges(upto, idx as int, idx + 1));
        i += 1;
    }
    assert(cv.subrange(0, cv.len() as int) =~= cv);
    idx
}

pub proof fn lemma_preorder_all_prefix(cs: Seq<SpecTree>, k: int)
    requires
        0 <= k <= cs.len(),
    ensures
        preorder_all(cs.subrange(0, k)).len() <= preorder_all(cs).len(),
    decreases cs.len() - k,
{
    if k < cs.len() {
        lemma_preorder_all_prefix(cs, k + 1);
        assert(cs.subrange(0, k + 1).subrange(0, k) =~= cs.subrange(0, k));
    } else {
        assert(cs.subrange(0, k) =~= cs);
    }
}

/// The label with `\` and `"` escaped.
fn escape_label(label: &String) -> (r: String)
    ensures
        r@ == escaped(label@),
{
    let chars = chars_of(label.as_str());
    let mut r = String::new();
    let mut i: usize = 0;
    assert(label@.take(0) =~= Seq::<char>::empty());
    while i < chars.len()
        invariant
            chars@ == label@,
            i <= chars@.len(),
            r@ == escaped(label@.take(i as int)),
        decreases chars.len() - i,
    {
        assert(label@.take(i + 1).drop_last() =~= label@.take(i as int));
        assert(label@.take(i + 1).last() == chars@[i as int]);
        let c = chars[i];
        proof {
            reveal_strlit("\\\\");
            reveal_strlit("\\\"");
        }
        if c == '\\' {
            r.append("\\\\");
        } else if c == '"' {
            r.append("\\\"");
        } else {
            let one = label.as_str().substring_char(i, i + 1);
            assert(one@ =~= seq![c]);
            r.append(one);
        }
        i += 1;
    }
    assert(label@.take(chars@.len() as int) =~= label@);
    r
}

/// The DOT line of a node.
fn node_dot_line(id: usize, label: &String, kind: &String) -> (r: String)
    ensures
        r@ == node_line((id, label@, kind@)),
{
    let (shape, fill, font, border) = if *kind == String::from_str("terminal") {
        ("box", "#10b981", "#ffffff", "#059669")
    } else if *kind == String::from_str("epsilon") {
        ("ellipse", "#1e293b", "#64748b", "#334155")
    } else {
        ("ellipse", "#f59e0b", "#0f172a", "#d97706")
    };
    let n = usize_text(id);
    let safe = escape_label(label);
    let mut r = concat("\tn", n.as_str());
    r.append(" [label=\"");
    r.append(safe.as_str());
    r.append("\" shape=");
    r.append(shape);
    r.append(" style=\"filled,rounded\" fillcolor=\"");
    r.append(fill);
    r.append("\" fontcolor=\"");
    r.append(font);
    r.append("\" color=\"");
    r.append(border);
    r.append("\"];\n");
    r
}

impl ParseTreeNode {
    /// The tree as a styled DOT graph named `graph_name`, for Graphviz:
    /// one node per tree node (in preorder), boxes for terminals and
    /// ellipses for the rest, and an edge from each node to each child.
    pub fn to_dot(&self, graph_name: &str) -> (r: String)
        requires
            preorder(self@).len() < graph_capacity(),
        ensures
            r@ == dot_of(graph_name@, self@),
    {
        let mut g = graph_new();
        lay_out(self, &mut g);
        let ghost ns = graph_nodes(g);
        let ghost es = graph_edges(g);
        assert(edges_within(ns, es));
        assert(ns =~= preorder(self@));
        assert(es =~= tree_edges(self@, 0));
        let mut dot = concat("digraph ", graph_name);
        dot.append(
            " {\n\trankdir=TB;\n\tbgcolor=\"transparent\";\n\tnode [fontname=\"Courier,monospace\" fontsize=13 margin=\"0.12,0.06\" penwidth=1.5];\n\tedge [color=\"#64748b\" arrowsize=0.75 penwidth=1.2];\n",
        );
        let ghost head = dot@;
        let n = graph_node_count(&g);
        let mut i: usize = 0;
        assert(ns.take(0) =~= Seq::<(usize, Seq<char>, Seq<char>)>::empty());
        while i < n
            invariant
                ns == graph_nodes(g),
                n == ns.len(),
                i <= n,
                dot@ == head + node_lines(ns.take(i as int)),
            decreases n - i,
        {
            let (id, label, kind) = graph_node(&g, i);
            let line = node_dot_line(id, &label, &kind);
            assert(ns.take(i + 1).drop_last() =~= ns.take(i as int));
            assert(ns.take(i + 1).last() == (id, label@, kind@));
            dot.append(line.as_str());
            i += 1;
        }
        assert(ns.take(n as int) =~= ns);
        let ghost mid = dot@;
        let m = graph_edge_count(&g);
        let mut k: usize = 0;
        assert(es.take(0) =~= Seq::<(int, int)>::empty());
        while k < m
            invariant
                ns == graph_nodes(g),
                es == graph_edges(g),
                m == es.len(),
                edges_within(ns, es),
                k <= m,
                dot@ == mid + edge_lines(ns, es.take(k as int)),
            decreases m - k,
        {
            let (a, b) = graph_edge(&g, k);
            assert(es.take(k + 1).drop_last() =~= es.take(k as int));
            assert(es.take(k + 1).last() == (a as int, b as int));
            let (ida, _, _) = graph_node(&g, a);
            let (idb, _, _) = graph_node(&g, b);
            let ta = usize_text(ida);
            let tb = usize_text(idb);
            dot.append("\tn");
            dot.append(ta.as_str());
            dot.append(" -> n");
            dot.append(tb.as_str());
            dot.append(";\n");
            k += 1;
        }
        assert(es.take(m as int) =~= es);
        dot.append("}");
        dot
    }
}

} // verus!
