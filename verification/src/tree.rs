//! Parse trees and the abstract syntax trees derived from them.

use vstd::prelude::*;

verus! {

/// A node of a parse tree or of an AST.
#[derive(Debug)]
pub struct ParseTreeNode {
    pub id: usize,
    pub label: String,
    /// `"terminal"`, `"non_terminal"` or `"epsilon"`.
    pub node_type: String,
    pub children: Vec<ParseTreeNode>,
}

/// The model of a tree node.
pub struct SpecTree {
    pub id: usize,
    pub label: Seq<char>,
    pub kind: Seq<char>,
    pub children: Seq<SpecTree>,
}

pub open spec fn tree_view(n: ParseTreeNode) -> SpecTree
    decreases n,
{
    SpecTree { id: n.id, label: n.label@, kind: n.node_type@, children: trees_view(n.children@) }
}

pub open spec fn trees_view(cs: Seq<ParseTreeNode>) -> Seq<SpecTree>
    decreases cs,
{
    if cs.len() == 0 {
        Seq::empty()
    } else {
        trees_view(cs.subrange(0, cs.len() - 1)).push(tree_view(cs[cs.len() - 1]))
    }
}

impl View for ParseTreeNode {
    type V = SpecTree;

    open spec fn view(&self) -> SpecTree {
        tree_view(*self)
    }
}

/// The AST of a tree: ϵ nodes are dropped, and a non-terminal node left
/// with exactly one child is replaced by that child.
pub open spec fn ast(t: SpecTree) -> SpecTree
    decreases t,
{
    let pruned = ast_children(t.children);
    if t.kind == "non_terminal"@ && pruned.len() == 1 {
        pruned[0]
    } else {
        SpecTree { id: t.id, label: t.label, kind: t.kind, children: pruned }
    }
}

/// The ASTs of the children that are not ϵ nodes, in order.
pub open spec fn ast_children(cs: Seq<SpecTree>) -> Seq<SpecTree>
    decreases cs,
{
    if cs.len() == 0 {
        Seq::empty()
    } else {
        let front = ast_children(cs.subrange(0, cs.len() - 1));
        let last = cs[cs.len() - 1];
        if last.kind == "epsilon"@ {
            front
        } else {
            front.push(ast(last))
        }
    }
}

pub proof fn lemma_trees_view(cs: Seq<ParseTreeNode>)
    ensures
        trees_view(cs).len() == cs.len(),
        forall|i: int| 0 <= i < cs.len() ==> #[trigger] trees_view(cs)[i] == tree_view(cs[i]),
    decreases cs.len(),
{
    if cs.len() > 0 {
        lemma_trees_view(cs.subrange(0, cs.len() - 1));
    }
}

pub proof fn lemma_trees_view_push(cs: Seq<ParseTreeNode>, n: ParseTreeNode)
    ensures
        trees_view(cs.push(n)) == trees_view(cs).push(tree_view(n)),
{
    assert(cs.push(n).subrange(0, cs.len() as int) =~= cs);
}

pub proof fn lemma_trees_view_subrange(cs: Seq<ParseTreeNode>, a: int, b: int)
    requires
        0 <= a <= b <= cs.len(),
    ensures
        trees_view(cs.subrange(a, b)) == trees_view(cs).subrange(a, b),
{
    lemma_trees_view(cs);
    lemma_trees_view(cs.subrange(a, b));
    assert(trees_view(cs.subrange(a, b)) =~= trees_view(cs).subrange(a, b));
}

/// The labels of the `"terminal"` nodes of a tree, left to right (a
/// terminal node stands for its own label).
pub open spec fn leaves(t: SpecTree) -> Seq<Seq<char>>
    decreases t,
{
    if t.kind == "terminal"@ {
        seq![t.label]
    } else {
        leaves_all(t.children)
    }
}

/// The terminal labels of a sequence of trees, left to right.
pub open spec fn leaves_all(cs: Seq<SpecTree>) -> Seq<Seq<char>>
    decreases cs,
{
    if cs.len() == 0 {
        Seq::empty()
    } else {
        leaves(cs[0]) + leaves_all(cs.subrange(1, cs.len() as int))
    }
}

/// The labels of the trees, in order.
pub open spec fn labels(cs: Seq<SpecTree>) -> Seq<Seq<char>> {
    cs.map_values(|c: SpecTree| c.label)
}

/// The terminal labels of two sequences of trees side by side.
pub proof fn lemma_leaves_all_concat(a: Seq<SpecTree>, b: Seq<SpecTree>)
    ensures
        leaves_all(a + b) == leaves_all(a) + leaves_all(b),
    decreases a.len(),
{
    if a.len() == 0 {
        assert(a + b =~= b);
        assert(leaves_all(a) =~= Seq::<Seq<char>>::empty());
        assert(leaves_all(a) + leaves_all(b) =~= leaves_all(b));
    } else {
        let a1 = a.subrange(1, a.len() as int);
        assert((a + b)[0] == a[0]);
        assert((a + b).subrange(1, (a + b).len() as int) =~= a1 + b);
        lemma_leaves_all_concat(a1, b);
        assert(leaves(a[0]) + (leaves_all(a1) + leaves_all(b)) =~= (leaves(a[0]) + leaves_all(a1)) + leaves_all(b));
    }
}

/// The terminal labels of a single tree.
pub proof fn lemma_leaves_all_single(t: SpecTree)
    ensures
        leaves_all(seq![t]) == leaves(t),
{
    assert(seq![t].subrange(1, 1) =~= Seq::<SpecTree>::empty());
    assert(leaves_all(Seq::<SpecTree>::empty()) =~= Seq::<Seq<char>>::empty());
    assert(leaves(t) + Seq::<Seq<char>>::empty() =~= leaves(t));
}

/// The ids of a tree, the root's first, then those of its children in order.
pub open spec fn ids(t: SpecTree) -> Seq<usize>
    decreases t,
{
    seq![t.id] + ids_all(t.children)
}

/// The ids of a sequence of trees, in order.
pub open spec fn ids_all(cs: Seq<SpecTree>) -> Seq<usize>
    decreases cs,
{
    if cs.len() == 0 {
        Seq::empty()
    } else {
        ids(cs[0]) + ids_all(cs.subrange(1, cs.len() as int))
    }
}

/// Every node's id is above the ids of all the nodes beneath it.
pub open spec fn ids_above(t: SpecTree) -> bool
    decreases t,
{
    &&& forall|q: int| 0 <= q < ids_all(t.children).len() ==> #[trigger] ids_all(t.children)[q] < t.id
    &&& forall|j: int| 0 <= j < t.children.len() ==> ids_above(#[trigger] t.children[j])
}

/// The ids of two sequences of trees side by side.
pub proof fn lemma_ids_all_concat(a: Seq<SpecTree>, b: Seq<SpecTree>)
    ensures
        ids_all(a + b) == ids_all(a) + ids_all(b),
    decreases a.len(),
{
    if a.len() == 0 {
        assert(a + b =~= b);
        assert(ids_all(a) =~= Seq::<usize>::empty());
        assert(ids_all(a) + ids_all(b) =~= ids_all(b));
    } else {
        let a1 = a.subrange(1, a.len() as int);
        assert((a + b)[0] == a[0]);
        assert((a + b).subrange(1, (a + b).len() as int) =~= a1 + b);
        lemma_ids_all_concat(a1, b);
        assert(ids(a[0]) + (ids_all(a1) + ids_all(b)) =~= (ids(a[0]) + ids_all(a1)) + ids_all(b));
    }
}

/// The ids of a single tree.
pub proof fn lemma_ids_all_single(t: SpecTree)
    ensures
        ids_all(seq![t]) == ids(t),
{
    assert(seq![t].subrange(1, 1) =~= Seq::<SpecTree>::empty());
    assert(ids_all(Seq::<SpecTree>::empty()) =~= Seq::<usize>::empty());
    assert(ids(t) + Seq::<usize>::empty() =~= ids(t));
}

/// Deriving the AST again changes nothing: the AST of an AST is itself, so
/// `t.to_ast().to_ast()` has the same model (ids, labels, kinds and
/// children, all the way down) as `t.to_ast()`.
pub proof fn ast_is_idempotent(t: SpecTree)
    ensures
        ast(ast(t)) == ast(t),
    decreases t,
{
    ast_children_are_final(t.children);
    let pruned = ast_children(t.children);
    if !(t.kind == "non_terminal"@ && pruned.len() == 1) {
        assert(ast(t).children == pruned);
        assert(ast_children(pruned) == pruned);
    }
}

/// No node of an AST below its root is an ϵ node: the AST of a node that is
/// not ϵ is not ϵ.
pub proof fn ast_keeps_non_epsilon(t: SpecTree)
    requires
        t.kind != "epsilon"@,
    ensures
        ast(t).kind != "epsilon"@,
    decreases t,
{
    ast_children_are_final(t.children);
}

/// The ASTs of the children are not ϵ nodes, and pruning them again
/// changes nothing.
pub proof fn ast_children_are_final(cs: Seq<SpecTree>)
    ensures
        forall|i: int| 0 <= i < ast_children(cs).len() ==> (#[trigger] ast_children(cs)[i]).kind != "epsilon"@,
        ast_children(ast_children(cs)) == ast_children(cs),
    decreases cs,
{
    if cs.len() > 0 {
        let front = cs.subrange(0, cs.len() - 1);
        let last = cs[cs.len() - 1];
        ast_children_are_final(front);
        let pf = ast_children(front);
        if last.kind != "epsilon"@ {
            ast_keeps_non_epsilon(last);
            ast_is_idempotent(last);
            let r = pf.push(ast(last));
            assert(r.subrange(0, r.len() - 1) =~= pf);
            assert(r[r.len() - 1] == ast(last));
            assert(ast_children(r) =~= ast_children(pf).push(ast(ast(last))));
        }
    }
}

/// No non-terminal node has exactly one child, down the whole tree.
pub open spec fn chains_collapsed(t: SpecTree) -> bool
    decreases t,
{
    &&& t.kind == "non_terminal"@ ==> t.children.len() != 1
    &&& forall|j: int| 0 <= j < t.children.len() ==> chains_collapsed(#[trigger] t.children[j])
}

/// Chains are fully collapsed in an AST: no non-terminal node of `ast(t)`
/// has exactly one child, at any depth.
pub proof fn ast_has_no_chains(t: SpecTree)
    ensures
        chains_collapsed(ast(t)),
    decreases t,
{
    lemma_ast_children_no_chains(t.children);
    let pruned = ast_children(t.children);
    if !(t.kind == "non_terminal"@ && pruned.len() == 1) {
        let r = SpecTree { id: t.id, label: t.label, kind: t.kind, children: pruned };
        assert(ast(t) == r);
        assert forall|j: int| 0 <= j < r.children.len() implies chains_collapsed(#[trigger] r.children[j]) by {}
    }
}

proof fn lemma_ast_children_no_chains(cs: Seq<SpecTree>)
    ensures
        forall|i: int| 0 <= i < ast_children(cs).len() ==> chains_collapsed(#[trigger] ast_children(cs)[i]),
    decreases cs,
{
    if cs.len() > 0 {
        let front = cs.subrange(0, cs.len() - 1);
        let last = cs[cs.len() - 1];
        lemma_ast_children_no_chains(front);
        if last.kind != "epsilon"@ {
            ast_has_no_chains(last);
            let pf = ast_children(front);
            assert forall|i: int| 0 <= i < ast_children(cs).len() implies chains_collapsed(#[trigger] ast_children(cs)[i]) by {
                if i < pf.len() {
                    assert(ast_children(cs)[i] == pf[i]);
                }
            }
        } else {
            assert(ast_children(cs) == ast_children(front));
        }
    }
}

impl ParseTreeNode {
    /// The AST of this tree: ϵ nodes are pruned, and chains of non-terminals
    /// with a single child are collapsed into that child.
    pub fn to_ast(&self) -> (r: ParseTreeNode)
        ensures
            r@ == ast(self@),
        decreases self,
    {
        let ghost cv = trees_view(self.children@);
        proof {
            lemma_trees_view(self.children@);
        }
        let eps = String::from_str("epsilon");
        let nt = String::from_str("non_terminal");
        let mut pruned: Vec<ParseTreeNode> = Vec::new();
        let mut i: usize = 0;
        assert(cv.subrange(0, 0) =~= Seq::<SpecTree>::empty());
        while i < self.children.len()
            invariant
                cv == trees_view(self.children@),
                cv.len() == self.children@.len(),
                forall|j: int| 0 <= j < cv.len() ==> #[trigger] cv[j] == tree_view(self.children@[j]),
                i <= self.children.len(),
                eps@ == "epsilon"@,
                trees_view(pruned@) == ast_children(cv.subrange(0, i as int)),
            decreases self.children.len() - i,
        {
            let c = &self.children[i];
            assert(cv.subrange(0, i + 1).subrange(0, i as int) =~= cv.subrange(0, i as int));
            assert(cv.subrange(0, i + 1)[i as int] == tree_view(*c));
            if !(c.node_type == eps) {
                let a = c.to_ast();
                proof {
                    lemma_trees_view_push(pruned@, a);
                }
                pruned.push(a);
            }
            i += 1;
        }
        assert(cv.subrange(0, cv.len() as int) =~= cv);
        proof {
            lemma_trees_view(pruned@);
        }
        if self.node_type == nt && pruned.len() == 1 {
            let r = pruned.pop().unwrap();
            return r;
        }
        ParseTreeNode { id: self.id, label: self.label.clone(), node_type: self.node_type.clone(), children: pruned }
    }
}

} // verus!
