//! The LL(1) parse tree is grown by the grammar, one production per node
//! with children, and its terminal leaves spell the tokens the parse read.

use vstd::prelude::*;
use crate::symbols::{SpecSymbol, SpecGrammar, sym_text, syms_view};
use crate::symbols::strs_view;
use crate::tree::{SpecTree, labels, leaves, leaves_all, lemma_leaves_all_concat};
use crate::ll1::{
    LL1Parser, expands_to_nothing, cells_are_rights, first_relation, follow_relation, selects, dollar, with_end_marker,
    in_rhs, ll1_trace, ll1_parse_spec, prepend, rhs_text, pushed, lemma_match_text_not_success,
    lemma_expand_text_not_success,
};
use crate::ll1_tree::{
    ArenaNode, kind_text, expand_nodes, expand_edges, pushed_entries, ll1_tree_trace, children_of, arena_tree,
    arena_forest, ll1_tree_spec, ll1_arena, firsts, lemma_firsts_pushed,
};

verus! {

/// The texts of the symbols of a right side other than ϵ, in order.
pub open spec fn non_eps_texts(rhs: Seq<SpecSymbol>) -> Seq<Seq<char>>
    decreases rhs.len(),
{
    if rhs.len() == 0 {
        Seq::empty()
    } else if rhs[0] == SpecSymbol::Epsilon {
        non_eps_texts(rhs.drop_first())
    } else {
        seq![sym_text(rhs[0])] + non_eps_texts(rhs.drop_first())
    }
}

/// The labels of the children a node gets when it is expanded by a right
/// side: a single ϵ for a right side that derives nothing, else its symbols.
pub open spec fn child_labels(rhs: Seq<SpecSymbol>) -> Seq<Seq<char>> {
    if expands_to_nothing(rhs) {
        seq!["ϵ"@]
    } else {
        non_eps_texts(rhs)
    }
}

/// Children labelled `kids` under a node labelled `label` are the expansion
/// of that non-terminal by one of its productions.
pub open spec fn expansion_of(g: SpecGrammar, label: Seq<char>, kids: Seq<Seq<char>>) -> bool {
    exists|i: int|
        0 <= i < g.productions.len() && g.productions[i].left is NonTerminal && sym_text(g.productions[i].left) == label
            && #[trigger] child_labels(g.productions[i].right) == kids
}

/// The tree is grown by the grammar: a node with children is a non-terminal
/// node whose children are labelled, in order, by one of its productions;
/// every other node is a leaf.
pub open spec fn grown_by(g: SpecGrammar, t: SpecTree) -> bool
    decreases t,
{
    &&& t.children.len() > 0 ==> t.kind == "non_terminal"@ && expansion_of(g, t.label, labels(t.children))
    &&& forall|j: int| 0 <= j < t.children.len() ==> grown_by(g, #[trigger] t.children[j])
}

/// The labels of the nodes `kids`.
pub open spec fn kid_labels(ls: Seq<ArenaNode>, kids: Seq<usize>) -> Seq<Seq<char>> {
    kids.map_values(|c: usize| ls[c as int].0)
}

/// Every edge joins two existing nodes, and every node with children is a
/// non-terminal node expanded by one of its productions.
pub open spec fn arena_grown(g: SpecGrammar, ls: Seq<ArenaNode>, es: Seq<(usize, usize)>) -> bool {
    &&& forall|k: int| 0 <= k < es.len() ==> (#[trigger] es[k]).0 < ls.len() && es[k].1 < ls.len()
    &&& forall|p: usize|
        p < ls.len() && (#[trigger] children_of(es, p)).len() > 0 ==> ls[p as int].1 == "non_terminal"@
            && expansion_of(g, ls[p as int].0, kid_labels(ls, children_of(es, p)))
}

/// The stack entries stand for distinct nodes, not yet expanded, labelled
/// by their symbols.
pub open spec fn entries_fresh(stack: Seq<(SpecSymbol, usize)>, ls: Seq<ArenaNode>, es: Seq<(usize, usize)>) -> bool {
    &&& forall|j: int|
        0 <= j < stack.len() ==> (#[trigger] stack[j]).1 < ls.len() && children_of(es, stack[j].1).len() == 0
            && ls[stack[j].1 as int].0 == sym_text(stack[j].0)
            && (stack[j].0 is NonTerminal ==> ls[stack[j].1 as int].1 == "non_terminal"@)
    &&& forall|i: int, j: int| 0 <= i < j < stack.len() ==> (#[trigger] stack[i]).1 != (#[trigger] stack[j]).1
}

proof fn lemma_children_push(es: Seq<(usize, usize)>, e: (usize, usize), p: usize)
    ensures
        children_of(es.push(e), p) == if e.0 == p { children_of(es, p).push(e.1) } else { children_of(es, p) },
{
    assert(es.push(e).drop_last() =~= es);
}

proof fn lemma_children_none(es: Seq<(usize, usize)>, p: usize)
    requires
        forall|k: int| 0 <= k < es.len() ==> (#[trigger] es[k]).0 != p,
    ensures
        children_of(es, p).len() == 0,
    decreases es.len(),
{
    if es.len() > 0 {
        assert(es.last() == es[es.len() - 1]);
        assert forall|k: int| 0 <= k < es.drop_last().len() implies (#[trigger] es.drop_last()[k]).0 != p by {
            assert(es.drop_last()[k] == es[k]);
        }
        lemma_children_none(es.drop_last(), p);
    }
}

proof fn lemma_children_below(es: Seq<(usize, usize)>, p: usize, n: int)
    requires
        forall|k: int| 0 <= k < es.len() ==> (#[trigger] es[k]).1 < n,
    ensures
        forall|k: int| 0 <= k < children_of(es, p).len() ==> #[trigger] children_of(es, p)[k] < n,
    decreases es.len(),
{
    if es.len() > 0 {
        assert(es.last() == es[es.len() - 1]);
        assert forall|k: int| 0 <= k < es.drop_last().len() implies (#[trigger] es.drop_last()[k]).1 < n by {
            assert(es.drop_last()[k] == es[k]);
        }
        lemma_children_below(es.drop_last(), p, n);
        let f = children_of(es.drop_last(), p);
        assert forall|k: int| 0 <= k < children_of(es, p).len() implies #[trigger] children_of(es, p)[k] < n by {
            if k < f.len() {
                assert(children_of(es, p)[k] == f[k]);
            }
        }
    }
}

proof fn lemma_expand_nodes_len(ls: Seq<ArenaNode>, rhs: Seq<SpecSymbol>)
    ensures
        expand_nodes(ls, rhs).len() == ls.len() + non_eps_texts(rhs).len(),
    decreases rhs.len(),
{
    if rhs.len() > 0 {
        if rhs[0] == SpecSymbol::Epsilon {
            lemma_expand_nodes_len(ls, rhs.drop_first());
        } else {
            lemma_expand_nodes_len(ls.push((sym_text(rhs[0]), kind_text(rhs[0]))), rhs.drop_first());
        }
    }
}

/// What an expansion by `rhs` adds: new nodes labelled by the symbols, edges
/// to them from `parent` only, and fresh stack entries for them.
proof fn lemma_expand(ls: Seq<ArenaNode>, es: Seq<(usize, usize)>, parent: usize, rhs: Seq<SpecSymbol>, next: usize)
    requires
        next == ls.len(),
        ls.len() + non_eps_texts(rhs).len() <= usize::MAX,
    ensures
        ({
            let ls2 = expand_nodes(ls, rhs);
            let es2 = expand_edges(es, parent, rhs, next);
            let pe = pushed_entries(rhs, next);
            let cnt = non_eps_texts(rhs).len();
            &&& ls2.len() == ls.len() + cnt
            &&& forall|k: int| 0 <= k < ls.len() ==> #[trigger] ls2[k] == ls[k]
            &&& forall|k: int| 0 <= k < cnt ==> #[trigger] ls2[ls.len() + k].0 == non_eps_texts(rhs)[k]
            &&& es2 == es + Seq::new(cnt, |k: int| (parent, (next + k) as usize))
            &&& forall|p: usize| p != parent ==> #[trigger] children_of(es2, p) == children_of(es, p)
            &&& children_of(es2, parent) == children_of(es, parent) + Seq::new(cnt, |k: int| (next + k) as usize)
            &&& pe.len() == cnt
            &&& forall|j: int| 0 <= j < pe.len() ==> (#[trigger] pe[j]).1 == next + cnt - 1 - j
                && ls2[pe[j].1 as int] == (sym_text(pe[j].0), kind_text(pe[j].0)) && rhs.contains(pe[j].0)
        }),
    decreases rhs.len(),
{
    if rhs.len() == 0 {
        assert(es + Seq::new(0, |k: int| (parent, (next + k) as usize)) =~= es);
        assert(children_of(es, parent) + Seq::new(0, |k: int| (next + k) as usize) =~= children_of(es, parent));
        return;
    }
    let rest = rhs.drop_first();
    if rhs[0] == SpecSymbol::Epsilon {
        lemma_expand(ls, es, parent, rest, next);
        return;
    }
    let node = (sym_text(rhs[0]), kind_text(rhs[0]));
    let ls1 = ls.push(node);
    let es1 = es.push((parent, next));
    let next1 = (next + 1) as usize;
    let cnt = non_eps_texts(rhs).len();
    assert(cnt == non_eps_texts(rest).len() + 1);
    lemma_expand(ls1, es1, parent, rest, next1);
    let ls2 = expand_nodes(ls, rhs);
    let es2 = expand_edges(es, parent, rhs, next);
    let pe = pushed_entries(rhs, next);
    let pr = pushed_entries(rest, next1);
    assert(ls2 == expand_nodes(ls1, rest));
    assert(es2 == expand_edges(es1, parent, rest, next1));
    assert(pe == pr.push((rhs[0], next)));
    assert forall|k: int| 0 <= k < ls.len() implies #[trigger] ls2[k] == ls[k] by {
        assert(ls2[k] == ls1[k]);
    }
    assert(ls2[ls.len() as int] == ls1[ls.len() as int]);
    assert forall|k: int| 0 <= k < cnt implies #[trigger] ls2[ls.len() + k].0 == non_eps_texts(rhs)[k] by {
        if k > 0 {
            assert(ls2[ls1.len() + (k - 1)].0 == non_eps_texts(rest)[k - 1]);
        }
    }
    assert(es2 =~= es + Seq::new(cnt, |k: int| (parent, (next + k) as usize))) by {
        assert(es1 + Seq::new((cnt - 1) as nat, |k: int| (parent, (next1 + k) as usize))
            =~= es + Seq::new(cnt, |k: int| (parent, (next + k) as usize)));
    }
    assert forall|p: usize| p != parent implies #[trigger] children_of(es2, p) == children_of(es, p) by {
        lemma_children_push(es, (parent, next), p);
        assert(children_of(es2, p) == children_of(es1, p));
    }
    lemma_children_push(es, (parent, next), parent);
    assert(children_of(es1, parent) + Seq::new((cnt - 1) as nat, |k: int| (next1 + k) as usize)
        =~= children_of(es, parent) + Seq::new(cnt, |k: int| (next + k) as usize));
    assert forall|j: int| 0 <= j < pe.len() implies (#[trigger] pe[j]).1 == next + cnt - 1 - j
        && ls2[pe[j].1 as int] == (sym_text(pe[j].0), kind_text(pe[j].0)) && rhs.contains(pe[j].0) by {
        if j < pr.len() {
            assert(pe[j] == pr[j]);
            let q = choose|q: int| 0 <= q < rest.len() && rest[q] == pr[j].0;
            assert(rhs[q + 1] == rest[q]);
        } else {
            assert(pe[j] == (rhs[0], next));
            assert(ls2[next as int] == ls1[next as int]);
            assert(rhs[0] == pe[j].0);
        }
    }
}

proof fn lemma_trace_grows(
    t: Map<(SpecSymbol, SpecSymbol), Seq<crate::symbols::Symbol>>,
    input: Seq<Seq<char>>,
    stack: Seq<(SpecSymbol, usize)>,
    pos: int,
    ls: Seq<ArenaNode>,
    es: Seq<(usize, usize)>,
    fuel: nat,
)
    ensures
        ls.len() <= ll1_tree_trace(t, input, stack, pos, ls, es, fuel).0.len(),
    decreases fuel,
{
    if fuel == 0 || stack.len() == 0 || !(0 <= pos < input.len()) {
        return;
    }
    let top = stack.last().0;
    let id = stack.last().1;
    let cur_sym = SpecSymbol::Terminal(input[pos]);
    if top == cur_sym {
        if top != dollar() {
            lemma_trace_grows(t, input, stack.drop_last(), pos + 1, ls, es, (fuel - 1) as nat);
        }
    } else if top is NonTerminal && t.contains_key((top, cur_sym)) {
        let rhs = syms_view(t[(top, cur_sym)]);
        let next = ls.len() as usize;
        if expands_to_nothing(rhs) {
            lemma_trace_grows(t, input, stack.drop_last(), pos, ls.push(("ϵ"@, "epsilon"@)), es.push((id, next)), (fuel - 1) as nat);
        } else {
            lemma_expand_nodes_len(ls, rhs);
            lemma_trace_grows(
                t, input, stack.drop_last() + pushed_entries(rhs, next), pos, expand_nodes(ls, rhs),
                expand_edges(es, id, rhs, next), (fuel - 1) as nat,
            );
        }
    }
}

/// Each step of the LL(1) parse keeps the nodes made grown by the grammar.
proof fn lemma_trace_grown(
    g: SpecGrammar,
    t: Map<(SpecSymbol, SpecSymbol), Seq<crate::symbols::Symbol>>,
    input: Seq<Seq<char>>,
    stack: Seq<(SpecSymbol, usize)>,
    pos: int,
    ls: Seq<ArenaNode>,
    es: Seq<(usize, usize)>,
    fuel: nat,
)
    requires
        cells_are_rights(g, t),
        arena_grown(g, ls, es),
        entries_fresh(stack, ls, es),
        ll1_tree_trace(t, input, stack, pos, ls, es, fuel).0.len() <= usize::MAX,
    ensures
        ({
            let r = ll1_tree_trace(t, input, stack, pos, ls, es, fuel);
            arena_grown(g, r.0, r.1)
        }),
    decreases fuel,
{
    if fuel == 0 || stack.len() == 0 || !(0 <= pos < input.len()) {
        return;
    }
    let top = stack.last().0;
    let id = stack.last().1;
    let cur_sym = SpecSymbol::Terminal(input[pos]);
    let rest = stack.drop_last();
    assert(stack.last() == stack[stack.len() - 1]);
    assert(entries_fresh(rest, ls, es)) by {
        assert forall|j: int| 0 <= j < rest.len() implies #[trigger] rest[j] == stack[j] by {}
    }
    if top == cur_sym {
        if top != dollar() {
            lemma_trace_grown(g, t, input, rest, pos + 1, ls, es, (fuel - 1) as nat);
        }
        return;
    }
    if !(top is NonTerminal && t.contains_key((top, cur_sym))) {
        return;
    }
    let rhs = syms_view(t[(top, cur_sym)]);
    let i = choose|i: int| 0 <= i < g.productions.len() && g.productions[i].left == top
        && #[trigger] g.productions[i].right == syms_view(t[(top, cur_sym)]);
    let next = ls.len() as usize;
    assert(id < ls.len() && children_of(es, id).len() == 0 && ls[id as int].0 == sym_text(top)
        && ls[id as int].1 == "non_terminal"@);
    if expands_to_nothing(rhs) {
        let ls2 = ls.push(("ϵ"@, "epsilon"@));
        let es2 = es.push((id, next));
        lemma_trace_grows(t, input, rest, pos, ls2, es2, (fuel - 1) as nat);
        assert(next == ls.len());
        assert forall|p: usize| p != id implies #[trigger] children_of(es2, p) == children_of(es, p) by {
            lemma_children_push(es, (id, next), p);
        }
        lemma_children_push(es, (id, next), id);
        assert(children_of(es2, id) =~= seq![next]);
        assert(arena_grown(g, ls2, es2)) by {
            assert forall|k: int| 0 <= k < es2.len() implies (#[trigger] es2[k]).0 < ls2.len() && es2[k].1 < ls2.len() by {
                if k < es.len() {
                    assert(es2[k] == es[k]);
                }
            }
            assert forall|p: usize| p < ls2.len() && (#[trigger] children_of(es2, p)).len() > 0 implies ls2[p as int].1
                == "non_terminal"@ && expansion_of(g, ls2[p as int].0, kid_labels(ls2, children_of(es2, p))) by {
                if p == id {
                    assert(kid_labels(ls2, children_of(es2, p)) =~= seq!["ϵ"@]);
                    assert(child_labels(g.productions[i].right) == seq!["ϵ"@]);
                } else if p == next {
                    lemma_children_none(es, p);
                } else {
                    lemma_children_below(es, p, ls.len() as int);
                    assert(kid_labels(ls2, children_of(es, p)) =~= kid_labels(ls, children_of(es, p)));
                }
            }
        }
        assert(entries_fresh(rest, ls2, es2)) by {
            assert forall|j: int| 0 <= j < rest.len() implies (#[trigger] rest[j]).1 < ls2.len()
                && children_of(es2, rest[j].1).len() == 0 && ls2[rest[j].1 as int].0 == sym_text(rest[j].0)
                && (rest[j].0 is NonTerminal ==> ls2[rest[j].1 as int].1 == "non_terminal"@) by {
                assert(rest[j] == stack[j]);
                assert(stack[j].1 != stack[stack.len() - 1].1);
            }
        }
        lemma_trace_grown(g, t, input, rest, pos, ls2, es2, (fuel - 1) as nat);
    } else {
        let ls2 = expand_nodes(ls, rhs);
        let es2 = expand_edges(es, id, rhs, next);
        let pe = pushed_entries(rhs, next);
        let st2 = rest + pe;
        lemma_trace_grows(t, input, st2, pos, ls2, es2, (fuel - 1) as nat);
        lemma_expand_nodes_len(ls, rhs);
        lemma_expand(ls, es, id, rhs, next);
        let cnt = non_eps_texts(rhs).len();
        assert(arena_grown(g, ls2, es2)) by {
            assert forall|k: int| 0 <= k < es2.len() implies (#[trigger] es2[k]).0 < ls2.len() && es2[k].1 < ls2.len() by {
                if k < es.len() {
                    assert(es2[k] == es[k]);
                } else {
                    assert(es2[k] == (id, (next + (k - es.len())) as usize));
                }
            }
            assert forall|p: usize| p < ls2.len() && (#[trigger] children_of(es2, p)).len() > 0 implies ls2[p as int].1
                == "non_terminal"@ && expansion_of(g, ls2[p as int].0, kid_labels(ls2, children_of(es2, p))) by {
                if p == id {
                    assert(children_of(es2, id) =~= Seq::new(cnt, |k: int| (next + k) as usize));
                    assert(kid_labels(ls2, children_of(es2, p)) =~= non_eps_texts(rhs));
                    assert(child_labels(g.productions[i].right) == non_eps_texts(rhs));
                    assert(ls2[id as int] == ls[id as int]);
                } else if p >= ls.len() {
                    lemma_children_none(es, p);
                } else {
                    lemma_children_below(es, p, ls.len() as int);
                    assert(ls2[p as int] == ls[p as int]);
                    assert(kid_labels(ls2, children_of(es, p)) =~= kid_labels(ls, children_of(es, p)));
                }
            }
        }
        assert(entries_fresh(st2, ls2, es2)) by {
            assert forall|j: int| 0 <= j < st2.len() implies (#[trigger] st2[j]).1 < ls2.len()
                && children_of(es2, st2[j].1).len() == 0 && ls2[st2[j].1 as int].0 == sym_text(st2[j].0)
                && (st2[j].0 is NonTerminal ==> ls2[st2[j].1 as int].1 == "non_terminal"@) by {
                if j < rest.len() {
                    assert(st2[j] == stack[j]);
                    assert(stack[j].1 != stack[stack.len() - 1].1);
                    assert(ls2[stack[j].1 as int] == ls[stack[j].1 as int]);
                } else {
                    assert(st2[j] == pe[j - rest.len()]);
                    lemma_children_none(es, st2[j].1);
                }
            }
            assert forall|a: int, b: int| 0 <= a < b < st2.len() implies (#[trigger] st2[a]).1 != (#[trigger] st2[b]).1 by {
                if b < rest.len() {
                    assert(st2[a] == stack[a] && st2[b] == stack[b]);
                } else if a < rest.len() {
                    assert(st2[a] == stack[a]);
                    assert(st2[b] == pe[b - rest.len()]);
                } else {
                    assert(st2[a] == pe[a - rest.len()]);
                    assert(st2[b] == pe[b - rest.len()]);
                }
            }
        }
        lemma_trace_grown(g, t, input, st2, pos, ls2, es2, (fuel - 1) as nat);
    }
}

proof fn lemma_arena_forest(ls: Seq<ArenaNode>, es: Seq<(usize, usize)>, kids: Seq<usize>, fuel: nat)
    ensures
        arena_forest(ls, es, kids, fuel).len() == kids.len(),
        forall|j: int| 0 <= j < kids.len() ==> #[trigger] arena_forest(ls, es, kids, fuel)[j] == arena_tree(ls, es, kids[j], fuel),
    decreases kids.len(),
{
    if kids.len() > 0 {
        lemma_arena_forest(ls, es, kids.drop_last(), fuel);
        assert forall|j: int| 0 <= j < kids.len() implies #[trigger] arena_forest(ls, es, kids, fuel)[j] == arena_tree(ls, es, kids[j], fuel) by {
            if j < kids.len() - 1 {
                assert(kids.drop_last()[j] == kids[j]);
            }
        }
    }
}

/// The tree read off nodes grown by the grammar is grown by the grammar.
proof fn lemma_arena_tree_grown(g: SpecGrammar, ls: Seq<ArenaNode>, es: Seq<(usize, usize)>, id: usize, fuel: nat)
    requires
        arena_grown(g, ls, es),
        id < ls.len(),
    ensures
        grown_by(g, arena_tree(ls, es, id, fuel)),
    decreases fuel,
{
    let tr = arena_tree(ls, es, id, fuel);
    if fuel > 0 {
        let kids = children_of(es, id);
        let f = (fuel - 1) as nat;
        lemma_arena_forest(ls, es, kids, f);
        lemma_children_below(es, id, ls.len() as int);
        assert(tr.children == arena_forest(ls, es, kids, f));
        if kids.len() > 0 {
            assert(labels(tr.children) =~= kid_labels(ls, kids));
        }
        assert forall|j: int| 0 <= j < tr.children.len() implies grown_by(g, #[trigger] tr.children[j]) by {
            assert(kids[j] < ls.len());
            lemma_arena_tree_grown(g, ls, es, kids[j], f);
        }
    }
}

/// The LL(1) parse tree is grown by the grammar: every node with children is
/// a non-terminal node whose children are labelled, in order, by the right
/// side of one of its productions (a single ϵ child under a node expanded
/// by a production that derives nothing), and terminal, `$` and ϵ nodes are
/// leaves. (A parse makes at most `usize::MAX` nodes, as any run on this
/// machine does.)
pub proof fn ll1_tree_follows_productions(p: LL1Parser, input: Seq<String>)
    requires
        p.analyzed(),
        ll1_arena(p.table@, p.grammar@.start, input).0.len() <= usize::MAX,
    ensures
        grown_by(p.grammar@, ll1_tree_spec(p.table@, p.grammar@.start, input)),
{
    let g = p.grammar@;
    let f = first_relation(g);
    let fo = follow_relation(g, f);
    let t = p.table@;
    assert forall|a: SpecSymbol, x: SpecSymbol| #[trigger] t.contains_key((a, x)) implies exists|i: int|
        0 <= i < g.productions.len() && g.productions[i].left == a && #[trigger] g.productions[i].right == syms_view(t[(a, x)]) by {
        let i = choose|i: int| 0 <= i < g.productions.len() && g.productions[i].left == a && #[trigger] selects(f, fo, g.productions[i], x);
        assert(syms_view(t[(g.productions[i].left, x)]) == g.productions[i].right);
    }
    let stack = seq![(dollar(), 1usize), (g.start, 0usize)];
    let ls = seq![(sym_text(g.start), "non_terminal"@), ("$"@, "terminal"@)];
    let es = Seq::<(usize, usize)>::empty();
    assert(children_of(es, 0) =~= Seq::<usize>::empty());
    assert(children_of(es, 1) =~= Seq::<usize>::empty());
    assert(arena_grown(g, ls, es));
    assert(entries_fresh(stack, ls, es));
    let r = ll1_tree_trace(t, with_end_marker(input), stack, 0, ls, es, (usize::MAX + 1) as nat);
    lemma_trace_grown(g, t, with_end_marker(input), stack, 0, ls, es, (usize::MAX + 1) as nat);
    lemma_trace_grows(t, with_end_marker(input), stack, 0, ls, es, (usize::MAX + 1) as nat);
    lemma_arena_tree_grown(g, r.0, r.1, 0, r.0.len());
}

/// Every edge leads from a node to a later one, and both exist.
pub open spec fn upward(es: Seq<(usize, usize)>, n: int) -> bool {
    forall|k: int| 0 <= k < es.len() ==> (#[trigger] es[k]).0 < es[k].1 < n
}

/// The stack entries stand for distinct existing nodes.
pub open spec fn ids_ok(stack: Seq<(SpecSymbol, usize)>, n: int) -> bool {
    &&& forall|j: int| 0 <= j < stack.len() ==> (#[trigger] stack[j]).1 < n
    &&& forall|i: int, j: int| 0 <= i < j < stack.len() ==> (#[trigger] stack[i]).1 != (#[trigger] stack[j]).1
}

/// `p` stands for no stack entry.
pub open spec fn off_stack(stack: Seq<(SpecSymbol, usize)>, p: usize) -> bool {
    forall|j: int| 0 <= j < stack.len() ==> (#[trigger] stack[j]).1 != p
}

proof fn lemma_children_range(es: Seq<(usize, usize)>, p: usize, n: int)
    requires
        upward(es, n),
    ensures
        forall|k: int| 0 <= k < children_of(es, p).len() ==> p < #[trigger] children_of(es, p)[k] < n,
    decreases es.len(),
{
    if es.len() > 0 {
        assert(es.last() == es[es.len() - 1]);
        assert(upward(es.drop_last(), n)) by {
            assert forall|k: int| 0 <= k < es.drop_last().len() implies (#[trigger] es.drop_last()[k]).0 < es.drop_last()[k].1 < n by {
                assert(es.drop_last()[k] == es[k]);
            }
        }
        lemma_children_range(es.drop_last(), p, n);
        let f = children_of(es.drop_last(), p);
        assert forall|k: int| 0 <= k < children_of(es, p).len() implies p < #[trigger] children_of(es, p)[k] < n by {
            if k < f.len() {
                assert(children_of(es, p)[k] == f[k]);
            }
        }
    }
}

/// Past the depth of the nodes, more fuel builds the same tree.
proof fn lemma_tree_fuel(ls: Seq<ArenaNode>, es: Seq<(usize, usize)>, id: usize, f1: nat, f2: nat)
    requires
        upward(es, ls.len() as int),
        id < ls.len(),
        f1 >= ls.len() - id,
        f2 >= ls.len() - id,
    ensures
        arena_tree(ls, es, id, f1) == arena_tree(ls, es, id, f2),
    decreases f1,
{
    let kids = children_of(es, id);
    lemma_children_range(es, id, ls.len() as int);
    let a = arena_forest(ls, es, kids, (f1 - 1) as nat);
    let b = arena_forest(ls, es, kids, (f2 - 1) as nat);
    lemma_arena_forest(ls, es, kids, (f1 - 1) as nat);
    lemma_arena_forest(ls, es, kids, (f2 - 1) as nat);
    assert forall|j: int| 0 <= j < kids.len() implies a[j] == b[j] by {
        assert(id < kids[j] < ls.len());
        lemma_tree_fuel(ls, es, kids[j], (f1 - 1) as nat, (f2 - 1) as nat);
    }
    assert(a =~= b);
}

/// The terminal labels under node `id` of the finished tree.
pub open spec fn node_yield(ls: Seq<ArenaNode>, es: Seq<(usize, usize)>, id: usize) -> Seq<Seq<char>> {
    leaves(arena_tree(ls, es, id, (ls.len() - id) as nat))
}

/// The terminal labels under the nodes `kids`, in order.
pub open spec fn kids_yield(ls: Seq<ArenaNode>, es: Seq<(usize, usize)>, kids: Seq<usize>) -> Seq<Seq<char>>
    decreases kids.len(),
{
    if kids.len() == 0 {
        Seq::empty()
    } else {
        node_yield(ls, es, kids[0]) + kids_yield(ls, es, kids.drop_first())
    }
}

/// The terminal labels under the nodes of the stack entries, top first.
pub open spec fn stack_yield(ls: Seq<ArenaNode>, es: Seq<(usize, usize)>, stack: Seq<(SpecSymbol, usize)>) -> Seq<Seq<char>>
    decreases stack.len(),
{
    if stack.len() == 0 {
        Seq::empty()
    } else {
        node_yield(ls, es, stack.last().1) + stack_yield(ls, es, stack.drop_last())
    }
}

proof fn lemma_leaves_trees(ls: Seq<ArenaNode>, es: Seq<(usize, usize)>, cs: Seq<SpecTree>, kids: Seq<usize>)
    requires
        cs.len() == kids.len(),
        forall|j: int| 0 <= j < cs.len() ==> leaves(#[trigger] cs[j]) == node_yield(ls, es, kids[j]),
    ensures
        leaves_all(cs) == kids_yield(ls, es, kids),
    decreases cs.len(),
{
    if cs.len() > 0 {
        let cr = cs.subrange(1, cs.len() as int);
        let kr = kids.drop_first();
        assert forall|j: int| 0 <= j < cr.len() implies leaves(#[trigger] cr[j]) == node_yield(ls, es, kr[j]) by {
            assert(cr[j] == cs[j + 1]);
        }
        lemma_leaves_trees(ls, es, cr, kr);
        assert(leaves(cs[0]) == node_yield(ls, es, kids[0]));
    }
}

/// The terminal labels under a node: its own label for a terminal node,
/// else those under its children.
proof fn lemma_node_yield(ls: Seq<ArenaNode>, es: Seq<(usize, usize)>, id: usize)
    requires
        upward(es, ls.len() as int),
        id < ls.len(),
    ensures
        node_yield(ls, es, id) == if ls[id as int].1 == "terminal"@ {
            seq![ls[id as int].0]
        } else {
            kids_yield(ls, es, children_of(es, id))
        },
{
    let f = (ls.len() - id) as nat;
    let kids = children_of(es, id);
    let tr = arena_tree(ls, es, id, f);
    lemma_children_range(es, id, ls.len() as int);
    lemma_arena_forest(ls, es, kids, (f - 1) as nat);
    assert(tr.children == arena_forest(ls, es, kids, (f - 1) as nat));
    if ls[id as int].1 != "terminal"@ {
        assert forall|j: int| 0 <= j < tr.children.len() implies leaves(#[trigger] tr.children[j]) == node_yield(ls, es, kids[j]) by {
            assert(id < kids[j] < ls.len());
            lemma_tree_fuel(ls, es, kids[j], (f - 1) as nat, (ls.len() - kids[j]) as nat);
        }
        lemma_leaves_trees(ls, es, tr.children, kids);
    }
}

proof fn lemma_stack_yield_concat(ls: Seq<ArenaNode>, es: Seq<(usize, usize)>, a: Seq<(SpecSymbol, usize)>, b: Seq<(SpecSymbol, usize)>)
    ensures
        stack_yield(ls, es, a + b) == stack_yield(ls, es, b) + stack_yield(ls, es, a),
    decreases b.len(),
{
    if b.len() == 0 {
        assert(a + b =~= a);
        assert(stack_yield(ls, es, b) + stack_yield(ls, es, a) =~= stack_yield(ls, es, a));
    } else {
        assert((a + b).drop_last() =~= a + b.drop_last());
        assert((a + b).last() == b.last());
        lemma_stack_yield_concat(ls, es, a, b.drop_last());
        assert(stack_yield(ls, es, a + b) =~= stack_yield(ls, es, b) + stack_yield(ls, es, a));
    }
}

proof fn lemma_stack_yield_ids(ls: Seq<ArenaNode>, es: Seq<(usize, usize)>, s: Seq<(SpecSymbol, usize)>, ids: Seq<usize>)
    requires
        s.len() == ids.len(),
        forall|j: int| 0 <= j < ids.len() ==> s[s.len() - 1 - j].1 == #[trigger] ids[j],
    ensures
        stack_yield(ls, es, s) == kids_yield(ls, es, ids),
    decreases s.len(),
{
    if s.len() > 0 {
        let s2 = s.drop_last();
        let i2 = ids.drop_first();
        assert(s.last() == s[s.len() - 1 - 0]);
        assert(s.last().1 == ids[0]);
        assert forall|j: int| 0 <= j < i2.len() implies s2[s2.len() - 1 - j].1 == #[trigger] i2[j] by {
            assert(i2[j] == ids[j + 1]);
            assert(s2[s2.len() - 1 - j] == s[s.len() - 1 - (j + 1)]);
        }
        lemma_stack_yield_ids(ls, es, s2, i2);
    }
}

/// What the rest of the parse leaves alone: the nodes made so far, and the
/// children of nodes that no stack entry stands for.
proof fn lemma_trace_keeps(
    t: Map<(SpecSymbol, SpecSymbol), Seq<crate::symbols::Symbol>>,
    input: Seq<Seq<char>>,
    stack: Seq<(SpecSymbol, usize)>,
    pos: int,
    ls: Seq<ArenaNode>,
    es: Seq<(usize, usize)>,
    fuel: nat,
)
    requires
        upward(es, ls.len() as int),
        ids_ok(stack, ls.len() as int),
        ll1_tree_trace(t, input, stack, pos, ls, es, fuel).0.len() <= usize::MAX,
    ensures
        ({
            let r = ll1_tree_trace(t, input, stack, pos, ls, es, fuel);
            &&& r.0.len() >= ls.len()
            &&& forall|k: int| 0 <= k < ls.len() ==> #[trigger] r.0[k] == ls[k]
            &&& forall|p: usize| p < ls.len() && off_stack(stack, p) ==> #[trigger] children_of(r.1, p) == children_of(es, p)
            &&& upward(r.1, r.0.len() as int)
        }),
    decreases fuel,
{
    if fuel == 0 || stack.len() == 0 || !(0 <= pos < input.len()) {
        return;
    }
    let top = stack.last().0;
    let id = stack.last().1;
    let cur_sym = SpecSymbol::Terminal(input[pos]);
    let rest = stack.drop_last();
    assert(stack.last() == stack[stack.len() - 1]);
    assert(ids_ok(rest, ls.len() as int)) by {
        assert forall|j: int| 0 <= j < rest.len() implies #[trigger] rest[j] == stack[j] by {}
    }
    assert forall|p: usize| off_stack(stack, p) implies off_stack(rest, p) by {
        assert forall|j: int| 0 <= j < rest.len() implies (#[trigger] rest[j]).1 != p by {
            assert(rest[j] == stack[j]);
        }
    }
    if top == cur_sym {
        if top != dollar() {
            lemma_trace_keeps(t, input, rest, pos + 1, ls, es, (fuel - 1) as nat);
        }
        return;
    }
    if !(top is NonTerminal && t.contains_key((top, cur_sym))) {
        return;
    }
    let rhs = syms_view(t[(top, cur_sym)]);
    let next = ls.len() as usize;
    if expands_to_nothing(rhs) {
        let ls2 = ls.push(("ϵ"@, "epsilon"@));
        let es2 = es.push((id, next));
        lemma_trace_grows(t, input, rest, pos, ls2, es2, (fuel - 1) as nat);
        assert(next == ls.len());
        assert(upward(es2, ls2.len() as int)) by {
            assert forall|k: int| 0 <= k < es2.len() implies (#[trigger] es2[k]).0 < es2[k].1 < ls2.len() by {
                if k < es.len() {
                    assert(es2[k] == es[k]);
                }
            }
        }
        assert(ids_ok(rest, ls2.len() as int));
        lemma_trace_keeps(t, input, rest, pos, ls2, es2, (fuel - 1) as nat);
        let r = ll1_tree_trace(t, input, rest, pos, ls2, es2, (fuel - 1) as nat);
        assert forall|k: int| 0 <= k < ls.len() implies #[trigger] r.0[k] == ls[k] by {
            assert(r.0[k] == ls2[k]);
        }
        assert forall|p: usize| p < ls.len() && off_stack(stack, p) implies #[trigger] children_of(r.1, p) == children_of(es, p) by {
            assert(stack[stack.len() - 1].1 != p);
            lemma_children_push(es, (id, next), p);
            assert(children_of(r.1, p) == children_of(es2, p));
        }
    } else {
        let ls2 = expand_nodes(ls, rhs);
        let es2 = expand_edges(es, id, rhs, next);
        let pe = pushed_entries(rhs, next);
        let st2 = rest + pe;
        lemma_trace_grows(t, input, st2, pos, ls2, es2, (fuel - 1) as nat);
        lemma_expand_nodes_len(ls, rhs);
        lemma_expand(ls, es, id, rhs, next);
        let cnt = non_eps_texts(rhs).len();
        assert(upward(es2, ls2.len() as int)) by {
            assert forall|k: int| 0 <= k < es2.len() implies (#[trigger] es2[k]).0 < es2[k].1 < ls2.len() by {
                if k < es.len() {
                    assert(es2[k] == es[k]);
                } else {
                    assert(es2[k] == (id, (next + (k - es.len())) as usize));
                }
            }
        }
        assert(ids_ok(st2, ls2.len() as int)) by {
            assert forall|j: int| 0 <= j < st2.len() implies (#[trigger] st2[j]).1 < ls2.len() by {
                if j < rest.len() {
                    assert(st2[j] == stack[j]);
                } else {
                    assert(st2[j] == pe[j - rest.len()]);
                }
            }
            assert forall|a: int, b: int| 0 <= a < b < st2.len() implies (#[trigger] st2[a]).1 != (#[trigger] st2[b]).1 by {
                if b < rest.len() {
                    assert(st2[a] == stack[a] && st2[b] == stack[b]);
                } else if a < rest.len() {
                    assert(st2[a] == stack[a]);
                    assert(st2[b] == pe[b - rest.len()]);
                } else {
                    assert(st2[a] == pe[a - rest.len()]);
                    assert(st2[b] == pe[b - rest.len()]);
                }
            }
        }
        lemma_trace_keeps(t, input, st2, pos, ls2, es2, (fuel - 1) as nat);
        let r = ll1_tree_trace(t, input, st2, pos, ls2, es2, (fuel - 1) as nat);
        assert forall|k: int| 0 <= k < ls.len() implies #[trigger] r.0[k] == ls[k] by {
            assert(r.0[k] == ls2[k]);
        }
        assert forall|p: usize| p < ls.len() && off_stack(stack, p) implies #[trigger] children_of(r.1, p) == children_of(es, p) by {
            assert(stack[stack.len() - 1].1 != p);
            assert(off_stack(st2, p)) by {
                assert forall|j: int| 0 <= j < st2.len() implies (#[trigger] st2[j]).1 != p by {
                    if j < rest.len() {
                        assert(st2[j] == stack[j]);
                    } else {
                        assert(st2[j] == pe[j - rest.len()]);
                    }
                }
            }
            assert(children_of(r.1, p) == children_of(es2, p));
        }
    }
}

/// The stack entries' nodes have their symbols' kinds.
pub open spec fn entries_typed(stack: Seq<(SpecSymbol, usize)>, ls: Seq<ArenaNode>) -> bool {
    forall|j: int| 0 <= j < stack.len() ==> ls[(#[trigger] stack[j]).1 as int].1 == kind_text(stack[j].0)
}

/// `$` is the bottom entry, and no other.
pub open spec fn dollar_at_bottom(stack: Seq<(SpecSymbol, usize)>) -> bool {
    &&& stack.len() >= 1
    &&& stack[0].0 == dollar()
    &&& forall|j: int| 1 <= j < stack.len() ==> (#[trigger] stack[j]).0 != dollar()
}

proof fn lemma_kinds_differ()
    ensures
        "non_terminal"@ != "terminal"@,
        "epsilon"@ != "terminal"@,
{
    reveal_strlit("non_terminal");
    reveal_strlit("terminal");
    reveal_strlit("epsilon");
    assert("non_terminal"@.len() != "terminal"@.len());
    assert("epsilon"@.len() != "terminal"@.len());
}

/// Along a run of the LL(1) parse, the tokens read followed by the terminal
/// labels under the stack entries' nodes in the finished tree stay the
/// same; so a run that ends in success has read, before `$`, exactly the
/// terminal labels of the tree.
proof fn lemma_trace_leaves(
    g: SpecGrammar,
    t: Map<(SpecSymbol, SpecSymbol), Seq<crate::symbols::Symbol>>,
    iv: Seq<Seq<char>>,
    stack: Seq<(SpecSymbol, usize)>,
    pos: int,
    step: int,
    ls: Seq<ArenaNode>,
    es: Seq<(usize, usize)>,
    fuel: nat,
    fl: Seq<ArenaNode>,
    fe: Seq<(usize, usize)>,
    target: Seq<Seq<char>>,
)
    requires
        cells_are_rights(g, t),
        !in_rhs(g, dollar()),
        fl == ll1_tree_trace(t, iv, stack, pos, ls, es, fuel).0,
        fe == ll1_tree_trace(t, iv, stack, pos, ls, es, fuel).1,
        fl.len() <= usize::MAX,
        upward(es, ls.len() as int),
        entries_fresh(stack, ls, es),
        entries_typed(stack, ls),
        dollar_at_bottom(stack),
        0 <= pos <= iv.len(),
        iv.take(pos) + stack_yield(fl, fe, stack) == target,
    ensures
        ll1_trace(true, t, iv, firsts(stack), pos, step, fuel) matches Ok(sn) && sn.len() > 0 && sn.last().action == "Success!"@
            ==> exists|k: int| 0 <= k < iv.len() && iv[k] == "$"@ && target == iv.take(k) + seq!["$"@],
    decreases fuel,
{
    let sv = firsts(stack);
    if fuel == 0 || stack.len() == 0 || !(0 <= pos < iv.len()) {
        return;
    }
    lemma_kinds_differ();
    let top = stack.last().0;
    let id = stack.last().1;
    let cur = iv[pos];
    let cur_sym = SpecSymbol::Terminal(cur);
    let rest = stack.drop_last();
    assert(stack.last() == stack[stack.len() - 1]);
    assert(sv.last() == top);
    assert(firsts(rest) =~= sv.drop_last());
    assert(ids_ok(stack, ls.len() as int));
    lemma_trace_keeps(t, iv, stack, pos, ls, es, fuel);
    assert(fl[id as int] == ls[id as int]);
    let y = node_yield(fl, fe, id);
    assert(stack_yield(fl, fe, stack) == y + stack_yield(fl, fe, rest));
    assert(entries_fresh(rest, ls, es) && entries_typed(rest, ls)) by {
        assert forall|j: int| 0 <= j < rest.len() implies #[trigger] rest[j] == stack[j] by {}
    }
    lemma_node_yield(fl, fe, id);
    if top == cur_sym {
        if top == dollar() {
            if stack.len() > 1 {
                assert(stack[stack.len() - 1].0 != dollar());
            }
            assert(rest.len() == 0);
            assert(fl[id as int] == (sym_text(top), kind_text(top)));
            assert(y == seq!["$"@]);
            assert(target == iv.take(pos) + seq!["$"@]);
            return;
        }
        assert(stack.len() >= 2);
        assert(y == seq![cur]);
        assert(iv.take(pos + 1) =~= iv.take(pos).push(cur));
        assert(iv.take(pos + 1) + stack_yield(fl, fe, rest) =~= iv.take(pos) + stack_yield(fl, fe, stack));
        assert(dollar_at_bottom(rest)) by {
            assert(rest[0] == stack[0]);
            assert forall|j: int| 1 <= j < rest.len() implies (#[trigger] rest[j]).0 != dollar() by {
                assert(rest[j] == stack[j]);
            }
        }
        lemma_trace_leaves(g, t, iv, rest, pos + 1, step + 1, ls, es, (fuel - 1) as nat, fl, fe, target);
        let rec = ll1_trace(true, t, iv, firsts(rest), pos + 1, step + 1, (fuel - 1) as nat);
        let snap = crate::symbols::SpecSnapshot { step: step as usize, stack: sv, input_remaining: iv.skip(pos), action: "Match terminal: "@ + cur };
        assert(ll1_trace(true, t, iv, sv, pos, step, fuel) == prepend(snap, rec));
        if let Ok(sn2) = rec {
            if sn2.len() > 0 {
                assert((seq![snap] + sn2).last() == sn2.last());
            } else {
                assert((seq![snap] + sn2).last() == snap);
                lemma_match_text_not_success(cur);
            }
        }
        return;
    }
    if !(top is NonTerminal && t.contains_key((top, cur_sym))) {
        return;
    }
    let rhs = syms_view(t[(top, cur_sym)]);
    let i = choose|i: int| 0 <= i < g.productions.len() && g.productions[i].left == top
        && #[trigger] g.productions[i].right == syms_view(t[(top, cur_sym)]);
    assert forall|q: int| 0 <= q < rhs.len() implies rhs[q] != dollar() by {
        if rhs[q] == dollar() {
            assert(g.productions[i].right[q] == dollar());
        }
    }
    assert(stack.len() >= 2);
    assert(dollar_at_bottom(rest)) by {
        assert(rest[0] == stack[0]);
        assert forall|j: int| 1 <= j < rest.len() implies (#[trigger] rest[j]).0 != dollar() by {
            assert(rest[j] == stack[j]);
        }
    }
    let next = ls.len() as usize;
    assert(id < ls.len() && children_of(es, id).len() == 0 && ls[id as int] == (sym_text(top), "non_terminal"@));
    let action = if expands_to_nothing(rhs) {
        sym_text(top) + " ->"@ + " ϵ"@
    } else {
        sym_text(top) + " ->"@ + rhs_text(rhs, true)
    };
    let snap = crate::symbols::SpecSnapshot { step: step as usize, stack: sv, input_remaining: iv.skip(pos), action };
    if expands_to_nothing(rhs) {
        let ls2 = ls.push(("ϵ"@, "epsilon"@));
        let es2 = es.push((id, next));
        lemma_trace_grows(t, iv, rest, pos, ls2, es2, (fuel - 1) as nat);
        assert(next == ls.len());
        assert(upward(es2, ls2.len() as int)) by {
            assert forall|k: int| 0 <= k < es2.len() implies (#[trigger] es2[k]).0 < es2[k].1 < ls2.len() by {
                if k < es.len() {
                    assert(es2[k] == es[k]);
                }
            }
        }
        assert forall|p: usize| p != id implies #[trigger] children_of(es2, p) == children_of(es, p) by {
            lemma_children_push(es, (id, next), p);
        }
        lemma_children_push(es, (id, next), id);
        assert(children_of(es2, id) =~= seq![next]);
        assert(entries_fresh(rest, ls2, es2) && entries_typed(rest, ls2)) by {
            assert forall|j: int| 0 <= j < rest.len() implies (#[trigger] rest[j]).1 < ls2.len()
                && children_of(es2, rest[j].1).len() == 0 && ls2[rest[j].1 as int].0 == sym_text(rest[j].0)
                && (rest[j].0 is NonTerminal ==> ls2[rest[j].1 as int].1 == "non_terminal"@)
                && ls2[rest[j].1 as int].1 == kind_text(rest[j].0) by {
                assert(rest[j] == stack[j]);
                assert(stack[j].1 != stack[stack.len() - 1].1);
            }
        }
        assert(ids_ok(rest, ls2.len() as int));
        lemma_trace_keeps(t, iv, rest, pos, ls2, es2, (fuel - 1) as nat);
        assert(off_stack(rest, id)) by {
            assert forall|j: int| 0 <= j < rest.len() implies (#[trigger] rest[j]).1 != id by {
                assert(rest[j] == stack[j]);
            }
        }
        assert(off_stack(rest, next));
        lemma_children_none(es, next);
        lemma_children_push(es, (id, next), next);
        assert(children_of(fe, id) == seq![next]);
        assert(children_of(fe, next).len() == 0);
        assert(fl[next as int] == ls2[next as int]);
        lemma_node_yield(fl, fe, next);
        assert(kids_yield(fl, fe, children_of(fe, next)) == Seq::<Seq<char>>::empty());
        assert(seq![next].drop_first() =~= Seq::<usize>::empty());
        assert(y == node_yield(fl, fe, next) + kids_yield(fl, fe, Seq::<usize>::empty()));
        assert(y =~= Seq::<Seq<char>>::empty());
        assert(iv.take(pos) + stack_yield(fl, fe, rest) =~= target);
        lemma_trace_leaves(g, t, iv, rest, pos, step + 1, ls2, es2, (fuel - 1) as nat, fl, fe, target);
        let rec = ll1_trace(true, t, iv, firsts(rest), pos, step + 1, (fuel - 1) as nat);
        assert(ll1_trace(true, t, iv, sv, pos, step, fuel) == prepend(snap, rec));
        if let Ok(sn2) = rec {
            if sn2.len() > 0 {
                assert((seq![snap] + sn2).last() == sn2.last());
            } else {
                assert((seq![snap] + sn2).last() == snap);
                lemma_expand_text_not_success(sym_text(top), " ϵ"@);
            }
        }
    } else {
        let ls2 = expand_nodes(ls, rhs);
        let es2 = expand_edges(es, id, rhs, next);
        let pe = pushed_entries(rhs, next);
        let st2 = rest + pe;
        lemma_trace_grows(t, iv, st2, pos, ls2, es2, (fuel - 1) as nat);
        lemma_expand_nodes_len(ls, rhs);
        lemma_expand(ls, es, id, rhs, next);
        let cnt = non_eps_texts(rhs).len();
        let ids = Seq::new(cnt, |k: int| (next + k) as usize);
        assert(upward(es2, ls2.len() as int)) by {
            assert forall|k: int| 0 <= k < es2.len() implies (#[trigger] es2[k]).0 < es2[k].1 < ls2.len() by {
                if k < es.len() {
                    assert(es2[k] == es[k]);
                } else {
                    assert(es2[k] == (id, (next + (k - es.len())) as usize));
                }
            }
        }
        assert(entries_fresh(st2, ls2, es2) && entries_typed(st2, ls2)) by {
            assert forall|j: int| 0 <= j < st2.len() implies (#[trigger] st2[j]).1 < ls2.len()
                && children_of(es2, st2[j].1).len() == 0 && ls2[st2[j].1 as int].0 == sym_text(st2[j].0)
                && (st2[j].0 is NonTerminal ==> ls2[st2[j].1 as int].1 == "non_terminal"@)
                && ls2[st2[j].1 as int].1 == kind_text(st2[j].0) by {
                if j < rest.len() {
                    assert(st2[j] == stack[j]);
                    assert(stack[j].1 != stack[stack.len() - 1].1);
                    assert(ls2[stack[j].1 as int] == ls[stack[j].1 as int]);
                } else {
                    assert(st2[j] == pe[j - rest.len()]);
                    lemma_children_none(es, st2[j].1);
                }
            }
            assert forall|a: int, b: int| 0 <= a < b < st2.len() implies (#[trigger] st2[a]).1 != (#[trigger] st2[b]).1 by {
                if b < rest.len() {
                    assert(st2[a] == stack[a] && st2[b] == stack[b]);
                } else if a < rest.len() {
                    assert(st2[a] == stack[a]);
                    assert(st2[b] == pe[b - rest.len()]);
                } else {
                    assert(st2[a] == pe[a - rest.len()]);
                    assert(st2[b] == pe[b - rest.len()]);
                }
            }
        }
        assert(dollar_at_bottom(st2)) by {
            assert(st2[0] == rest[0]);
            assert forall|j: int| 1 <= j < st2.len() implies (#[trigger] st2[j]).0 != dollar() by {
                if j < rest.len() {
                    assert(st2[j] == rest[j]);
                } else {
                    assert(st2[j] == pe[j - rest.len()]);
                    assert(rhs.contains(pe[j - rest.len()].0));
                }
            }
        }
        assert(ids_ok(st2, ls2.len() as int));
        lemma_trace_keeps(t, iv, st2, pos, ls2, es2, (fuel - 1) as nat);
        assert(off_stack(st2, id)) by {
            assert forall|j: int| 0 <= j < st2.len() implies (#[trigger] st2[j]).1 != id by {
                if j < rest.len() {
                    assert(st2[j] == stack[j]);
                } else {
                    assert(st2[j] == pe[j - rest.len()]);
                }
            }
        }
        assert(children_of(fe, id) == children_of(es2, id));
        assert(children_of(fe, id) =~= ids);
        assert(y == kids_yield(fl, fe, ids));
        lemma_stack_yield_concat(fl, fe, rest, pe);
        assert forall|j: int| 0 <= j < ids.len() implies pe[pe.len() - 1 - j].1 == #[trigger] ids[j] by {}
        lemma_stack_yield_ids(fl, fe, pe, ids);
        assert(iv.take(pos) + stack_yield(fl, fe, st2) =~= target);
        lemma_trace_leaves(g, t, iv, st2, pos, step + 1, ls2, es2, (fuel - 1) as nat, fl, fe, target);
        lemma_firsts_pushed(rhs, next);
        assert(firsts(st2) =~= sv.drop_last() + pushed(rhs));
        let rec = ll1_trace(true, t, iv, firsts(st2), pos, step + 1, (fuel - 1) as nat);
        assert(ll1_trace(true, t, iv, sv, pos, step, fuel) == prepend(snap, rec));
        if let Ok(sn2) = rec {
            if sn2.len() > 0 {
                assert((seq![snap] + sn2).last() == sn2.last());
            } else {
                assert((seq![snap] + sn2).last() == snap);
                lemma_expand_text_not_success(sym_text(top), rhs_text(rhs, true));
            }
        }
    }
}

/// A successful LL(1) parse builds a tree whose terminal leaves spell the
/// tokens it read before the end marker: all the tokens, when none of them
/// is `$`. (This needs `$` to be no symbol of a right side and the start
/// symbol to be a non-terminal; a parse makes at most `usize::MAX` nodes.)
pub proof fn ll1_tree_leaves_spell_input(p: LL1Parser, input: Seq<String>)
    requires
        p.analyzed(),
        !in_rhs(p.grammar@, dollar()),
        p.grammar@.start is NonTerminal,
        ll1_arena(p.table@, p.grammar@.start, input).0.len() <= usize::MAX,
    ensures
        ll1_parse_spec(true, p.table@, p.grammar@.start, input) matches Ok(sn) && sn.len() > 0 && sn.last().action == "Success!"@
            ==> {
            &&& exists|k: int| 0 <= k <= input.len() && with_end_marker(input)[k] == "$"@
                && leaves(ll1_tree_spec(p.table@, p.grammar@.start, input)) == strs_view(input).take(k)
            &&& (forall|j: int| 0 <= j < input.len() ==> strs_view(input)[j] != "$"@)
                ==> leaves(ll1_tree_spec(p.table@, p.grammar@.start, input)) == strs_view(input)
        },
{
    let g = p.grammar@;
    let f = first_relation(g);
    let fo = follow_relation(g, f);
    let t = p.table@;
    assert forall|a: SpecSymbol, x: SpecSymbol| #[trigger] t.contains_key((a, x)) implies exists|i: int|
        0 <= i < g.productions.len() && g.productions[i].left == a && #[trigger] g.productions[i].right == syms_view(t[(a, x)]) by {
        let i = choose|i: int| 0 <= i < g.productions.len() && g.productions[i].left == a && #[trigger] selects(f, fo, g.productions[i], x);
        assert(syms_view(t[(g.productions[i].left, x)]) == g.productions[i].right);
    }
    let iv = with_end_marker(input);
    let stack = seq![(dollar(), 1usize), (g.start, 0usize)];
    let ls = seq![(sym_text(g.start), "non_terminal"@), ("$"@, "terminal"@)];
    let es = Seq::<(usize, usize)>::empty();
    let fuel = (usize::MAX + 1) as nat;
    let r = ll1_tree_trace(t, iv, stack, 0, ls, es, fuel);
    let fl = r.0;
    let fe = r.1;
    assert(children_of(es, 0) =~= Seq::<usize>::empty());
    assert(children_of(es, 1) =~= Seq::<usize>::empty());
    assert(entries_fresh(stack, ls, es));
    assert(entries_typed(stack, ls));
    assert(ids_ok(stack, ls.len() as int));
    lemma_trace_keeps(t, iv, stack, 0, ls, es, fuel);
    lemma_kinds_differ();
    assert(fl[1] == ls[1]);
    lemma_node_yield(fl, fe, 1);
    let target = node_yield(fl, fe, 0) + seq!["$"@];
    assert(stack.drop_last() =~= seq![(dollar(), 1usize)]);
    assert(stack.drop_last().drop_last() =~= Seq::<(SpecSymbol, usize)>::empty());
    assert(stack_yield(fl, fe, seq![(dollar(), 1usize)]) == node_yield(fl, fe, 1) + stack_yield(fl, fe, Seq::<(SpecSymbol, usize)>::empty()));
    assert(iv.take(0) + stack_yield(fl, fe, stack) =~= target);
    lemma_trace_leaves(g, t, iv, stack, 0, 0, ls, es, fuel, fl, fe, target);
    assert(firsts(stack) =~= seq![dollar(), g.start]);
    let tree = ll1_tree_spec(t, g.start, input);
    assert(leaves(tree) == node_yield(fl, fe, 0));
    if ll1_parse_spec(true, t, g.start, input) matches Ok(sn) && sn.len() > 0 && sn.last().action == "Success!"@ {
        let k = choose|k: int| 0 <= k < iv.len() && iv[k] == "$"@ && target == iv.take(k) + seq!["$"@];
        assert(node_yield(fl, fe, 0) =~= (iv.take(k) + seq!["$"@]).drop_last());
        assert(iv.take(k) =~= strs_view(input).take(k));
        if forall|j: int| 0 <= j < input.len() ==> strs_view(input)[j] != "$"@ {
            if k < input.len() {
                assert(iv[k] == strs_view(input)[k]);
            }
            assert(strs_view(input).take(input.len() as int) =~= strs_view(input));
        }
    }
}

} // verus!
