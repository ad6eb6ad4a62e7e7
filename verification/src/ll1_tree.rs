//! The LL(1) parse that also builds the parse tree: every expansion of a
//! non-terminal gives its node one child per symbol of the right side (or a
//! single ϵ child), numbered in the order they are created.

use vstd::prelude::*;
use crate::collections::views;
use crate::symbols::{Symbol, SpecSymbol, ParseSnapshot, SpecSnapshot, syms_view, strs_view, sym_text, copy_strings_from};
use crate::text::concat;
use crate::tree::{ParseTreeNode, SpecTree, trees_view, lemma_trees_view_push};
use crate::ll1::{
    LL1Parser, ll1_trace, ll1_parse_spec, with_end_marker, prepend, prepend_all, pushed, expands_to_nothing, dollar,
    expansion_action, spaced_texts, spaced_texts_skip_eps, first_relation, follow_relation, selects,
};
use crate::derivation::eps_alone;

verus! {

/// A node under construction: its label and its kind.
pub type ArenaNode = (Seq<char>, Seq<char>);

/// The kind of the node made for a symbol of a right side.
pub open spec fn kind_text(s: SpecSymbol) -> Seq<char> {
    if s is NonTerminal {
        "non_terminal"@
    } else {
        "terminal"@
    }
}

/// The nodes after those made for the symbols of `rhs` other than ϵ.
pub open spec fn expand_nodes(ls: Seq<ArenaNode>, rhs: Seq<SpecSymbol>) -> Seq<ArenaNode>
    decreases rhs.len(),
{
    if rhs.len() == 0 {
        ls
    } else if rhs[0] == SpecSymbol::Epsilon {
        expand_nodes(ls, rhs.drop_first())
    } else {
        expand_nodes(ls.push((sym_text(rhs[0]), kind_text(rhs[0]))), rhs.drop_first())
    }
}

/// The edges after those from `parent` to the new nodes, numbered from `next`.
pub open spec fn expand_edges(es: Seq<(usize, usize)>, parent: usize, rhs: Seq<SpecSymbol>, next: usize) -> Seq<(usize, usize)>
    decreases rhs.len(),
{
    if rhs.len() == 0 {
        es
    } else if rhs[0] == SpecSymbol::Epsilon {
        expand_edges(es, parent, rhs.drop_first(), next)
    } else {
        expand_edges(es.push((parent, next)), parent, rhs.drop_first(), (next + 1) as usize)
    }
}

/// The stack entries (symbol, node) pushed for the new nodes, last first.
pub open spec fn pushed_entries(rhs: Seq<SpecSymbol>, next: usize) -> Seq<(SpecSymbol, usize)>
    decreases rhs.len(),
{
    if rhs.len() == 0 {
        Seq::empty()
    } else if rhs[0] == SpecSymbol::Epsilon {
        pushed_entries(rhs.drop_first(), next)
    } else {
        pushed_entries(rhs.drop_first(), (next + 1) as usize).push((rhs[0], next))
    }
}

/// The symbols of stack entries.
pub open spec fn firsts(s: Seq<(SpecSymbol, usize)>) -> Seq<SpecSymbol> {
    s.map_values(|e: (SpecSymbol, usize)| e.0)
}

/// The nodes and edges the LL(1) parse has made when it stops, from the
/// given stack of entries, input position, nodes and edges.
pub open spec fn ll1_tree_trace(
    t: Map<(SpecSymbol, SpecSymbol), Seq<Symbol>>,
    input: Seq<Seq<char>>,
    stack: Seq<(SpecSymbol, usize)>,
    pos: int,
    ls: Seq<ArenaNode>,
    es: Seq<(usize, usize)>,
    fuel: nat,
) -> (Seq<ArenaNode>, Seq<(usize, usize)>)
    decreases fuel,
{
    if fuel == 0 || stack.len() == 0 || !(0 <= pos < input.len()) {
        (ls, es)
    } else {
        let top = stack.last().0;
        let id = stack.last().1;
        let cur_sym = SpecSymbol::Terminal(input[pos]);
        if top == cur_sym {
            if top == dollar() {
                (ls, es)
            } else {
                ll1_tree_trace(t, input, stack.drop_last(), pos + 1, ls, es, (fuel - 1) as nat)
            }
        } else if top is NonTerminal && t.contains_key((top, cur_sym)) {
            let rhs = syms_view(t[(top, cur_sym)]);
            let next = ls.len() as usize;
            if expands_to_nothing(rhs) {
                ll1_tree_trace(
                    t, input, stack.drop_last(), pos, ls.push(("ϵ"@, "epsilon"@)), es.push((id, next)),
                    (fuel - 1) as nat,
                )
            } else {
                ll1_tree_trace(
                    t, input, stack.drop_last() + pushed_entries(rhs, next), pos, expand_nodes(ls, rhs),
                    expand_edges(es, id, rhs, next), (fuel - 1) as nat,
                )
            }
        } else {
            (ls, es)
        }
    }
}

/// The targets of the edges leaving `p`, in the order the edges were made.
pub open spec fn children_of(es: Seq<(usize, usize)>, p: usize) -> Seq<usize>
    decreases es.len(),
{
    if es.len() == 0 {
        Seq::empty()
    } else if es.last().0 == p {
        children_of(es.drop_last(), p).push(es.last().1)
    } else {
        children_of(es.drop_last(), p)
    }
}

/// The tree rooted at node `id` (down to depth `fuel`).
pub open spec fn arena_tree(ls: Seq<ArenaNode>, es: Seq<(usize, usize)>, id: usize, fuel: nat) -> SpecTree
    decreases fuel, 0nat,
{
    SpecTree {
        id,
        label: ls[id as int].0,
        kind: ls[id as int].1,
        children: if fuel == 0 { Seq::empty() } else { arena_forest(ls, es, children_of(es, id), (fuel - 1) as nat) },
    }
}

/// The trees rooted at the nodes `kids`.
pub open spec fn arena_forest(ls: Seq<ArenaNode>, es: Seq<(usize, usize)>, kids: Seq<usize>, fuel: nat) -> Seq<SpecTree>
    decreases fuel, kids.len(),
{
    if kids.len() == 0 {
        Seq::empty()
    } else {
        arena_forest(ls, es, kids.drop_last(), fuel).push(arena_tree(ls, es, kids.last(), fuel))
    }
}

/// The nodes and edges the LL(1) parse of the tokens makes: node 0 is the
/// start symbol, node 1 the `$` at the bottom of the stack.
pub open spec fn ll1_arena(t: Map<(SpecSymbol, SpecSymbol), Seq<Symbol>>, start: SpecSymbol, input: Seq<String>) -> (Seq<ArenaNode>, Seq<(usize, usize)>) {
    ll1_tree_trace(
        t,
        with_end_marker(input),
        seq![(dollar(), 1usize), (start, 0usize)],
        0,
        seq![(sym_text(start), "non_terminal"@), ("$"@, "terminal"@)],
        Seq::empty(),
        (usize::MAX + 1) as nat,
    )
}

/// The parse tree of the LL(1) parse of the tokens, rooted at the start
/// symbol.
pub open spec fn ll1_tree_spec(t: Map<(SpecSymbol, SpecSymbol), Seq<Symbol>>, start: SpecSymbol, input: Seq<String>) -> SpecTree {
    let r = ll1_arena(t, start, input);
    arena_tree(r.0, r.1, 0, r.0.len())
}

pub proof fn lemma_firsts_pushed(rhs: Seq<SpecSymbol>, next: usize)
    ensures
        firsts(pushed_entries(rhs, next)) == pushed(rhs),
    decreases rhs.len(),
{
    if rhs.len() > 0 {
        if rhs[0] == SpecSymbol::Epsilon {
            lemma_firsts_pushed(rhs.drop_first(), next);
        } else {
            lemma_firsts_pushed(rhs.drop_first(), (next + 1) as usize);
            assert(firsts(pushed_entries(rhs, next)) =~= firsts(pushed_entries(rhs.drop_first(), (next + 1) as usize)).push(rhs[0]));
        }
    }
}

/// Edges only lead to existing nodes.
pub open spec fn edges_ok(es: Seq<(usize, usize)>, n: int) -> bool {
    forall|k: int| 0 <= k < es.len() ==> #[trigger] es[k].1 < n
}

/// Makes the nodes and edges for an expansion of node `parent` by `rhs` and
/// pushes their stack entries.
fn expand_into(
    stack: &mut Vec<(Symbol, usize)>,
    nodes: &mut Vec<(String, String)>,
    edges: &mut Vec<(usize, usize)>,
    parent: usize,
    rhs: &Vec<Symbol>,
)
    requires
        edges_ok(old(edges)@, old(nodes)@.len() as int),
    ensures
        views(final(stack)@) == views(old(stack)@) + pushed_entries(syms_view(rhs@), old(nodes)@.len() as usize),
        views(final(nodes)@) == expand_nodes(views(old(nodes)@), syms_view(rhs@)),
        final(edges)@ == expand_edges(old(edges)@, parent, syms_view(rhs@), old(nodes)@.len() as usize),
        edges_ok(final(edges)@, final(nodes)@.len() as int),
        final(nodes)@.len() >= old(nodes)@.len(),
{
    let ghost rv = syms_view(rhs@);
    let ghost n0 = views(nodes@);
    let ghost e0 = edges@;
    let ghost l0 = nodes@.len() as usize;
    let ghost s0 = views(stack@);
    let mut entries: Vec<(Symbol, usize)> = Vec::new();
    let mut i: usize = 0;
    assert(rv.skip(0) =~= rv);
    assert(views(entries@).reverse() =~= Seq::<(SpecSymbol, usize)>::empty());
    assert(pushed_entries(rv, l0) =~= pushed_entries(rv.skip(0), l0) + Seq::<(SpecSymbol, usize)>::empty());
    while i < rhs.len()
        invariant
            rv == syms_view(rhs@),
            i <= rhs@.len(),
            views(stack@) == s0,
            expand_nodes(n0, rv) == expand_nodes(views(nodes@), rv.skip(i as int)),
            expand_edges(e0, parent, rv, l0) == expand_edges(edges@, parent, rv.skip(i as int), nodes@.len() as usize),
            pushed_entries(rv, l0) == pushed_entries(rv.skip(i as int), nodes@.len() as usize) + views(entries@).reverse(),
            edges_ok(edges@, nodes@.len() as int),
            nodes@.len() >= n0.len(),
        decreases rhs.len() - i,
    {
        let ghost sk = rv.skip(i as int);
        assert(sk.drop_first() =~= rv.skip(i + 1));
        assert(sk[0] == rhs@[i as int]@);
        if !rhs[i].is_epsilon() {
            let cid = nodes.len();
            let label = rhs[i].to_text();
            let kind = if rhs[i].is_nonterminal() {
                String::from_str("non_terminal")
            } else {
                String::from_str("terminal")
            };
            let ghost nv = views(nodes@);
            let ghost ev = edges@;
            let ghost old_entries = views(entries@);
            nodes.push((label, kind));
            assert(nodes@.len() == nodes.len());
            assert(views(nodes@) =~= nv.push((sym_text(sk[0]), kind_text(sk[0]))));
            edges.push((parent, cid));
            entries.push((rhs[i].copy(), cid));
            assert(views(entries@) =~= old_entries.push((sk[0], cid)));
            assert(views(entries@).reverse() =~= seq![(sk[0], cid)] + old_entries.reverse());
            assert(pushed_entries(sk, cid) == pushed_entries(rv.skip(i + 1), (cid + 1) as usize).push((sk[0], cid)));
            assert(pushed_entries(rv.skip(i + 1), (cid + 1) as usize).push((sk[0], cid)) + old_entries.reverse()
                =~= pushed_entries(rv.skip(i + 1), (cid + 1) as usize) + views(entries@).reverse());
            assert(edges_ok(edges@, nodes@.len() as int)) by {
                assert forall|k: int| 0 <= k < edges@.len() implies #[trigger] edges@[k].1 < nodes@.len() by {
                    if k < ev.len() {
                        assert(edges@[k] == ev[k]);
                    }
                }
            }
        }
        i += 1;
    }
    assert(rv.skip(rhs@.len() as int) =~= Seq::<SpecSymbol>::empty());
    assert(pushed_entries(rv, l0) =~= views(entries@).reverse());
    let ghost target = pushed_entries(rv, l0);
    while entries.len() > 0
        invariant
            views(stack@) + views(entries@).reverse() == s0 + target,
        decreases entries.len(),
    {
        let ghost ev = views(entries@);
        let ghost sv = views(stack@);
        let e = entries.pop().unwrap();
        assert(views(entries@) =~= ev.drop_last());
        assert(ev.reverse() =~= seq![ev.last()] + ev.drop_last().reverse());
        stack.push(e);
        assert(views(stack@) =~= sv.push(ev.last()));
        assert(views(stack@) + views(entries@).reverse() =~= sv + ev.reverse());
    }
    assert(views(stack@) =~= views(stack@) + views(entries@).reverse());
}

/// For each node below `n`, the targets of its edges.
fn kid_lists(edges: &Vec<(usize, usize)>, n: usize) -> (r: Vec<Vec<usize>>)
    ensures
        r@.len() == n,
        forall|i: int| 0 <= i < n ==> #[trigger] r@[i]@ == children_of(edges@, i as usize),
{
    let mut r: Vec<Vec<usize>> = Vec::new();
    let mut p: usize = 0;
    while p < n
        invariant
            p <= n,
            r@.len() == p,
            forall|i: int| 0 <= i < p ==> #[trigger] r@[i]@ == children_of(edges@, i as usize),
        decreases n - p,
    {
        let mut kids: Vec<usize> = Vec::new();
        let mut j: usize = 0;
        assert(edges@.take(0) =~= Seq::<(usize, usize)>::empty());
        while j < edges.len()
            invariant
                j <= edges@.len(),
                kids@ == children_of(edges@.take(j as int), p),
            decreases edges.len() - j,
        {
            assert(edges@.take(j + 1).drop_last() =~= edges@.take(j as int));
            if edges[j].0 == p {
                kids.push(edges[j].1);
            }
            j += 1;
        }
        assert(edges@.take(edges@.len() as int) =~= edges@);
        r.push(kids);
        p += 1;
    }
    r
}

/// Builds the tree rooted at node `id`, down to depth `fuel`.
fn build_tree(
    nodes: &Vec<(String, String)>,
    kids: &Vec<Vec<usize>>,
    id: usize,
    fuel: usize,
    Ghost(es): Ghost<Seq<(usize, usize)>>,
) -> (r: ParseTreeNode)
    requires
        id < nodes@.len(),
        kids@.len() == nodes@.len(),
        forall|i: int| 0 <= i < nodes@.len() ==> #[trigger] kids@[i]@ == children_of(es, i as usize),
        edges_ok(es, nodes@.len() as int),
        forall|i: int, k: int| 0 <= i < kids@.len() && 0 <= k < kids@[i]@.len() ==> #[trigger] kids@[i]@[k] < nodes@.len(),
    ensures
        r@ == arena_tree(views(nodes@), es, id, fuel as nat),
    decreases fuel,
{
    let ghost ls = views(nodes@);
    let mut children: Vec<ParseTreeNode> = Vec::new();
    if fuel > 0 {
        let ks = &kids[id];
        let ghost kv = ks@;
        let mut k: usize = 0;
        assert(kv.take(0) =~= Seq::<usize>::empty());
        while k < ks.len()
            invariant
                ks@ == kv,
                kv == children_of(es, id),
                k <= kv.len(),
                id < nodes@.len(),
                kids@.len() == nodes@.len(),
                kv == kids@[id as int]@,
                forall|i: int, k2: int| 0 <= i < kids@.len() && 0 <= k2 < kids@[i]@.len() ==> #[trigger] kids@[i]@[k2] < nodes@.len(),
                forall|i: int| 0 <= i < nodes@.len() ==> #[trigger] kids@[i]@ == children_of(es, i as usize),
                edges_ok(es, nodes@.len() as int),
                fuel > 0,
                ls == views(nodes@),
                trees_view(children@) == arena_forest(ls, es, kv.take(k as int), (fuel - 1) as nat),
            decreases kv.len() - k,
        {
            assert(kv.take(k + 1).drop_last() =~= kv.take(k as int));
            assert(kids@[id as int]@[k as int] < nodes@.len());
            let c = build_tree(nodes, kids, ks[k], fuel - 1, Ghost(es));
            proof {
                lemma_trees_view_push(children@, c);
            }
            children.push(c);
            k += 1;
        }
        assert(kv.take(kv.len() as int) =~= kv);
    }
    let r = ParseTreeNode { id, label: nodes[id].0.clone(), node_type: nodes[id].1.clone(), children };
    assert(ls[id as int] == (nodes@[id as int].0@, nodes@[id as int].1@));
    r
}

/// The symbols of the stack entries.
fn entry_symbols(stack: &Vec<(Symbol, usize)>) -> (r: Vec<Symbol>)
    ensures
        syms_view(r@) == firsts(views(stack@)),
{
    let mut r: Vec<Symbol> = Vec::new();
    let mut i: usize = 0;
    while i < stack.len()
        invariant
            i <= stack@.len(),
            syms_view(r@) == firsts(views(stack@)).take(i as int),
        decreases stack.len() - i,
    {
        let ghost before = r@;
        r.push(stack[i].0.copy());
        assert(syms_view(r@) =~= syms_view(before).push(stack@[i as int].0@));
        assert(firsts(views(stack@)).take(i + 1) =~= firsts(views(stack@)).take(i as int).push(stack@[i as int].0@));
        i += 1;
    }
    assert(firsts(views(stack@)).take(stack@.len() as int) =~= firsts(views(stack@)));
    r
}

/// Leaving out `ϵ` changes nothing in a right side without it.
pub proof fn lemma_skip_eps_text(rhs: Seq<SpecSymbol>)
    requires
        forall|k: int| 0 <= k < rhs.len() ==> rhs[k] != SpecSymbol::Epsilon,
    ensures
        spaced_texts_skip_eps(rhs) == spaced_texts(rhs),
    decreases rhs.len(),
{
    if rhs.len() > 0 {
        assert(rhs.last() == rhs[rhs.len() - 1]);
        lemma_skip_eps_text(rhs.drop_last());
    }
}

/// The two step texts agree on a run whose table holds, in each cell, a
/// right side that is `ϵ` alone or has no `ϵ` in it.
proof fn lemma_trace_texts_agree(
    t: Map<(SpecSymbol, SpecSymbol), Seq<Symbol>>,
    input: Seq<Seq<char>>,
    stack: Seq<SpecSymbol>,
    pos: int,
    step: int,
    fuel: nat,
)
    requires
        forall|k: (SpecSymbol, SpecSymbol), q: int| t.contains_key(k) && 0 <= q < syms_view(t[k]).len()
            && #[trigger] syms_view(t[k])[q] == SpecSymbol::Epsilon ==> syms_view(t[k]).len() == 1,
    ensures
        ll1_trace(true, t, input, stack, pos, step, fuel) == ll1_trace(false, t, input, stack, pos, step, fuel),
    decreases fuel,
{
    if fuel == 0 || stack.len() == 0 || !(0 <= pos < input.len()) {
        return;
    }
    let top = stack.last();
    let cur = input[pos];
    let cur_sym = SpecSymbol::Terminal(cur);
    if top == cur_sym {
        if top != dollar() {
            lemma_trace_texts_agree(t, input, stack.drop_last(), pos + 1, step + 1, (fuel - 1) as nat);
        }
    } else if top is NonTerminal && t.contains_key((top, cur_sym)) {
        let rhs = syms_view(t[(top, cur_sym)]);
        if !expands_to_nothing(rhs) {
            assert forall|k: int| 0 <= k < rhs.len() implies rhs[k] != SpecSymbol::Epsilon by {
                if rhs[k] == SpecSymbol::Epsilon {
                    assert(rhs.len() == 1);
                }
            }
            lemma_skip_eps_text(rhs);
        }
        let new_stack = if expands_to_nothing(rhs) {
            stack.drop_last()
        } else {
            stack.drop_last() + pushed(rhs)
        };
        lemma_trace_texts_agree(t, input, new_stack, pos, step + 1, (fuel - 1) as nat);
    }
}

/// When `ϵ` stands alone on a right side, `parse_with_tree` gives the same
/// snapshots as `parse`, or the same error.
pub proof fn tree_parse_steps_are_parse_steps(p: LL1Parser, input: Seq<String>)
    requires
        p.analyzed(),
        eps_alone(p.grammar@),
    ensures
        ll1_parse_spec(true, p.table@, p.grammar@.start, input) == ll1_parse_spec(false, p.table@, p.grammar@.start, input),
{
    let g = p.grammar@;
    let f = first_relation(g);
    let fo = follow_relation(g, f);
    let t = p.table@;
    assert forall|k: (SpecSymbol, SpecSymbol), q: int| t.contains_key(k) && 0 <= q < syms_view(t[k]).len()
        && #[trigger] syms_view(t[k])[q] == SpecSymbol::Epsilon implies syms_view(t[k]).len() == 1 by {
        let i = choose|i: int| 0 <= i < g.productions.len() && g.productions[i].left == k.0 && #[trigger] selects(f, fo, g.productions[i], k.1);
        assert(syms_view(t[(g.productions[i].left, k.1)]) == g.productions[i].right);
        assert(g.productions[i].right[q] == SpecSymbol::Epsilon);
    }
    lemma_trace_texts_agree(t, with_end_marker(input), seq![dollar(), g.start], 0, 0, (usize::MAX + 1) as nat);
}

impl LL1Parser {
    /// The LL(1) parse of `parse`, which also builds the parse tree (see
    /// `ll1_tree_spec`): the snapshots are those `parse` gives, but an
    /// expansion step leaves the `ϵ` symbols of the right side out of its text.
    pub fn parse_with_tree(&self, input: Vec<String>) -> (r: Result<(Vec<ParseSnapshot>, ParseTreeNode), String>)
        requires
            self.wf(),
        ensures
            match r {
                Ok((v, tree)) => {
                    &&& ll1_parse_spec(true, self.table@, self.grammar.start_symbol@, input@) == Ok::<Seq<SpecSnapshot>, Seq<char>>(views(v@))
                    &&& tree@ == ll1_tree_spec(self.table@, self.grammar.start_symbol@, input@)
                },
                Err(e) => ll1_parse_spec(true, self.table@, self.grammar.start_symbol@, input@) == Err::<Seq<SpecSnapshot>, Seq<char>>(e@),
            },
    {
        let ghost full = ll1_parse_spec(true, self.table@, self.grammar.start_symbol@, input@);
        let ghost t = self.table@;
        let ghost start = self.grammar.start_symbol@;
        let mut toks = input;
        let ghost iv = with_end_marker(toks@);
        toks.push(String::from_str("$"));
        assert(strs_view(toks@) =~= iv);
        let mut nodes: Vec<(String, String)> = Vec::new();
        nodes.push((self.grammar.start_symbol.to_text(), String::from_str("non_terminal")));
        nodes.push((String::from_str("$"), String::from_str("terminal")));
        let mut edges: Vec<(usize, usize)> = Vec::new();
        let mut stack: Vec<(Symbol, usize)> = Vec::new();
        stack.push((Symbol::Terminal(String::from_str("$")), 1));
        stack.push((self.grammar.start_symbol.copy(), 0));
        assert(views(stack@) =~= seq![(dollar(), 1usize), (start, 0usize)]);
        assert(firsts(views(stack@)) =~= seq![dollar(), start]);
        assert(views(nodes@) =~= seq![(sym_text(start), "non_terminal"@), ("$"@, "terminal"@)]);
        assert(edges@ =~= Seq::<(usize, usize)>::empty());
        let ghost tfinal = ll1_tree_trace(t, iv, views(stack@), 0, views(nodes@), edges@, (usize::MAX + 1) as nat);
        let mut snapshots: Vec<ParseSnapshot> = Vec::new();
        let mut step: usize = 0;
        let mut ptr: usize = 0;
        assert(views(snapshots@) =~= Seq::<SpecSnapshot>::empty());
        while stack.len() > 0
            invariant
                t == self.table@,
                self.wf(),
                full == ll1_parse_spec(true, self.table@, self.grammar.start_symbol@, input@),
                iv == strs_view(toks@),
                iv.last() == "$"@,
                toks@.len() > 0,
                ptr < toks@.len(),
                step == snapshots@.len(),
                full == prepend_all(views(snapshots@), ll1_trace(true, t, iv, firsts(views(stack@)), ptr as int, step as int, (usize::MAX + 1 - step) as nat)),
                tfinal == ll1_tree_trace(t, iv, views(stack@), ptr as int, views(nodes@), edges@, (usize::MAX + 1 - step) as nat),
                tfinal == ll1_tree_trace(t, iv, seq![(dollar(), 1usize), (start, 0usize)], 0, seq![(sym_text(start), "non_terminal"@), ("$"@, "terminal"@)], Seq::empty(), (usize::MAX + 1) as nat),
                start == self.grammar.start_symbol@,
                edges_ok(edges@, nodes@.len() as int),
                nodes@.len() >= 2,
                iv == with_end_marker(input@),
            decreases usize::MAX - step,
        {
            let ghost fuel = (usize::MAX + 1 - step) as nat;
            let ghost ev = views(stack@);
            let ghost sv = firsts(ev);
            let ghost before = snapshots@;
            let entry_top = stack.len() - 1;
            let top = stack[entry_top].0.copy();
            let top_id = stack[entry_top].1;
            assert(sv.last() == top@);
            assert(ev.last() == (top@, top_id));
            let cur = toks[ptr].clone();
            let cur_sym = Symbol::Terminal(cur.clone());
            assert(iv[ptr as int] == cur@);
            let rest = copy_strings_from(&toks, ptr);
            assert(strs_view(rest@) =~= iv.skip(ptr as int));
            let stack_copy = entry_symbols(&stack);
            if top.same(&cur_sym) {
                if top.same(&Symbol::Terminal(String::from_str("$"))) {
                    let snap = ParseSnapshot { step, stack: stack_copy, input_remaining: rest, action: String::from_str("Success!") };
                    snapshots.push(snap);
                    assert(snapshots@.len() == snapshots.len());
                    assert(fuel > 0);
                    assert(snap@ == SpecSnapshot { step: step as usize, stack: sv, input_remaining: iv.skip(ptr as int), action: "Success!"@ });
                    assert(ll1_trace(true, t, iv, sv, ptr as int, step as int, fuel) == Ok::<Seq<SpecSnapshot>, Seq<char>>(seq![snap@]));
                    assert(views(snapshots@) =~= views(before).push(snap@));
                    assert(views(snapshots@) =~= views(before) + seq![snap@]);
                    assert(full == Ok::<Seq<SpecSnapshot>, Seq<char>>(views(snapshots@)));
                    assert(tfinal == (views(nodes@), edges@));
                    let kids = kid_lists(&edges, nodes.len());
                    assert forall|i: int, k: int| 0 <= i < kids@.len() && 0 <= k < kids@[i]@.len() implies #[trigger] kids@[i]@[k] < nodes@.len() by {
                        lemma_children_of_ok(edges@, i as usize, nodes@.len() as int);
                    }
                    let tree = build_tree(&nodes, &kids, 0, nodes.len(), Ghost(edges@));
                    return Ok((snapshots, tree));
                }
                let snap = ParseSnapshot { step, stack: stack_copy, input_remaining: rest, action: concat("Match terminal: ", cur.as_str()) };
                snapshots.push(snap);
                assert(snapshots@.len() == snapshots.len());
                assert(toks@.len() == toks.len());
                assert(views(snapshots@) =~= views(before).push(snap@));
                assert(ptr + 1 < toks@.len()) by {
                    assert(iv.last() == "$"@);
                    if ptr + 1 == toks@.len() {
                        assert(cur@ == "$"@);
                    }
                }
                stack.pop();
                assert(views(stack@) =~= ev.drop_last());
                assert(firsts(views(stack@)) =~= sv.drop_last());
                ptr += 1;
                step += 1;
                proof {
                    let tail = ll1_trace(true, t, iv, firsts(views(stack@)), ptr as int, step as int, (usize::MAX + 1 - step) as nat);
                    assert(prepend_all(views(snapshots@), tail) == prepend_all(views(before), prepend(snap@, tail))) by {
                        match tail {
                            Ok(tl) => { assert(views(snapshots@) + tl =~= views(before) + (seq![snap@] + tl)); },
                            Err(_) => {},
                        }
                    }
                }
            } else if top.is_nonterminal() {
                let key = (top.copy(), cur_sym.copy());
                match self.table.get(&key) {
                    Some(rhs) => {
                        let action = expansion_action(true, &top, rhs);
                        let snap = ParseSnapshot { step, stack: stack_copy, input_remaining: rest, action };
                        snapshots.push(snap);
                        assert(snapshots@.len() == snapshots.len());
                        assert(views(snapshots@) =~= views(before).push(snap@));
                        stack.pop();
                        assert(views(stack@) =~= ev.drop_last());
                        assert(firsts(views(stack@)) =~= sv.drop_last());
                        let ghost nv = views(nodes@);
                        let ghost edv = edges@;
                        if rhs.len() == 0 || rhs[0].is_epsilon() {
                            let cid = nodes.len();
                            nodes.push((String::from_str("ϵ"), String::from_str("epsilon")));
                            assert(nodes@.len() == nodes.len());
                            assert(views(nodes@) =~= nv.push(("ϵ"@, "epsilon"@)));
                            edges.push((top_id, cid));
                            assert(edges_ok(edges@, nodes@.len() as int)) by {
                                assert forall|k: int| 0 <= k < edges@.len() implies #[trigger] edges@[k].1 < nodes@.len() by {
                                    if k < edv.len() {
                                        assert(edges@[k] == edv[k]);
                                    }
                                }
                            }
                        } else {
                            let ghost before_stack = views(stack@);
                            expand_into(&mut stack, &mut nodes, &mut edges, top_id, rhs);
                            proof {
                                lemma_firsts_pushed(syms_view(rhs@), nv.len() as usize);
                                assert(firsts(views(stack@)) =~= firsts(before_stack) + firsts(pushed_entries(syms_view(rhs@), nv.len() as usize)));
                            }
                        }
                        step += 1;
                        proof {
                            let tail = ll1_trace(true, t, iv, firsts(views(stack@)), ptr as int, step as int, (usize::MAX + 1 - step) as nat);
                            assert(prepend_all(views(snapshots@), tail) == prepend_all(views(before), prepend(snap@, tail))) by {
                                match tail {
                                    Ok(tl) => { assert(views(snapshots@) + tl =~= views(before) + (seq![snap@] + tl)); },
                                    Err(_) => {},
                                }
                            }
                        }
                    },
                    None => {
                        let tt = top.to_text();
                        let mut msg = concat("Syntax Error: No rule for [", tt.as_str());
                        msg.append(", ");
                        msg.append(cur.as_str());
                        msg.append("]");
                        return Err(msg);
                    },
                }
            } else {
                let msg = concat("Syntax Error: Unexpected terminal ", cur.as_str());
                assert(fuel > 0);
                assert(ll1_trace(true, t, iv, sv, ptr as int, step as int, fuel) == Err::<Seq<SpecSnapshot>, Seq<char>>(msg@));
                return Err(msg);
            }
        }
        assert(firsts(views(stack@)).len() == 0);
        assert(views(snapshots@) + Seq::empty() =~= views(snapshots@));
        assert(tfinal == (views(nodes@), edges@));
        let kids = kid_lists(&edges, nodes.len());
        assert forall|i: int, k: int| 0 <= i < kids@.len() && 0 <= k < kids@[i]@.len() implies #[trigger] kids@[i]@[k] < nodes@.len() by {
            lemma_children_of_ok(edges@, i as usize, nodes@.len() as int);
        }
        let tree = build_tree(&nodes, &kids, 0, nodes.len(), Ghost(edges@));
        Ok((snapshots, tree))
    }
}

pub proof fn lemma_children_of_ok(es: Seq<(usize, usize)>, p: usize, n: int)
    requires
        edges_ok(es, n),
    ensures
        forall|k: int| 0 <= k < children_of(es, p).len() ==> #[trigger] children_of(es, p)[k] < n,
    decreases es.len(),
{
    if es.len() > 0 {
        assert(edges_ok(es.drop_last(), n)) by {
            assert forall|k: int| 0 <= k < es.drop_last().len() implies #[trigger] es.drop_last()[k].1 < n by {
                assert(es.drop_last()[k] == es[k]);
            }
        }
        lemma_children_of_ok(es.drop_last(), p, n);
        assert(es[es.len() - 1].1 < n);
        let f = children_of(es.drop_last(), p);
        if es.last().0 == p {
            assert forall|k: int| 0 <= k < children_of(es, p).len() implies #[trigger] children_of(es, p)[k] < n by {
                if k < f.len() {
                    assert(children_of(es, p)[k] == f[k]);
                }
            }
        }
    }
}

} // verus!
