//! Why a shift-reduce parse that accepts has found a derivation: each entry
//! of the tables comes from an item of its state, each state of the stack
//! is reached from the one below it by the symbol between them, and so each
//! reduction rewrites the symbols on top of the stack by a production.

use vstd::prelude::*;
use crate::symbols::{SpecSymbol, SpecProduction};
use crate::lr::{SpecAction, SpecDesc, ActMap, GotoMap, insert_action, insert_all, item_effect, items_effect, tables_spec, prod_index_from, LRState, lr_trace, reduced, pop_count, leaf};
use crate::symbols::{SpecGrammar, Production, prods_view, strs_view};
use crate::lr::{lr_parse_spec, cut_at};
use crate::recursive_descent::{built_by, lemma_kinds_differ};
use crate::tree::{
    SpecTree, leaves, leaves_all, labels, lemma_leaves_all_concat, lemma_leaves_all_single, ids, ids_all, ids_above, lemma_ids_all_concat,
    lemma_ids_all_single,
};
use crate::ll1::with_end_marker;
use crate::lr0::{LR0Parser, uniform_descs, lr0_lookaheads, states_view, augment};
use crate::slr1::{SLR1Parser, slr_descs};
use crate::lr1::{LR1Parser, SpecItem1, automaton1, closed1_set, expands1, start_item1, kernel1, advanced1, after_dot1, is_goto1, goto_target1, all_in1, lr1_descs, states_view1};
use crate::lr_sets::{StrRel, sfirst};
use crate::derivation::derives;
use crate::derivation::{derivation_of, derives_step, step_at, rhs_yield, terminals_of, eps_alone, lemma_derivation_prepend, lemma_derivation_suffix, with_suffix};
use crate::lr0::{next_sym, complete, SpecItem, automaton0, closed_set, expands, start_item, kernel0, advanced, after_dot, is_goto0, goto_target0, entered, all_in, aug_start};
use crate::symbols::{sym_text, is_epsilon_rhs};

verus! {

/// The action `a` at `(s, t)` comes from an item of state `s`: a shift from
/// an item with the terminal `t` after its dot, to the state the transitions
/// give; a reduce from a complete item (not of `aug`) of the production it
/// names, that reduces on `t`; an accept, on `$`, from a complete item of `aug`.
pub open spec fn justified(
    prods: Seq<SpecProduction>,
    aug: SpecSymbol,
    tr: GotoMap,
    dss: Seq<Seq<SpecDesc>>,
    s: usize,
    t: Seq<char>,
    a: SpecAction,
) -> bool {
    &&& s < dss.len()
    &&& match a {
        SpecAction::Shift(j) => tr.contains_key((s, t)) && j == tr[(s, t)] && exists|q: int|
            0 <= q < dss[s as int].len() && #[trigger] next_sym(dss[s as int][q].prod, dss[s as int][q].dot) == Some(SpecSymbol::Terminal(t)),
        SpecAction::Reduce(idx, _) => exists|q: int|
            0 <= q < dss[s as int].len() && #[trigger] complete(dss[s as int][q].prod, dss[s as int][q].dot)
                && dss[s as int][q].prod.left != aug && idx == prod_index_from(prods, dss[s as int][q].prod, 0)
                && dss[s as int][q].on.contains(t),
        SpecAction::Accept => t == "$"@ && exists|q: int|
            0 <= q < dss[s as int].len() && #[trigger] complete(dss[s as int][q].prod, dss[s as int][q].dot)
                && dss[s as int][q].prod.left == aug,
    }
}

/// Every entry of the ACTION table comes from an item.
pub open spec fn actions_justified(prods: Seq<SpecProduction>, aug: SpecSymbol, tr: GotoMap, dss: Seq<Seq<SpecDesc>>, act: ActMap) -> bool {
    forall|k: (usize, Seq<char>)| #[trigger] act.contains_key(k) ==> justified(prods, aug, tr, dss, k.0, k.1, act[k])
}

/// Every entry of the GOTO table is a transition.
pub open spec fn gotos_are_transitions(tr: GotoMap, gt: GotoMap) -> bool {
    forall|k: (usize, Seq<char>)| #[trigger] gt.contains_key(k) ==> tr.contains_key(k) && gt[k] == tr[k]
}

pub proof fn lemma_insert_action_justified(
    name: Seq<char>,
    prods: Seq<SpecProduction>,
    aug: SpecSymbol,
    tr: GotoMap,
    dss: Seq<Seq<SpecDesc>>,
    t: ActMap,
    s: usize,
    term: Seq<char>,
    a: SpecAction,
)
    requires
        actions_justified(prods, aug, tr, dss, t),
        justified(prods, aug, tr, dss, s, term, a),
    ensures
        insert_action(name, t, s, term, a) matches Ok(t2) ==> actions_justified(prods, aug, tr, dss, t2),
{
    if let Ok(t2) = insert_action(name, t, s, term, a) {
        assert forall|k: (usize, Seq<char>)| #[trigger] t2.contains_key(k) implies justified(prods, aug, tr, dss, k.0, k.1, t2[k]) by {
            if k == (s, term) {
                if t2[k] != a {
                    assert(t.contains_key(k) && t2[k] == t[k]);
                }
            } else {
                assert(t.contains_key(k) && t2[k] == t[k]);
            }
        }
    }
}

pub proof fn lemma_insert_all_justified(
    name: Seq<char>,
    prods: Seq<SpecProduction>,
    aug: SpecSymbol,
    tr: GotoMap,
    dss: Seq<Seq<SpecDesc>>,
    t: ActMap,
    s: usize,
    terms: Seq<Seq<char>>,
    a: SpecAction,
)
    requires
        actions_justified(prods, aug, tr, dss, t),
        forall|i: int| 0 <= i < terms.len() ==> justified(prods, aug, tr, dss, s, #[trigger] terms[i], a),
    ensures
        insert_all(name, t, s, terms, a) matches Ok(t2) ==> actions_justified(prods, aug, tr, dss, t2),
    decreases terms.len(),
{
    if terms.len() > 0 {
        lemma_insert_all_justified(name, prods, aug, tr, dss, t, s, terms.drop_last(), a);
        if let Ok(t1) = insert_all(name, t, s, terms.drop_last(), a) {
            assert(justified(prods, aug, tr, dss, s, terms[terms.len() - 1], a));
            lemma_insert_action_justified(name, prods, aug, tr, dss, t1, s, terms.last(), a);
        }
    }
}

pub proof fn lemma_item_effect_justified(
    name: Seq<char>,
    prods: Seq<SpecProduction>,
    aug: SpecSymbol,
    tr: GotoMap,
    dss: Seq<Seq<SpecDesc>>,
    acc: (ActMap, GotoMap),
    s: usize,
    q: int,
)
    requires
        s < dss.len(),
        0 <= q < dss[s as int].len(),
        actions_justified(prods, aug, tr, dss, acc.0),
        gotos_are_transitions(tr, acc.1),
    ensures
        item_effect(name, prods, aug, tr, acc, s, dss[s as int][q]) matches Ok(r)
            ==> actions_justified(prods, aug, tr, dss, r.0) && gotos_are_transitions(tr, r.1),
{
    let d = dss[s as int][q];
    if complete(d.prod, d.dot) {
        if d.prod.left == aug {
            lemma_insert_action_justified(name, prods, aug, tr, dss, acc.0, s, "$"@, SpecAction::Accept);
        } else {
            let a = SpecAction::Reduce(prod_index_from(prods, d.prod, 0), crate::lr0::production_text(d.prod));
            assert forall|i: int| 0 <= i < d.on.len() implies justified(prods, aug, tr, dss, s, #[trigger] d.on[i], a) by {
                assert(complete(dss[s as int][q].prod, dss[s as int][q].dot));
            }
            lemma_insert_all_justified(name, prods, aug, tr, dss, acc.0, s, d.on, a);
        }
    } else {
        match next_sym(d.prod, d.dot) {
            Some(SpecSymbol::Terminal(t)) => {
                if tr.contains_key((s, t)) {
                    assert(next_sym(dss[s as int][q].prod, dss[s as int][q].dot) == Some(SpecSymbol::Terminal(t)));
                    lemma_insert_action_justified(name, prods, aug, tr, dss, acc.0, s, t, SpecAction::Shift(tr[(s, t)]));
                }
            },
            Some(SpecSymbol::NonTerminal(n)) => {
                if tr.contains_key((s, n)) {
                    let g2 = acc.1.insert((s, n), tr[(s, n)]);
                    assert forall|k: (usize, Seq<char>)| #[trigger] g2.contains_key(k) implies tr.contains_key(k) && g2[k] == tr[k] by {
                        if k != (s, n) {
                            assert(acc.1.contains_key(k));
                        }
                    }
                }
            },
            _ => {},
        }
    }
}

pub proof fn lemma_items_effect_justified(
    name: Seq<char>,
    prods: Seq<SpecProduction>,
    aug: SpecSymbol,
    tr: GotoMap,
    dss: Seq<Seq<SpecDesc>>,
    acc: (ActMap, GotoMap),
    s: usize,
    n: int,
    first: bool,
)
    requires
        s < dss.len(),
        0 <= n <= dss[s as int].len(),
        actions_justified(prods, aug, tr, dss, acc.0),
        gotos_are_transitions(tr, acc.1),
    ensures
        items_effect(name, prods, aug, tr, acc, s, dss[s as int].take(n), first) matches Ok(r)
            ==> actions_justified(prods, aug, tr, dss, r.0) && gotos_are_transitions(tr, r.1),
    decreases n,
{
    if n > 0 {
        let ds = dss[s as int].take(n);
        assert(ds.drop_last() =~= dss[s as int].take(n - 1));
        assert(ds.last() == dss[s as int][n - 1]);
        lemma_items_effect_justified(name, prods, aug, tr, dss, acc, s, n - 1, first);
        if let Ok(a2) = items_effect(name, prods, aug, tr, acc, s, dss[s as int].take(n - 1), first) {
            lemma_item_effect_justified(name, prods, aug, tr, dss, a2, s, n - 1);
        }
    }
}

pub proof fn lemma_tables_justified_upto(
    name: Seq<char>,
    prods: Seq<SpecProduction>,
    aug: SpecSymbol,
    tr: GotoMap,
    dss: Seq<Seq<SpecDesc>>,
    n: int,
)
    requires
        0 <= n <= dss.len(),
        dss.len() <= usize::MAX,
    ensures
        tables_spec(name, prods, aug, tr, dss.take(n)) matches Ok(r)
            ==> actions_justified(prods, aug, tr, dss, r.0) && gotos_are_transitions(tr, r.1),
    decreases n,
{
    if n > 0 {
        let pre = dss.take(n);
        assert(pre.drop_last() =~= dss.take(n - 1));
        assert(pre.last() == dss[n - 1]);
        lemma_tables_justified_upto(name, prods, aug, tr, dss, n - 1);
        if let Ok(a2) = tables_spec(name, prods, aug, tr, dss.take(n - 1)) {
            assert(dss[n - 1].take(dss[n - 1].len() as int) =~= dss[n - 1]);
            assert(((n - 1) as usize) as int == n - 1);
            let s1 = (n - 1) as usize;
            lemma_items_effect_justified(name, prods, aug, tr, dss, a2, s1, dss[n - 1].len() as int, true);
            if let Ok(a3) = items_effect(name, prods, aug, tr, a2, s1, dss[n - 1], true) {
                lemma_items_effect_justified(name, prods, aug, tr, dss, a3, s1, dss[n - 1].len() as int, false);
            }
        }
    } else {
        let e = Map::<(usize, Seq<char>), SpecAction>::empty();
        let ge = Map::<(usize, Seq<char>), usize>::empty();
        assert(actions_justified(prods, aug, tr, dss, e));
        assert(gotos_are_transitions(tr, ge));
    }
}

/// Each entry of tables built without a conflict comes from an item of its
/// state, and each GOTO entry is a transition.
pub proof fn lemma_tables_justified(name: Seq<char>, prods: Seq<SpecProduction>, aug: SpecSymbol, tr: GotoMap, dss: Seq<Seq<SpecDesc>>)
    requires
        dss.len() <= usize::MAX,
    ensures
        tables_spec(name, prods, aug, tr, dss) matches Ok(r)
            ==> actions_justified(prods, aug, tr, dss, r.0) && gotos_are_transitions(tr, r.1),
{
    lemma_tables_justified_upto(name, prods, aug, tr, dss, dss.len() as int);
    assert(dss.take(dss.len() as int) =~= dss);
}

/// An item of production `g[k]` with its dot within the right side.
pub open spec fn item_in(g: Seq<SpecProduction>, it: SpecItem) -> bool {
    exists|k: int| 0 <= k < g.len() && #[trigger] g[k] == it.prod && it.dot <= it.prod.right.len()
}

/// The shape the augmented grammar has: `S' → S` first, `S'` nowhere else,
/// non-terminals on the left, and `ϵ` only alone on a right side.
pub open spec fn augmented_shape(g: Seq<SpecProduction>) -> bool {
    &&& 1 <= g.len() <= usize::MAX
    &&& g[0].left == aug_start()
    &&& forall|k: int| 0 <= k < g.len() ==> (#[trigger] g[k]).right.len() <= usize::MAX
    &&& forall|k: int| 1 <= k < g.len() ==> (#[trigger] g[k]).left != aug_start()
    &&& forall|k: int, q: int| 0 <= k < g.len() && 0 <= q < g[k].right.len() ==> #[trigger] g[k].right[q] != aug_start()
    &&& forall|k: int| 0 <= k < g.len() ==> (#[trigger] g[k]).left is NonTerminal
    &&& forall|k: int, q: int| 0 <= k < g.len() && 0 <= q < g[k].right.len() && #[trigger] g[k].right[q] == SpecSymbol::Epsilon
        ==> g[k].right.len() == 1
}

/// `x` is a symbol of the grammar other than `ϵ`.
pub open spec fn grammar_symbol(g: Seq<SpecProduction>, x: SpecSymbol) -> bool {
    &&& x != SpecSymbol::Epsilon
    &&& (exists|k: int| 0 <= k < g.len() && #[trigger] g[k].left == x)
        || (exists|k: int, q: int| 0 <= k < g.len() && 0 <= q < g[k].right.len() && #[trigger] g[k].right[q] == x)
}

/// No two symbols of the grammar are shown by the same text.
pub open spec fn names_unique(g: Seq<SpecProduction>) -> bool {
    forall|x: SpecSymbol, y: SpecSymbol| #![trigger grammar_symbol(g, x), grammar_symbol(g, y)]
        grammar_symbol(g, x) && grammar_symbol(g, y) && sym_text(x) == sym_text(y) ==> x == y
}

/// Every item of every state is an item of a production of the grammar.
pub proof fn lemma_states_items_in(g: Seq<SpecProduction>, st: Seq<Seq<SpecItem>>, tr: GotoMap, j: int)
    requires
        automaton0(g, st, tr),
        g.len() >= 1,
        0 <= j < st.len(),
    ensures
        forall|q: int| 0 <= q < st[j].len() ==> item_in(g, #[trigger] st[j][q]),
    decreases j,
{
    let p = Set::new(|it: SpecItem| item_in(g, it));
    assert forall|it: SpecItem, k: int| #![trigger p.contains(it), expands(g, it, k)]
        p.contains(it) && expands(g, it, k) implies p.contains(start_item(g[k])) by {
        assert(g[k] == start_item(g[k]).prod);
    }
    assert(closed_set(g, p));
    if j == 0 {
        assert(g[0] == start_item(g[0]).prod);
        assert(item_in(g, start_item(g[0])));
        assert(p.contains(start_item(g[0])));
        assert(set![start_item(g[0])].subset_of(p));
        assert(all_in(st[0], p));
    } else {
        assert(entered(tr, j));
        let key = choose|key: (usize, Seq<char>)| #[trigger] tr.contains_key(key) && key.0 < j && tr[key] == j;
        let src = st[key.0 as int];
        lemma_states_items_in(g, st, tr, key.0 as int);
        assert(goto_target0(g, src, key.1, st[j]));
        let x = choose|x: SpecSymbol| #[trigger] after_dot(src, x) && sym_text(x) == key.1 && is_goto0(g, src, x, st[j]);
        assert forall|y: SpecItem| kernel0(src, x).contains(y) implies p.contains(y) by {
            let q = choose|q: int| #![trigger src[q]] 0 <= q < src.len() && next_sym(src[q].prod, src[q].dot) == Some(x) && y == advanced(src[q]);
            assert(item_in(g, src[q]));
            let k = choose|k: int| 0 <= k < g.len() && #[trigger] g[k] == src[q].prod && src[q].dot <= src[q].prod.right.len();
            assert(g[k] == y.prod);
        }
        assert(kernel0(src, x).subset_of(p));
        assert(all_in(st[j], p));
    }
}

/// The items of the start state have the dot at the start.
pub proof fn lemma_start_state_dots(g: Seq<SpecProduction>, st: Seq<Seq<SpecItem>>, tr: GotoMap)
    requires
        automaton0(g, st, tr),
    ensures
        forall|q: int| 0 <= q < st[0].len() ==> (#[trigger] st[0][q]).dot == 0,
        st[0].contains(start_item(g[0])),
{
    let d = Set::new(|it: SpecItem| it.dot == 0);
    assert(closed_set(g, d));
    assert(set![start_item(g[0])].subset_of(d));
    assert(all_in(st[0], d));
    assert(set![start_item(g[0])].contains(start_item(g[0])));
}

/// The items that goto(`src`, `x`) can hold: the kernel, and items of the
/// grammar with the dot at the start that are not of `S'`.
pub open spec fn goto_cover(g: Seq<SpecProduction>, src: Seq<SpecItem>, x: SpecSymbol) -> Set<SpecItem> {
    Set::new(|it: SpecItem|
        kernel0(src, x).contains(it) || (it.dot == 0 && it.prod.left != aug_start() && exists|k: int| 0 <= k < g.len() && #[trigger] g[k] == it.prod))
}

pub proof fn lemma_goto_cover_closed(g: Seq<SpecProduction>, src: Seq<SpecItem>, x: SpecSymbol)
    requires
        augmented_shape(g),
        forall|q: int| 0 <= q < src.len() ==> item_in(g, #[trigger] src[q]),
    ensures
        closed_set(g, goto_cover(g, src, x)),
        kernel0(src, x).subset_of(goto_cover(g, src, x)),
{
    let c = goto_cover(g, src, x);
    assert forall|it: SpecItem, k: int| #![trigger c.contains(it), expands(g, it, k)]
        c.contains(it) && expands(g, it, k) implies c.contains(start_item(g[k])) by {
        assert(next_sym(it.prod, it.dot) == Some(g[k].left));
        let kp: int = if kernel0(src, x).contains(it) {
            let q = choose|q: int| #![trigger src[q]] 0 <= q < src.len() && next_sym(src[q].prod, src[q].dot) == Some(x) && it == advanced(src[q]);
            assert(item_in(g, src[q]));
            choose|k2: int| 0 <= k2 < g.len() && #[trigger] g[k2] == src[q].prod && src[q].dot <= src[q].prod.right.len()
        } else {
            choose|k2: int| 0 <= k2 < g.len() && #[trigger] g[k2] == it.prod
        };
        assert(g[kp] == it.prod);
        assert(g[kp].right[it.dot as int] == g[k].left);
        assert(g[k].left != aug_start());
        assert(g[k] == start_item(g[k]).prod);
    }
}

/// An item of a state entered by a transition either has the dot at the
/// start (and is no item of `S'`), or comes, with the dot one step back,
/// from the state the transition leaves, where the symbol after its dot is
/// the one the transition is made by.
pub proof fn lemma_target_items(g: Seq<SpecProduction>, st: Seq<Seq<SpecItem>>, tr: GotoMap, key: (usize, Seq<char>), q: int)
    requires
        automaton0(g, st, tr),
        augmented_shape(g),
        tr.contains_key(key),
        0 <= q < st[tr[key] as int].len(),
    ensures
        ({
            let it = st[tr[key] as int][q];
            ||| it.dot == 0 && it.prod.left != aug_start()
            ||| it.dot >= 1 && exists|x: SpecSymbol| #![trigger after_dot(st[key.0 as int], x)]
                after_dot(st[key.0 as int], x) && sym_text(x) == key.1
                && st[key.0 as int].contains(SpecItem { prod: it.prod, dot: (it.dot - 1) as usize })
                && next_sym(it.prod, (it.dot - 1) as usize) == Some(x)
        }),
{
    let src = st[key.0 as int];
    let dst = st[tr[key] as int];
    lemma_states_items_in(g, st, tr, key.0 as int);
    assert(goto_target0(g, src, key.1, dst));
    let x = choose|x: SpecSymbol| #[trigger] after_dot(src, x) && sym_text(x) == key.1 && is_goto0(g, src, x, dst);
    lemma_goto_cover_closed(g, src, x);
    let c = goto_cover(g, src, x);
    assert(all_in(dst, c));
    let it = dst[q];
    assert(c.contains(it));
    if kernel0(src, x).contains(it) {
        let q2 = choose|q2: int| #![trigger src[q2]] 0 <= q2 < src.len() && next_sym(src[q2].prod, src[q2].dot) == Some(x) && it == advanced(src[q2]);
        assert(item_in(g, src[q2]));
        let k2 = choose|k2: int| 0 <= k2 < g.len() && #[trigger] g[k2] == src[q2].prod && src[q2].dot <= src[q2].prod.right.len();
        assert(src[q2].dot < src[q2].prod.right.len());
        assert(src[q2].prod.right.len() <= usize::MAX);
        assert(SpecItem { prod: it.prod, dot: (it.dot - 1) as usize } == src[q2]);
        assert(src.contains(src[q2]));
    }
}

/// An item of the state that the transition `key` leads to: one with the
/// dot at the start (not of `S'`), or one whose dot is one step further
/// than in an item of the state the transition leaves, past the symbol the
/// transition is made by.
pub open spec fn target_item(g: Seq<SpecProduction>, st: Seq<Seq<SpecItem>>, key: (usize, Seq<char>), it: SpecItem) -> bool {
    ||| it.dot == 0 && it.prod.left != aug_start()
    ||| it.dot >= 1 && exists|x: SpecSymbol| #![trigger after_dot(st[key.0 as int], x)]
        after_dot(st[key.0 as int], x) && sym_text(x) == key.1
        && st[key.0 as int].contains(SpecItem { prod: it.prod, dot: (it.dot - 1) as usize })
        && next_sym(it.prod, (it.dot - 1) as usize) == Some(x)
}

/// What a shift-reduce run needs of the states (as LR(0) items) and their
/// transitions: the items are items of the grammar, those of the start
/// state have the dot at the start, and the items of each state a
/// transition leads to are as `target_item` says.
pub open spec fn item_facts(g: Seq<SpecProduction>, st: Seq<Seq<SpecItem>>, tr: GotoMap) -> bool {
    &&& st.len() >= 1
    &&& forall|s: int, q: int| 0 <= s < st.len() && 0 <= q < st[s].len() ==> item_in(g, #[trigger] st[s][q])
    &&& forall|q: int| 0 <= q < st[0].len() ==> (#[trigger] st[0][q]).dot == 0
    &&& forall|k: (usize, Seq<char>)| #[trigger] tr.contains_key(k) ==> k.0 < st.len() && tr[k] < st.len()
    &&& forall|k: (usize, Seq<char>), q: int| tr.contains_key(k) && 0 <= q < st[tr[k] as int].len()
        ==> target_item(g, st, k, #[trigger] st[tr[k] as int][q])
}

/// A canonical collection of LR(0) item sets has these facts.
pub proof fn lemma_automaton0_facts(g: Seq<SpecProduction>, st: Seq<Seq<SpecItem>>, tr: GotoMap)
    requires
        automaton0(g, st, tr),
        augmented_shape(g),
    ensures
        item_facts(g, st, tr),
{
    assert forall|s: int, q: int| 0 <= s < st.len() && 0 <= q < st[s].len() implies item_in(g, #[trigger] st[s][q]) by {
        lemma_states_items_in(g, st, tr, s);
    }
    lemma_start_state_dots(g, st, tr);
    assert forall|k: (usize, Seq<char>), q: int| tr.contains_key(k) && 0 <= q < st[tr[k] as int].len()
        implies target_item(g, st, k, #[trigger] st[tr[k] as int][q]) by {
        lemma_target_items(g, st, tr, k, q);
    }
}

/// The states `ss` are a path of the automaton from the start state, with
/// the symbols `xs` between them: each state is reached from the one below
/// by the transition on the text of the symbol between them.
pub open spec fn stack_path(st: Seq<Seq<SpecItem>>, tr: GotoMap, ss: Seq<usize>, xs: Seq<SpecSymbol>) -> bool {
    &&& ss.len() == xs.len() + 1
    &&& ss[0] == 0
    &&& forall|j: int| 0 <= j < ss.len() ==> (#[trigger] ss[j]) < st.len()
    &&& forall|j: int| 0 <= j < xs.len() ==> tr.contains_key((ss[j], sym_text(#[trigger] xs[j]))) && tr[(ss[j], sym_text(xs[j]))] == ss[j + 1]
}

/// A symbol after a dot in a state is a symbol of the grammar.
pub proof fn lemma_after_dot_symbol(g: Seq<SpecProduction>, st: Seq<Seq<SpecItem>>, tr: GotoMap, s: int, x: SpecSymbol)
    requires
        item_facts(g, st, tr),
        augmented_shape(g),
        0 <= s < st.len(),
        after_dot(st[s], x),
    ensures
        grammar_symbol(g, x),
{
    let j = choose|j: int| 0 <= j < st[s].len() && next_sym(st[s][j].prod, st[s][j].dot) == Some(x);
    let it = st[s][j];
    assert(item_in(g, it));
    let k = choose|k: int| 0 <= k < g.len() && #[trigger] g[k] == it.prod && it.dot <= it.prod.right.len();
    assert(g[k].right[it.dot as int] == x);
    if x == SpecSymbol::Epsilon {
        assert(g[k].right.len() == 1);
        assert(is_epsilon_rhs(it.prod.right));
    }
}

/// The symbols on top of a stack that is a path of the automaton are the
/// symbols before the dot of each item of its top state, and the item with
/// the dot at the start is in the state where those symbols begin.
pub proof fn lemma_stack_prefix(
    g: Seq<SpecProduction>,
    st: Seq<Seq<SpecItem>>,
    tr: GotoMap,
    ss: Seq<usize>,
    xs: Seq<SpecSymbol>,
    it: SpecItem,
)
    requires
        item_facts(g, st, tr),
        augmented_shape(g),
        names_unique(g),
        stack_path(st, tr, ss, xs),
        forall|j: int| 0 <= j < xs.len() ==> grammar_symbol(g, #[trigger] xs[j]),
        st[ss.last() as int].contains(it),
    ensures
        it.dot <= xs.len(),
        xs.skip(xs.len() - it.dot) == it.prod.right.take(it.dot as int),
        st[ss[xs.len() - it.dot] as int].contains(SpecItem { prod: it.prod, dot: 0 }),
    decreases xs.len(),
{
    let m = xs.len() as int;
    if it.dot == 0 {
        assert(xs.skip(m) =~= Seq::<SpecSymbol>::empty());
        assert(it.prod.right.take(0) =~= Seq::<SpecSymbol>::empty());
        assert(SpecItem { prod: it.prod, dot: 0 } == it);
    } else {
        if m == 0 {
            let q = choose|q: int| 0 <= q < st[0].len() && st[0][q] == it;
            assert(st[0][q].dot == 0);
        }
        assert(m >= 1);
        let key = (ss[m - 1], sym_text(xs[m - 1]));
        assert(tr.contains_key(key) && tr[key] == ss[m]);
        let q = choose|q: int| 0 <= q < st[ss[m] as int].len() && st[ss[m] as int][q] == it;
        assert(target_item(g, st, key, st[tr[key] as int][q]));
        let src = st[key.0 as int];
        let x = choose|x: SpecSymbol| #![trigger after_dot(src, x)]
            after_dot(src, x) && sym_text(x) == key.1
            && src.contains(SpecItem { prod: it.prod, dot: (it.dot - 1) as usize })
            && next_sym(it.prod, (it.dot - 1) as usize) == Some(x);
        lemma_after_dot_symbol(g, st, tr, key.0 as int, x);
        assert(grammar_symbol(g, xs[m - 1]));
        assert(x == xs[m - 1]);
        let prev = SpecItem { prod: it.prod, dot: (it.dot - 1) as usize };
        let ss2 = ss.drop_last();
        let xs2 = xs.drop_last();
        assert(stack_path(st, tr, ss2, xs2)) by {
            assert forall|j: int| 0 <= j < xs2.len() implies tr.contains_key((ss2[j], sym_text(#[trigger] xs2[j])))
                && tr[(ss2[j], sym_text(xs2[j]))] == ss2[j + 1] by {
                assert(xs2[j] == xs[j]);
                assert(tr.contains_key((ss[j], sym_text(xs[j]))));
            }
        }
        assert(ss2.last() == ss[m - 1]);
        lemma_stack_prefix(g, st, tr, ss2, xs2, prev);
        let d = it.dot as int;
        assert(!is_epsilon_rhs(it.prod.right) && d - 1 < it.prod.right.len());
        assert(it.prod.right[d - 1] == x);
        assert(xs.skip(m - d) =~= xs2.skip((m - 1) - (d - 1)).push(xs[m - 1]));
        assert(it.prod.right.take(d) =~= it.prod.right.take(d - 1).push(it.prod.right[d - 1]));
        assert(ss2[(m - 1) - (d - 1)] == ss[m - d]);
    }
}

/// The descriptions of each state's items have the items' productions and
/// dots.
pub open spec fn descs_of(st: Seq<Seq<SpecItem>>, dss: Seq<Seq<SpecDesc>>) -> bool {
    &&& dss.len() == st.len()
    &&& forall|s: int| 0 <= s < st.len() ==> (#[trigger] dss[s]).len() == st[s].len()
    &&& forall|s: int, q: int| 0 <= s < st.len() && 0 <= q < st[s].len()
        ==> (#[trigger] dss[s][q]).prod == st[s][q].prod && dss[s][q].dot == st[s][q].dot
}

/// The first index of a production that is in the list is the index of an
/// equal production.
pub proof fn lemma_prod_index(prods: Seq<SpecProduction>, p: SpecProduction, i: int)
    requires
        0 <= i,
        prods.len() <= usize::MAX,
        exists|k: int| i <= k < prods.len() && prods[k] == p,
    ensures
        i <= prod_index_from(prods, p, i) < prods.len(),
        prods[prod_index_from(prods, p, i) as int] == p,
    decreases prods.len() - i,
{
    if prods[i] != p {
        let k = choose|k: int| i <= k < prods.len() && prods[k] == p;
        assert(k != i);
        lemma_prod_index(prods, p, i + 1);
    }
}

/// What a shift-reduce run needs of its tables to be sound: they come from
/// the items of a canonical collection of LR(0) item sets of the augmented
/// grammar of `g`.
pub open spec fn sound_tables(
    g: SpecGrammar,
    st: Seq<Seq<SpecItem>>,
    tr: GotoMap,
    dss: Seq<Seq<SpecDesc>>,
    act: ActMap,
    gt: GotoMap,
) -> bool {
    let prods = aug_prods(g);
    &&& item_facts(prods, st, tr)
    &&& augmented_shape(prods)
    &&& names_unique(prods)
    &&& g.start is NonTerminal
    &&& descs_of(st, dss)
    &&& actions_justified(prods, aug_start(), tr, dss, act)
    &&& gotos_are_transitions(tr, gt)
}

/// The symbols of the stack are shown by the texts of the symbol stack.
pub open spec fn shown_by(xs: Seq<SpecSymbol>, sy: Seq<Seq<char>>) -> bool {
    xs.len() == sy.len() && forall|j: int| 0 <= j < xs.len() ==> sym_text(#[trigger] xs[j]) == sy[j]
}

/// The augmented productions of `g`.
pub open spec fn aug_prods(g: SpecGrammar) -> Seq<SpecProduction> {
    seq![SpecProduction { left: aug_start(), right: seq![g.start] }] + g.productions
}

/// What holds of the stack of a run: its states are a path of the
/// automaton, its symbols (shown by the symbol stack) are symbols of the
/// grammar, and they derive the tokens read so far.
pub open spec fn run_ok(
    g: SpecGrammar,
    st: Seq<Seq<SpecItem>>,
    tr: GotoMap,
    input: Seq<Seq<char>>,
    state: LRState,
    xs: Seq<SpecSymbol>,
    forms: Seq<Seq<SpecSymbol>>,
) -> bool {
    &&& stack_path(st, tr, state.ss, xs)
    &&& forall|j: int| 0 <= j < xs.len() ==> grammar_symbol(aug_prods(g), #[trigger] xs[j])
    &&& shown_by(xs, state.sy)
    &&& 0 <= state.pos <= input.len()
    &&& derivation_of(g, forms, xs, terminals_of(input.take(state.pos)))
}

/// A shift keeps what holds of the stack.
pub proof fn lemma_shift_keeps(
    g: SpecGrammar,
    st: Seq<Seq<SpecItem>>,
    tr: GotoMap,
    dss: Seq<Seq<SpecDesc>>,
    act: ActMap,
    gt: GotoMap,
    input: Seq<Seq<char>>,
    state: LRState,
    xs: Seq<SpecSymbol>,
    forms: Seq<Seq<SpecSymbol>>,
    j: usize,
)
    requires
        sound_tables(g, st, tr, dss, act, gt),
        run_ok(g, st, tr, input, state, xs, forms),
        0 <= state.pos < input.len(),
        act.contains_key((state.ss.last(), input[state.pos])),
        act[(state.ss.last(), input[state.pos])] == SpecAction::Shift(j),
    ensures
        ({
            let cur = input[state.pos];
            let next = LRState {
                ss: state.ss.push(j),
                sy: state.sy.push(cur),
                nodes: state.nodes.push(leaf(state.nid, cur, "terminal"@)),
                nid: (state.nid + 1) as usize,
                pos: state.pos + 1,
                step: state.step + 1,
            };
            run_ok(g, st, tr, input, next, xs.push(SpecSymbol::Terminal(cur)), with_suffix(forms, SpecSymbol::Terminal(cur)))
        }),
{
    let prods = aug_prods(g);
    let s = state.ss.last();
    let cur = input[state.pos];
    let m = xs.len() as int;
    assert(s == state.ss[m]);
    let consumed = terminals_of(input.take(state.pos));
    assert(justified(prods, aug_start(), tr, dss, s, cur, act[(s, cur)]));
    let q = choose|q: int| 0 <= q < dss[s as int].len() && #[trigger] next_sym(dss[s as int][q].prod, dss[s as int][q].dot) == Some(SpecSymbol::Terminal(cur));
    assert(next_sym(st[s as int][q].prod, st[s as int][q].dot) == Some(SpecSymbol::Terminal(cur)));
    assert(after_dot(st[s as int], SpecSymbol::Terminal(cur)));
    lemma_after_dot_symbol(prods, st, tr, s as int, SpecSymbol::Terminal(cur));
    let tc = SpecSymbol::Terminal(cur);
    let next = LRState {
        ss: state.ss.push(j),
        sy: state.sy.push(cur),
        nodes: state.nodes.push(leaf(state.nid, cur, "terminal"@)),
        nid: (state.nid + 1) as usize,
        pos: state.pos + 1,
        step: state.step + 1,
    };
    let xs2 = xs.push(tc);
    assert forall|i: int| 0 <= i < xs2.len() implies tr.contains_key((next.ss[i], sym_text(#[trigger] xs2[i])))
        && tr[(next.ss[i], sym_text(xs2[i]))] == next.ss[i + 1] by {
        if i < m {
            assert(xs2[i] == xs[i]);
            assert(tr.contains_key((state.ss[i], sym_text(xs[i]))));
        }
    }
    assert forall|i: int| 0 <= i < next.ss.len() implies (#[trigger] next.ss[i]) < st.len() by {
        if i <= m {
            assert(next.ss[i] == state.ss[i]);
        }
    }
    assert(stack_path(st, tr, next.ss, xs2));
    assert forall|i: int| 0 <= i < xs2.len() implies sym_text(#[trigger] xs2[i]) == next.sy[i] by {
        if i < m {
            assert(xs2[i] == xs[i]);
        }
    }
    assert forall|i: int| 0 <= i < xs2.len() implies grammar_symbol(prods, #[trigger] xs2[i]) by {
        if i < m {
            assert(xs2[i] == xs[i]);
        }
    }
    lemma_derivation_suffix(g, forms, xs, consumed, tc);
    assert(input.take(state.pos + 1) =~= input.take(state.pos).push(cur));
    assert(terminals_of(input.take(state.pos + 1)) =~= consumed.push(tc));
}

/// A reduction is by a production of the grammar whose right side is on
/// top of the stack.
pub proof fn lemma_reduce_item(
    g: SpecGrammar,
    st: Seq<Seq<SpecItem>>,
    tr: GotoMap,
    dss: Seq<Seq<SpecDesc>>,
    act: ActMap,
    gt: GotoMap,
    input: Seq<Seq<char>>,
    state: LRState,
    xs: Seq<SpecSymbol>,
    forms: Seq<Seq<SpecSymbol>>,
    idx: usize,
    ptext: Seq<char>,
)
    requires
        sound_tables(g, st, tr, dss, act, gt),
        run_ok(g, st, tr, input, state, xs, forms),
        0 <= state.pos < input.len(),
        act.contains_key((state.ss.last(), input[state.pos])),
        act[(state.ss.last(), input[state.pos])] == SpecAction::Reduce(idx, ptext),
        idx < aug_prods(g).len(),
    ensures
        1 <= idx,
        aug_prods(g)[idx as int] == g.productions[idx - 1],
        pop_count(aug_prods(g)[idx as int]) <= xs.len(),
        xs == xs.take(xs.len() - pop_count(aug_prods(g)[idx as int])) + rhs_yield(aug_prods(g)[idx as int].right),
{
    let prods = aug_prods(g);
    let s = state.ss.last();
    let cur = input[state.pos];
    let m = xs.len() as int;
    assert(s == state.ss[m]);
    assert(justified(prods, aug_start(), tr, dss, s, cur, act[(s, cur)]));
    let q = choose|q: int| 0 <= q < dss[s as int].len() && #[trigger] complete(dss[s as int][q].prod, dss[s as int][q].dot)
        && dss[s as int][q].prod.left != aug_start() && idx == prod_index_from(prods, dss[s as int][q].prod, 0);
    let it = st[s as int][q];
    assert(it.prod == dss[s as int][q].prod && it.dot == dss[s as int][q].dot);
    assert(item_in(prods, it));
    lemma_prod_index(prods, it.prod, 0);
    let p = prods[idx as int];
    assert(p == it.prod);
    assert(st[state.ss.last() as int].contains(it));
    lemma_stack_prefix(prods, st, tr, state.ss, xs, it);
    let n = pop_count(p) as int;
    if is_epsilon_rhs(p.right) {
        assert(p.right =~= seq![SpecSymbol::Epsilon]);
        assert(rhs_yield(p.right) =~= Seq::<SpecSymbol>::empty());
        assert(xs.take(m) =~= xs);
    } else {
        assert(it.dot == p.right.len());
        assert(rhs_yield(p.right) == p.right);
        assert(xs =~= xs.take(m - n) + xs.skip(m - n));
    }
}

/// A reduction that finds its GOTO entry keeps what holds of the stack.
pub proof fn lemma_reduce_keeps(
    g: SpecGrammar,
    st: Seq<Seq<SpecItem>>,
    tr: GotoMap,
    dss: Seq<Seq<SpecDesc>>,
    act: ActMap,
    gt: GotoMap,
    input: Seq<Seq<char>>,
    state: LRState,
    xs: Seq<SpecSymbol>,
    forms: Seq<Seq<SpecSymbol>>,
    idx: usize,
    ptext: Seq<char>,
)
    requires
        sound_tables(g, st, tr, dss, act, gt),
        run_ok(g, st, tr, input, state, xs, forms),
        0 <= state.pos < input.len(),
        act.contains_key((state.ss.last(), input[state.pos])),
        act[(state.ss.last(), input[state.pos])] == SpecAction::Reduce(idx, ptext),
        idx < aug_prods(g).len(),
        state.ss.len() > pop_count(aug_prods(g)[idx as int]),
        gt.contains_key((reduced(state, aug_prods(g)[idx as int]).ss.last(), sym_text(aug_prods(g)[idx as int].left))),
    ensures
        ({
            let p = aug_prods(g)[idx as int];
            let mid = reduced(state, p);
            let next = LRState { ss: mid.ss.push(gt[(mid.ss.last(), sym_text(p.left))]), ..mid };
            let xs2 = xs.take(xs.len() - pop_count(p)).push(p.left);
            run_ok(g, st, tr, input, next, xs2, seq![xs2] + forms)
        }),
{
    let prods = aug_prods(g);
    lemma_reduce_item(g, st, tr, dss, act, gt, input, state, xs, forms, idx, ptext);
    let m = xs.len() as int;
    let consumed = terminals_of(input.take(state.pos));
    let p = prods[idx as int];
    let n = pop_count(p) as int;
    let a = p.left;
    let left = sym_text(a);
    let xs2 = xs.take(m - n).push(a);
    assert(xs2.take(m - n) =~= xs.take(m - n));
    assert(xs2.skip(m - n + 1) =~= Seq::<SpecSymbol>::empty());
    assert(xs =~= xs2.take(m - n) + rhs_yield(p.right) + xs2.skip(m - n + 1));
    assert(step_at(g, xs2, xs, m - n, idx - 1));
    assert(derives_step(g, xs2, xs));
    lemma_derivation_prepend(g, forms, xs2, xs, consumed);
    let mid = reduced(state, p);
    assert(mid.ss =~= state.ss.take(m + 1 - n));
    assert(mid.sy =~= state.sy.take(m - n).push(left));
    let top = mid.ss.last();
    assert(top == state.ss[m - n]);
    let t2 = gt[(top, left)];
    assert(tr.contains_key((top, left)) && tr[(top, left)] == t2);
    let next = LRState { ss: mid.ss.push(t2), ..mid };
    assert(grammar_symbol(prods, a)) by {
        assert(prods[idx as int].left == a);
    }
    assert forall|i: int| 0 <= i < xs2.len() implies tr.contains_key((next.ss[i], sym_text(#[trigger] xs2[i])))
        && tr[(next.ss[i], sym_text(xs2[i]))] == next.ss[i + 1] by {
        if i < m - n {
            assert(xs2[i] == xs[i]);
            assert(next.ss[i] == state.ss[i]);
            assert(next.ss[i + 1] == state.ss[i + 1]);
            assert(tr.contains_key((state.ss[i], sym_text(xs[i]))));
        }
    }
    assert forall|i: int| 0 <= i < next.ss.len() implies (#[trigger] next.ss[i]) < st.len() by {
        if i <= m - n {
            assert(next.ss[i] == state.ss[i]);
        }
    }
    assert(stack_path(st, tr, next.ss, xs2));
    assert forall|i: int| 0 <= i < xs2.len() implies sym_text(#[trigger] xs2[i]) == next.sy[i] by {
        if i < m - n {
            assert(xs2[i] == xs[i]);
        }
    }
    assert forall|i: int| 0 <= i < xs2.len() implies grammar_symbol(prods, #[trigger] xs2[i]) by {
        if i < m - n {
            assert(xs2[i] == xs[i]);
        }
    }
}

/// An accepting state holds `S' → S ·` and is the one the start state goes
/// to on `S`: the stack holds just the start symbol.
pub proof fn lemma_accept_stack(
    g: SpecGrammar,
    st: Seq<Seq<SpecItem>>,
    tr: GotoMap,
    dss: Seq<Seq<SpecDesc>>,
    act: ActMap,
    gt: GotoMap,
    input: Seq<Seq<char>>,
    state: LRState,
    xs: Seq<SpecSymbol>,
    forms: Seq<Seq<SpecSymbol>>,
)
    requires
        sound_tables(g, st, tr, dss, act, gt),
        run_ok(g, st, tr, input, state, xs, forms),
        0 <= state.pos < input.len(),
        act.contains_key((state.ss.last(), input[state.pos])),
        act[(state.ss.last(), input[state.pos])] == SpecAction::Accept,
    ensures
        input[state.pos] == "$"@,
        xs == seq![g.start],
{
    let prods = aug_prods(g);
    let s = state.ss.last();
    let cur = input[state.pos];
    let m = xs.len() as int;
    assert(s == state.ss[m]);
    assert(justified(prods, aug_start(), tr, dss, s, cur, act[(s, cur)]));
    let q = choose|q: int| 0 <= q < dss[s as int].len() && #[trigger] complete(dss[s as int][q].prod, dss[s as int][q].dot)
        && dss[s as int][q].prod.left == aug_start();
    let it = st[s as int][q];
    assert(item_in(prods, it));
    let k = choose|k: int| 0 <= k < prods.len() && #[trigger] prods[k] == it.prod && it.dot <= it.prod.right.len();
    assert(k == 0);
    assert(!is_epsilon_rhs(it.prod.right));
    assert(it.dot == 1);
    assert(st[state.ss.last() as int].contains(it));
    lemma_stack_prefix(prods, st, tr, state.ss, xs, it);
    let first = SpecItem { prod: it.prod, dot: 0 };
    if m > 1 {
        let key = (state.ss[m - 2], sym_text(xs[m - 2]));
        assert(tr.contains_key(key) && tr[key] == state.ss[m - 1]);
        let sm = st[state.ss[m - 1] as int];
        assert(sm.contains(first));
        let q2 = choose|q2: int| 0 <= q2 < sm.len() && #[trigger] sm[q2] == first;
        assert(target_item(prods, st, key, st[tr[key] as int][q2]));
    }
    assert(m == 1);
    assert(xs.skip(0) =~= xs);
    assert(xs =~= seq![g.start]);
}

/// A run of the shift-reduce parse over sound tables, from a stack of
/// which `run_ok` holds, accepts only after tokens derived from the start
/// symbol, followed by `$`.
pub proof fn lemma_lr_trace_sound(
    g: SpecGrammar,
    st: Seq<Seq<SpecItem>>,
    tr: GotoMap,
    dss: Seq<Seq<SpecDesc>>,
    act: ActMap,
    gt: GotoMap,
    input: Seq<Seq<char>>,
    state: LRState,
    fuel: nat,
    xs: Seq<SpecSymbol>,
    forms: Seq<Seq<SpecSymbol>>,
)
    requires
        sound_tables(g, st, tr, dss, act, gt),
        run_ok(g, st, tr, input, state, xs, forms),
    ensures
        lr_trace(act, gt, aug_prods(g), input, state, fuel) matches Ok(r)
            ==> exists|k: int, fs: Seq<Seq<SpecSymbol>>| 0 <= k < input.len() && input[k] == "$"@
                && #[trigger] derivation_of(g, fs, seq![g.start], terminals_of(input.take(k))),
    decreases fuel,
{
    let prods = aug_prods(g);
    if fuel == 0 || state.ss.len() == 0 || !(0 <= state.pos < input.len()) {
        return;
    }
    let s = state.ss.last();
    let cur = input[state.pos];
    if !act.contains_key((s, cur)) {
        return;
    }
    match act[(s, cur)] {
        SpecAction::Shift(j) => {
            if fuel > 1 {
                lemma_shift_keeps(g, st, tr, dss, act, gt, input, state, xs, forms, j);
                let tc = SpecSymbol::Terminal(cur);
                let next = LRState {
                    ss: state.ss.push(j),
                    sy: state.sy.push(cur),
                    nodes: state.nodes.push(leaf(state.nid, cur, "terminal"@)),
                    nid: (state.nid + 1) as usize,
                    pos: state.pos + 1,
                    step: state.step + 1,
                };
                lemma_lr_trace_sound(g, st, tr, dss, act, gt, input, next, (fuel - 1) as nat, xs.push(tc), with_suffix(forms, tc));
            }
        },
        SpecAction::Reduce(idx, ptext) => {
            if !(idx >= prods.len() || state.ss.len() <= pop_count(prods[idx as int])) {
                let p = prods[idx as int];
                let mid = reduced(state, p);
                let top = mid.ss.last();
                if gt.contains_key((top, sym_text(p.left))) && fuel > 1 {
                    lemma_reduce_keeps(g, st, tr, dss, act, gt, input, state, xs, forms, idx, ptext);
                    let next = LRState { ss: mid.ss.push(gt[(top, sym_text(p.left))]), ..mid };
                    let xs2 = xs.take(xs.len() - pop_count(p)).push(p.left);
                    lemma_lr_trace_sound(g, st, tr, dss, act, gt, input, next, (fuel - 1) as nat, xs2, seq![xs2] + forms);
                }
            }
        },
        SpecAction::Accept => {
            lemma_accept_stack(g, st, tr, dss, act, gt, input, state, xs, forms);
            assert(derivation_of(g, forms, seq![g.start], terminals_of(input.take(state.pos))));
        },
    }
}

/// The trees built so far stand one for each symbol of the stack, labelled
/// by it; their terminal leaves spell the tokens read, and they are built
/// by productions of the grammar.
pub open spec fn trees_ok(g: SpecGrammar, input: Seq<Seq<char>>, state: LRState) -> bool {
    &&& state.nodes.len() == state.sy.len()
    &&& labels(state.nodes) == state.sy
    &&& leaves_all(state.nodes) == input.take(state.pos)
    &&& forall|j: int| 0 <= j < state.nodes.len() ==> built_by(g.productions, #[trigger] state.nodes[j])
}

/// A shift keeps the trees in order.
proof fn lemma_shift_trees(g: SpecGrammar, input: Seq<Seq<char>>, state: LRState, j: usize)
    requires
        trees_ok(g, input, state),
        0 <= state.pos < input.len(),
    ensures
        ({
            let cur = input[state.pos];
            trees_ok(g, input, LRState {
                ss: state.ss.push(j),
                sy: state.sy.push(cur),
                nodes: state.nodes.push(leaf(state.nid, cur, "terminal"@)),
                nid: (state.nid + 1) as usize,
                pos: state.pos + 1,
                step: state.step + 1,
            })
        }),
{
    let cur = input[state.pos];
    let lf = leaf(state.nid, cur, "terminal"@);
    let nodes = state.nodes.push(lf);
    lemma_leaves_all_concat(state.nodes, seq![lf]);
    lemma_leaves_all_single(lf);
    assert(state.nodes + seq![lf] =~= nodes);
    assert(input.take(state.pos + 1) =~= input.take(state.pos) + seq![cur]);
    assert(labels(nodes) =~= state.sy.push(cur));
    lemma_kinds_differ();
    assert(built_by(g.productions, lf));
    assert forall|q: int| 0 <= q < nodes.len() implies built_by(g.productions, #[trigger] nodes[q]) by {
        if q < state.nodes.len() {
            assert(nodes[q] == state.nodes[q]);
        }
    }
}

/// A reduction by production `k` keeps the trees in order: the new node has
/// the trees of the right side as its children.
proof fn lemma_reduce_trees(g: SpecGrammar, input: Seq<Seq<char>>, state: LRState, xs: Seq<SpecSymbol>, k: int)
    requires
        trees_ok(g, input, state),
        shown_by(xs, state.sy),
        0 <= k < g.productions.len(),
        g.productions[k].left is NonTerminal,
        g.productions[k].right.len() > 0,
        pop_count(g.productions[k]) <= xs.len(),
        xs == xs.take(xs.len() - pop_count(g.productions[k])) + rhs_yield(g.productions[k].right),
    ensures
        trees_ok(g, input, reduced(state, g.productions[k])),
{
    let p = g.productions[k];
    let mid = reduced(state, p);
    let n = pop_count(p);
    let len = state.nodes.len();
    let cut = cut_at(len, n);
    assert(cut == len - n);
    let kids = if n == 0 { seq![leaf(state.nid, "ϵ"@, "epsilon"@)] } else { state.nodes.subrange(cut as int, len as int) };
    let pid = if n == 0 { (state.nid + 1) as usize } else { state.nid };
    let parent = SpecTree { id: pid, label: sym_text(p.left), kind: "non_terminal"@, children: kids };
    assert(mid.nodes == state.nodes.take(cut as int).push(parent));
    lemma_kinds_differ();
    assert(leaves(parent) == leaves_all(kids));
    if n == 0 {
        let e = leaf(state.nid, "ϵ"@, "epsilon"@);
        assert(leaves_all(e.children) =~= Seq::<Seq<char>>::empty());
        lemma_leaves_all_single(e);
        assert(leaves_all(kids) =~= Seq::<Seq<char>>::empty());
        assert(state.nodes.take(cut as int) =~= state.nodes);
    } else {
        assert(state.nodes.take(cut as int) + kids =~= state.nodes);
        lemma_leaves_all_concat(state.nodes.take(cut as int), kids);
    }
    lemma_leaves_all_concat(state.nodes.take(cut as int), seq![parent]);
    lemma_leaves_all_single(parent);
    assert(state.nodes.take(cut as int) + seq![parent] =~= mid.nodes);
    assert(labels(mid.nodes) =~= mid.sy) by {
        assert(labels(state.nodes.take(cut as int)) =~= state.sy.take(cut as int));
    }
    assert(g.productions[k].left == SpecSymbol::NonTerminal(parent.label));
    if n == 0 {
        assert(is_epsilon_rhs(p.right));
        assert(p.right =~= seq![SpecSymbol::Epsilon]);
        assert(labels(kids) =~= p.right.map_values(|x: SpecSymbol| sym_text(x)));
        assert(built_by(g.productions, kids[0]));
    } else {
        assert(rhs_yield(p.right) == p.right);
        assert(xs.skip(cut as int) =~= p.right);
        assert forall|q: int| 0 <= q < kids.len() implies labels(kids)[q] == p.right.map_values(|x: SpecSymbol| sym_text(x))[q] by {
            assert(kids[q] == state.nodes[cut + q]);
            assert(labels(state.nodes)[cut + q] == state.sy[cut + q]);
            assert(sym_text(xs[cut + q]) == state.sy[cut + q]);
            assert(xs.skip(cut as int)[q] == xs[cut + q]);
        }
        assert(labels(kids) =~= p.right.map_values(|x: SpecSymbol| sym_text(x)));
        assert forall|q: int| 0 <= q < kids.len() implies built_by(g.productions, #[trigger] kids[q]) by {
            assert(kids[q] == state.nodes[cut + q]);
        }
    }
    assert(built_by(g.productions, parent));
    assert forall|q: int| 0 <= q < mid.nodes.len() implies built_by(g.productions, #[trigger] mid.nodes[q]) by {
        if q < cut {
            assert(mid.nodes[q] == state.nodes[q]);
        }
    }
}

/// The ids of a tree are `0` up to the number of its nodes, each once, and
/// each node's id is above the ids of the nodes beneath it.
pub open spec fn ids_numbered(t: SpecTree) -> bool {
    &&& ids(t).no_duplicates()
    &&& forall|q: int| 0 <= q < ids(t).len() ==> #[trigger] ids(t)[q] < ids(t).len()
    &&& ids_above(t)
}

/// The ids of the trees built so far are distinct, all below the next id,
/// and as many as it; each tree has its ids above those beneath.
pub open spec fn ids_ok(state: LRState) -> bool {
    &&& ids_all(state.nodes).no_duplicates()
    &&& forall|q: int| 0 <= q < ids_all(state.nodes).len() ==> #[trigger] ids_all(state.nodes)[q] < state.nid
    &&& ids_all(state.nodes).len() == state.nid
    &&& forall|j: int| 0 <= j < state.nodes.len() ==> ids_above(#[trigger] state.nodes[j])
}

/// A fresh id put among distinct ids keeps them distinct.
proof fn lemma_put_fresh(a: Seq<usize>, k: Seq<usize>, x: usize)
    requires
        (a + k).no_duplicates(),
        !(a + k).contains(x),
    ensures
        (a + seq![x] + k).no_duplicates(),
        (a + seq![x] + k).len() == (a + k).len() + 1,
{
    let l = a + seq![x] + k;
    let o = a + k;
    assert forall|i: int, j: int| 0 <= i < l.len() && 0 <= j < l.len() && i != j implies l[i] != l[j] by {
        let oi = if i < a.len() { i } else { i - 1 };
        let oj = if j < a.len() { j } else { j - 1 };
        if i != a.len() && j != a.len() {
            assert(l[i] == o[oi]);
            assert(l[j] == o[oj]);
        } else if i == a.len() {
            assert(l[i] == x);
            assert(l[j] == o[oj]);
        } else {
            assert(l[j] == x);
            assert(l[i] == o[oi]);
        }
    }
}

/// A shift keeps the ids in order.
proof fn lemma_shift_ids(input: Seq<Seq<char>>, state: LRState, j: usize)
    requires
        ids_ok(state),
        state.nid < usize::MAX,
        0 <= state.pos < input.len(),
    ensures
        ({
            let cur = input[state.pos];
            ids_ok(LRState {
                ss: state.ss.push(j),
                sy: state.sy.push(cur),
                nodes: state.nodes.push(leaf(state.nid, cur, "terminal"@)),
                nid: (state.nid + 1) as usize,
                pos: state.pos + 1,
                step: state.step + 1,
            })
        }),
{
    let cur = input[state.pos];
    let lf = leaf(state.nid, cur, "terminal"@);
    let nodes = state.nodes.push(lf);
    assert(state.nodes + seq![lf] =~= nodes);
    lemma_ids_all_concat(state.nodes, seq![lf]);
    lemma_ids_all_single(lf);
    let o = ids_all(state.nodes);
    assert(ids_all(lf.children) =~= Seq::<usize>::empty());
    assert(ids(lf) =~= seq![state.nid]);
    assert(!o.contains(state.nid)) by {
        if o.contains(state.nid) {
            let q = choose|q: int| 0 <= q < o.len() && o[q] == state.nid;
        }
    }
    lemma_put_fresh(o, Seq::<usize>::empty(), state.nid);
    assert(o + Seq::<usize>::empty() =~= o);
    assert(o + seq![state.nid] + Seq::<usize>::empty() =~= ids_all(nodes));
    assert(ids_above(lf));
    assert forall|q: int| 0 <= q < nodes.len() implies ids_above(#[trigger] nodes[q]) by {
        if q < state.nodes.len() {
            assert(nodes[q] == state.nodes[q]);
        }
    }
}

/// A reduction keeps the ids in order: the new node takes the next id,
/// after its children's.
proof fn lemma_reduce_ids(state: LRState, p: SpecProduction)
    requires
        ids_ok(state),
        state.nid + 2 <= usize::MAX,
        pop_count(p) <= state.nodes.len(),
    ensures
        ids_ok(reduced(state, p)),
        reduced(state, p).nid <= state.nid + 2,
{
    let mid = reduced(state, p);
    let n = pop_count(p);
    let len = state.nodes.len();
    let cut = cut_at(len, n);
    assert(cut == len - n);
    let a = state.nodes.take(cut as int);
    let kids = if n == 0 { seq![leaf(state.nid, "ϵ"@, "epsilon"@)] } else { state.nodes.subrange(cut as int, len as int) };
    let pid = if n == 0 { (state.nid + 1) as usize } else { state.nid };
    let parent = SpecTree { id: pid, label: sym_text(p.left), kind: "non_terminal"@, children: kids };
    assert(mid.nodes == a.push(parent));
    assert(a + seq![parent] =~= mid.nodes);
    lemma_ids_all_concat(a, seq![parent]);
    lemma_ids_all_single(parent);
    let o = ids_all(state.nodes);
    assert forall|q: int| 0 <= q < o.len() implies o[q] < state.nid by {}
    if n == 0 {
        let e = leaf(state.nid, "ϵ"@, "epsilon"@);
        assert(a =~= state.nodes);
        assert(ids_all(e.children) =~= Seq::<usize>::empty());
        assert(ids(e) =~= seq![state.nid]);
        lemma_ids_all_single(e);
        assert(ids(parent) =~= seq![pid, state.nid]);
        assert(!o.contains(pid)) by {
            if o.contains(pid) {
                let q = choose|q: int| 0 <= q < o.len() && o[q] == pid;
            }
        }
        assert(!o.contains(state.nid)) by {
            if o.contains(state.nid) {
                let q = choose|q: int| 0 <= q < o.len() && o[q] == state.nid;
            }
        }
        lemma_put_fresh(o, Seq::<usize>::empty(), pid);
        assert(o + Seq::<usize>::empty() =~= o);
        let o2 = o + seq![pid] + Seq::<usize>::empty();
        assert(o2 =~= o.push(pid));
        assert(!o2.contains(state.nid)) by {
            if o2.contains(state.nid) {
                let q = choose|q: int| 0 <= q < o2.len() && o2[q] == state.nid;
                if q < o.len() {
                    assert(o[q] == state.nid);
                }
            }
        }
        lemma_put_fresh(o2, Seq::<usize>::empty(), state.nid);
        assert(o2 + Seq::<usize>::empty() =~= o2);
        assert(ids_all(mid.nodes) =~= o2 + seq![state.nid] + Seq::<usize>::empty());
        assert(ids_above(e));
        assert(ids_above(parent)) by {
            assert(ids_all(parent.children) =~= seq![state.nid]);
            assert forall|j: int| 0 <= j < parent.children.len() implies ids_above(#[trigger] parent.children[j]) by {
                assert(parent.children[j] == e);
            }
        }
    } else {
        assert(a + kids =~= state.nodes);
        lemma_ids_all_concat(a, kids);
        assert(ids(parent) =~= seq![pid] + ids_all(kids));
        assert(!o.contains(pid)) by {
            if o.contains(pid) {
                let q = choose|q: int| 0 <= q < o.len() && o[q] == pid;
            }
        }
        lemma_put_fresh(ids_all(a), ids_all(kids), pid);
        assert(ids_all(mid.nodes) =~= ids_all(a) + seq![pid] + ids_all(kids));
        assert(ids_above(parent)) by {
            assert forall|q: int| 0 <= q < ids_all(kids).len() implies #[trigger] ids_all(kids)[q] < pid by {
                assert(ids_all(kids)[q] == o[ids_all(a).len() + q]);
            }
            assert forall|j: int| 0 <= j < kids.len() implies ids_above(#[trigger] kids[j]) by {
                assert(kids[j] == state.nodes[cut + j]);
            }
        }
    }
    assert forall|q: int| 0 <= q < ids_all(mid.nodes).len() implies #[trigger] ids_all(mid.nodes)[q] < mid.nid by {
        if n == 0 {
            if q < o.len() {
                assert(ids_all(mid.nodes)[q] == o[q]);
            }
        } else {
            let la = ids_all(a).len();
            if q < la {
                assert(ids_all(mid.nodes)[q] == o[q]);
            } else if q > la {
                assert(ids_all(mid.nodes)[q] == o[q - 1]);
            }
        }
    }
    assert forall|j: int| 0 <= j < mid.nodes.len() implies ids_above(#[trigger] mid.nodes[j]) by {
        if j < cut {
            assert(mid.nodes[j] == state.nodes[j]);
        }
    }
}

/// A run of the shift-reduce parse over sound tables, from a stack of
/// which `run_ok` and `trees_ok` hold, accepts with a tree labelled by the
/// start symbol, built by the productions, whose terminal leaves spell the
/// tokens before the `$` at which it accepts.
pub proof fn lemma_lr_trace_tree(
    g: SpecGrammar,
    st: Seq<Seq<SpecItem>>,
    tr: GotoMap,
    dss: Seq<Seq<SpecDesc>>,
    act: ActMap,
    gt: GotoMap,
    input: Seq<Seq<char>>,
    state: LRState,
    fuel: nat,
    xs: Seq<SpecSymbol>,
    forms: Seq<Seq<SpecSymbol>>,
)
    requires
        sound_tables(g, st, tr, dss, act, gt),
        run_ok(g, st, tr, input, state, xs, forms),
        trees_ok(g, input, state),
        ids_ok(state),
        state.nid + 2 * fuel <= usize::MAX,
        forall|k: int| 0 <= k < g.productions.len() ==> (#[trigger] g.productions[k]).right.len() > 0,
    ensures
        lr_trace(act, gt, aug_prods(g), input, state, fuel) matches Ok((_, t))
            ==> exists|k: int| 0 <= k < input.len() && input[k] == "$"@ && #[trigger] input.take(k) == leaves(t)
                && t.label == sym_text(g.start) && built_by(g.productions, t) && ids_numbered(t),
    decreases fuel,
{
    let prods = aug_prods(g);
    if fuel == 0 || state.ss.len() == 0 || !(0 <= state.pos < input.len()) {
        return;
    }
    let s = state.ss.last();
    let cur = input[state.pos];
    if !act.contains_key((s, cur)) {
        return;
    }
    match act[(s, cur)] {
        SpecAction::Shift(j) => {
            if fuel > 1 {
                lemma_shift_keeps(g, st, tr, dss, act, gt, input, state, xs, forms, j);
                lemma_shift_trees(g, input, state, j);
                lemma_shift_ids(input, state, j);
                let tc = SpecSymbol::Terminal(cur);
                let next = LRState {
                    ss: state.ss.push(j),
                    sy: state.sy.push(cur),
                    nodes: state.nodes.push(leaf(state.nid, cur, "terminal"@)),
                    nid: (state.nid + 1) as usize,
                    pos: state.pos + 1,
                    step: state.step + 1,
                };
                lemma_lr_trace_tree(g, st, tr, dss, act, gt, input, next, (fuel - 1) as nat, xs.push(tc), with_suffix(forms, tc));
            }
        },
        SpecAction::Reduce(idx, ptext) => {
            if !(idx >= prods.len() || state.ss.len() <= pop_count(prods[idx as int])) {
                let p = prods[idx as int];
                let mid = reduced(state, p);
                let top = mid.ss.last();
                if gt.contains_key((top, sym_text(p.left))) && fuel > 1 {
                    lemma_reduce_keeps(g, st, tr, dss, act, gt, input, state, xs, forms, idx, ptext);
                    lemma_reduce_item(g, st, tr, dss, act, gt, input, state, xs, forms, idx, ptext);
                    let k = (idx - 1) as int;
                    assert(g.productions[k] == p);
                    assert(p.left is NonTerminal);
                    lemma_reduce_trees(g, input, state, xs, k);
                    lemma_reduce_ids(state, p);
                    let next = LRState { ss: mid.ss.push(gt[(top, sym_text(p.left))]), ..mid };
                    let xs2 = xs.take(xs.len() - pop_count(p)).push(p.left);
                    lemma_lr_trace_tree(g, st, tr, dss, act, gt, input, next, (fuel - 1) as nat, xs2, seq![xs2] + forms);
                }
            }
        },
        SpecAction::Accept => {
            lemma_accept_stack(g, st, tr, dss, act, gt, input, state, xs, forms);
            assert(state.nodes.len() == 1);
            let t = state.nodes.last();
            assert(state.nodes =~= seq![t]);
            lemma_leaves_all_single(t);
            assert(labels(state.nodes)[0] == t.label);
            assert(input.take(state.pos) == leaves(t));
            assert(built_by(g.productions, state.nodes[0]));
            lemma_ids_all_single(t);
            assert(ids_above(state.nodes[0]));
            assert(ids_numbered(t));
        },
    }
}

/// What acceptance needs of a grammar to mean a derivation: the start
/// symbol and the left sides are non-terminals other than `S'`, `S'` is on
/// no right side, `ϵ` stands alone on a right side, and no two symbols of
/// the augmented grammar are shown by the same text.
pub open spec fn lr_grammar_ok(g: SpecGrammar) -> bool {
    &&& g.start is NonTerminal
    &&& g.start != aug_start()
    &&& forall|k: int| 0 <= k < g.productions.len() ==> (#[trigger] g.productions[k]).left is NonTerminal
        && g.productions[k].left != aug_start()
    &&& forall|k: int, q: int| 0 <= k < g.productions.len() && 0 <= q < g.productions[k].right.len()
        ==> #[trigger] g.productions[k].right[q] != aug_start()
    &&& eps_alone(g)
    &&& names_unique(aug_prods(g))
}

pub proof fn lemma_augmented_shape(g: SpecGrammar, list: Vec<Production>)
    requires
        lr_grammar_ok(g),
        prods_view(list@) == aug_prods(g),
    ensures
        augmented_shape(aug_prods(g)),
{
    let prods = aug_prods(g);
    assert(prods.len() == list.len());
    assert(prods.len() == list@.len());
    assert(list.len() == list@.len());
    assert forall|k: int| 0 <= k < prods.len() implies (#[trigger] prods[k]).right.len() <= usize::MAX by {
        assert(prods[k] == list@[k]@);
        assert(list@[k].right.len() == list@[k].right@.len());
    }
    assert forall|k: int| 1 <= k < prods.len() implies (#[trigger] prods[k]).left != aug_start() by {
        assert(prods[k] == g.productions[k - 1]);
    }
    assert forall|k: int, q: int| 0 <= k < prods.len() && 0 <= q < prods[k].right.len()
        implies #[trigger] prods[k].right[q] != aug_start() by {
        if k >= 1 {
            assert(prods[k] == g.productions[k - 1]);
        }
    }
    assert forall|k: int| 0 <= k < prods.len() implies (#[trigger] prods[k]).left is NonTerminal by {
        if k >= 1 {
            assert(prods[k] == g.productions[k - 1]);
        }
    }
    assert forall|k: int, q: int| 0 <= k < prods.len() && 0 <= q < prods[k].right.len() && #[trigger] prods[k].right[q] == SpecSymbol::Epsilon
        implies prods[k].right.len() == 1 by {
        if k >= 1 {
            assert(prods[k] == g.productions[k - 1]);
            assert(g.productions[k - 1].right[q] == SpecSymbol::Epsilon);
        }
    }
}

/// A run from the start state over sound tables that accepts has found a
/// derivation of the tokens read before `$`.
pub proof fn lemma_parse_sound(g: SpecGrammar, st: Seq<Seq<SpecItem>>, tr: GotoMap, dss: Seq<Seq<SpecDesc>>, act: ActMap, gt: GotoMap, input: Seq<String>)
    requires
        sound_tables(g, st, tr, dss, act, gt),
    ensures
        lr_parse_spec(act, gt, aug_prods(g), input) is Ok ==> exists|k: int| 0 <= k <= input.len() && with_end_marker(input)[k] == "$"@
            && derives(g, seq![g.start], terminals_of(strs_view(input).take(k))),
{
    let iv = with_end_marker(input);
    let state = LRState { ss: seq![0usize], sy: Seq::empty(), nodes: Seq::empty(), nid: 0, pos: 0, step: 0 };
    let xs = Seq::<SpecSymbol>::empty();
    assert(iv.take(0) =~= Seq::<Seq<char>>::empty());
    assert(terminals_of(iv.take(0)) =~= xs);
    assert(derivation_of(g, seq![xs], xs, terminals_of(iv.take(0))));
    assert(stack_path(st, tr, state.ss, xs));
    assert(run_ok(g, st, tr, iv, state, xs, seq![xs]));
    lemma_lr_trace_sound(g, st, tr, dss, act, gt, iv, state, 1001, xs, seq![xs]);
    if lr_parse_spec(act, gt, aug_prods(g), input) is Ok {
        let (k, fs) = choose|k: int, fs: Seq<Seq<SpecSymbol>>| 0 <= k < iv.len() && iv[k] == "$"@
            && #[trigger] derivation_of(g, fs, seq![g.start], terminals_of(iv.take(k)));
        assert(iv.take(k) =~= strs_view(input).take(k));
        assert(derivation_of(g, fs, seq![g.start], terminals_of(strs_view(input).take(k))));
    }
}

/// The tree of a whole shift-reduce parse over sound tables that accepts.
pub proof fn lemma_parse_tree(g: SpecGrammar, st: Seq<Seq<SpecItem>>, tr: GotoMap, dss: Seq<Seq<SpecDesc>>, act: ActMap, gt: GotoMap, input: Seq<String>)
    requires
        sound_tables(g, st, tr, dss, act, gt),
        forall|k: int| 0 <= k < g.productions.len() ==> (#[trigger] g.productions[k]).right.len() > 0,
        forall|j: int| 0 <= j < input.len() ==> (#[trigger] input[j])@ != "$"@,
    ensures
        lr_parse_spec(act, gt, aug_prods(g), input) matches Ok((_, t)) ==> leaves(t) == strs_view(input) && t.label == sym_text(g.start)
            && built_by(g.productions, t) && ids_numbered(t),
{
    let iv = with_end_marker(input);
    let state = LRState { ss: seq![0usize], sy: Seq::empty(), nodes: Seq::empty(), nid: 0, pos: 0, step: 0 };
    let xs = Seq::<SpecSymbol>::empty();
    assert(iv.take(0) =~= Seq::<Seq<char>>::empty());
    assert(terminals_of(iv.take(0)) =~= xs);
    assert(derivation_of(g, seq![xs], xs, terminals_of(iv.take(0))));
    assert(stack_path(st, tr, state.ss, xs));
    assert(run_ok(g, st, tr, iv, state, xs, seq![xs]));
    assert(labels(state.nodes) =~= state.sy);
    assert(leaves_all(state.nodes) =~= iv.take(0));
    assert(ids_all(state.nodes) =~= Seq::<usize>::empty());
    lemma_lr_trace_tree(g, st, tr, dss, act, gt, iv, state, 1001, xs, seq![xs]);
    if let Ok((_, t)) = lr_parse_spec(act, gt, aug_prods(g), input) {
        let k = choose|k: int| 0 <= k < iv.len() && iv[k] == "$"@ && #[trigger] iv.take(k) == leaves(t) && t.label == sym_text(g.start)
            && built_by(g.productions, t) && ids_numbered(t);
        if k < input.len() {
            assert(iv[k] == input[k]@);
        }
        assert(iv.take(k) =~= strs_view(input));
    }
}

/// An LR(0) parse that accepts has found a derivation: the tokens before the
/// `$` at which it accepts are derived from the start symbol.
pub proof fn lr0_accept_derives_input(p: LR0Parser, g: SpecGrammar, input: Seq<String>)
    requires
        p.built_from(g),
        lr_grammar_ok(g),
    ensures
        lr_parse_spec(p.action_table@, p.goto_table@, prods_view(p.production_list@), input) is Ok
            ==> exists|k: int| 0 <= k <= input.len() && with_end_marker(input)[k] == "$"@
                && derives(g, seq![g.start], terminals_of(strs_view(input).take(k))),
{
    let prods = aug_prods(g);
    assert(augment(g).productions =~= prods);
    let st = states_view(p.states@);
    let dss = uniform_descs(st, lr0_lookaheads(prods));
    lemma_augmented_shape(g, p.production_list);
    assert(dss.len() <= usize::MAX) by {
        assert(dss.len() == p.states@.len());
        assert(p.states.len() == p.states@.len());
    }
    lemma_tables_justified("LR(0)"@, prods, aug_start(), p.transitions@, dss);
    lemma_automaton0_facts(prods, st, p.transitions@);
    assert(descs_of(st, dss));
    assert(sound_tables(g, st, p.transitions@, dss, p.action_table@, p.goto_table@));
    lemma_parse_sound(g, st, p.transitions@, dss, p.action_table@, p.goto_table@, input);
}

/// An SLR(1) parse that accepts has found a derivation: the tokens before
/// the `$` at which it accepts are derived from the start symbol.
pub proof fn slr1_accept_derives_input(p: SLR1Parser, g: SpecGrammar, input: Seq<String>)
    requires
        p.built_from(g),
        lr_grammar_ok(g),
    ensures
        lr_parse_spec(p.action_table@, p.goto_table@, prods_view(p.production_list@), input) is Ok
            ==> exists|k: int| 0 <= k <= input.len() && with_end_marker(input)[k] == "$"@
                && derives(g, seq![g.start], terminals_of(strs_view(input).take(k))),
{
    let prods = aug_prods(g);
    assert(augment(g).productions =~= prods);
    let st = states_view(p.states@);
    let dss = slr_descs(st, p.follow@);
    lemma_augmented_shape(g, p.production_list);
    assert(dss.len() <= usize::MAX) by {
        assert(dss.len() == p.states@.len());
        assert(p.states.len() == p.states@.len());
    }
    lemma_tables_justified("SLR(1)"@, prods, aug_start(), p.transitions@, dss);
    lemma_automaton0_facts(prods, st, p.transitions@);
    assert(descs_of(st, dss));
    assert(sound_tables(g, st, p.transitions@, dss, p.action_table@, p.goto_table@));
    lemma_parse_sound(g, st, p.transitions@, dss, p.action_table@, p.goto_table@, input);
}

/// An LR(1) item without its lookahead.
pub open spec fn core_of(it: SpecItem1) -> SpecItem {
    SpecItem { prod: it.prod, dot: it.dot }
}

/// The LR(1) states as LR(0) items (lookaheads left out).
pub open spec fn cores(st: Seq<Seq<SpecItem1>>) -> Seq<Seq<SpecItem>> {
    st.map_values(|items: Seq<SpecItem1>| items.map_values(|it: SpecItem1| core_of(it)))
}

pub proof fn lemma_states1_items_in(g: Seq<SpecProduction>, f: StrRel, st: Seq<Seq<SpecItem1>>, tr: GotoMap, j: int)
    requires
        automaton1(g, f, st, tr),
        g.len() >= 1,
        0 <= j < st.len(),
    ensures
        forall|q: int| 0 <= q < st[j].len() ==> item_in(g, core_of(#[trigger] st[j][q])),
    decreases j,
{
    let p = Set::new(|it: SpecItem1| item_in(g, core_of(it)));
    assert forall|it: SpecItem1, k: int, b: Seq<char>| #![trigger p.contains(it), expands1(g, f, it, k, b)]
        p.contains(it) && expands1(g, f, it, k, b) implies p.contains(start_item1(g[k], b)) by {
        assert(g[k] == core_of(start_item1(g[k], b)).prod);
    }
    assert(closed1_set(g, f, p));
    if j == 0 {
        assert(g[0] == core_of(start_item1(g[0], "$"@)).prod);
        assert(p.contains(start_item1(g[0], "$"@)));
        assert(set![start_item1(g[0], "$"@)].subset_of(p));
        assert(all_in1(st[0], p));
    } else {
        assert(entered(tr, j));
        let key = choose|key: (usize, Seq<char>)| #[trigger] tr.contains_key(key) && key.0 < j && tr[key] == j;
        let src = st[key.0 as int];
        lemma_states1_items_in(g, f, st, tr, key.0 as int);
        assert(goto_target1(g, f, src, key.1, st[j]));
        let x = choose|x: SpecSymbol| #[trigger] after_dot1(src, x) && sym_text(x) == key.1 && is_goto1(g, f, src, x, st[j]);
        assert forall|y: SpecItem1| kernel1(src, x).contains(y) implies p.contains(y) by {
            let q = choose|q: int| #![trigger src[q]] 0 <= q < src.len() && next_sym(src[q].prod, src[q].dot) == Some(x) && y == advanced1(src[q]);
            assert(item_in(g, core_of(src[q])));
            let k = choose|k: int| 0 <= k < g.len() && #[trigger] g[k] == core_of(src[q]).prod && core_of(src[q]).dot <= core_of(src[q]).prod.right.len();
            assert(g[k] == core_of(y).prod);
        }
        assert(kernel1(src, x).subset_of(p));
        assert(all_in1(st[j], p));
    }
}

/// The items that an LR(1) goto(`src`, `x`) can hold.
pub open spec fn goto_cover1(g: Seq<SpecProduction>, src: Seq<SpecItem1>, x: SpecSymbol) -> Set<SpecItem1> {
    Set::new(|it: SpecItem1|
        kernel1(src, x).contains(it) || (it.dot == 0 && it.prod.left != aug_start() && exists|k: int| 0 <= k < g.len() && #[trigger] g[k] == it.prod))
}

pub proof fn lemma_goto_cover1_closed(g: Seq<SpecProduction>, f: StrRel, src: Seq<SpecItem1>, x: SpecSymbol)
    requires
        augmented_shape(g),
        forall|q: int| 0 <= q < src.len() ==> item_in(g, core_of(#[trigger] src[q])),
    ensures
        closed1_set(g, f, goto_cover1(g, src, x)),
        kernel1(src, x).subset_of(goto_cover1(g, src, x)),
{
    let c = goto_cover1(g, src, x);
    assert forall|it: SpecItem1, k: int, b: Seq<char>| #![trigger c.contains(it), expands1(g, f, it, k, b)]
        c.contains(it) && expands1(g, f, it, k, b) implies c.contains(start_item1(g[k], b)) by {
        assert(next_sym(it.prod, it.dot) == Some(g[k].left));
        let kp: int = if kernel1(src, x).contains(it) {
            let q = choose|q: int| #![trigger src[q]] 0 <= q < src.len() && next_sym(src[q].prod, src[q].dot) == Some(x) && it == advanced1(src[q]);
            assert(item_in(g, core_of(src[q])));
            choose|k2: int| 0 <= k2 < g.len() && #[trigger] g[k2] == core_of(src[q]).prod && core_of(src[q]).dot <= core_of(src[q]).prod.right.len()
        } else {
            choose|k2: int| 0 <= k2 < g.len() && #[trigger] g[k2] == it.prod
        };
        assert(g[kp] == it.prod);
        assert(g[kp].right[it.dot as int] == g[k].left);
        assert(g[k].left != aug_start());
        assert(g[k] == start_item1(g[k], b).prod);
    }
}

pub proof fn lemma_target_items1(g: Seq<SpecProduction>, f: StrRel, st: Seq<Seq<SpecItem1>>, tr: GotoMap, key: (usize, Seq<char>), q: int)
    requires
        automaton1(g, f, st, tr),
        augmented_shape(g),
        tr.contains_key(key),
        0 <= q < st[tr[key] as int].len(),
    ensures
        target_item(g, cores(st), key, core_of(st[tr[key] as int][q])),
{
    let src = st[key.0 as int];
    let dst = st[tr[key] as int];
    let csrc = cores(st)[key.0 as int];
    assert(csrc == src.map_values(|it: SpecItem1| core_of(it)));
    lemma_states1_items_in(g, f, st, tr, key.0 as int);
    assert(goto_target1(g, f, src, key.1, dst));
    let x = choose|x: SpecSymbol| #[trigger] after_dot1(src, x) && sym_text(x) == key.1 && is_goto1(g, f, src, x, dst);
    lemma_goto_cover1_closed(g, f, src, x);
    let c = goto_cover1(g, src, x);
    assert(all_in1(dst, c));
    let it = dst[q];
    assert(c.contains(it));
    if kernel1(src, x).contains(it) {
        let q2 = choose|q2: int| #![trigger src[q2]] 0 <= q2 < src.len() && next_sym(src[q2].prod, src[q2].dot) == Some(x) && it == advanced1(src[q2]);
        assert(item_in(g, core_of(src[q2])));
        let k2 = choose|k2: int| 0 <= k2 < g.len() && #[trigger] g[k2] == core_of(src[q2]).prod && core_of(src[q2]).dot <= core_of(src[q2]).prod.right.len();
        assert(src[q2].dot < src[q2].prod.right.len());
        assert(src[q2].prod.right.len() <= usize::MAX);
        assert(csrc[q2] == core_of(src[q2]));
        assert(SpecItem { prod: it.prod, dot: (it.dot - 1) as usize } == csrc[q2]);
        assert(csrc.contains(csrc[q2]));
        assert(next_sym(csrc[q2].prod, csrc[q2].dot) == Some(x));
        assert(after_dot(csrc, x));
    }
}

/// A canonical collection of LR(1) item sets, seen as LR(0) items, has the
/// facts a shift-reduce run needs.
pub proof fn lemma_automaton1_facts(g: Seq<SpecProduction>, f: StrRel, st: Seq<Seq<SpecItem1>>, tr: GotoMap)
    requires
        automaton1(g, f, st, tr),
        augmented_shape(g),
    ensures
        item_facts(g, cores(st), tr),
{
    let cs = cores(st);
    assert forall|s: int, q: int| 0 <= s < cs.len() && 0 <= q < cs[s].len() implies item_in(g, #[trigger] cs[s][q]) by {
        lemma_states1_items_in(g, f, st, tr, s);
        assert(cs[s][q] == core_of(st[s][q]));
    }
    let d = Set::new(|it: SpecItem1| it.dot == 0);
    assert(closed1_set(g, f, d));
    assert(set![start_item1(g[0], "$"@)].subset_of(d));
    assert(all_in1(st[0], d));
    assert forall|q: int| 0 <= q < cs[0].len() implies (#[trigger] cs[0][q]).dot == 0 by {
        assert(cs[0][q] == core_of(st[0][q]));
    }
    assert forall|k: (usize, Seq<char>), q: int| tr.contains_key(k) && 0 <= q < cs[tr[k] as int].len()
        implies target_item(g, cs, k, #[trigger] cs[tr[k] as int][q]) by {
        lemma_target_items1(g, f, st, tr, k, q);
        assert(cs[tr[k] as int][q] == core_of(st[tr[k] as int][q]));
    }
}

/// An LR(1) parse that accepts has found a derivation: the tokens before
/// the `$` at which it accepts are derived from the start symbol.
pub proof fn lr1_accept_derives_input(p: LR1Parser, g: SpecGrammar, input: Seq<String>)
    requires
        p.built_from(g),
        lr_grammar_ok(g),
    ensures
        lr_parse_spec(p.action_table@, p.goto_table@, prods_view(p.production_list@), input) is Ok
            ==> exists|k: int| 0 <= k <= input.len() && with_end_marker(input)[k] == "$"@
                && derives(g, seq![g.start], terminals_of(strs_view(input).take(k))),
{
    let prods = aug_prods(g);
    assert(augment(g).productions =~= prods);
    let st1 = states_view1(p.states@);
    let st = cores(st1);
    let dss = lr1_descs(st1);
    lemma_augmented_shape(g, p.production_list);
    assert(dss.len() <= usize::MAX) by {
        assert(dss.len() == p.states@.len());
        assert(p.states.len() == p.states@.len());
    }
    lemma_tables_justified("LR(1)"@, prods, aug_start(), p.transitions@, dss);
    lemma_automaton1_facts(prods, sfirst(prods), st1, p.transitions@);
    assert(descs_of(st, dss));
    assert(sound_tables(g, st, p.transitions@, dss, p.action_table@, p.goto_table@));
    lemma_parse_sound(g, st, p.transitions@, dss, p.action_table@, p.goto_table@, input);
}

/// The tree of an LR(1) parse that accepts (`parse_input_with_tree`): its
/// root is labelled by the start symbol, its terminal leaves spell the
/// input, left to right, and each non-terminal node's children are
/// labelled by the symbols of a right side of one of its productions (one
/// `ϵ` child for an ϵ-production); its ids are `0` up to its number of
/// nodes, each once, every node's above those beneath it. (This needs no
/// token to be `$` and no empty right side.)
pub proof fn lr1_tree_spells_input(p: LR1Parser, g: SpecGrammar, input: Seq<String>)
    requires
        p.built_from(g),
        lr_grammar_ok(g),
        forall|k: int| 0 <= k < g.productions.len() ==> (#[trigger] g.productions[k]).right.len() > 0,
        forall|j: int| 0 <= j < input.len() ==> (#[trigger] input[j])@ != "$"@,
    ensures
        lr_parse_spec(p.action_table@, p.goto_table@, prods_view(p.production_list@), input) matches Ok((_, t))
            ==> leaves(t) == strs_view(input) && t.label == sym_text(g.start) && built_by(g.productions, t) && ids_numbered(t),
{
    let prods = aug_prods(g);
    assert(augment(g).productions =~= prods);
    let st1 = states_view1(p.states@);
    let st = cores(st1);
    let dss = lr1_descs(st1);
    lemma_augmented_shape(g, p.production_list);
    assert(dss.len() <= usize::MAX) by {
        assert(dss.len() == p.states@.len());
        assert(p.states.len() == p.states@.len());
    }
    lemma_tables_justified("LR(1)"@, prods, aug_start(), p.transitions@, dss);
    lemma_automaton1_facts(prods, sfirst(prods), st1, p.transitions@);
    assert(descs_of(st, dss));
    assert(sound_tables(g, st, p.transitions@, dss, p.action_table@, p.goto_table@));
    lemma_parse_tree(g, st, p.transitions@, dss, p.action_table@, p.goto_table@, input);
}

} // verus!

