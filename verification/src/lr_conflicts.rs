//! Reduce-reduce conflicts are always found: the tables put the reductions
//! and accepts of a state's complete items before its shifts, so two
//! complete items of different productions that reduce on one terminal
//! always meet in the table, whatever order the state holds its items in.

use vstd::prelude::*;
use crate::symbols::{SpecSymbol, SpecProduction, SpecGrammar};
use crate::lr::{
    SpecAction, ActMap, GotoMap, SpecDesc, action_text, item_effect, items_effect, state_effect, tables_spec, prod_index_from,
    lemma_tables_err,
};
use crate::lr0::{complete, production_text, LR0Parser, augment, aug_start, states_view, uniform_descs, lr0_lookaheads};
use crate::slr1::{SLR1Parser, slr_descs};
use crate::lr1::{LR1Parser, lr1_descs, states_view1};
use crate::lr_sets::sfirst;
use crate::lr_sound::{item_in, core_of, lemma_states_items_in, lemma_states1_items_in, justified, lemma_tables_justified};
use crate::lr_hierarchy::{cell, fits, put, lemma_action_kind, lemma_insert_action_cell, lemma_insert_all_cells};
use crate::text::lemma_nat_text_injective;

verus! {

/// Item `d` is complete and reduces (or accepts) on terminal `t`: the
/// augmented start item accepts on `$`, another complete item reduces on
/// the terminals of its description.
pub open spec fn reduces_on(aug: SpecSymbol, d: SpecDesc, t: Seq<char>) -> bool {
    &&& complete(d.prod, d.dot)
    &&& if d.prod.left == aug {
        t == "$"@
    } else {
        d.on.contains(t)
    }
}

/// In no state do two complete items of different productions reduce on a
/// common terminal.
pub open spec fn no_reduce_overlap(aug: SpecSymbol, dss: Seq<Seq<SpecDesc>>) -> bool {
    forall|s: int, i: int, j: int, t: Seq<char>|
        0 <= s < dss.len() && 0 <= i < dss[s].len() && 0 <= j < dss[s].len() && #[trigger] reduces_on(aug, dss[s][i], t)
            && #[trigger] reduces_on(aug, dss[s][j], t) ==> dss[s][i].prod == dss[s][j].prod
}

/// The action a complete item puts into the table.
pub open spec fn complete_action(prods: Seq<SpecProduction>, aug: SpecSymbol, d: SpecDesc) -> SpecAction {
    if d.prod.left == aug {
        SpecAction::Accept
    } else {
        SpecAction::Reduce(prod_index_from(prods, d.prod, 0), production_text(d.prod))
    }
}

/// One item leaves the entries of other states as they are.
proof fn lemma_item_other_states(
    name: Seq<char>,
    prods: Seq<SpecProduction>,
    aug: SpecSymbol,
    tr: GotoMap,
    acc: (ActMap, GotoMap),
    s: usize,
    d: SpecDesc,
    k: (usize, Seq<char>),
)
    requires
        k.0 != s,
    ensures
        item_effect(name, prods, aug, tr, acc, s, d) matches Ok(r) ==> cell(r.0, k) == cell(acc.0, k),
{
    if complete(d.prod, d.dot) {
        if d.prod.left == aug {
            lemma_insert_action_cell(name, acc.0, s, "$"@, SpecAction::Accept);
        } else {
            let a = SpecAction::Reduce(prod_index_from(prods, d.prod, 0), production_text(d.prod));
            lemma_insert_all_cells(name, acc.0, s, d.on, a);
        }
    } else {
        match crate::lr0::next_sym(d.prod, d.dot) {
            Some(SpecSymbol::Terminal(t)) => {
                if tr.contains_key((s, t)) {
                    lemma_insert_action_cell(name, acc.0, s, t, SpecAction::Shift(tr[(s, t)]));
                }
            },
            _ => {},
        }
    }
}

/// The items of a state leave the entries of other states as they are.
proof fn lemma_items_other_states(
    name: Seq<char>,
    prods: Seq<SpecProduction>,
    aug: SpecSymbol,
    tr: GotoMap,
    acc: (ActMap, GotoMap),
    s: usize,
    ds: Seq<SpecDesc>,
    first: bool,
    k: (usize, Seq<char>),
)
    requires
        k.0 != s,
    ensures
        items_effect(name, prods, aug, tr, acc, s, ds, first) matches Ok(r) ==> cell(r.0, k) == cell(acc.0, k),
    decreases ds.len(),
{
    if ds.len() > 0 {
        lemma_items_other_states(name, prods, aug, tr, acc, s, ds.drop_last(), first, k);
        if let Ok(a2) = items_effect(name, prods, aug, tr, acc, s, ds.drop_last(), first) {
            lemma_item_other_states(name, prods, aug, tr, a2, s, ds.last(), k);
        }
    }
}

/// The tables of the first `n` states have no entry for a later state.
proof fn lemma_tables_later_empty(
    name: Seq<char>,
    prods: Seq<SpecProduction>,
    aug: SpecSymbol,
    tr: GotoMap,
    dss: Seq<Seq<SpecDesc>>,
    k: (usize, Seq<char>),
)
    requires
        dss.len() <= k.0,
    ensures
        tables_spec(name, prods, aug, tr, dss) matches Ok(r) ==> cell(r.0, k) is None,
    decreases dss.len(),
{
    if dss.len() > 0 {
        let pre = dss.drop_last();
        lemma_tables_later_empty(name, prods, aug, tr, pre, k);
        if let Ok(a2) = tables_spec(name, prods, aug, tr, pre) {
            let s = (dss.len() - 1) as usize;
            lemma_items_other_states(name, prods, aug, tr, a2, s, dss.last(), true, k);
            if let Ok(a3) = items_effect(name, prods, aug, tr, a2, s, dss.last(), true) {
                lemma_items_other_states(name, prods, aug, tr, a3, s, dss.last(), false, k);
            }
        }
    }
}

/// While the complete items of a state are put in, an entry of that state
/// that was empty holds a reduction or an accept with the text of every
/// complete item so far that reduces on its terminal.
proof fn lemma_complete_items_meet(
    name: Seq<char>,
    prods: Seq<SpecProduction>,
    aug: SpecSymbol,
    tr: GotoMap,
    acc: (ActMap, GotoMap),
    s: usize,
    ds: Seq<SpecDesc>,
    t: Seq<char>,
)
    requires
        cell(acc.0, (s, t)) is None,
    ensures
        items_effect(name, prods, aug, tr, acc, s, ds, true) matches Ok(r) ==> {
            &&& (cell(r.0, (s, t)) is None || !(cell(r.0, (s, t))->0 is Shift))
            &&& forall|i: int| 0 <= i < ds.len() && #[trigger] reduces_on(aug, ds[i], t) ==> cell(r.0, (s, t)) is Some
                && action_text(cell(r.0, (s, t))->0) == action_text(complete_action(prods, aug, ds[i]))
        },
    decreases ds.len(),
{
    if ds.len() > 0 {
        let init = ds.drop_last();
        let d = ds.last();
        lemma_complete_items_meet(name, prods, aug, tr, acc, s, init, t);
        if let Ok(a2) = items_effect(name, prods, aug, tr, acc, s, init, true) {
            let key = (s, t);
            let c = cell(a2.0, key);
            assert forall|i: int| 0 <= i < init.len() implies init[i] == ds[i] by {}
            if complete(d.prod, d.dot) {
                let a = complete_action(prods, aug, d);
                lemma_action_kind(a);
                if c is Some {
                    lemma_action_kind(c->0);
                }
                if d.prod.left == aug {
                    lemma_insert_action_cell(name, a2.0, s, "$"@, SpecAction::Accept);
                } else {
                    lemma_insert_all_cells(name, a2.0, s, d.on, a);
                }
                if let Ok(r) = item_effect(name, prods, aug, tr, a2, s, d) {
                    if reduces_on(aug, d, t) {
                        assert(fits(c, a));
                        assert(cell(r.0, key) == Some(put(c, a)));
                        lemma_action_kind(put(c, a));
                        assert(action_text(put(c, a)) == action_text(a));
                    } else {
                        assert(cell(r.0, key) == c);
                    }
                    assert forall|i: int| 0 <= i < ds.len() && #[trigger] reduces_on(aug, ds[i], t) implies cell(r.0, key) is Some
                        && action_text(cell(r.0, key)->0) == action_text(complete_action(prods, aug, ds[i])) by {
                        if i < init.len() {
                            assert(reduces_on(aug, init[i], t));
                        }
                    }
                }
            } else {
                assert forall|i: int| 0 <= i < ds.len() && #[trigger] reduces_on(aug, ds[i], t) implies cell(a2.0, key) is Some
                    && action_text(cell(a2.0, key)->0) == action_text(complete_action(prods, aug, ds[i])) by {
                    if i < init.len() {
                        assert(reduces_on(aug, init[i], t));
                    }
                }
            }
        }
    }
}

/// Tables built without a conflict have, in each state, one action text for
/// all the complete items that reduce on a terminal.
proof fn lemma_tables_meet(
    name: Seq<char>,
    prods: Seq<SpecProduction>,
    aug: SpecSymbol,
    tr: GotoMap,
    dss: Seq<Seq<SpecDesc>>,
    s: int,
    i: int,
    j: int,
    t: Seq<char>,
)
    requires
        0 <= s < dss.len(),
        dss.len() <= usize::MAX,
        0 <= i < dss[s].len(),
        0 <= j < dss[s].len(),
        reduces_on(aug, dss[s][i], t),
        reduces_on(aug, dss[s][j], t),
        tables_spec(name, prods, aug, tr, dss) is Ok,
    ensures
        action_text(complete_action(prods, aug, dss[s][i])) == action_text(complete_action(prods, aug, dss[s][j])),
{
    let pre = dss.take(s + 1);
    if let Err(e) = tables_spec(name, prods, aug, tr, pre) {
        lemma_tables_err(name, prods, aug, tr, dss, s + 1, e);
        assert(dss.take(dss.len() as int) =~= dss);
    }
    assert(pre.drop_last() =~= dss.take(s));
    assert(pre.last() == dss[s]);
    let su = s as usize;
    let key = (su, t);
    lemma_tables_later_empty(name, prods, aug, tr, dss.take(s), key);
    let a2 = tables_spec(name, prods, aug, tr, dss.take(s))->Ok_0;
    lemma_complete_items_meet(name, prods, aug, tr, a2, su, dss[s], t);
}

/// Two productions give the same action text only when they are the same
/// production, given that each is a production of the list and only the
/// first has the augmented start symbol on its left.
proof fn lemma_complete_actions_differ(prods: Seq<SpecProduction>, aug: SpecSymbol, d1: SpecDesc, d2: SpecDesc)
    requires
        prods.len() <= usize::MAX,
        forall|k: int| 1 <= k < prods.len() ==> (#[trigger] prods[k]).left != aug,
        exists|k: int| 0 <= k < prods.len() && prods[k] == d1.prod,
        exists|k: int| 0 <= k < prods.len() && prods[k] == d2.prod,
        action_text(complete_action(prods, aug, d1)) == action_text(complete_action(prods, aug, d2)),
    ensures
        d1.prod == d2.prod,
{
    let a1 = complete_action(prods, aug, d1);
    let a2 = complete_action(prods, aug, d2);
    lemma_action_kind(a1);
    lemma_action_kind(a2);
    let k1 = choose|k: int| 0 <= k < prods.len() && prods[k] == d1.prod;
    let k2 = choose|k: int| 0 <= k < prods.len() && prods[k] == d2.prod;
    if d1.prod.left == aug && d2.prod.left == aug {
        assert(k1 == 0 && k2 == 0);
    } else if d1.prod.left != aug && d2.prod.left != aug {
        crate::lr_sound::lemma_prod_index(prods, d1.prod, 0);
        crate::lr_sound::lemma_prod_index(prods, d2.prod, 0);
        let i1 = prod_index_from(prods, d1.prod, 0);
        let i2 = prod_index_from(prods, d2.prod, 0);
        reveal_strlit("r");
        assert(action_text(a1) == "r"@ + crate::text::nat_text(i1 as nat));
        assert(action_text(a2) == "r"@ + crate::text::nat_text(i2 as nat));
        assert(("r"@ + crate::text::nat_text(i1 as nat)).skip(1) =~= crate::text::nat_text(i1 as nat));
        assert(("r"@ + crate::text::nat_text(i2 as nat)).skip(1) =~= crate::text::nat_text(i2 as nat));
        lemma_nat_text_injective(i1 as nat, i2 as nat);
    }
}

/// Reduce-reduce conflicts are always errors: when the tables are built
/// without a conflict, no state has two complete items of different
/// productions that reduce (or accept) on a common terminal, whatever the
/// order of the items in the states. (Each item is of a production of
/// `prods`, and only the first production has `aug` on its left.)
pub proof fn tables_without_conflict_have_no_reduce_overlap(
    name: Seq<char>,
    prods: Seq<SpecProduction>,
    aug: SpecSymbol,
    tr: GotoMap,
    dss: Seq<Seq<SpecDesc>>,
)
    requires
        prods.len() <= usize::MAX,
        dss.len() <= usize::MAX,
        forall|k: int| 1 <= k < prods.len() ==> (#[trigger] prods[k]).left != aug,
        forall|s: int, q: int| 0 <= s < dss.len() && 0 <= q < dss[s].len() ==> exists|k: int| 0 <= k < prods.len()
            && prods[k] == (#[trigger] dss[s][q]).prod,
    ensures
        tables_spec(name, prods, aug, tr, dss) is Ok ==> no_reduce_overlap(aug, dss),
{
    if tables_spec(name, prods, aug, tr, dss) is Ok {
        assert forall|s: int, i: int, j: int, t: Seq<char>|
            0 <= s < dss.len() && 0 <= i < dss[s].len() && 0 <= j < dss[s].len() && #[trigger] reduces_on(aug, dss[s][i], t)
                && #[trigger] reduces_on(aug, dss[s][j], t) implies dss[s][i].prod == dss[s][j].prod by {
            lemma_tables_meet(name, prods, aug, tr, dss, s, i, j, t);
            assert(exists|k: int| 0 <= k < prods.len() && prods[k] == dss[s][i].prod);
            assert(exists|k: int| 0 <= k < prods.len() && prods[k] == dss[s][j].prod);
            lemma_complete_actions_differ(prods, aug, dss[s][i], dss[s][j]);
        }
    }
}

/// The facts the law needs of the augmented productions of `grammar`.
proof fn lemma_augmented_prods(grammar: SpecGrammar, list: Seq<SpecProduction>)
    requires
        list == augment(grammar).productions,
        forall|k: int| 0 <= k < grammar.productions.len() ==> (#[trigger] grammar.productions[k]).left != aug_start(),
    ensures
        list.len() >= 1,
        forall|k: int| 1 <= k < list.len() ==> (#[trigger] list[k]).left != aug_start(),
{
    assert forall|k: int| 1 <= k < list.len() implies (#[trigger] list[k]).left != aug_start() by {
        assert(list[k] == grammar.productions[k - 1]);
    }
}

/// Every SLR(1) grammar is free of reduce-reduce conflicts, whatever the
/// order of the items in the states: when `SLR1Parser::new` succeeds, no
/// state has two complete items of different productions whose reductions
/// meet (FOLLOW of their left sides, or `$` for `S' → S·`, share a
/// terminal). So `new` refuses every grammar with such a pair. (This needs
/// `S'` to be no left side of the grammar.)
pub proof fn slr1_reduce_conflicts_are_errors(p: SLR1Parser, grammar: SpecGrammar)
    requires
        p.built_from(grammar),
        forall|k: int| 0 <= k < grammar.productions.len() ==> (#[trigger] grammar.productions[k]).left != aug_start(),
    ensures
        no_reduce_overlap(aug_start(), slr_descs(states_view(p.states@), p.follow@)),
{
    let g = augment(grammar).productions;
    let st = states_view(p.states@);
    let dss = slr_descs(st, p.follow@);
    lemma_augmented_prods(grammar, g);
    assert(g.len() == p.production_list@.len());
    assert(p.production_list.len() == p.production_list@.len());
    assert(p.states.len() == p.states@.len());
    assert(dss.len() == p.states@.len());
    assert forall|s: int, q: int| 0 <= s < dss.len() && 0 <= q < dss[s].len() implies exists|k: int| 0 <= k < g.len()
        && g[k] == (#[trigger] dss[s][q]).prod by {
        lemma_states_items_in(g, st, p.transitions@, s);
        assert(item_in(g, st[s][q]));
        assert(dss[s][q].prod == st[s][q].prod);
    }
    tables_without_conflict_have_no_reduce_overlap("SLR(1)"@, g, aug_start(), p.transitions@, dss);
}

/// Every LR(0) grammar is free of reduce-reduce conflicts: when
/// `LR0Parser::new` succeeds, no state has two complete items of different
/// productions (each reduces on every terminal). (This needs `S'` to be no
/// left side of the grammar.)
pub proof fn lr0_reduce_conflicts_are_errors(p: LR0Parser, grammar: SpecGrammar)
    requires
        p.built_from(grammar),
        forall|k: int| 0 <= k < grammar.productions.len() ==> (#[trigger] grammar.productions[k]).left != aug_start(),
    ensures
        no_reduce_overlap(aug_start(), uniform_descs(states_view(p.states@), lr0_lookaheads(augment(grammar).productions))),
{
    let g = augment(grammar).productions;
    let st = states_view(p.states@);
    let dss = uniform_descs(st, lr0_lookaheads(g));
    lemma_augmented_prods(grammar, g);
    assert(g.len() == p.production_list@.len());
    assert(p.production_list.len() == p.production_list@.len());
    assert(p.states.len() == p.states@.len());
    assert(dss.len() == p.states@.len());
    assert forall|s: int, q: int| 0 <= s < dss.len() && 0 <= q < dss[s].len() implies exists|k: int| 0 <= k < g.len()
        && g[k] == (#[trigger] dss[s][q]).prod by {
        lemma_states_items_in(g, st, p.transitions@, s);
        assert(item_in(g, st[s][q]));
        assert(dss[s][q].prod == st[s][q].prod);
    }
    tables_without_conflict_have_no_reduce_overlap("LR(0)"@, g, aug_start(), p.transitions@, dss);
}

/// Every LR(1) grammar is free of reduce-reduce conflicts, whatever the
/// order of the items in the states: when `LR1Parser::new` succeeds, no
/// state has two complete items `[A → α·, a]`, `[B → β·, a]` of different
/// productions with the same lookahead (`[S' → S·, $]` counting as one on
/// `$`). So `new` refuses every grammar with such a pair. (This needs `S'`
/// to be no left side of the grammar.)
pub proof fn lr1_reduce_conflicts_are_errors(p: LR1Parser, grammar: SpecGrammar)
    requires
        p.built_from(grammar),
        forall|k: int| 0 <= k < grammar.productions.len() ==> (#[trigger] grammar.productions[k]).left != aug_start(),
    ensures
        no_reduce_overlap(aug_start(), lr1_descs(states_view1(p.states@))),
{
    let g = augment(grammar).productions;
    let st = states_view1(p.states@);
    let dss = lr1_descs(st);
    lemma_augmented_prods(grammar, g);
    assert(g.len() == p.production_list@.len());
    assert(p.production_list.len() == p.production_list@.len());
    assert(p.states.len() == p.states@.len());
    assert(dss.len() == p.states@.len());
    assert forall|s: int, q: int| 0 <= s < dss.len() && 0 <= q < dss[s].len() implies exists|k: int| 0 <= k < g.len()
        && g[k] == (#[trigger] dss[s][q]).prod by {
        lemma_states1_items_in(g, sfirst(g), st, p.transitions@, s);
        assert(item_in(g, core_of(st[s][q])));
        assert(dss[s][q].prod == st[s][q].prod);
    }
    tables_without_conflict_have_no_reduce_overlap("LR(1)"@, g, aug_start(), p.transitions@, dss);
}

/// Each reduction of the LR(1) ACTION table comes from the lookahead of an
/// item: an entry `Reduce` at `(s, t)` names a production `A → α` of which
/// state `s` holds the complete item `[A → α·, t]`, with `t` its own
/// lookahead (`A` not `S'`); an accept stands at `(s, $)` of a state that
/// holds a complete item of `S'`.
pub proof fn lr1_reductions_come_from_lookaheads(p: LR1Parser, grammar: SpecGrammar)
    requires
        p.built_from(grammar),
    ensures
        forall|k: (usize, Seq<char>)| #[trigger] p.action_table@.contains_key(k) && p.action_table@[k] is Reduce ==> exists|q: int|
            0 <= q < states_view1(p.states@)[k.0 as int].len()
            && complete(#[trigger] states_view1(p.states@)[k.0 as int][q].prod, states_view1(p.states@)[k.0 as int][q].dot)
            && states_view1(p.states@)[k.0 as int][q].la == k.1
            && states_view1(p.states@)[k.0 as int][q].prod.left != aug_start()
            && p.action_table@[k]->Reduce_0 == prod_index_from(augment(grammar).productions, states_view1(p.states@)[k.0 as int][q].prod, 0),
        forall|k: (usize, Seq<char>)| #[trigger] p.action_table@.contains_key(k) && p.action_table@[k] is Accept ==> k.1 == "$"@
            && exists|q: int| 0 <= q < states_view1(p.states@)[k.0 as int].len()
                && complete(#[trigger] states_view1(p.states@)[k.0 as int][q].prod, states_view1(p.states@)[k.0 as int][q].dot)
                && states_view1(p.states@)[k.0 as int][q].prod.left == aug_start(),
{
    let g = augment(grammar).productions;
    let st = states_view1(p.states@);
    let dss = lr1_descs(st);
    assert(p.states.len() == p.states@.len());
    assert(dss.len() == p.states@.len());
    lemma_tables_justified("LR(1)"@, g, aug_start(), p.transitions@, dss);
    assert forall|k: (usize, Seq<char>)| #[trigger] p.action_table@.contains_key(k) && p.action_table@[k] is Reduce implies exists|q: int|
        0 <= q < st[k.0 as int].len()
        && complete(#[trigger] st[k.0 as int][q].prod, st[k.0 as int][q].dot)
        && st[k.0 as int][q].la == k.1
        && st[k.0 as int][q].prod.left != aug_start()
        && p.action_table@[k]->Reduce_0 == prod_index_from(g, st[k.0 as int][q].prod, 0) by {
        assert(justified(g, aug_start(), p.transitions@, dss, k.0, k.1, p.action_table@[k]));
        let q = choose|q: int| 0 <= q < dss[k.0 as int].len() && #[trigger] complete(dss[k.0 as int][q].prod, dss[k.0 as int][q].dot)
            && dss[k.0 as int][q].prod.left != aug_start() && p.action_table@[k]->Reduce_0 == prod_index_from(g, dss[k.0 as int][q].prod, 0)
            && dss[k.0 as int][q].on.contains(k.1);
        assert(dss[k.0 as int][q].on == seq![st[k.0 as int][q].la]);
        assert(complete(st[k.0 as int][q].prod, st[k.0 as int][q].dot));
    }
    assert forall|k: (usize, Seq<char>)| #[trigger] p.action_table@.contains_key(k) && p.action_table@[k] is Accept implies k.1 == "$"@
        && exists|q: int| 0 <= q < st[k.0 as int].len()
            && complete(#[trigger] st[k.0 as int][q].prod, st[k.0 as int][q].dot)
            && st[k.0 as int][q].prod.left == aug_start() by {
        assert(justified(g, aug_start(), p.transitions@, dss, k.0, k.1, p.action_table@[k]));
        let q = choose|q: int| 0 <= q < dss[k.0 as int].len() && #[trigger] complete(dss[k.0 as int][q].prod, dss[k.0 as int][q].dot)
            && dss[k.0 as int][q].prod.left == aug_start();
        assert(complete(st[k.0 as int][q].prod, st[k.0 as int][q].dot));
    }
}

/// While the items of a state that are not complete are put in, an entry
/// of that state keeps its action, unless a shift replaces a reduction.
proof fn lemma_shifts_keep(
    name: Seq<char>,
    prods: Seq<SpecProduction>,
    aug: SpecSymbol,
    tr: GotoMap,
    acc: (ActMap, GotoMap),
    s: usize,
    ds: Seq<SpecDesc>,
    key: (usize, Seq<char>),
)
    requires
        key.0 == s,
        cell(acc.0, key) is Some,
    ensures
        items_effect(name, prods, aug, tr, acc, s, ds, false) matches Ok(r) ==> cell(r.0, key) is Some && (cell(r.0, key)
            == cell(acc.0, key) || (cell(acc.0, key)->0 is Reduce && cell(r.0, key)->0 is Shift)),
    decreases ds.len(),
{
    if ds.len() > 0 {
        lemma_shifts_keep(name, prods, aug, tr, acc, s, ds.drop_last(), key);
        if let Ok(a2) = items_effect(name, prods, aug, tr, acc, s, ds.drop_last(), false) {
            let d = ds.last();
            if !complete(d.prod, d.dot) {
                match crate::lr0::next_sym(d.prod, d.dot) {
                    Some(SpecSymbol::Terminal(t)) => {
                        if tr.contains_key((s, t)) {
                            let a = SpecAction::Shift(tr[(s, t)]);
                            lemma_insert_action_cell(name, a2.0, s, t, a);
                            lemma_action_kind(a);
                            lemma_action_kind(cell(a2.0, key)->0);
                            lemma_action_kind(cell(acc.0, key)->0);
                        }
                    },
                    _ => {},
                }
            }
        }
    }
}

/// The tables of more states keep the entries of the earlier ones.
proof fn lemma_tables_keep_earlier(
    name: Seq<char>,
    prods: Seq<SpecProduction>,
    aug: SpecSymbol,
    tr: GotoMap,
    dss: Seq<Seq<SpecDesc>>,
    n: int,
    key: (usize, Seq<char>),
)
    requires
        key.0 < n <= dss.len(),
        dss.len() <= usize::MAX,
    ensures
        tables_spec(name, prods, aug, tr, dss.take(n)) matches Ok(r) ==> tables_spec(name, prods, aug, tr, dss.take(key.0 + 1)) matches Ok(r1)
            && cell(r.0, key) == cell(r1.0, key),
    decreases n,
{
    let pre = dss.take(n);
    assert(pre.drop_last() =~= dss.take(n - 1));
    if n > key.0 + 1 {
        lemma_tables_keep_earlier(name, prods, aug, tr, dss, n - 1, key);
        if let Ok(a2) = tables_spec(name, prods, aug, tr, dss.take(n - 1)) {
            let su = (n - 1) as usize;
            lemma_items_other_states(name, prods, aug, tr, a2, su, pre.last(), true, key);
            if let Ok(a3) = items_effect(name, prods, aug, tr, a2, su, pre.last(), true) {
                lemma_items_other_states(name, prods, aug, tr, a3, su, pre.last(), false, key);
            }
        }
    }
}

/// In tables built without a conflict, a complete item of state `s` that
/// reduces (or accepts) on `t` finds at `(s, t)` its own action, or a shift
/// that took precedence over a reduction.
proof fn lemma_complete_item_entry(
    name: Seq<char>,
    prods: Seq<SpecProduction>,
    aug: SpecSymbol,
    tr: GotoMap,
    dss: Seq<Seq<SpecDesc>>,
    s: int,
    i: int,
    t: Seq<char>,
)
    requires
        0 <= s < dss.len(),
        dss.len() <= usize::MAX,
        0 <= i < dss[s].len(),
        reduces_on(aug, dss[s][i], t),
        tables_spec(name, prods, aug, tr, dss) is Ok,
    ensures
        ({
            let act = tables_spec(name, prods, aug, tr, dss)->Ok_0.0;
            let key = (s as usize, t);
            &&& act.contains_key(key)
            &&& action_text(act[key]) == action_text(complete_action(prods, aug, dss[s][i]))
                || (complete_action(prods, aug, dss[s][i]) is Reduce && act[key] is Shift)
        }),
{
    let su = s as usize;
    let key = (su, t);
    let pre = dss.take(s + 1);
    assert(dss.take(dss.len() as int) =~= dss);
    lemma_tables_keep_earlier(name, prods, aug, tr, dss, dss.len() as int, key);
    assert(pre.drop_last() =~= dss.take(s));
    assert(pre.last() == dss[s]);
    lemma_tables_later_empty(name, prods, aug, tr, dss.take(s), key);
    if let Err(e) = tables_spec(name, prods, aug, tr, dss.take(s)) {
        assert(tables_spec(name, prods, aug, tr, pre) is Err);
    }
    let a2 = tables_spec(name, prods, aug, tr, dss.take(s))->Ok_0;
    lemma_complete_items_meet(name, prods, aug, tr, a2, su, dss[s], t);
    if let Ok(a3) = items_effect(name, prods, aug, tr, a2, su, dss[s], true) {
        lemma_shifts_keep(name, prods, aug, tr, a3, su, dss[s], key);
        let c3 = cell(a3.0, key)->0;
        lemma_action_kind(c3);
        lemma_action_kind(complete_action(prods, aug, dss[s][i]));
    }
}

/// Each complete item of the LR(1) collection acts on its own lookahead:
/// for an item `[A → α·, t]` of state `s` (`A` not `S'`) the ACTION table
/// holds at `(s, t)` the reduction by `A → α`, or a shift that took
/// precedence over it; for a complete item of `S'` it holds accept at
/// `(s, $)`.
pub proof fn lr1_lookaheads_give_reductions(p: LR1Parser, grammar: SpecGrammar)
    requires
        p.built_from(grammar),
    ensures
        forall|s: int, q: int| 0 <= s < states_view1(p.states@).len() && 0 <= q < states_view1(p.states@)[s].len()
            && complete(#[trigger] states_view1(p.states@)[s][q].prod, states_view1(p.states@)[s][q].dot) ==> {
            let it = states_view1(p.states@)[s][q];
            if it.prod.left == aug_start() {
                p.action_table@.contains_key((s as usize, "$"@)) && p.action_table@[(s as usize, "$"@)] is Accept
            } else {
                p.action_table@.contains_key((s as usize, it.la)) && (p.action_table@[(s as usize, it.la)] is Shift
                    || p.action_table@[(s as usize, it.la)] == SpecAction::Reduce(
                        prod_index_from(augment(grammar).productions, it.prod, 0), p.action_table@[(s as usize, it.la)]->Reduce_1))
            }
        },
{
    let g = augment(grammar).productions;
    let st = states_view1(p.states@);
    let dss = lr1_descs(st);
    assert(p.states.len() == p.states@.len());
    assert(dss.len() == p.states@.len());
    assert forall|s: int, q: int| 0 <= s < st.len() && 0 <= q < st[s].len()
        && complete(#[trigger] st[s][q].prod, st[s][q].dot) implies {
        let it = st[s][q];
        if it.prod.left == aug_start() {
            p.action_table@.contains_key((s as usize, "$"@)) && p.action_table@[(s as usize, "$"@)] is Accept
        } else {
            p.action_table@.contains_key((s as usize, it.la)) && (p.action_table@[(s as usize, it.la)] is Shift
                || p.action_table@[(s as usize, it.la)] == SpecAction::Reduce(
                    prod_index_from(g, it.prod, 0), p.action_table@[(s as usize, it.la)]->Reduce_1))
        }
    } by {
        let it = st[s][q];
        let d = dss[s][q];
        assert(d.prod == it.prod && d.dot == it.dot && d.on == seq![it.la]);
        let t = if it.prod.left == aug_start() { "$"@ } else { it.la };
        if it.prod.left != aug_start() {
            assert(d.on[0] == it.la);
        }
        assert(reduces_on(aug_start(), d, t));
        lemma_complete_item_entry("LR(1)"@, g, aug_start(), p.transitions@, dss, s, q, t);
        let x = p.action_table@[(s as usize, t)];
        lemma_action_kind(x);
        lemma_action_kind(complete_action(g, aug_start(), d));
        if it.prod.left != aug_start() && !(x is Shift) {
            let i1 = x->Reduce_0;
            let i2 = prod_index_from(g, d.prod, 0);
            reveal_strlit("r");
            assert(("r"@ + crate::text::nat_text(i1 as nat)).skip(1) =~= crate::text::nat_text(i1 as nat));
            assert(("r"@ + crate::text::nat_text(i2 as nat)).skip(1) =~= crate::text::nat_text(i2 as nat));
            lemma_nat_text_injective(i1 as nat, i2 as nat);
        }
    }
}

/// No item of the states has `$` after its dot.
pub open spec fn no_end_shift(dss: Seq<Seq<SpecDesc>>) -> bool {
    forall|s: int, q: int| 0 <= s < dss.len() && 0 <= q < dss[s].len()
        ==> #[trigger] crate::lr0::next_sym(dss[s][q].prod, dss[s][q].dot) != Some(SpecSymbol::Terminal("$"@))
}

/// Putting in the complete items of a state whose entries are empty meets
/// no conflict when no two of them of different productions reduce on one
/// terminal; each entry then holds the action of an item that reduces on
/// its terminal.
proof fn lemma_reductions_fit(
    name: Seq<char>,
    prods: Seq<SpecProduction>,
    aug: SpecSymbol,
    tr: GotoMap,
    acc: (ActMap, GotoMap),
    s: usize,
    ds: Seq<SpecDesc>,
)
    requires
        forall|t: Seq<char>| #[trigger] cell(acc.0, (s, t)) is None,
        forall|i: int, j: int, t: Seq<char>| 0 <= i < ds.len() && 0 <= j < ds.len() && #[trigger] reduces_on(aug, ds[i], t)
            && #[trigger] reduces_on(aug, ds[j], t) ==> ds[i].prod == ds[j].prod,
    ensures
        items_effect(name, prods, aug, tr, acc, s, ds, true) is Ok,
        forall|t: Seq<char>| #[trigger] cell(items_effect(name, prods, aug, tr, acc, s, ds, true)->Ok_0.0, (s, t)) is Some
            ==> exists|i: int| 0 <= i < ds.len() && #[trigger] reduces_on(aug, ds[i], t)
                && cell(items_effect(name, prods, aug, tr, acc, s, ds, true)->Ok_0.0, (s, t))->0 == complete_action(prods, aug, ds[i]),
    decreases ds.len(),
{
    if ds.len() == 0 {
        return;
    }
    let init = ds.drop_last();
    let d = ds.last();
    assert forall|i: int| 0 <= i < init.len() implies init[i] == ds[i] by {}
    lemma_reductions_fit(name, prods, aug, tr, acc, s, init);
    let a2 = items_effect(name, prods, aug, tr, acc, s, init, true)->Ok_0;
    if !complete(d.prod, d.dot) {
        assert forall|t: Seq<char>| #[trigger] cell(a2.0, (s, t)) is Some implies exists|i: int| 0 <= i < ds.len()
            && #[trigger] reduces_on(aug, ds[i], t) && cell(a2.0, (s, t))->0 == complete_action(prods, aug, ds[i]) by {
            let i = choose|i: int| 0 <= i < init.len() && #[trigger] reduces_on(aug, init[i], t)
                && cell(a2.0, (s, t))->0 == complete_action(prods, aug, init[i]);
            assert(reduces_on(aug, ds[i], t));
        }
        return;
    }
    let a = complete_action(prods, aug, d);
    let last = ds.len() - 1;
    assert(ds[last] == d);
    if d.prod.left == aug {
        lemma_insert_action_cell(name, a2.0, s, "$"@, SpecAction::Accept);
        if cell(a2.0, (s, "$"@)) is Some {
            let i = choose|i: int| 0 <= i < init.len() && #[trigger] reduces_on(aug, init[i], "$"@)
                && cell(a2.0, (s, "$"@))->0 == complete_action(prods, aug, init[i]);
            assert(reduces_on(aug, ds[i], "$"@) && reduces_on(aug, ds[last], "$"@));
        }
    } else {
        lemma_insert_all_cells(name, a2.0, s, d.on, a);
        assert forall|y: Seq<char>| #[trigger] d.on.contains(y) implies fits(cell(a2.0, (s, y)), a) by {
            if cell(a2.0, (s, y)) is Some {
                let i = choose|i: int| 0 <= i < init.len() && #[trigger] reduces_on(aug, init[i], y)
                    && cell(a2.0, (s, y))->0 == complete_action(prods, aug, init[i]);
                assert(reduces_on(aug, ds[i], y) && reduces_on(aug, ds[last], y));
            }
        }
    }
    let r = items_effect(name, prods, aug, tr, acc, s, ds, true)->Ok_0;
    assert forall|t: Seq<char>| #[trigger] cell(r.0, (s, t)) is Some implies exists|i: int| 0 <= i < ds.len()
        && #[trigger] reduces_on(aug, ds[i], t) && cell(r.0, (s, t))->0 == complete_action(prods, aug, ds[i]) by {
        if reduces_on(aug, d, t) {
            assert(reduces_on(aug, ds[last], t));
            if cell(a2.0, (s, t)) is Some {
                let i = choose|i: int| 0 <= i < init.len() && #[trigger] reduces_on(aug, init[i], t)
                    && cell(a2.0, (s, t))->0 == complete_action(prods, aug, init[i]);
                assert(reduces_on(aug, ds[i], t));
            }
        } else {
            assert(cell(r.0, (s, t)) == cell(a2.0, (s, t)));
            let i = choose|i: int| 0 <= i < init.len() && #[trigger] reduces_on(aug, init[i], t)
                && cell(a2.0, (s, t))->0 == complete_action(prods, aug, init[i]);
            assert(reduces_on(aug, ds[i], t));
        }
    }
}

/// What the entries of state `s` may hold once its reductions are in:
/// a reduction, the accept on `$`, or the shift of the transition.
pub open spec fn entry_settled(tr: GotoMap, act: ActMap, s: usize, t: Seq<char>) -> bool {
    cell(act, (s, t)) is Some ==> {
        let x = cell(act, (s, t))->0;
        x is Reduce || (x is Accept && t == "$"@) || (tr.contains_key((s, t)) && x == SpecAction::Shift(tr[(s, t)]))
    }
}

/// Putting in the other items of a state meets no conflict when no item
/// has `$` after its dot.
proof fn lemma_shifts_fit(
    name: Seq<char>,
    prods: Seq<SpecProduction>,
    aug: SpecSymbol,
    tr: GotoMap,
    acc: (ActMap, GotoMap),
    s: usize,
    ds: Seq<SpecDesc>,
)
    requires
        forall|t: Seq<char>| #[trigger] entry_settled(tr, acc.0, s, t),
        forall|q: int| 0 <= q < ds.len() ==> #[trigger] crate::lr0::next_sym(ds[q].prod, ds[q].dot) != Some(SpecSymbol::Terminal("$"@)),
    ensures
        items_effect(name, prods, aug, tr, acc, s, ds, false) is Ok,
        forall|t: Seq<char>| #[trigger] entry_settled(tr, items_effect(name, prods, aug, tr, acc, s, ds, false)->Ok_0.0, s, t),
    decreases ds.len(),
{
    if ds.len() == 0 {
        return;
    }
    let init = ds.drop_last();
    let d = ds.last();
    assert forall|q: int| 0 <= q < init.len() implies #[trigger] crate::lr0::next_sym(init[q].prod, init[q].dot)
        != Some(SpecSymbol::Terminal("$"@)) by {
        assert(init[q] == ds[q]);
    }
    lemma_shifts_fit(name, prods, aug, tr, acc, s, init);
    let a2 = items_effect(name, prods, aug, tr, acc, s, init, false)->Ok_0;
    if !complete(d.prod, d.dot) {
        assert(crate::lr0::next_sym(ds[ds.len() - 1].prod, ds[ds.len() - 1].dot) != Some(SpecSymbol::Terminal("$"@)));
        match crate::lr0::next_sym(d.prod, d.dot) {
            Some(SpecSymbol::Terminal(t)) => {
                if tr.contains_key((s, t)) {
                    let a = SpecAction::Shift(tr[(s, t)]);
                    lemma_insert_action_cell(name, a2.0, s, t, a);
                    assert(entry_settled(tr, a2.0, s, t));
                    if cell(a2.0, (s, t)) is Some {
                        lemma_action_kind(cell(a2.0, (s, t))->0);
                    }
                    lemma_action_kind(a);
                    let r = items_effect(name, prods, aug, tr, acc, s, ds, false)->Ok_0;
                    assert forall|u: Seq<char>| #[trigger] entry_settled(tr, r.0, s, u) by {
                        assert(entry_settled(tr, a2.0, s, u));
                    }
                }
            },
            _ => {},
        }
    }
}

/// Tables built from states with no reduce overlap and no `$` after a dot
/// meet no conflict.
proof fn lemma_tables_ok(name: Seq<char>, prods: Seq<SpecProduction>, aug: SpecSymbol, tr: GotoMap, dss: Seq<Seq<SpecDesc>>)
    requires
        dss.len() <= usize::MAX + 1,
        no_reduce_overlap(aug, dss),
        no_end_shift(dss),
    ensures
        tables_spec(name, prods, aug, tr, dss) is Ok,
    decreases dss.len(),
{
    if dss.len() == 0 {
        return;
    }
    let pre = dss.drop_last();
    assert forall|s: int| 0 <= s < pre.len() implies #[trigger] pre[s] == dss[s] by {}
    lemma_tables_ok(name, prods, aug, tr, pre);
    let a2 = tables_spec(name, prods, aug, tr, pre)->Ok_0;
    let s = (dss.len() - 1) as usize;
    let ds = dss.last();
    assert(ds == dss[dss.len() - 1]);
    assert forall|t: Seq<char>| #[trigger] cell(a2.0, (s, t)) is None by {
        lemma_tables_later_empty(name, prods, aug, tr, pre, (s, t));
    }
    lemma_reductions_fit(name, prods, aug, tr, a2, s, ds);
    let a3 = items_effect(name, prods, aug, tr, a2, s, ds, true)->Ok_0;
    assert forall|t: Seq<char>| #[trigger] entry_settled(tr, a3.0, s, t) by {
        if cell(a3.0, (s, t)) is Some {
            let i = choose|i: int| 0 <= i < ds.len() && #[trigger] reduces_on(aug, ds[i], t)
                && cell(a3.0, (s, t))->0 == complete_action(prods, aug, ds[i]);
        }
    }
    assert forall|q: int| 0 <= q < ds.len() implies #[trigger] crate::lr0::next_sym(ds[q].prod, ds[q].dot)
        != Some(SpecSymbol::Terminal("$"@)) by {
        assert(crate::lr0::next_sym(dss[dss.len() - 1][q].prod, dss[dss.len() - 1][q].dot) != Some(SpecSymbol::Terminal("$"@)));
    }
    lemma_shifts_fit(name, prods, aug, tr, a3, s, ds);
}

/// The terminal a complete LR(1) item acts on: `$` for an item of `S'`,
/// else its lookahead.
pub open spec fn acts_on1(it: crate::lr1::SpecItem1) -> Seq<char> {
    if it.prod.left == aug_start() {
        "$"@
    } else {
        it.la
    }
}

/// The collection is free of LR(1) conflicts: no state holds two complete
/// items of different productions that act on one terminal, and no item has
/// `$` after its dot.
pub open spec fn lr1_conflict_free(st: Seq<Seq<crate::lr1::SpecItem1>>) -> bool {
    &&& forall|s: int, i: int, j: int| 0 <= s < st.len() && 0 <= i < st[s].len() && 0 <= j < st[s].len()
        && complete(#[trigger] st[s][i].prod, st[s][i].dot) && complete(#[trigger] st[s][j].prod, st[s][j].dot)
        && acts_on1(st[s][i]) == acts_on1(st[s][j]) ==> st[s][i].prod == st[s][j].prod
    &&& forall|s: int, q: int| 0 <= s < st.len() && 0 <= q < st[s].len()
        ==> #[trigger] crate::lr0::next_sym(st[s][q].prod, st[s][q].dot) != Some(SpecSymbol::Terminal("$"@))
}

/// A grammar whose canonical LR(1) collections are free of conflicts is
/// never refused: the tables are built without a conflict, so
/// `LR1Parser::new` succeeds. (Shift-reduce clashes are no conflict: the
/// shift wins.)
pub proof fn lr1_conflict_free_grammars_are_accepted(grammar: SpecGrammar)
    requires
        forall|st: Seq<Seq<crate::lr1::SpecItem1>>, tr: GotoMap| #[trigger] crate::lr1::automaton1(
            augment(grammar).productions, sfirst(augment(grammar).productions), st, tr) ==> lr1_conflict_free(st),
    ensures
        forall|e: Seq<char>| !#[trigger] crate::lr1::lr1_refused(grammar, e),
{
    let g = augment(grammar).productions;
    assert forall|e: Seq<char>| !#[trigger] crate::lr1::lr1_refused(grammar, e) by {
        if crate::lr1::lr1_refused(grammar, e) {
            let (st, tr) = choose|st: Seq<Seq<crate::lr1::SpecItem1>>, tr: GotoMap| crate::lr1::automaton1(g, sfirst(g), st, tr)
                && #[trigger] tables_spec("LR(1)"@, g, aug_start(), tr, lr1_descs(st)) == Err::<(ActMap, GotoMap), Seq<char>>(e);
            assert(lr1_conflict_free(st));
            let dss = lr1_descs(st);
            if st.len() > 1 {
                assert(crate::lr0::entered(tr, st.len() - 1));
            }
            assert(dss.len() == st.len());
            assert forall|s: int, i: int, j: int, t: Seq<char>|
                0 <= s < dss.len() && 0 <= i < dss[s].len() && 0 <= j < dss[s].len() && #[trigger] reduces_on(aug_start(), dss[s][i], t)
                    && #[trigger] reduces_on(aug_start(), dss[s][j], t) implies dss[s][i].prod == dss[s][j].prod by {
                assert(dss[s][i].on == seq![st[s][i].la]);
                assert(dss[s][j].on == seq![st[s][j].la]);
                if st[s][i].prod.left != aug_start() {
                    assert(dss[s][i].on[0] == t);
                }
                if st[s][j].prod.left != aug_start() {
                    assert(dss[s][j].on[0] == t);
                }
                assert(acts_on1(st[s][i]) == t);
                assert(acts_on1(st[s][j]) == t);
                assert(complete(st[s][i].prod, st[s][i].dot) && complete(st[s][j].prod, st[s][j].dot));
            }
            assert forall|s: int, q: int| 0 <= s < dss.len() && 0 <= q < dss[s].len()
                implies #[trigger] crate::lr0::next_sym(dss[s][q].prod, dss[s][q].dot) != Some(SpecSymbol::Terminal("$"@)) by {
                assert(dss[s][q].prod == st[s][q].prod && dss[s][q].dot == st[s][q].dot);
            }
            lemma_tables_ok("LR(1)"@, g, aug_start(), tr, dss);
        }
    }
}

} // verus!
