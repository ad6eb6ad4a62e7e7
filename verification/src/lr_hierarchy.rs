//! LR(0) and SLR(1) tables built on the same LR(0) automaton: the SLR(1)
//! tables keep every shift, accept and goto of the LR(0) tables and only a
//! part of their reductions, so a grammar whose LR(0) tables have no conflict
//! has SLR(1) tables without conflict too.

use vstd::prelude::*;
use crate::lr::{SpecAction, ActMap, GotoMap, SpecDesc, action_text, insert_action, insert_all, item_effect, items_effect, tables_spec, prod_index_from};
use crate::lr0::{
    SpecItem, complete, next_sym, production_text, add_name, rhs_terminals, grammar_terminals, lr0_lookaheads, augment, aug_start,
    uniform_descs,
};
use crate::slr1::{follow_map_is, follow_of, slr_descs};
use crate::lr_sets::{
    StrRel, eps_token, nt_name, str_first, sfirst_base, holds_sfirst_base, sfirst_closed, sfirst, holds_sfollow_base, sfollow_ok_at,
    sfollow_closed, sfollow, lemma_sfirst_exists, lemma_sfollow_exists,
};
use crate::symbols::{SpecSymbol, SpecProduction, SpecGrammar, is_epsilon_rhs};

verus! {

/// The entry of an ACTION table at `k`, if any.
pub open spec fn cell(t: ActMap, k: (usize, Seq<char>)) -> Option<SpecAction> {
    if t.contains_key(k) {
        Some(t[k])
    } else {
        None
    }
}

/// Whether action `a` can be put into an entry holding `c` without a
/// conflict (see `insert_action`).
pub open spec fn fits(c: Option<SpecAction>, a: SpecAction) -> bool {
    match c {
        None => true,
        Some(o) => action_text(o) == action_text(a) || (o is Shift && a is Reduce) || (o is Reduce && a is Shift),
    }
}

/// The entry after putting `a` into an entry holding `c`.
pub open spec fn put(c: Option<SpecAction>, a: SpecAction) -> SpecAction {
    match c {
        None => a,
        Some(o) => if action_text(o) == action_text(a) || (o is Shift && a is Reduce) {
            o
        } else {
            a
        },
    }
}

/// The first character of an action's text tells its kind.
pub proof fn lemma_action_kind(a: SpecAction)
    ensures
        action_text(a).len() >= 1,
        (action_text(a)[0] == 's') == (a is Shift),
        (action_text(a)[0] == 'r') == (a is Reduce),
        (action_text(a)[0] == 'a') == (a is Accept),
{
    reveal_strlit("s");
    reveal_strlit("r");
    reveal_strlit("acc");
    match a {
        SpecAction::Shift(j) => {
            assert(action_text(a)[0] == "s"@[0]);
        },
        SpecAction::Reduce(i, _) => {
            assert(action_text(a)[0] == "r"@[0]);
        },
        SpecAction::Accept => {},
    }
}

/// Actions with the same text are of the same kind.
proof fn lemma_same_text_same_kind(a: SpecAction, b: SpecAction)
    requires
        action_text(a) == action_text(b),
    ensures
        (a is Shift) == (b is Shift),
        (a is Reduce) == (b is Reduce),
        (a is Accept) == (b is Accept),
{
    lemma_action_kind(a);
    lemma_action_kind(b);
}

/// `insert_action` in terms of entries: it succeeds when the action fits the
/// entry, and then only that entry changes.
pub proof fn lemma_insert_action_cell(name: Seq<char>, t: ActMap, s: usize, term: Seq<char>, a: SpecAction)
    ensures
        insert_action(name, t, s, term, a) is Ok <==> fits(cell(t, (s, term)), a),
        insert_action(name, t, s, term, a) is Ok ==> insert_action(name, t, s, term, a)->Ok_0
            == t.insert((s, term), put(cell(t, (s, term)), a)),
{
    let k = (s, term);
    if t.contains_key(k) {
        assert(t.insert(k, t[k]) =~= t);
    }
}

/// Putting the same action twice changes nothing more.
proof fn lemma_put_twice(c: Option<SpecAction>, a: SpecAction)
    requires
        fits(c, a),
    ensures
        fits(Some(put(c, a)), a),
        put(Some(put(c, a)), a) == put(c, a),
{
}

/// `insert_all` in terms of entries: it succeeds when the action fits the
/// entries of all the terminals, and then exactly those entries change.
pub proof fn lemma_insert_all_cells(name: Seq<char>, t: ActMap, s: usize, terms: Seq<Seq<char>>, a: SpecAction)
    ensures
        insert_all(name, t, s, terms, a) is Ok <==> (forall|y: Seq<char>| #[trigger] terms.contains(y) ==> fits(cell(t, (s, y)), a)),
        insert_all(name, t, s, terms, a) is Ok ==> forall|k: (usize, Seq<char>)| #[trigger] cell(insert_all(name, t, s, terms, a)->Ok_0, k)
            == if k.0 == s && terms.contains(k.1) {
                Some(put(cell(t, k), a))
            } else {
                cell(t, k)
            },
    decreases terms.len(),
{
    if terms.len() > 0 {
        let init = terms.drop_last();
        let last = terms.last();
        lemma_insert_all_cells(name, t, s, init, a);
        assert forall|y: Seq<char>| terms.contains(y) <==> (init.contains(y) || y == last) by {
            if terms.contains(y) {
                let j = choose|j: int| 0 <= j < terms.len() && terms[j] == y;
                if j < terms.len() - 1 {
                    assert(init[j] == y);
                }
            }
            if init.contains(y) {
                let j = choose|j: int| 0 <= j < init.len() && init[j] == y;
                assert(terms[j] == y);
            }
            if y == last {
                assert(terms[terms.len() - 1] == y);
            }
        }
        let kl = (s, last);
        if insert_all(name, t, s, init, a) is Ok {
            let t2 = insert_all(name, t, s, init, a)->Ok_0;
            lemma_insert_action_cell(name, t2, s, last, a);
            if init.contains(last) {
                assert(fits(cell(t, kl), a));
                lemma_put_twice(cell(t, kl), a);
            }
            if insert_all(name, t, s, terms, a) is Ok {
                let t3 = insert_all(name, t, s, terms, a)->Ok_0;
                assert forall|k: (usize, Seq<char>)| #[trigger] cell(t3, k)
                    == if k.0 == s && terms.contains(k.1) {
                        Some(put(cell(t, k), a))
                    } else {
                        cell(t, k)
                    } by {
                    assert(cell(t2, k) == if k.0 == s && init.contains(k.1) {
                        Some(put(cell(t, k), a))
                    } else {
                        cell(t, k)
                    });
                }
            }
        } else {
            assert(!(forall|y: Seq<char>| #[trigger] init.contains(y) ==> fits(cell(t, (s, y)), a)));
            let y = choose|y: Seq<char>| #[trigger] init.contains(y) && !fits(cell(t, (s, y)), a);
            assert(terms.contains(y));
        }
    }
}

/// An entry `c1` of the table that drops reductions, beside the entry `c0`
/// of the table that keeps them all: a shift is in both alike; a reduction
/// or an accept of `c0` is in `c1` alike or not at all.
pub open spec fn entry_kept(c0: Option<SpecAction>, c1: Option<SpecAction>) -> bool {
    match c0 {
        None => c1 is None,
        Some(o0) => match o0 {
            SpecAction::Shift(_) => c1 is Some && c1->0 is Shift && action_text(c1->0) == action_text(o0),
            SpecAction::Reduce(_, _) => c1 is None || (c1->0 is Reduce && action_text(c1->0) == action_text(o0)),
            SpecAction::Accept => c1 is None || c1->0 is Accept,
        },
    }
}

/// Every entry of `t1` is kept from `t0` in that sense.
pub open spec fn table_kept(t0: ActMap, t1: ActMap) -> bool {
    forall|k: (usize, Seq<char>)| #[trigger] entry_kept(cell(t0, k), cell(t1, k))
}

/// Both tables get the same action: if it fits the first, it fits the
/// second, and the entries stay related.
proof fn lemma_put_both(c0: Option<SpecAction>, c1: Option<SpecAction>, a: SpecAction)
    requires
        entry_kept(c0, c1),
        fits(c0, a),
    ensures
        fits(c1, a),
        entry_kept(Some(put(c0, a)), Some(put(c1, a))),
{
    lemma_action_kind(a);
    if c0 is Some {
        lemma_action_kind(c0->0);
    }
    if c1 is Some {
        lemma_action_kind(c1->0);
    }
    lemma_action_kind(put(c0, a));
    lemma_action_kind(put(c1, a));
}

/// Only the first table gets a reduction: the entries stay related.
proof fn lemma_put_first(c0: Option<SpecAction>, c1: Option<SpecAction>, a: SpecAction)
    requires
        entry_kept(c0, c1),
        fits(c0, a),
        a is Reduce,
    ensures
        entry_kept(Some(put(c0, a)), c1),
{
    lemma_action_kind(a);
    if c0 is Some {
        lemma_action_kind(c0->0);
    }
    if c1 is Some {
        lemma_action_kind(c1->0);
    }
    lemma_action_kind(put(c0, a));
}

/// `d1` describes the same item as `d0`, reduced on some of its terminals.
pub open spec fn desc_narrowed(d0: SpecDesc, d1: SpecDesc) -> bool {
    &&& d1.prod == d0.prod
    &&& d1.dot == d0.dot
    &&& forall|y: Seq<char>| #[trigger] d1.on.contains(y) ==> d0.on.contains(y)
}

/// The tables after putting the same action into entry `k` of both.
proof fn lemma_insert_both(n0: Seq<char>, n1: Seq<char>, t0: ActMap, t1: ActMap, s: usize, term: Seq<char>, a: SpecAction)
    requires
        table_kept(t0, t1),
        insert_action(n0, t0, s, term, a) is Ok,
    ensures
        insert_action(n1, t1, s, term, a) is Ok,
        table_kept(insert_action(n0, t0, s, term, a)->Ok_0, insert_action(n1, t1, s, term, a)->Ok_0),
{
    let k = (s, term);
    lemma_insert_action_cell(n0, t0, s, term, a);
    lemma_insert_action_cell(n1, t1, s, term, a);
    assert(entry_kept(cell(t0, k), cell(t1, k)));
    lemma_put_both(cell(t0, k), cell(t1, k), a);
    let r0 = insert_action(n0, t0, s, term, a)->Ok_0;
    let r1 = insert_action(n1, t1, s, term, a)->Ok_0;
    assert forall|k2: (usize, Seq<char>)| #[trigger] entry_kept(cell(r0, k2), cell(r1, k2)) by {
        if k2 != k {
            assert(entry_kept(cell(t0, k2), cell(t1, k2)));
        }
    }
}

/// The tables after reducing on the terminals `on0` in the first and on
/// those of `on1`, among them, in the second.
proof fn lemma_insert_all_narrowed(
    n0: Seq<char>,
    n1: Seq<char>,
    t0: ActMap,
    t1: ActMap,
    s: usize,
    on0: Seq<Seq<char>>,
    on1: Seq<Seq<char>>,
    a: SpecAction,
)
    requires
        table_kept(t0, t1),
        a is Reduce,
        forall|y: Seq<char>| #[trigger] on1.contains(y) ==> on0.contains(y),
        insert_all(n0, t0, s, on0, a) is Ok,
    ensures
        insert_all(n1, t1, s, on1, a) is Ok,
        table_kept(insert_all(n0, t0, s, on0, a)->Ok_0, insert_all(n1, t1, s, on1, a)->Ok_0),
{
    lemma_insert_all_cells(n0, t0, s, on0, a);
    lemma_insert_all_cells(n1, t1, s, on1, a);
    assert forall|y: Seq<char>| #[trigger] on1.contains(y) implies fits(cell(t1, (s, y)), a) by {
        assert(on0.contains(y));
        assert(entry_kept(cell(t0, (s, y)), cell(t1, (s, y))));
        lemma_put_both(cell(t0, (s, y)), cell(t1, (s, y)), a);
    }
    let r0 = insert_all(n0, t0, s, on0, a)->Ok_0;
    let r1 = insert_all(n1, t1, s, on1, a)->Ok_0;
    assert forall|k: (usize, Seq<char>)| #[trigger] entry_kept(cell(r0, k), cell(r1, k)) by {
        assert(entry_kept(cell(t0, k), cell(t1, k)));
        assert(cell(r0, k) == if k.0 == s && on0.contains(k.1) { Some(put(cell(t0, k), a)) } else { cell(t0, k) });
        assert(cell(r1, k) == if k.0 == s && on1.contains(k.1) { Some(put(cell(t1, k), a)) } else { cell(t1, k) });
        if k.0 == s && on1.contains(k.1) {
            assert(fits(cell(t0, k), a));
            lemma_put_both(cell(t0, k), cell(t1, k), a);
        } else if k.0 == s && on0.contains(k.1) {
            assert(fits(cell(t0, k), a));
            lemma_put_first(cell(t0, k), cell(t1, k), a);
        }
    }
}

/// One item's effect on the two tables.
proof fn lemma_item_narrowed(
    n0: Seq<char>,
    n1: Seq<char>,
    prods: Seq<SpecProduction>,
    aug: SpecSymbol,
    tr: GotoMap,
    acc0: (ActMap, GotoMap),
    acc1: (ActMap, GotoMap),
    s: usize,
    d0: SpecDesc,
    d1: SpecDesc,
)
    requires
        table_kept(acc0.0, acc1.0),
        acc0.1 == acc1.1,
        desc_narrowed(d0, d1),
        item_effect(n0, prods, aug, tr, acc0, s, d0) is Ok,
    ensures
        item_effect(n1, prods, aug, tr, acc1, s, d1) is Ok,
        table_kept(item_effect(n0, prods, aug, tr, acc0, s, d0)->Ok_0.0, item_effect(n1, prods, aug, tr, acc1, s, d1)->Ok_0.0),
        item_effect(n0, prods, aug, tr, acc0, s, d0)->Ok_0.1 == item_effect(n1, prods, aug, tr, acc1, s, d1)->Ok_0.1,
{
    if complete(d0.prod, d0.dot) {
        if d0.prod.left == aug {
            lemma_insert_both(n0, n1, acc0.0, acc1.0, s, "$"@, SpecAction::Accept);
        } else {
            let a = SpecAction::Reduce(prod_index_from(prods, d0.prod, 0), production_text(d0.prod));
            lemma_insert_all_narrowed(n0, n1, acc0.0, acc1.0, s, d0.on, d1.on, a);
        }
    } else {
        match next_sym(d0.prod, d0.dot) {
            Some(SpecSymbol::Terminal(t)) => {
                if tr.contains_key((s, t)) {
                    lemma_insert_both(n0, n1, acc0.0, acc1.0, s, t, SpecAction::Shift(tr[(s, t)]));
                }
            },
            _ => {},
        }
    }
}

/// Item by item, `ds1` describes the items of `ds0` with narrower reductions.
pub open spec fn descs_narrowed(ds0: Seq<SpecDesc>, ds1: Seq<SpecDesc>) -> bool {
    &&& ds0.len() == ds1.len()
    &&& forall|j: int| 0 <= j < ds0.len() ==> desc_narrowed(#[trigger] ds0[j], ds1[j])
}

/// State by state, `dss1` describes the items of `dss0` with narrower reductions.
pub open spec fn states_narrowed(dss0: Seq<Seq<SpecDesc>>, dss1: Seq<Seq<SpecDesc>>) -> bool {
    &&& dss0.len() == dss1.len()
    &&& forall|s: int| 0 <= s < dss0.len() ==> descs_narrowed(#[trigger] dss0[s], dss1[s])
}

/// The items of one state, in order, on the two tables.
proof fn lemma_items_narrowed(
    n0: Seq<char>,
    n1: Seq<char>,
    prods: Seq<SpecProduction>,
    aug: SpecSymbol,
    tr: GotoMap,
    acc0: (ActMap, GotoMap),
    acc1: (ActMap, GotoMap),
    s: usize,
    ds0: Seq<SpecDesc>,
    ds1: Seq<SpecDesc>,
    first: bool,
)
    requires
        table_kept(acc0.0, acc1.0),
        acc0.1 == acc1.1,
        descs_narrowed(ds0, ds1),
        items_effect(n0, prods, aug, tr, acc0, s, ds0, first) is Ok,
    ensures
        items_effect(n1, prods, aug, tr, acc1, s, ds1, first) is Ok,
        table_kept(items_effect(n0, prods, aug, tr, acc0, s, ds0, first)->Ok_0.0, items_effect(n1, prods, aug, tr, acc1, s, ds1, first)->Ok_0.0),
        items_effect(n0, prods, aug, tr, acc0, s, ds0, first)->Ok_0.1 == items_effect(n1, prods, aug, tr, acc1, s, ds1, first)->Ok_0.1,
    decreases ds0.len(),
{
    if ds0.len() > 0 {
        let i0 = ds0.drop_last();
        let i1 = ds1.drop_last();
        assert(descs_narrowed(i0, i1)) by {
            assert forall|j: int| 0 <= j < i0.len() implies desc_narrowed(#[trigger] i0[j], i1[j]) by {
                assert(desc_narrowed(ds0[j], ds1[j]));
            }
        }
        lemma_items_narrowed(n0, n1, prods, aug, tr, acc0, acc1, s, i0, i1, first);
        let a0 = items_effect(n0, prods, aug, tr, acc0, s, i0, first)->Ok_0;
        let a1 = items_effect(n1, prods, aug, tr, acc1, s, i1, first)->Ok_0;
        assert(desc_narrowed(ds0[ds0.len() - 1], ds1[ds1.len() - 1]));
        if complete(ds0.last().prod, ds0.last().dot) == first {
            lemma_item_narrowed(n0, n1, prods, aug, tr, a0, a1, s, ds0.last(), ds1.last());
        }
    }
}

/// The states, in order, on the two tables.
proof fn lemma_tables_narrowed(
    n0: Seq<char>,
    n1: Seq<char>,
    prods: Seq<SpecProduction>,
    aug: SpecSymbol,
    tr: GotoMap,
    dss0: Seq<Seq<SpecDesc>>,
    dss1: Seq<Seq<SpecDesc>>,
)
    requires
        states_narrowed(dss0, dss1),
        tables_spec(n0, prods, aug, tr, dss0) is Ok,
    ensures
        tables_spec(n1, prods, aug, tr, dss1) is Ok,
        table_kept(tables_spec(n0, prods, aug, tr, dss0)->Ok_0.0, tables_spec(n1, prods, aug, tr, dss1)->Ok_0.0),
        tables_spec(n0, prods, aug, tr, dss0)->Ok_0.1 == tables_spec(n1, prods, aug, tr, dss1)->Ok_0.1,
    decreases dss0.len(),
{
    if dss0.len() == 0 {
        assert forall|k: (usize, Seq<char>)| #[trigger] entry_kept(cell(Map::<(usize, Seq<char>), SpecAction>::empty(), k),
            cell(Map::<(usize, Seq<char>), SpecAction>::empty(), k)) by {}
    } else {
        let i0 = dss0.drop_last();
        let i1 = dss1.drop_last();
        assert(states_narrowed(i0, i1)) by {
            assert forall|s: int| 0 <= s < i0.len() implies descs_narrowed(#[trigger] i0[s], i1[s]) by {
                assert(descs_narrowed(dss0[s], dss1[s]));
            }
        }
        lemma_tables_narrowed(n0, n1, prods, aug, tr, i0, i1);
        let a0 = tables_spec(n0, prods, aug, tr, i0)->Ok_0;
        let a1 = tables_spec(n1, prods, aug, tr, i1)->Ok_0;
        assert(descs_narrowed(dss0[dss0.len() - 1], dss1[dss1.len() - 1]));
        let s1 = (dss0.len() - 1) as usize;
        lemma_items_narrowed(n0, n1, prods, aug, tr, a0, a1, s1, dss0.last(), dss1.last(), true);
        let b0 = items_effect(n0, prods, aug, tr, a0, s1, dss0.last(), true)->Ok_0;
        let b1 = items_effect(n1, prods, aug, tr, a1, s1, dss1.last(), true)->Ok_0;
        lemma_items_narrowed(n0, n1, prods, aug, tr, b0, b1, s1, dss0.last(), dss1.last(), false);
    }
}

proof fn lemma_add_name(s: Seq<Seq<char>>, x: Seq<char>)
    ensures
        add_name(s, x).contains(x),
        forall|y: Seq<char>| #[trigger] s.contains(y) ==> add_name(s, x).contains(y),
{
    if !s.contains(x) {
        assert(s.push(x)[s.len() as int] == x);
        assert forall|y: Seq<char>| #[trigger] s.contains(y) implies add_name(s, x).contains(y) by {
            let j = choose|j: int| 0 <= j < s.len() && s[j] == y;
            assert(s.push(x)[j] == y);
        }
    }
}

proof fn lemma_rhs_terminals(acc: Seq<Seq<char>>, rhs: Seq<SpecSymbol>)
    ensures
        forall|y: Seq<char>| #[trigger] acc.contains(y) ==> rhs_terminals(acc, rhs).contains(y),
        forall|k: int| 0 <= k < rhs.len() && #[trigger] rhs[k] is Terminal ==> rhs_terminals(acc, rhs).contains(rhs[k]->Terminal_0),
    decreases rhs.len(),
{
    if rhs.len() > 0 {
        let init = rhs.drop_last();
        lemma_rhs_terminals(acc, init);
        let a = rhs_terminals(acc, init);
        match rhs.last() {
            SpecSymbol::Terminal(t) => lemma_add_name(a, t),
            _ => {},
        }
        assert forall|k: int| 0 <= k < rhs.len() && #[trigger] rhs[k] is Terminal implies rhs_terminals(acc, rhs).contains(
            rhs[k]->Terminal_0,
        ) by {
            if k < rhs.len() - 1 {
                assert(init[k] == rhs[k]);
            }
        }
    }
}

/// Every terminal of a right side is among the grammar's terminals.
proof fn lemma_grammar_terminals(g: Seq<SpecProduction>)
    ensures
        forall|i: int, k: int| 0 <= i < g.len() && 0 <= k < g[i].right.len() && #[trigger] g[i].right[k] is Terminal
            ==> grammar_terminals(g).contains(g[i].right[k]->Terminal_0),
    decreases g.len(),
{
    if g.len() > 0 {
        let init = g.drop_last();
        lemma_grammar_terminals(init);
        lemma_rhs_terminals(grammar_terminals(init), g.last().right);
        assert forall|i: int, k: int| 0 <= i < g.len() && 0 <= k < g[i].right.len() && #[trigger] g[i].right[k] is Terminal
            implies grammar_terminals(g).contains(g[i].right[k]->Terminal_0) by {
            if i < g.len() - 1 {
                assert(init[i] == g[i]);
                assert(init[i].right[k] is Terminal);
            }
        }
    }
}

/// The tokens that FIRST of a sequence gives: `ε`, or a terminal that the
/// sequence or the relation holds.
proof fn lemma_str_first_tokens(s: Seq<SpecSymbol>, r: StrRel, toks: Seq<Seq<char>>, y: Seq<char>)
    requires
        forall|j: int| 0 <= j < s.len() && #[trigger] s[j] is Terminal ==> toks.contains(s[j]->Terminal_0),
        forall|p: (Seq<char>, Seq<char>)| #[trigger] r.contains(p) ==> p.1 == eps_token() || toks.contains(p.1),
        str_first(s, r, y),
    ensures
        y == eps_token() || toks.contains(y),
    decreases s.len(),
{
    if s.len() > 0 {
        match s[0] {
            SpecSymbol::NonTerminal(n) => {
                if !(y != eps_token() && r.contains((n, y))) {
                    assert forall|j: int| 0 <= j < s.drop_first().len() && #[trigger] s.drop_first()[j] is Terminal
                        implies toks.contains(s.drop_first()[j]->Terminal_0) by {
                        assert(s[j + 1] is Terminal);
                    }
                    lemma_str_first_tokens(s.drop_first(), r, toks, y);
                }
            },
            _ => {},
        }
    }
}

/// The relation of all pairs whose token is `ε` or among `toks`.
pub open spec fn tokens_within(toks: Seq<Seq<char>>) -> StrRel {
    Set::new(|p: (Seq<char>, Seq<char>)| p.1 == eps_token() || toks.contains(p.1))
}

/// FIRST gives `ε` and terminals of the grammar only.
proof fn lemma_first_tokens(g: Seq<SpecProduction>)
    ensures
        sfirst(g).subset_of(tokens_within(grammar_terminals(g))),
{
    let toks = grammar_terminals(g);
    let ra = tokens_within(toks);
    lemma_sfirst_exists(g);
    lemma_grammar_terminals(g);
    assert forall|x: Seq<char>, y: Seq<char>| sfirst_base(g, x, y) implies #[trigger] ra.contains((x, y)) by {
        if y != eps_token() {
            let (i, k) = choose|i: int, k: int| 0 <= i < g.len() && 0 <= k < g[i].right.len()
                && #[trigger] g[i].right[k] == SpecSymbol::Terminal(x);
            assert(g[i].right[k] is Terminal);
        }
    }
    assert forall|i: int, y: Seq<char>|
        0 <= i < g.len() && g[i].left is NonTerminal && !is_epsilon_rhs(g[i].right) && #[trigger] str_first(g[i].right, ra, y)
        implies ra.contains((nt_name(g[i].left), y)) by {
        assert forall|j: int| 0 <= j < g[i].right.len() && #[trigger] g[i].right[j] is Terminal implies toks.contains(
            g[i].right[j]->Terminal_0,
        ) by {}
        lemma_str_first_tokens(g[i].right, ra, toks, y);
    }
    assert(sfirst_closed(g, ra));
}

/// FOLLOW gives `$` and terminals of the grammar only: the terminals on
/// which LR(0) reduces.
proof fn lemma_follow_tokens(g: Seq<SpecProduction>, start: Seq<char>)
    ensures
        forall|p: (Seq<char>, Seq<char>)| #[trigger] sfollow(g, sfirst(g), start).contains(p) ==> lr0_lookaheads(g).contains(p.1),
{
    let toks = grammar_terminals(g);
    let la = lr0_lookaheads(g);
    let f = sfirst(g);
    let rb = Set::new(|p: (Seq<char>, Seq<char>)| la.contains(p.1));
    lemma_sfollow_exists(g, f, start);
    lemma_first_tokens(g);
    lemma_grammar_terminals(g);
    lemma_add_name(toks, "$"@);
    assert(holds_sfollow_base(start, rb));
    assert forall|i: int, k: int| 0 <= i < g.len() && 0 <= k < g[i].right.len() implies #[trigger] sfollow_ok_at(g, f, rb, i, k) by {
        let p = g[i];
        let rest = p.right.skip(k + 1);
        assert forall|j: int| 0 <= j < rest.len() && #[trigger] rest[j] is Terminal implies toks.contains(rest[j]->Terminal_0) by {
            assert(rest[j] == p.right[k + 1 + j]);
            assert(g[i].right[k + 1 + j] is Terminal);
        }
        assert forall|q: (Seq<char>, Seq<char>)| #[trigger] f.contains(q) implies q.1 == eps_token() || toks.contains(q.1) by {
            assert(tokens_within(toks).contains(q));
        }
        assert forall|y: Seq<char>| y != eps_token() && str_first(rest, f, y) implies #[trigger] la.contains(y) by {
            lemma_str_first_tokens(rest, f, toks, y);
        }
    }
    assert(sfollow_closed(g, f, rb));
}

/// Every LR(0) grammar is SLR(1): on the same LR(0) automaton of the
/// augmented grammar, when the LR(0) tables (which reduce on every terminal
/// and `$`) have no conflict, the SLR(1) tables (which reduce on FOLLOW of
/// the production's left side) have none either; their GOTO tables are the
/// same, and each entry of the SLR(1) ACTION table is in the LR(0) one
/// alike, with every shift of the LR(0) table kept.
pub proof fn lr0_tables_without_conflict_give_slr1_tables(
    grammar: SpecGrammar,
    st: Seq<Seq<SpecItem>>,
    tr: GotoMap,
    fol: Map<Seq<char>, Seq<Seq<char>>>,
)
    requires
        follow_map_is(augment(grammar).productions, fol),
        tables_spec("LR(0)"@, augment(grammar).productions, aug_start(), tr,
            uniform_descs(st, lr0_lookaheads(augment(grammar).productions))) is Ok,
    ensures
        ({
            let g = augment(grammar).productions;
            let lr0 = tables_spec("LR(0)"@, g, aug_start(), tr, uniform_descs(st, lr0_lookaheads(g)));
            let slr1 = tables_spec("SLR(1)"@, g, aug_start(), tr, slr_descs(st, fol));
            &&& slr1 is Ok
            &&& slr1->Ok_0.1 == lr0->Ok_0.1
            &&& table_kept(lr0->Ok_0.0, slr1->Ok_0.0)
        }),
{
    let g = augment(grammar).productions;
    let la = lr0_lookaheads(g);
    let dss0 = uniform_descs(st, la);
    let dss1 = slr_descs(st, fol);
    lemma_follow_tokens(g, "S'"@);
    assert forall|s: int| 0 <= s < dss0.len() implies descs_narrowed(#[trigger] dss0[s], dss1[s]) by {
        assert forall|j: int| 0 <= j < dss0[s].len() implies desc_narrowed(#[trigger] dss0[s][j], dss1[s][j]) by {
            let it = st[s][j];
            assert(dss0[s][j] == SpecDesc { prod: it.prod, dot: it.dot, on: la });
            assert(dss1[s][j] == SpecDesc { prod: it.prod, dot: it.dot, on: follow_of(it.prod, fol) });
            assert forall|y: Seq<char>| #[trigger] follow_of(it.prod, fol).contains(y) implies la.contains(y) by {
                let x = nt_name(it.prod.left);
                assert(fol[x].contains(y));
                assert(sfollow(g, sfirst(g), "S'"@).contains((x, y)));
            }
        }
    }
    lemma_tables_narrowed("LR(0)"@, "SLR(1)"@, g, aug_start(), tr, dss0, dss1);
}

} // verus!
