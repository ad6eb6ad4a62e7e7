//! What the shift-reduce parsers share: their actions, the construction of
//! the ACTION and GOTO tables from the item sets, and the table-driven parse.

use vstd::prelude::*;
use crate::collections::{VecMap, views};
use crate::symbols::{
    Symbol, SpecSymbol, Production, SpecProduction, LR0ParseSnapshot, SpecLRSnapshot, prods_view, strs_view, sym_text,
    is_epsilon_rhs, copy_strings, copy_strings_from,
};
use crate::tree::{ParseTreeNode, SpecTree, trees_view, lemma_trees_view, lemma_trees_view_push, lemma_trees_view_subrange};
use crate::ll1::with_end_marker;
use crate::text::{nat_text, concat, usize_text};
use crate::lr0::{LR0Action, next_sym, complete, production_text, format_production};

verus! {

/// The model of an entry of the ACTION table.
pub enum SpecAction {
    Shift(usize),
    Reduce(usize, Seq<char>),
    Accept,
}

/// The compact text of an action: `s3`, `r2` or `acc`.
pub open spec fn action_text(a: SpecAction) -> Seq<char> {
    match a {
        SpecAction::Shift(s) => "s"@ + nat_text(s as nat),
        SpecAction::Reduce(i, _) => "r"@ + nat_text(i as nat),
        SpecAction::Accept => "acc"@,
    }
}

/// The action types of the ACTION tables.
pub trait TableAction: View<V = SpecAction> + Sized {
    fn shift(target: usize) -> (r: Self)
        ensures
            r@ == SpecAction::Shift(target),
    ;

    fn reduce(index: usize, text: String) -> (r: Self)
        ensures
            r@ == SpecAction::Reduce(index, text@),
    ;

    fn accept() -> (r: Self)
        ensures
            r@ == SpecAction::Accept,
    ;

    fn as_lr0(&self) -> (r: LR0Action)
        ensures
            r@ == self@,
    ;
}

/// What the table construction needs of an item: its production, its dot,
/// and the terminals on which it is reduced when complete.
pub struct ItemDesc {
    pub production: Production,
    pub dot: usize,
    pub reduce_on: Vec<String>,
}

pub struct SpecDesc {
    pub prod: SpecProduction,
    pub dot: usize,
    pub on: Seq<Seq<char>>,
}

impl View for ItemDesc {
    type V = SpecDesc;

    open spec fn view(&self) -> SpecDesc {
        SpecDesc { prod: self.production@, dot: self.dot, on: strs_view(self.reduce_on@) }
    }
}

pub type ActMap = Map<(usize, Seq<char>), SpecAction>;

pub type GotoMap = Map<(usize, Seq<char>), usize>;

/// The error for two actions that cannot share an entry of the table.
pub open spec fn conflict_text(name: Seq<char>, kind: Seq<char>, s: usize, term: Seq<char>, old: SpecAction, new: SpecAction) -> Seq<char> {
    "Grammar is not "@ + name + ": "@ + kind + " conflict in state "@ + nat_text(s as nat) + " on terminal '"@ + term
        + "' ("@ + action_text(old) + " vs "@ + action_text(new) + ")"@
}

/// Puts action `a` at `(s, term)`: an equal action (by text) changes
/// nothing; a shift wins over a reduce; two different reduces, or an accept
/// with anything else, are a conflict.
pub open spec fn insert_action(name: Seq<char>, t: ActMap, s: usize, term: Seq<char>, a: SpecAction) -> Result<ActMap, Seq<char>> {
    let key = (s, term);
    if !t.contains_key(key) {
        Ok(t.insert(key, a))
    } else if action_text(t[key]) == action_text(a) {
        Ok(t)
    } else {
        match (t[key], a) {
            (SpecAction::Shift(_), SpecAction::Reduce(_, _)) => Ok(t),
            (SpecAction::Reduce(_, _), SpecAction::Shift(_)) => Ok(t.insert(key, a)),
            (SpecAction::Reduce(_, _), SpecAction::Reduce(_, _)) => Err(conflict_text(name, "Reduce-Reduce"@, s, term, t[key], a)),
            _ => Err(conflict_text(name, "Unknown"@, s, term, t[key], a)),
        }
    }
}

/// Puts action `a` at `(s, t)` for each terminal `t` of `terms`, in order.
pub open spec fn insert_all(name: Seq<char>, t: ActMap, s: usize, terms: Seq<Seq<char>>, a: SpecAction) -> Result<ActMap, Seq<char>>
    decreases terms.len(),
{
    if terms.len() == 0 {
        Ok(t)
    } else {
        match insert_all(name, t, s, terms.drop_last(), a) {
            Ok(t2) => insert_action(name, t2, s, terms.last(), a),
            Err(e) => Err(e),
        }
    }
}

/// The index of the first production equal to `p` at or after `i` (0 when none).
pub open spec fn prod_index_from(prods: Seq<SpecProduction>, p: SpecProduction, i: int) -> usize
    decreases prods.len() - i,
{
    if i < 0 || i >= prods.len() {
        0
    } else if prods[i] == p {
        i as usize
    } else {
        prod_index_from(prods, p, i + 1)
    }
}

/// The effect on the tables of one item of state `s`.
pub open spec fn item_effect(
    name: Seq<char>,
    prods: Seq<SpecProduction>,
    aug: SpecSymbol,
    tr: GotoMap,
    acc: (ActMap, GotoMap),
    s: usize,
    d: SpecDesc,
) -> Result<(ActMap, GotoMap), Seq<char>> {
    if complete(d.prod, d.dot) {
        let r = if d.prod.left == aug {
            insert_action(name, acc.0, s, "$"@, SpecAction::Accept)
        } else {
            insert_all(name, acc.0, s, d.on, SpecAction::Reduce(prod_index_from(prods, d.prod, 0), production_text(d.prod)))
        };
        match r {
            Ok(t) => Ok((t, acc.1)),
            Err(e) => Err(e),
        }
    } else {
        match next_sym(d.prod, d.dot) {
            Some(SpecSymbol::Terminal(t)) => if tr.contains_key((s, t)) {
                match insert_action(name, acc.0, s, t, SpecAction::Shift(tr[(s, t)])) {
                    Ok(t2) => Ok((t2, acc.1)),
                    Err(e) => Err(e),
                }
            } else {
                Ok(acc)
            },
            Some(SpecSymbol::NonTerminal(n)) => if tr.contains_key((s, n)) {
                Ok((acc.0, acc.1.insert((s, n), tr[(s, n)])))
            } else {
                Ok(acc)
            },
            _ => Ok(acc),
        }
    }
}

/// The effect of the items of state `s` that are complete (when `first`)
/// or not complete (otherwise), in order.
pub open spec fn items_effect(
    name: Seq<char>,
    prods: Seq<SpecProduction>,
    aug: SpecSymbol,
    tr: GotoMap,
    acc: (ActMap, GotoMap),
    s: usize,
    ds: Seq<SpecDesc>,
    first: bool,
) -> Result<(ActMap, GotoMap), Seq<char>>
    decreases ds.len(),
{
    if ds.len() == 0 {
        Ok(acc)
    } else {
        match items_effect(name, prods, aug, tr, acc, s, ds.drop_last(), first) {
            Ok(a2) => if complete(ds.last().prod, ds.last().dot) == first {
                item_effect(name, prods, aug, tr, a2, s, ds.last())
            } else {
                Ok(a2)
            },
            Err(e) => Err(e),
        }
    }
}

/// The effect of the items of state `s`: first the reductions and accepts
/// of its complete items, so that two reductions on one terminal always
/// meet, then the shifts and gotos of the others.
pub open spec fn state_effect(
    name: Seq<char>,
    prods: Seq<SpecProduction>,
    aug: SpecSymbol,
    tr: GotoMap,
    acc: (ActMap, GotoMap),
    s: usize,
    ds: Seq<SpecDesc>,
) -> Result<(ActMap, GotoMap), Seq<char>> {
    match items_effect(name, prods, aug, tr, acc, s, ds, true) {
        Ok(a2) => items_effect(name, prods, aug, tr, a2, s, ds, false),
        Err(e) => Err(e),
    }
}

/// The ACTION and GOTO tables built from the items of the states, in
/// order (or the first conflict met).
pub open spec fn tables_spec(
    name: Seq<char>,
    prods: Seq<SpecProduction>,
    aug: SpecSymbol,
    tr: GotoMap,
    dss: Seq<Seq<SpecDesc>>,
) -> Result<(ActMap, GotoMap), Seq<char>>
    decreases dss.len(),
{
    if dss.len() == 0 {
        Ok((Map::empty(), Map::empty()))
    } else {
        match tables_spec(name, prods, aug, tr, dss.drop_last()) {
            Ok(a2) => state_effect(name, prods, aug, tr, a2, (dss.len() - 1) as usize, dss.last()),
            Err(e) => Err(e),
        }
    }
}

/// The models of the descriptions of each state's items.
pub open spec fn descs_view(dss: Seq<Vec<ItemDesc>>) -> Seq<Seq<SpecDesc>> {
    dss.map_values(|v: Vec<ItemDesc>| views(v@))
}

fn conflict_message(name: &str, kind: &str, s: usize, term: &String, old: &LR0Action, new: &LR0Action) -> (r: String)
    ensures
        r@ == conflict_text(name@, kind@, s, term@, old@, new@),
{
    let mut m = concat("Grammar is not ", name);
    m.append(": ");
    m.append(kind);
    m.append(" conflict in state ");
    let n = usize_text(s);
    m.append(n.as_str());
    m.append(" on terminal '");
    m.append(term.as_str());
    m.append("' (");
    let a = old.to_display_string();
    m.append(a.as_str());
    m.append(" vs ");
    let b = new.to_display_string();
    m.append(b.as_str());
    m.append(")");
    m
}

/// Puts an action in the table, as `insert_action` says.
pub fn put_action<A: TableAction>(name: &str, table: &mut VecMap<(usize, String), A>, s: usize, term: String, a: A) -> (r: Result<(), String>)
    requires
        old(table).wf(),
    ensures
        final(table).wf(),
        match r {
            Ok(()) => insert_action(name@, old(table)@, s, term@, a@) == Ok::<ActMap, Seq<char>>(final(table)@),
            Err(e) => insert_action(name@, old(table)@, s, term@, a@) == Err::<ActMap, Seq<char>>(e@),
        },
{
    let key = (s, term.clone());
    let existing = match table.get(&key) {
        Some(e) => e.as_lr0(),
        None => {
            table.insert(key, a);
            return Ok(());
        },
    };
    let new = a.as_lr0();
    let old_text = existing.to_display_string();
    let new_text = new.to_display_string();
    if old_text == new_text {
        return Ok(());
    }
    match (&existing, &new) {
        (LR0Action::Shift(_), LR0Action::Reduce(_, _)) => Ok(()),
        (LR0Action::Reduce(_, _), LR0Action::Shift(_)) => {
            table.insert(key, a);
            Ok(())
        },
        (LR0Action::Reduce(_, _), LR0Action::Reduce(_, _)) => Err(conflict_message(name, "Reduce-Reduce", s, &term, &existing, &new)),
        _ => Err(conflict_message(name, "Unknown", s, &term, &existing, &new)),
    }
}

/// Puts the reduce action `(index, text)` at `(s, t)` for each terminal `t`.
fn put_reduces<A: TableAction>(name: &str, table: &mut VecMap<(usize, String), A>, s: usize, terms: &Vec<String>, index: usize, text: &String) -> (r: Result<(), String>)
    requires
        old(table).wf(),
    ensures
        final(table).wf(),
        match r {
            Ok(()) => insert_all(name@, old(table)@, s, strs_view(terms@), SpecAction::Reduce(index, text@)) == Ok::<ActMap, Seq<char>>(final(table)@),
            Err(e) => insert_all(name@, old(table)@, s, strs_view(terms@), SpecAction::Reduce(index, text@)) == Err::<ActMap, Seq<char>>(e@),
        },
{
    let ghost tv = strs_view(terms@);
    let ghost t0 = table@;
    let ghost a = SpecAction::Reduce(index, text@);
    let mut i: usize = 0;
    assert(tv.take(0) =~= Seq::<Seq<char>>::empty());
    while i < terms.len()
        invariant
            tv == strs_view(terms@),
            a == SpecAction::Reduce(index, text@),
            i <= terms@.len(),
            table.wf(),
            insert_all(name@, t0, s, tv.take(i as int), a) == Ok::<ActMap, Seq<char>>(table@),
            t0 == old(table)@,
        decreases terms.len() - i,
    {
        assert(tv.take(i + 1).drop_last() =~= tv.take(i as int));
        assert(tv.take(i + 1).last() == terms@[i as int]@);
        let act = A::reduce(index, text.clone());
        let ghost tb = table@;
        let term = terms[i].clone();
        assert(term@ == tv[i as int]);
        match put_action(name, table, s, term, act) {
            Ok(()) => {},
            Err(e) => {
                proof {
                    assert(insert_action(name@, tb, s, tv[i as int], a) == Err::<ActMap, Seq<char>>(e@));
                    assert(insert_all(name@, t0, s, tv.take(i + 1), a) == Err::<ActMap, Seq<char>>(e@));
                    lemma_insert_all_err(name@, t0, s, tv, i + 1, a, e@);
                }
                return Err(e);
            },
        }
        i += 1;
    }
    assert(tv.take(terms@.len() as int) =~= tv);
    Ok(())
}

/// The index of the first production equal to `p` (0 when there is none).
pub fn prod_index(prods: &Vec<Production>, p: &Production) -> (r: usize)
    ensures
        r == prod_index_from(prods_view(prods@), p@, 0),
{
    let ghost g = prods_view(prods@);
    let mut i: usize = 0;
    while i < prods.len()
        invariant
            g == prods_view(prods@),
            i <= prods@.len(),
            prod_index_from(g, p@, 0) == prod_index_from(g, p@, i as int),
        decreases prods.len() - i,
    {
        if prods[i].same(p) {
            return i;
        }
        i += 1;
    }
    0
}

/// The effect of one item on the tables, as `item_effect` says.
fn apply_item<A: TableAction>(
    name: &str,
    prods: &Vec<Production>,
    aug: &Symbol,
    trans: &VecMap<(usize, String), usize>,
    actions: &mut VecMap<(usize, String), A>,
    gotos: &mut VecMap<(usize, String), usize>,
    s: usize,
    d: &ItemDesc,
) -> (r: Result<(), String>)
    requires
        trans.wf(),
        old(actions).wf(),
        old(gotos).wf(),
    ensures
        final(actions).wf(),
        final(gotos).wf(),
        match r {
            Ok(()) => item_effect(name@, prods_view(prods@), aug@, trans@, (old(actions)@, old(gotos)@), s, d@)
                == Ok::<(ActMap, GotoMap), Seq<char>>((final(actions)@, final(gotos)@)),
            Err(e) => item_effect(name@, prods_view(prods@), aug@, trans@, (old(actions)@, old(gotos)@), s, d@)
                == Err::<(ActMap, GotoMap), Seq<char>>(e@),
        },
{
    let complete_item = d.production.is_epsilon_production() || d.dot >= d.production.right.len();
    if complete_item {
        if d.production.left.same(aug) {
            return put_action(name, actions, s, String::from_str("$"), A::accept());
        }
        let idx = prod_index(prods, &d.production);
        let text = format_production(&d.production);
        return put_reduces(name, actions, s, &d.reduce_on, idx, &text);
    }
    assert(d.dot < d.production.right@.len());
    match &d.production.right[d.dot] {
        Symbol::Terminal(t) => {
            match trans.get(&(s, t.clone())) {
                Some(target) => put_action(name, actions, s, t.clone(), A::shift(*target)),
                None => Ok(()),
            }
        },
        Symbol::NonTerminal(n) => {
            match trans.get(&(s, n.clone())) {
                Some(target) => {
                    gotos.insert((s, n.clone()), *target);
                    Ok(())
                },
                None => Ok(()),
            }
        },
        Symbol::Epsilon => Ok(()),
    }
}

/// The effect of the complete items of a state (when `first`) or of the
/// others, as `items_effect` says.
fn apply_items<A: TableAction>(
    name: &str,
    prods: &Vec<Production>,
    aug: &Symbol,
    trans: &VecMap<(usize, String), usize>,
    actions: &mut VecMap<(usize, String), A>,
    gotos: &mut VecMap<(usize, String), usize>,
    s: usize,
    ds: &Vec<ItemDesc>,
    first: bool,
) -> (r: Result<(), String>)
    requires
        trans.wf(),
        old(actions).wf(),
        old(gotos).wf(),
    ensures
        final(actions).wf(),
        final(gotos).wf(),
        match r {
            Ok(()) => items_effect(name@, prods_view(prods@), aug@, trans@, (old(actions)@, old(gotos)@), s, views(ds@), first)
                == Ok::<(ActMap, GotoMap), Seq<char>>((final(actions)@, final(gotos)@)),
            Err(e) => items_effect(name@, prods_view(prods@), aug@, trans@, (old(actions)@, old(gotos)@), s, views(ds@), first)
                == Err::<(ActMap, GotoMap), Seq<char>>(e@),
        },
{
    let ghost dsv = views(ds@);
    let ghost g = prods_view(prods@);
    let ghost before = (actions@, gotos@);
    let mut i: usize = 0;
    assert(dsv.take(0) =~= Seq::<SpecDesc>::empty());
    while i < ds.len()
        invariant
            dsv == views(ds@),
            g == prods_view(prods@),
            trans.wf(),
            actions.wf(),
            gotos.wf(),
            i <= ds@.len(),
            before == (old(actions)@, old(gotos)@),
            items_effect(name@, g, aug@, trans@, before, s, dsv.take(i as int), first) == Ok::<(ActMap, GotoMap), Seq<char>>((actions@, gotos@)),
        decreases ds.len() - i,
    {
        assert(dsv.take(i + 1).drop_last() =~= dsv.take(i as int));
        assert(dsv.take(i + 1).last() == ds@[i as int]@);
        let d = &ds[i];
        let complete_item = d.production.is_epsilon_production() || d.dot >= d.production.right.len();
        assert(complete_item == complete(d@.prod, d@.dot));
        if complete_item == first {
            match apply_item(name, prods, aug, trans, actions, gotos, s, d) {
                Ok(()) => {},
                Err(e) => {
                    proof {
                        assert(items_effect(name@, g, aug@, trans@, before, s, dsv.take(i + 1), first) == Err::<(ActMap, GotoMap), Seq<char>>(e@));
                        lemma_items_effect_err(name@, g, aug@, trans@, before, s, dsv, i + 1, e@, first);
                    }
                    return Err(e);
                },
            }
        }
        i += 1;
    }
    assert(dsv.take(ds@.len() as int) =~= dsv);
    Ok(())
}

/// Builds the ACTION and GOTO tables from the descriptions of the items of
/// each state, as `tables_spec` says.
pub fn build_tables<A: TableAction>(
    name: &str,
    prods: &Vec<Production>,
    aug: &Symbol,
    trans: &VecMap<(usize, String), usize>,
    descs: &Vec<Vec<ItemDesc>>,
) -> (r: Result<(VecMap<(usize, String), A>, VecMap<(usize, String), usize>), String>)
    requires
        trans.wf(),
    ensures
        match r {
            Ok((a, g)) => a.wf() && g.wf() && tables_spec(name@, prods_view(prods@), aug@, trans@, descs_view(descs@))
                == Ok::<(ActMap, GotoMap), Seq<char>>((a@, g@)),
            Err(e) => tables_spec(name@, prods_view(prods@), aug@, trans@, descs_view(descs@)) == Err::<(ActMap, GotoMap), Seq<char>>(e@),
        },
{
    let ghost dv = descs_view(descs@);
    let ghost g = prods_view(prods@);
    let mut actions: VecMap<(usize, String), A> = VecMap::new();
    let mut gotos: VecMap<(usize, String), usize> = VecMap::new();
    let mut s: usize = 0;
    assert(dv.take(0) =~= Seq::<Seq<SpecDesc>>::empty());
    while s < descs.len()
        invariant
            dv == descs_view(descs@),
            g == prods_view(prods@),
            trans.wf(),
            actions.wf(),
            gotos.wf(),
            s <= descs@.len(),
            tables_spec(name@, g, aug@, trans@, dv.take(s as int)) == Ok::<(ActMap, GotoMap), Seq<char>>((actions@, gotos@)),
        decreases descs.len() - s,
    {
        let ds = &descs[s];
        let ghost dsv = views(ds@);
        assert(dv[s as int] == dsv);
        assert(dv.take(s + 1).drop_last() =~= dv.take(s as int));
        assert(dv.take(s + 1).last() == dsv);
        let ghost before = (actions@, gotos@);
        match apply_items(name, prods, aug, trans, &mut actions, &mut gotos, s, ds, true) {
            Ok(()) => {},
            Err(e) => {
                proof {
                    assert(tables_spec(name@, g, aug@, trans@, dv.take(s + 1)) == Err::<(ActMap, GotoMap), Seq<char>>(e@));
                    lemma_tables_err(name@, g, aug@, trans@, dv, s + 1, e@);
                    assert(dv.take(dv.len() as int) =~= dv);
                }
                return Err(e);
            },
        }
        let ghost mid = (actions@, gotos@);
        match apply_items(name, prods, aug, trans, &mut actions, &mut gotos, s, ds, false) {
            Ok(()) => {},
            Err(e) => {
                proof {
                    assert(tables_spec(name@, g, aug@, trans@, dv.take(s + 1)) == Err::<(ActMap, GotoMap), Seq<char>>(e@));
                    lemma_tables_err(name@, g, aug@, trans@, dv, s + 1, e@);
                    assert(dv.take(dv.len() as int) =~= dv);
                }
                return Err(e);
            },
        }
        assert(tables_spec(name@, g, aug@, trans@, dv.take(s + 1)) == Ok::<(ActMap, GotoMap), Seq<char>>((actions@, gotos@)));
        s += 1;
    }
    assert(dv.take(descs@.len() as int) =~= dv);
    Ok((actions, gotos))
}

pub proof fn lemma_items_effect_err(
    name: Seq<char>,
    g: Seq<SpecProduction>,
    aug: SpecSymbol,
    tr: GotoMap,
    acc: (ActMap, GotoMap),
    s: usize,
    ds: Seq<SpecDesc>,
    n: int,
    e: Seq<char>,
    first: bool,
)
    requires
        0 <= n <= ds.len(),
        items_effect(name, g, aug, tr, acc, s, ds.take(n), first) == Err::<(ActMap, GotoMap), Seq<char>>(e),
    ensures
        items_effect(name, g, aug, tr, acc, s, ds, first) == Err::<(ActMap, GotoMap), Seq<char>>(e),
    decreases ds.len() - n,
{
    if n < ds.len() {
        assert(ds.take(n + 1).drop_last() =~= ds.take(n));
        lemma_items_effect_err(name, g, aug, tr, acc, s, ds, n + 1, e, first);
    } else {
        assert(ds.take(n) =~= ds);
    }
}

pub proof fn lemma_tables_err(
    name: Seq<char>,
    g: Seq<SpecProduction>,
    aug: SpecSymbol,
    tr: GotoMap,
    dss: Seq<Seq<SpecDesc>>,
    n: int,
    e: Seq<char>,
)
    requires
        0 <= n <= dss.len(),
        tables_spec(name, g, aug, tr, dss.take(n)) == Err::<(ActMap, GotoMap), Seq<char>>(e),
    ensures
        tables_spec(name, g, aug, tr, dss) == Err::<(ActMap, GotoMap), Seq<char>>(e),
    decreases dss.len() - n,
{
    if n < dss.len() {
        assert(dss.take(n + 1).drop_last() =~= dss.take(n));
        lemma_tables_err(name, g, aug, tr, dss, n + 1, e);
    } else {
        assert(dss.take(n) =~= dss);
    }
}

pub proof fn lemma_insert_all_err(name: Seq<char>, t: ActMap, s: usize, terms: Seq<Seq<char>>, n: int, a: SpecAction, e: Seq<char>)
    requires
        0 <= n <= terms.len(),
        insert_all(name, t, s, terms.take(n), a) == Err::<ActMap, Seq<char>>(e),
    ensures
        insert_all(name, t, s, terms, a) == Err::<ActMap, Seq<char>>(e),
    decreases terms.len() - n,
{
    if n < terms.len() {
        assert(terms.take(n + 1).drop_last() =~= terms.take(n));
        lemma_insert_all_err(name, t, s, terms, n + 1, a, e);
    } else {
        assert(terms.take(n) =~= terms);
    }
}

/// The state of a shift-reduce parse: the state and symbol stacks, the
/// stack of subtrees, the next node number, the input position and the step.
pub struct LRState {
    pub ss: Seq<usize>,
    pub sy: Seq<Seq<char>>,
    pub nodes: Seq<SpecTree>,
    pub nid: usize,
    pub pos: int,
    pub step: int,
}

pub type LRResult = Result<(Seq<SpecLRSnapshot>, SpecTree), Seq<char>>;

/// One more snapshot before those of `r`.
pub open spec fn lr_prepend(s: SpecLRSnapshot, r: LRResult) -> LRResult {
    match r {
        Ok((v, t)) => Ok((seq![s] + v, t)),
        Err(e) => Err(e),
    }
}

/// Several snapshots before those of `r`.
pub open spec fn lr_prepend_all(s: Seq<SpecLRSnapshot>, r: LRResult) -> LRResult {
    match r {
        Ok((v, t)) => Ok((s + v, t)),
        Err(e) => Err(e),
    }
}

/// A tree of one node.
pub open spec fn leaf(id: usize, label: Seq<char>, kind: Seq<char>) -> SpecTree {
    SpecTree { id, label, kind, children: Seq::empty() }
}

pub open spec fn shift_text(cur: Seq<char>, j: usize) -> Seq<char> {
    "Shift '"@ + cur + "' → push state "@ + nat_text(j as nat)
}

pub open spec fn no_action_text(s: usize, cur: Seq<char>) -> Seq<char> {
    "Syntax Error: No action for state "@ + nat_text(s as nat) + " on input '"@ + cur + "'"@
}

pub open spec fn no_goto_text(s: usize, left: Seq<char>) -> Seq<char> {
    "Error: No GOTO entry for state "@ + nat_text(s as nat) + " with '"@ + left + "'"@
}

pub open spec fn max_steps_text() -> Seq<char> {
    "Error: Maximum steps exceeded (possible infinite loop)"@
}

/// The error for tables that lead the parse outside its stacks or input.
pub open spec fn broken_table_text() -> Seq<char> {
    "Error: the parsing tables do not fit the input"@
}

/// How many symbols a reduction by `p` pops (none for an ϵ-production).
pub open spec fn pop_count(p: SpecProduction) -> nat {
    if is_epsilon_rhs(p.right) {
        0
    } else {
        p.right.len()
    }
}

/// `n` less `k`, or 0.
pub open spec fn cut_at(n: nat, k: nat) -> nat {
    if n >= k {
        (n - k) as nat
    } else {
        0
    }
}

/// The snapshot of a step.
pub open spec fn lr_snap(input: Seq<Seq<char>>, st: LRState, action: Seq<char>) -> SpecLRSnapshot {
    SpecLRSnapshot {
        step: st.step as usize,
        state_stack: st.ss,
        symbol_stack: st.sy,
        input_remaining: input.skip(st.pos),
        action,
    }
}

/// The state after reducing by `p` (before the GOTO state is pushed).
pub open spec fn reduced(st: LRState, p: SpecProduction) -> LRState {
    let n = pop_count(p);
    let left = sym_text(p.left);
    let cut = cut_at(st.nodes.len(), n);
    let kids = if n == 0 { seq![leaf(st.nid, "ϵ"@, "epsilon"@)] } else { st.nodes.subrange(cut as int, st.nodes.len() as int) };
    let pid = if n == 0 { (st.nid + 1) as usize } else { st.nid };
    let parent = SpecTree { id: pid, label: left, kind: "non_terminal"@, children: kids };
    LRState {
        ss: st.ss.take(st.ss.len() - n),
        sy: st.sy.take(cut_at(st.sy.len(), n) as int).push(left),
        nodes: st.nodes.take(cut as int).push(parent),
        nid: (pid + 1) as usize,
        pos: st.pos,
        step: st.step + 1,
    }
}

/// The snapshots and the parse tree of the table-driven shift-reduce parse
/// from state `st` (at most `fuel` more steps), or the error it meets.
pub open spec fn lr_trace(act: ActMap, gt: GotoMap, prods: Seq<SpecProduction>, input: Seq<Seq<char>>, st: LRState, fuel: nat) -> Result<(Seq<SpecLRSnapshot>, SpecTree), Seq<char>>
    decreases fuel,
{
    if fuel == 0 || st.ss.len() == 0 || !(0 <= st.pos < input.len()) {
        Err(broken_table_text())
    } else {
        let s = st.ss.last();
        let cur = input[st.pos];
        if !act.contains_key((s, cur)) {
            Err(no_action_text(s, cur))
        } else {
            match act[(s, cur)] {
                SpecAction::Shift(j) => {
                    let next = LRState {
                        ss: st.ss.push(j),
                        sy: st.sy.push(cur),
                        nodes: st.nodes.push(leaf(st.nid, cur, "terminal"@)),
                        nid: (st.nid + 1) as usize,
                        pos: st.pos + 1,
                        step: st.step + 1,
                    };
                    if fuel == 1 {
                        Err(max_steps_text())
                    } else {
                        lr_prepend(lr_snap(input, st, shift_text(cur, j)), lr_trace(act, gt, prods, input, next, (fuel - 1) as nat))
                    }
                },
                SpecAction::Reduce(idx, ptext) => {
                    if idx >= prods.len() || st.ss.len() <= pop_count(prods[idx as int]) {
                        Err(broken_table_text())
                    } else {
                        let p = prods[idx as int];
                        let left = sym_text(p.left);
                        let mid = reduced(st, p);
                        let top = mid.ss.last();
                        if !gt.contains_key((top, left)) {
                            Err(no_goto_text(top, left))
                        } else if fuel == 1 {
                            Err(max_steps_text())
                        } else {
                            lr_prepend(
                                lr_snap(input, st, "Reduce by "@ + ptext),
                                lr_trace(act, gt, prods, input, LRState { ss: mid.ss.push(gt[(top, left)]), ..mid }, (fuel - 1) as nat),
                            )
                        }
                    }
                },
                SpecAction::Accept => Ok((
                    seq![lr_snap(input, st, "Accept! ✓"@)],
                    if st.nodes.len() > 0 { st.nodes.last() } else { leaf(0, "?"@, "non_terminal"@) },
                )),
            }
        }
    }
}

/// The whole parse of the tokens: state 0 on the stack, at most 1001 steps.
pub open spec fn lr_parse_spec(act: ActMap, gt: GotoMap, prods: Seq<SpecProduction>, input: Seq<String>) -> Result<(Seq<SpecLRSnapshot>, SpecTree), Seq<char>> {
    lr_trace(
        act, gt, prods, with_end_marker(input),
        LRState { ss: seq![0usize], sy: Seq::empty(), nodes: Seq::empty(), nid: 0, pos: 0, step: 0 },
        1001,
    )
}

/// The snapshots of the parse, or its error.
pub open spec fn lr_snapshots_spec(act: ActMap, gt: GotoMap, prods: Seq<SpecProduction>, input: Seq<String>) -> Result<Seq<SpecLRSnapshot>, Seq<char>> {
    match lr_parse_spec(act, gt, prods, input) {
        Ok(r) => Ok(r.0),
        Err(e) => Err(e),
    }
}

/// A run of the shift-reduce parse that succeeds ends with the acceptance,
/// numbers its snapshots from the state's step on, and takes at most `fuel`
/// of them; its first snapshot shows the state it started from.
pub proof fn lemma_lr_trace_steps(act: ActMap, gt: GotoMap, prods: Seq<SpecProduction>, input: Seq<Seq<char>>, st: LRState, fuel: nat)
    requires
        0 <= st.step,
        st.step + fuel <= usize::MAX + 1,
    ensures
        lr_trace(act, gt, prods, input, st, fuel) matches Ok((sn, tr)) ==> {
            &&& 0 < sn.len() <= fuel
            &&& sn.last().action == "Accept! ✓"@
            &&& sn[0].state_stack == st.ss
            &&& sn[0].symbol_stack == st.sy
            &&& sn[0].input_remaining == input.skip(st.pos)
            &&& forall|i: int| 0 <= i < sn.len() ==> (#[trigger] sn[i]).step == st.step + i
        },
    decreases fuel,
{
    if fuel > 0 && st.ss.len() > 0 && 0 <= st.pos < input.len() {
        let s = st.ss.last();
        let cur = input[st.pos];
        if act.contains_key((s, cur)) {
            match act[(s, cur)] {
                SpecAction::Shift(j) => {
                    let next = LRState {
                        ss: st.ss.push(j),
                        sy: st.sy.push(cur),
                        nodes: st.nodes.push(leaf(st.nid, cur, "terminal"@)),
                        nid: (st.nid + 1) as usize,
                        pos: st.pos + 1,
                        step: st.step + 1,
                    };
                    if fuel > 1 {
                        lemma_lr_trace_steps(act, gt, prods, input, next, (fuel - 1) as nat);
                    }
                },
                SpecAction::Reduce(idx, ptext) => {
                    if !(idx >= prods.len() || st.ss.len() <= pop_count(prods[idx as int])) {
                        let p = prods[idx as int];
                        let left = sym_text(p.left);
                        let mid = reduced(st, p);
                        let top = mid.ss.last();
                        if gt.contains_key((top, left)) && fuel > 1 {
                            lemma_lr_trace_steps(act, gt, prods, input, LRState { ss: mid.ss.push(gt[(top, left)]), ..mid }, (fuel - 1) as nat);
                        }
                    }
                },
                SpecAction::Accept => {},
            }
        }
        match lr_trace(act, gt, prods, input, st, fuel) {
            Ok((sn, tr)) => {
                assert forall|i: int| 0 <= i < sn.len() implies (#[trigger] sn[i]).step == st.step + i by {
                    if i > 0 {
                        assert(sn[i] == sn.drop_first()[i - 1]);
                    }
                }
            },
            Err(_) => {},
        }
    }
}

/// A shift-reduce parse that succeeds starts in state 0 with nothing on the
/// symbol stack and the whole input, then `$`, to read; it numbers its
/// snapshots by step from 0 and ends by accepting.
pub proof fn lr_parse_accepts_at_end(act: ActMap, gt: GotoMap, prods: Seq<SpecProduction>, input: Seq<String>)
    ensures
        lr_snapshots_spec(act, gt, prods, input) matches Ok(sn) ==> {
            &&& sn.len() > 0
            &&& sn[0].state_stack == seq![0usize]
            &&& sn[0].symbol_stack == Seq::<Seq<char>>::empty()
            &&& sn[0].input_remaining == with_end_marker(input)
            &&& sn.last().action == "Accept! ✓"@
            &&& forall|i: int| 0 <= i < sn.len() ==> (#[trigger] sn[i]).step == i
        },
{
    let iv = with_end_marker(input);
    lemma_lr_trace_steps(
        act, gt, prods, iv,
        LRState { ss: seq![0usize], sy: Seq::empty(), nodes: Seq::empty(), nid: 0, pos: 0, step: 0 },
        1001,
    );
    assert(iv.skip(0) =~= iv);
}

/// A copy of a sequence of numbers.
pub fn copy_usizes(v: &Vec<usize>) -> (r: Vec<usize>)
    ensures
        r@ == v@,
{
    let mut r: Vec<usize> = Vec::new();
    let mut i: usize = 0;
    while i < v.len()
        invariant
            i <= v@.len(),
            r@ == v@.take(i as int),
        decreases v.len() - i,
    {
        r.push(v[i]);
        assert(r@ =~= v@.take(i + 1));
        i += 1;
    }
    assert(v@.take(v@.len() as int) =~= v@);
    r
}

/// The model of the parse state held in the stacks and counters.
pub open spec fn lr_state(ss: Seq<usize>, sy: Seq<String>, nodes: Seq<ParseTreeNode>, nid: usize, pos: usize, step: usize) -> LRState {
    LRState { ss, sy: strs_view(sy), nodes: trees_view(nodes), nid, pos: pos as int, step: step as int }
}

fn snapshot_of(toks: &Vec<String>, ss: &Vec<usize>, sy: &Vec<String>, ptr: usize, step: usize, action: String) -> (r: LR0ParseSnapshot)
    requires
        ptr <= toks@.len(),
    ensures
        r@ == (SpecLRSnapshot {
            step,
            state_stack: ss@,
            symbol_stack: strs_view(sy@),
            input_remaining: strs_view(toks@).skip(ptr as int),
            action: action@,
        }),
{
    let rest = copy_strings_from(toks, ptr);
    assert(strs_view(rest@) =~= strs_view(toks@).skip(ptr as int));
    LR0ParseSnapshot { step, state_stack: copy_usizes(ss), symbol_stack: copy_strings(sy), input_remaining: rest, action }
}

/// Runs the table-driven shift-reduce parse of the tokens, building the
/// parse tree as it reduces (see `lr_trace`).
pub fn lr_run<A: TableAction>(
    actions: &VecMap<(usize, String), A>,
    gotos: &VecMap<(usize, String), usize>,
    prods: &Vec<Production>,
    input: Vec<String>,
) -> (r: Result<(Vec<LR0ParseSnapshot>, ParseTreeNode), String>)
    requires
        actions.wf(),
        gotos.wf(),
    ensures
        match r {
            Ok((v, t)) => lr_parse_spec(actions@, gotos@, prods_view(prods@), input@) == Ok::<(Seq<SpecLRSnapshot>, SpecTree), Seq<char>>((views(v@), t@)),
            Err(e) => lr_parse_spec(actions@, gotos@, prods_view(prods@), input@) == Err::<(Seq<SpecLRSnapshot>, SpecTree), Seq<char>>(e@),
        },
{
    let ghost g = prods_view(prods@);
    let ghost act = actions@;
    let ghost gt = gotos@;
    let ghost full = lr_parse_spec(act, gt, g, input@);
    let mut toks = input;
    let ghost iv = with_end_marker(toks@);
    toks.push(String::from_str("$"));
    assert(strs_view(toks@) =~= iv);
    let mut ss: Vec<usize> = Vec::new();
    ss.push(0);
    let mut sy: Vec<String> = Vec::new();
    let mut nodes: Vec<ParseTreeNode> = Vec::new();
    let mut nid: usize = 0;
    let mut ptr: usize = 0;
    let mut step: usize = 0;
    let mut snapshots: Vec<LR0ParseSnapshot> = Vec::new();
    assert(lr_state(ss@, sy@, nodes@, nid, ptr, step) == LRState { ss: seq![0usize], sy: Seq::empty(), nodes: Seq::empty(), nid: 0, pos: 0, step: 0 }) by {
        assert(ss@ =~= seq![0usize]);
        assert(strs_view(sy@) =~= Seq::<Seq<char>>::empty());
        assert(trees_view(nodes@) =~= Seq::<SpecTree>::empty());
    }
    assert(views(snapshots@) =~= Seq::<SpecLRSnapshot>::empty());
    assert(full == lr_prepend_all(views(snapshots@), lr_trace(act, gt, g, iv, lr_state(ss@, sy@, nodes@, nid, ptr, step), 1001)));
    loop
        invariant
            g == prods_view(prods@),
            act == actions@,
            gt == gotos@,
            actions.wf(),
            gotos.wf(),
            iv == strs_view(toks@),
            step == snapshots@.len(),
            step <= 1000,
            nid <= 2 * step,
            full == lr_prepend_all(views(snapshots@), lr_trace(act, gt, g, iv, lr_state(ss@, sy@, nodes@, nid, ptr, step), (1001 - step) as nat)),
            full == lr_parse_spec(act, gt, g, input@),
        decreases 1001 - step,
    {
        let ghost st = lr_state(ss@, sy@, nodes@, nid, ptr, step);
        let ghost fuel = (1001 - step) as nat;
        let ghost before = views(snapshots@);
        assert(toks@.len() == toks.len());
        if ss.len() == 0 || ptr >= toks.len() {
            return Err(String::from_str("Error: the parsing tables do not fit the input"));
        }
        let s = ss[ss.len() - 1];
        let cur = toks[ptr].clone();
        assert(iv[ptr as int] == cur@);
        let key = (s, cur.clone());
        let a = match actions.get(&key) {
            Some(a) => a.as_lr0(),
            None => {
                let mut msg = String::from_str("Syntax Error: No action for state ");
                let n = usize_text(s);
                msg.append(n.as_str());
                msg.append(" on input '");
                msg.append(cur.as_str());
                msg.append("'");
                return Err(msg);
            },
        };
        match a {
            LR0Action::Shift(j) => {
                let mut text = concat("Shift '", cur.as_str());
                text.append("' → push state ");
                let n = usize_text(j);
                text.append(n.as_str());
                let snap = snapshot_of(&toks, &ss, &sy, ptr, step, text);
                assert(snap@ == lr_snap(iv, st, shift_text(cur@, j)));
                if step + 1 > 1000 {
                    return Err(String::from_str("Error: Maximum steps exceeded (possible infinite loop)"));
                }
                snapshots.push(snap);
                assert(views(snapshots@) =~= before + seq![snap@]);
                let ghost sy0 = sy@;
                let ghost nodes0 = nodes@;
                ss.push(j);
                sy.push(cur.clone());
                assert(strs_view(sy@) =~= strs_view(sy0).push(cur@));
                let leaf_node = ParseTreeNode { id: nid, label: cur, node_type: String::from_str("terminal"), children: Vec::new() };
                assert(trees_view(leaf_node.children@) =~= Seq::<SpecTree>::empty());
                proof {
                    lemma_trees_view_push(nodes0, leaf_node);
                }
                nodes.push(leaf_node);
                nid += 1;
                ptr += 1;
                step += 1;
                proof {
                    let tail = lr_trace(act, gt, g, iv, lr_state(ss@, sy@, nodes@, nid, ptr, step), (1001 - step) as nat);
                    assert(lr_prepend_all(views(snapshots@), tail) == lr_prepend_all(before, lr_prepend(snap@, tail))) by {
                        match tail {
                            Ok((tl, t)) => { assert(views(snapshots@) + tl =~= before + (seq![snap@] + tl)); },
                            Err(_) => {},
                        }
                    }
                }
            },
            LR0Action::Reduce(idx, ptext) => {
                if idx >= prods.len() {
                    return Err(String::from_str("Error: the parsing tables do not fit the input"));
                }
                let p = &prods[idx];
                let ghost pv = g[idx as int];
                assert(pv == p@);
                let n = if p.is_epsilon_production() { 0 } else { p.right.len() };
                assert(n == pop_count(pv));
                if ss.len() <= n {
                    return Err(String::from_str("Error: the parsing tables do not fit the input"));
                }
                let left = p.left.to_text();
                let text = concat("Reduce by ", ptext.as_str());
                let snap = snapshot_of(&toks, &ss, &sy, ptr, step, text);
                assert(snap@ == lr_snap(iv, st, "Reduce by "@ + ptext@));
                let ghost mid = reduced(st, pv);
                let ghost nodes0 = nodes@;
                let ghost sy0 = sy@;
                let new_len = ss.len() - n;
                ss.truncate(new_len);
                let cut_sy = if sy.len() >= n { sy.len() - n } else { 0 };
                sy.truncate(cut_sy);
                assert(strs_view(sy@) =~= strs_view(sy0).take(cut_sy as int));
                let cut = if nodes.len() >= n { nodes.len() - n } else { 0 };
                let mut kids = nodes.split_off(cut);
                proof {
                    lemma_trees_view(nodes0);
                    lemma_trees_view_subrange(nodes0, 0, cut as int);
                    lemma_trees_view_subrange(nodes0, cut as int, nodes0.len() as int);
                    assert(trees_view(nodes0).take(cut as int) =~= trees_view(nodes0).subrange(0, cut as int));
                }
                let mut pid = nid;
                if n == 0 {
                    let eps = ParseTreeNode { id: nid, label: String::from_str("ϵ"), node_type: String::from_str("epsilon"), children: Vec::new() };
                    assert(trees_view(eps.children@) =~= Seq::<SpecTree>::empty());
                    assert(kids@ =~= Seq::<ParseTreeNode>::empty());
                    proof {
                        lemma_trees_view_push(kids@, eps);
                    }
                    kids.push(eps);
                    assert(trees_view(kids@) =~= seq![leaf(st.nid, "ϵ"@, "epsilon"@)]);
                    pid = nid + 1;
                }
                let parent = ParseTreeNode { id: pid, label: left.clone(), node_type: String::from_str("non_terminal"), children: kids };
                let top = ss[ss.len() - 1];
                let ghost sy1 = sy@;
                sy.push(left.clone());
                assert(strs_view(sy@) =~= strs_view(sy1).push(left@));
                let ghost nodes1 = nodes@;
                proof {
                    lemma_trees_view_push(nodes1, parent);
                }
                nodes.push(parent);
                nid = pid + 1;
                assert(ss@ =~= mid.ss);
                assert(strs_view(sy@) =~= mid.sy);
                assert(cut as nat == cut_at(st.nodes.len(), n as nat));
                assert(trees_view(nodes1) =~= st.nodes.take(cut as int));
                assert(trees_view(parent.children@) == (if n == 0 { seq![leaf(st.nid, "ϵ"@, "epsilon"@)] } else { st.nodes.subrange(cut as int, st.nodes.len() as int) }));
                assert(parent@ == mid.nodes.last());
                assert(trees_view(nodes@) =~= mid.nodes);
                assert(nid == mid.nid);
                assert(lr_state(ss@, sy@, nodes@, nid, ptr, (step + 1) as usize) == mid);
                let gs = match gotos.get(&(top, left.clone())) {
                    Some(gs) => *gs,
                    None => {
                        let mut msg = String::from_str("Error: No GOTO entry for state ");
                        let tn = usize_text(top);
                        msg.append(tn.as_str());
                        msg.append(" with '");
                        msg.append(left.as_str());
                        msg.append("'");
                        return Err(msg);
                    },
                };
                if step + 1 > 1000 {
                    return Err(String::from_str("Error: Maximum steps exceeded (possible infinite loop)"));
                }
                snapshots.push(snap);
                assert(views(snapshots@) =~= before + seq![snap@]);
                ss.push(gs);
                step += 1;
                proof {
                    let tail = lr_trace(act, gt, g, iv, lr_state(ss@, sy@, nodes@, nid, ptr, step), (1001 - step) as nat);
                    assert(lr_state(ss@, sy@, nodes@, nid, ptr, step) == LRState { ss: mid.ss.push(gs), ..mid });
                    assert(lr_prepend_all(views(snapshots@), tail) == lr_prepend_all(before, lr_prepend(snap@, tail))) by {
                        match tail {
                            Ok((tl, t)) => { assert(views(snapshots@) + tl =~= before + (seq![snap@] + tl)); },
                            Err(_) => {},
                        }
                    }
                }
            },
            LR0Action::Accept => {
                let snap = snapshot_of(&toks, &ss, &sy, ptr, step, String::from_str("Accept! ✓"));
                assert(snap@ == lr_snap(iv, st, "Accept! ✓"@));
                snapshots.push(snap);
                assert(views(snapshots@) =~= before + seq![snap@]);
                let ghost nodes0 = nodes@;
                proof {
                    lemma_trees_view(nodes0);
                }
                let root = match nodes.pop() {
                    Some(t) => t,
                    None => {
                        let q = ParseTreeNode { id: 0, label: String::from_str("?"), node_type: String::from_str("non_terminal"), children: Vec::new() };
                        assert(trees_view(q.children@) =~= Seq::<SpecTree>::empty());
                        q
                    },
                };
                return Ok((snapshots, root));
            },
        }
    }
}

} // verus!
