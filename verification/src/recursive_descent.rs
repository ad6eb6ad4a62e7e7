//! The recursive-descent parser with backtracking: each alternative of a
//! non-terminal is tried in order; a failed alternative's steps are dropped
//! and a backtrack step is recorded in their place.

use vstd::prelude::*;
use crate::collections::views;
use crate::symbols::{Symbol, SpecSymbol, Production, SpecProduction, Grammar, SpecGrammar, ParseSnapshot, SpecSnapshot, prods_view, strs_view, sym_text, is_epsilon_rhs, copy_symbols, copy_strings, copy_strings_from, syms_view};
use crate::text::{concat, usize_text, nat_text, join};
use crate::tree::{ParseTreeNode, SpecTree, trees_view, lemma_trees_view_push, leaves, leaves_all, labels, ids, ids_all, ids_above};
use crate::grammar::left_recursive;
use crate::lr0::{texts, joined_texts};
use crate::ll1::with_end_marker;
use crate::derivation::{derives, step_at, rhs_yield, terminals_of, eps_alone, lemma_derives_refl, lemma_derives_concat, lemma_derives_step_then};

verus! {

/// How deep the search may nest.
pub const MAX_DEPTH: usize = 200;

/// The right side as the trace shows it: `ε` for an ϵ-production, else its
/// symbols separated by spaces.
pub open spec fn rhs_text(rhs: Seq<SpecSymbol>) -> Seq<char> {
    if is_epsilon_rhs(rhs) {
        "ε"@
    } else {
        join(texts(rhs), " "@)
    }
}

/// The productions of `x`, in order.
pub open spec fn alternatives(g: Seq<SpecProduction>, x: SpecSymbol) -> Seq<SpecProduction>
    decreases g.len(),
{
    if g.len() == 0 {
        Seq::empty()
    } else if g.last().left == x {
        alternatives(g.drop_last(), x).push(g.last())
    } else {
        alternatives(g.drop_last(), x)
    }
}

/// A step of the trace.
pub open spec fn rd_snap(snaps: Seq<SpecSnapshot>, path: Seq<SpecSymbol>, toks: Seq<Seq<char>>, pos: usize, action: Seq<char>) -> SpecSnapshot {
    SpecSnapshot { step: snaps.len() as usize, stack: path, input_remaining: toks.skip(pos as int), action }
}

pub open spec fn try_text(n: Seq<char>, rhs: Seq<SpecSymbol>, idx: int, count: int) -> Seq<char> {
    "Try "@ + n + " → "@ + rhs_text(rhs) + " ["@ + nat_text((idx + 1) as nat) + "/"@ + nat_text(count as nat) + "]"@
}

pub open spec fn backtrack_text(n: Seq<char>, rhs: Seq<SpecSymbol>, last: bool) -> Seq<char> {
    "Backtrack: "@ + n + " → "@ + rhs_text(rhs) + if last {
        " failed — all alternatives exhausted"@
    } else {
        " failed — trying next alternative"@
    }
}

/// The number after `n` (wrapping to 0 after the largest).
pub open spec fn next_id(n: usize) -> usize {
    if n == usize::MAX {
        0
    } else {
        (n + 1) as usize
    }
}

/// The state the search threads through: the trace and the next node number.
pub struct RdState {
    pub snaps: Seq<SpecSnapshot>,
    pub nid: usize,
}

/// Parses `x` at `pos` (with `path` the non-terminals being expanded):
/// the position after it and its tree, or `None`. A node is made only while
/// ids remain below the largest `usize`, so that ids never repeat; past that
/// the search fails.
pub open spec fn rd_sym(
    g: Seq<SpecProduction>,
    toks: Seq<Seq<char>>,
    x: SpecSymbol,
    pos: usize,
    path: Seq<SpecSymbol>,
    st: RdState,
    depth: usize,
) -> (Option<(usize, SpecTree)>, RdState)
    decreases 201 - depth, 2int, 0int,
{
    if depth > MAX_DEPTH {
        (None, st)
    } else {
        match x {
            SpecSymbol::Terminal(t) => if pos < toks.len() && toks[pos as int] == t && st.nid < usize::MAX {
                (
                    Some(((pos + 1) as usize, SpecTree { id: st.nid, label: t, kind: "terminal"@, children: Seq::empty() })),
                    RdState {
                        snaps: st.snaps.push(rd_snap(st.snaps, path, toks, pos, "Match '"@ + t + "'"@)),
                        nid: next_id(st.nid),
                    },
                )
            } else {
                (None, st)
            },
            SpecSymbol::Epsilon => if st.nid < usize::MAX {
                (
                    Some((pos, SpecTree { id: st.nid, label: "ϵ"@, kind: "epsilon"@, children: Seq::empty() })),
                    RdState { snaps: st.snaps.push(rd_snap(st.snaps, path, toks, pos, "Match ε"@)), nid: next_id(st.nid) },
                )
            } else {
                (None, st)
            },
            SpecSymbol::NonTerminal(n) => rd_alts(g, toks, x, alternatives(g, x), 0, pos, path.push(x), st, depth),
        }
    }
}

/// Tries the alternatives `alts` of `x` from the one at `idx` on.
pub open spec fn rd_alts(
    g: Seq<SpecProduction>,
    toks: Seq<Seq<char>>,
    x: SpecSymbol,
    alts: Seq<SpecProduction>,
    idx: int,
    pos: usize,
    path: Seq<SpecSymbol>,
    st: RdState,
    depth: usize,
) -> (Option<(usize, SpecTree)>, RdState)
    decreases 201 - depth, 1int, alts.len() - idx,
{
    if depth > MAX_DEPTH || idx < 0 || idx >= alts.len() {
        (None, st)
    } else {
        let n = sym_text(x);
        let rhs = alts[idx].right;
        let saved = st.snaps.len();
        let tried = RdState { snaps: st.snaps.push(rd_snap(st.snaps, path, toks, pos, try_text(n, rhs, idx, alts.len() as int))), nid: st.nid };
        let (res, after) = rd_rhs(g, toks, rhs, 0, pos, path, tried, (depth + 1) as usize);
        match res {
            Some((np, kids)) => if after.nid < usize::MAX {
                (
                    Some((np, SpecTree { id: after.nid, label: n, kind: "non_terminal"@, children: kids })),
                    RdState { snaps: after.snaps, nid: next_id(after.nid) },
                )
            } else {
                (None, after)
            },
            None => {
                let kept = after.snaps.take(saved as int);
                let marked = kept.push(rd_snap(kept, path, toks, pos, backtrack_text(n, rhs, idx == alts.len() - 1)));
                rd_alts(g, toks, x, alts, idx + 1, pos, path, RdState { snaps: marked, nid: after.nid }, depth)
            },
        }
    }
}

/// Parses the symbols of `rhs` from the one at `i` on, in sequence.
pub open spec fn rd_rhs(
    g: Seq<SpecProduction>,
    toks: Seq<Seq<char>>,
    rhs: Seq<SpecSymbol>,
    i: int,
    pos: usize,
    path: Seq<SpecSymbol>,
    st: RdState,
    depth: usize,
) -> (Option<(usize, Seq<SpecTree>)>, RdState)
    decreases 201 - depth, 3int, rhs.len() - i,
{
    if i < 0 || i >= rhs.len() {
        (Some((pos, Seq::empty())), st)
    } else {
        let (r, s) = rd_sym(g, toks, rhs[i], pos, path, st, depth);
        match r {
            Some((np, t)) => {
                let (r2, s2) = rd_rhs(g, toks, rhs, i + 1, np, path, s, depth);
                match r2 {
                    Some((p2, ts)) => (Some((p2, seq![t] + ts)), s2),
                    None => (None, s2),
                }
            },
            None => (None, s),
        }
    }
}

pub open spec fn sym_result(r: Option<(usize, ParseTreeNode)>) -> Option<(usize, SpecTree)> {
    match r {
        Some((p, t)) => Some((p, t@)),
        None => None,
    }
}

pub open spec fn rhs_result(r: Option<(usize, Vec<ParseTreeNode>)>) -> Option<(usize, Seq<SpecTree>)> {
    match r {
        Some((p, ts)) => Some((p, trees_view(ts@))),
        None => None,
    }
}

/// The children found so far put before those `r` finds.
pub open spec fn with_prefix(ts: Seq<SpecTree>, r: (Option<(usize, Seq<SpecTree>)>, RdState)) -> (Option<(usize, Seq<SpecTree>)>, RdState) {
    match r.0 {
        Some((p, rest)) => (Some((p, ts + rest)), r.1),
        None => (None, r.1),
    }
}

fn bump(nid: &mut usize) -> (r: usize)
    ensures
        r == *old(nid),
        *final(nid) == next_id(*old(nid)),
{
    let r = *nid;
    *nid = if r == usize::MAX { 0 } else { r + 1 };
    r
}

/// The right side as shown in the trace.
pub fn format_rhs(rhs: &Vec<Symbol>) -> (r: String)
    ensures
        r@ == rhs_text(syms_view(rhs@)),
{
    if rhs.len() == 1 && rhs[0].is_epsilon() {
        return String::from_str("ε");
    }
    joined_texts(rhs)
}

/// The productions of `x`, in order.
pub fn alternatives_of(prods: &Vec<Production>, x: &Symbol) -> (r: Vec<Production>)
    ensures
        prods_view(r@) == alternatives(prods_view(prods@), x@),
{
    let ghost g = prods_view(prods@);
    let mut r: Vec<Production> = Vec::new();
    let mut i: usize = 0;
    assert(g.take(0) =~= Seq::<SpecProduction>::empty());
    while i < prods.len()
        invariant
            g == prods_view(prods@),
            i <= g.len(),
            prods_view(r@) == alternatives(g.take(i as int), x@),
        decreases prods.len() - i,
    {
        assert(g.take(i + 1).drop_last() =~= g.take(i as int));
        assert(g.take(i + 1).last() == prods@[i as int]@);
        if prods[i].left.same(x) {
            let ghost before = prods_view(r@);
            r.push(prods[i].copy());
            assert(prods_view(r@) =~= before.push(prods@[i as int]@));
        }
        i += 1;
    }
    assert(g.take(prods@.len() as int) =~= g);
    r
}

fn make_snapshot(snaps: &Vec<ParseSnapshot>, path: &Vec<Symbol>, toks: &Vec<String>, pos: usize, action: String) -> (r: ParseSnapshot)
    requires
        pos <= toks@.len(),
    ensures
        r@ == rd_snap(views(snaps@), syms_view(path@), strs_view(toks@), pos, action@),
{
    let rest = copy_strings_from(toks, pos);
    assert(strs_view(rest@) =~= strs_view(toks@).skip(pos as int));
    ParseSnapshot { step: snaps.len(), stack: copy_symbols(path), input_remaining: rest, action }
}

fn push_snapshot(snaps: &mut Vec<ParseSnapshot>, s: ParseSnapshot)
    ensures
        views(final(snaps)@) == views(old(snaps)@).push(s@),
        final(snaps)@.len() == old(snaps)@.len() + 1,
{
    let ghost before = views(snaps@);
    snaps.push(s);
    assert(views(snaps@) =~= before.push(s@));
}

/// Parses `sym` at `pos`, as `rd_sym` says.
fn try_symbol(
    prods: &Vec<Production>,
    sym: &Symbol,
    toks: &Vec<String>,
    pos: usize,
    path: &mut Vec<Symbol>,
    snaps: &mut Vec<ParseSnapshot>,
    nid: &mut usize,
    depth: usize,
) -> (r: Option<(usize, ParseTreeNode)>)
    requires
        pos <= toks@.len(),
    ensures
        (sym_result(r), RdState { snaps: views(final(snaps)@), nid: *final(nid) })
            == rd_sym(prods_view(prods@), strs_view(toks@), sym@, pos, syms_view(old(path)@), RdState { snaps: views(old(snaps)@), nid: *old(nid) }, depth),
        final(path)@ == old(path)@,
        final(snaps)@.len() >= old(snaps)@.len(),
        r matches Some((p, _)) ==> p <= toks@.len(),
    decreases 201 - depth, 2int, 0int,
{
    if depth > MAX_DEPTH {
        return None;
    }
    match sym {
        Symbol::Terminal(t) => {
            if pos < toks.len() && toks[pos] == *t && *nid < usize::MAX {
                assert(strs_view(toks@)[pos as int] == toks@[pos as int]@);
                let action = concat("Match '", t.as_str());
                let mut action = action;
                action.append("'");
                let s = make_snapshot(snaps, path, toks, pos, action);
                push_snapshot(snaps, s);
                let id = bump(nid);
                let node = ParseTreeNode { id, label: t.clone(), node_type: String::from_str("terminal"), children: Vec::new() };
                assert(trees_view(node.children@) =~= Seq::<SpecTree>::empty());
                Some((pos + 1, node))
            } else {
                proof {
                    if pos < toks@.len() {
                        assert(strs_view(toks@)[pos as int] == toks@[pos as int]@);
                    }
                }
                None
            }
        },
        Symbol::Epsilon => {
            if *nid == usize::MAX {
                return None;
            }
            let s = make_snapshot(snaps, path, toks, pos, String::from_str("Match ε"));
            push_snapshot(snaps, s);
            let id = bump(nid);
            let node = ParseTreeNode { id, label: String::from_str("ϵ"), node_type: String::from_str("epsilon"), children: Vec::new() };
            assert(trees_view(node.children@) =~= Seq::<SpecTree>::empty());
            Some((pos, node))
        },
        Symbol::NonTerminal(n) => try_nonterminal(prods, sym, n, toks, pos, path, snaps, nid, depth),
    }
}

/// Tries the alternatives of the non-terminal `sym` (named `n`) at `pos`.
fn try_nonterminal(
    prods: &Vec<Production>,
    sym: &Symbol,
    n: &String,
    toks: &Vec<String>,
    pos: usize,
    path: &mut Vec<Symbol>,
    snaps: &mut Vec<ParseSnapshot>,
    nid: &mut usize,
    depth: usize,
) -> (r: Option<(usize, ParseTreeNode)>)
    requires
        pos <= toks@.len(),
        depth <= MAX_DEPTH,
        sym@ == SpecSymbol::NonTerminal(n@),
    ensures
        (sym_result(r), RdState { snaps: views(final(snaps)@), nid: *final(nid) })
            == rd_alts(prods_view(prods@), strs_view(toks@), sym@, alternatives(prods_view(prods@), sym@), 0, pos,
                syms_view(old(path)@).push(sym@), RdState { snaps: views(old(snaps)@), nid: *old(nid) }, depth),
        final(path)@ == old(path)@,
        final(snaps)@.len() >= old(snaps)@.len(),
        r matches Some((p, _)) ==> p <= toks@.len(),
    decreases 201 - depth, 1int, 0int,
{
    let ghost g = prods_view(prods@);
    let ghost tv = strs_view(toks@);
    let alts = alternatives_of(prods, sym);
    let ghost av = prods_view(alts@);
    let ghost path0 = path@;
    let ghost target = rd_alts(g, tv, sym@, av, 0, pos, syms_view(path0).push(sym@), RdState { snaps: views(snaps@), nid: *nid }, depth);
    path.push(sym.copy());
    assert(syms_view(path@) =~= syms_view(path0).push(sym@));
    let ghost pv = syms_view(path@);
    let count = alts.len();
    let mut idx: usize = 0;
    while idx < count
        invariant
            g == prods_view(prods@),
            tv == strs_view(toks@),
            av == prods_view(alts@),
            count == alts@.len(),
            idx <= count,
            pos <= toks@.len(),
            depth <= MAX_DEPTH,
            pv == syms_view(path0).push(sym@),
            syms_view(path@) == pv,
            path@ == path0.push(path@.last()),
            path@.len() == path0.len() + 1,
            target == rd_alts(g, tv, sym@, av, idx as int, pos, pv, RdState { snaps: views(snaps@), nid: *nid }, depth),
            target == rd_alts(g, tv, sym@, av, 0, pos, pv, RdState { snaps: views(old(snaps)@), nid: *old(nid) }, depth),
            av == alternatives(g, sym@),
            path0 == old(path)@,
            sym@ == SpecSymbol::NonTerminal(n@),
            snaps@.len() >= old(snaps)@.len(),
        decreases count - idx,
    {
        let ghost st = RdState { snaps: views(snaps@), nid: *nid };
        let rhs = &alts[idx].right;
        assert(av[idx as int].right == syms_view(rhs@));
        let rhs_str = format_rhs(rhs);
        let saved = snaps.len();
        let mut action = concat("Try ", n.as_str());
        action.append(" → ");
        action.append(rhs_str.as_str());
        action.append(" [");
        let a = usize_text(idx + 1);
        action.append(a.as_str());
        action.append("/");
        let b = usize_text(count);
        action.append(b.as_str());
        action.append("]");
        let s = make_snapshot(snaps, path, toks, pos, action);
        push_snapshot(snaps, s);
        let ghost tried = RdState { snaps: views(snaps@), nid: *nid };
        assert(tried == RdState { snaps: st.snaps.push(rd_snap(st.snaps, pv, tv, pos, try_text(n@, av[idx as int].right, idx as int, av.len() as int))), nid: st.nid });
        match try_rhs(prods, rhs, toks, pos, path, snaps, nid, depth + 1) {
            Some((np, kids)) => {
                if *nid == usize::MAX {
                    path.pop();
                    assert(path@ =~= path0);
                    return None;
                }
                let id = bump(nid);
                let parent = ParseTreeNode { id, label: n.clone(), node_type: String::from_str("non_terminal"), children: kids };
                path.pop();
                assert(path@ =~= path0);
                return Some((np, parent));
            },
            None => {
                let ghost after_snaps = views(snaps@);
                snaps.truncate(saved);
                assert(views(snaps@) =~= after_snaps.take(saved as int));
                let is_last = idx == count - 1;
                let mut action = concat("Backtrack: ", n.as_str());
                action.append(" → ");
                action.append(rhs_str.as_str());
                if is_last {
                    action.append(" failed — all alternatives exhausted");
                } else {
                    action.append(" failed — trying next alternative");
                }
                let s = make_snapshot(snaps, path, toks, pos, action);
                push_snapshot(snaps, s);
            },
        }
        idx += 1;
    }
    path.pop();
    assert(path@ =~= path0);
    None
}

/// Parses the symbols of `rhs` in sequence from `pos`, as `rd_rhs` says.
fn try_rhs(
    prods: &Vec<Production>,
    rhs: &Vec<Symbol>,
    toks: &Vec<String>,
    pos: usize,
    path: &mut Vec<Symbol>,
    snaps: &mut Vec<ParseSnapshot>,
    nid: &mut usize,
    depth: usize,
) -> (r: Option<(usize, Vec<ParseTreeNode>)>)
    requires
        pos <= toks@.len(),
        depth <= MAX_DEPTH + 1,
    ensures
        (rhs_result(r), RdState { snaps: views(final(snaps)@), nid: *final(nid) })
            == rd_rhs(prods_view(prods@), strs_view(toks@), syms_view(rhs@), 0, pos, syms_view(old(path)@),
                RdState { snaps: views(old(snaps)@), nid: *old(nid) }, depth),
        final(path)@ == old(path)@,
        final(snaps)@.len() >= old(snaps)@.len(),
        r matches Some((p, _)) ==> p <= toks@.len(),
    decreases 201 - depth, 3int, 0int,
{
    let ghost g = prods_view(prods@);
    let ghost tv = strs_view(toks@);
    let ghost rv = syms_view(rhs@);
    let ghost pv = syms_view(path@);
    let ghost path0 = path@;
    let ghost target = rd_rhs(g, tv, rv, 0, pos, pv, RdState { snaps: views(snaps@), nid: *nid }, depth);
    let mut current = pos;
    let mut children: Vec<ParseTreeNode> = Vec::new();
    let mut i: usize = 0;
    assert(trees_view(children@) =~= Seq::<SpecTree>::empty());
    assert(with_prefix(Seq::empty(), target) == target) by {
        match target.0 {
            Some((p, rest)) => { assert(Seq::<SpecTree>::empty() + rest =~= rest); },
            None => {},
        }
    }
    while i < rhs.len()
        invariant
            g == prods_view(prods@),
            tv == strs_view(toks@),
            rv == syms_view(rhs@),
            pv == syms_view(path@),
            path@ == path0,
            i <= rhs@.len(),
            current <= toks@.len(),
            depth <= MAX_DEPTH + 1,
            target == with_prefix(trees_view(children@), rd_rhs(g, tv, rv, i as int, current, pv, RdState { snaps: views(snaps@), nid: *nid }, depth)),
            target == rd_rhs(g, tv, rv, 0, pos, pv, RdState { snaps: views(old(snaps)@), nid: *old(nid) }, depth),
            path0 == old(path)@,
            snaps@.len() >= old(snaps)@.len(),
        decreases rhs.len() - i,
    {
        let ghost st = RdState { snaps: views(snaps@), nid: *nid };
        let ghost before = trees_view(children@);
        assert(rv[i as int] == rhs@[i as int]@);
        match try_symbol(prods, &rhs[i], toks, current, path, snaps, nid, depth) {
            Some((next, node)) => {
                proof {
                    lemma_trees_view_push(children@, node);
                    let rest = rd_rhs(g, tv, rv, i + 1, next, pv, RdState { snaps: views(snaps@), nid: *nid }, depth);
                    assert(with_prefix(before, with_prefix(seq![node@], rest)) == with_prefix(before.push(node@), rest)) by {
                        match rest.0 {
                            Some((p, r2)) => { assert(before + (seq![node@] + r2) =~= before.push(node@) + r2); },
                            None => {},
                        }
                    }
                }
                current = next;
                children.push(node);
            },
            None => {
                return None;
            },
        }
        i += 1;
    }
    assert(with_prefix(trees_view(children@), (Some((current, Seq::<SpecTree>::empty())), RdState { snaps: views(snaps@), nid: *nid }))
        == (Some((current, trees_view(children@))), RdState { snaps: views(snaps@), nid: *nid })) by {
        assert(trees_view(children@) + Seq::<SpecTree>::empty() =~= trees_view(children@));
    }
    Some((current, children))
}

/// The snapshots with their steps numbered from 0.
pub open spec fn renumbered(s: Seq<SpecSnapshot>) -> Seq<SpecSnapshot> {
    Seq::new(s.len(), |i: int| SpecSnapshot { step: i as usize, stack: s[i].stack, input_remaining: s[i].input_remaining, action: s[i].action })
}

pub open spec fn no_match_text() -> Seq<char> {
    "Syntax Error: Input does not match grammar."@
}

/// The whole recursive-descent parse of the tokens (with `$` appended):
/// the start step, the search for the start symbol at position 0, and then
/// acceptance when it stops right before `$`.
pub open spec fn rd_outcome(g: SpecGrammar, input: Seq<String>) -> Result<(Seq<SpecSnapshot>, SpecTree), Seq<char>> {
    let toks = with_end_marker(input);
    let s0 = seq![SpecSnapshot { step: 0, stack: seq![g.start], input_remaining: toks, action: "Start: expand "@ + sym_text(g.start) }];
    let (r, st) = rd_sym(g.productions, toks, g.start, 0, Seq::empty(), RdState { snaps: s0, nid: 0 }, 0);
    match r {
        Some((p, t)) => if p < toks.len() && toks[p as int] == "$"@ {
            Ok((
                renumbered(st.snaps.push(SpecSnapshot { step: st.snaps.len() as usize, stack: Seq::empty(), input_remaining: seq!["$"@], action: "Accept! ✓"@ })),
                t,
            ))
        } else if p < toks.len() {
            Err("Syntax Error: Unexpected '"@ + toks[p as int] + "' — input not fully consumed"@)
        } else {
            Err(no_match_text())
        },
        None => Err(no_match_text()),
    }
}

/// The snapshots of the parse, or its error.
pub open spec fn rd_snapshots(g: SpecGrammar, input: Seq<String>) -> Result<Seq<SpecSnapshot>, Seq<char>> {
    match rd_outcome(g, input) {
        Ok((s, _)) => Ok(s),
        Err(e) => Err(e),
    }
}

/// The alternatives of `x` are productions of the grammar with `x` on the left.
pub proof fn lemma_alternatives(g: Seq<SpecProduction>, x: SpecSymbol)
    ensures
        forall|j: int| 0 <= j < alternatives(g, x).len() ==> exists|k: int| 0 <= k < g.len() && g[k] == #[trigger] alternatives(g, x)[j],
        forall|j: int| 0 <= j < alternatives(g, x).len() ==> (#[trigger] alternatives(g, x)[j]).left == x,
    decreases g.len(),
{
    if g.len() > 0 {
        lemma_alternatives(g.drop_last(), x);
        let a = alternatives(g.drop_last(), x);
        assert forall|j: int| 0 <= j < alternatives(g, x).len() implies exists|k: int| 0 <= k < g.len() && g[k] == #[trigger] alternatives(g, x)[j] by {
            if j < a.len() {
                assert(alternatives(g, x)[j] == a[j]);
                let k = choose|k: int| 0 <= k < g.drop_last().len() && g.drop_last()[k] == a[j];
                assert(g[k] == a[j]);
            } else {
                assert(g[g.len() - 1] == alternatives(g, x)[j]);
            }
        }
        assert forall|j: int| 0 <= j < alternatives(g, x).len() implies (#[trigger] alternatives(g, x)[j]).left == x by {
            if j < a.len() {
                assert(alternatives(g, x)[j] == a[j]);
            }
        }
    }
}

/// The tokens from `a` to `b`.
pub open spec fn span(toks: Seq<Seq<char>>, a: int, b: int) -> Seq<SpecSymbol> {
    terminals_of(toks.subrange(a, b))
}

/// What the search finds of a symbol is derived from it.
pub proof fn lemma_rd_sym_sound(
    gr: SpecGrammar,
    toks: Seq<Seq<char>>,
    x: SpecSymbol,
    pos: usize,
    path: Seq<SpecSymbol>,
    st: RdState,
    depth: usize,
)
    requires
        eps_alone(gr),
        pos <= toks.len() <= usize::MAX,
    ensures
        rd_sym(gr.productions, toks, x, pos, path, st, depth).0 matches Some((np, t)) ==> {
            &&& pos <= np <= toks.len()
            &&& x == SpecSymbol::Epsilon ==> np == pos
            &&& x != SpecSymbol::Epsilon ==> derives(gr, seq![x], span(toks, pos as int, np as int))
        },
    decreases 201 - depth, 2int, 0int,
{
    if depth <= MAX_DEPTH {
        match x {
            SpecSymbol::Terminal(t) => {
                if pos < toks.len() && toks[pos as int] == t {
                    assert(span(toks, pos as int, pos + 1) =~= seq![x]);
                    lemma_derives_refl(gr, seq![x]);
                }
            },
            SpecSymbol::Epsilon => {},
            SpecSymbol::NonTerminal(n) => {
                let alts = alternatives(gr.productions, x);
                lemma_alternatives(gr.productions, x);
                lemma_rd_alts_sound(gr, toks, x, alts, 0, pos, path.push(x), st, depth);
            },
        }
    }
}

/// What the search finds with the alternatives of a non-terminal is
/// derived from it.
pub proof fn lemma_rd_alts_sound(
    gr: SpecGrammar,
    toks: Seq<Seq<char>>,
    x: SpecSymbol,
    alts: Seq<SpecProduction>,
    idx: int,
    pos: usize,
    path: Seq<SpecSymbol>,
    st: RdState,
    depth: usize,
)
    requires
        eps_alone(gr),
        pos <= toks.len() <= usize::MAX,
        forall|j: int| 0 <= j < alts.len() ==> exists|k: int| 0 <= k < gr.productions.len() && gr.productions[k] == #[trigger] alts[j],
        forall|j: int| 0 <= j < alts.len() ==> (#[trigger] alts[j]).left == x,
    ensures
        rd_alts(gr.productions, toks, x, alts, idx, pos, path, st, depth).0 matches Some((np, t)) ==> {
            &&& pos <= np <= toks.len()
            &&& derives(gr, seq![x], span(toks, pos as int, np as int))
        },
    decreases 201 - depth, 1int, alts.len() - idx,
{
    if !(depth > MAX_DEPTH || idx < 0 || idx >= alts.len()) {
        let n = sym_text(x);
        let rhs = alts[idx].right;
        let tried = RdState {
            snaps: st.snaps.push(rd_snap(st.snaps, path, toks, pos, try_text(n, rhs, idx, alts.len() as int))),
            nid: st.nid,
        };
        let k = choose|k: int| 0 <= k < gr.productions.len() && gr.productions[k] == #[trigger] alts[idx];
        assert(gr.productions[k] == alts[idx]);
        assert forall|q: int| 0 <= q < rhs.len() && #[trigger] rhs[q] == SpecSymbol::Epsilon implies rhs.len() == 1 by {
            assert(gr.productions[k].right[q] == SpecSymbol::Epsilon);
        }
        lemma_rd_rhs_sound(gr, toks, rhs, 0, pos, path, tried, (depth + 1) as usize);
        let (res, after) = rd_rhs(gr.productions, toks, rhs, 0, pos, path, tried, (depth + 1) as usize);
        match res {
            Some((np, kids)) => {
                assert(rhs.skip(0) =~= rhs);
                if rhs == seq![SpecSymbol::Epsilon] {
                    assert(rhs_yield(rhs) =~= Seq::<SpecSymbol>::empty());
                    assert(span(toks, pos as int, np as int) =~= Seq::<SpecSymbol>::empty());
                    lemma_derives_refl(gr, rhs_yield(rhs));
                } else {
                    assert(rhs_yield(rhs) == rhs);
                }
                assert(seq![x].take(0) + rhs_yield(gr.productions[k].right) + seq![x].skip(1) =~= rhs_yield(rhs));
                assert(step_at(gr, seq![x], rhs_yield(rhs), 0, k));
                lemma_derives_step_then(gr, seq![x], rhs_yield(rhs), span(toks, pos as int, np as int));
            },
            None => {
                let saved = st.snaps.len();
                let kept = after.snaps.take(saved as int);
                let marked = kept.push(rd_snap(kept, path, toks, pos, backtrack_text(n, rhs, idx == alts.len() - 1)));
                lemma_rd_alts_sound(gr, toks, x, alts, idx + 1, pos, path, RdState { snaps: marked, nid: after.nid }, depth);
            },
        }
    }
}

/// What the search finds for the symbols of a right side from `i` on is
/// derived from them (nothing is read for `ϵ`).
pub proof fn lemma_rd_rhs_sound(
    gr: SpecGrammar,
    toks: Seq<Seq<char>>,
    rhs: Seq<SpecSymbol>,
    i: int,
    pos: usize,
    path: Seq<SpecSymbol>,
    st: RdState,
    depth: usize,
)
    requires
        eps_alone(gr),
        pos <= toks.len() <= usize::MAX,
        0 <= i <= rhs.len(),
        forall|q: int| 0 <= q < rhs.len() && #[trigger] rhs[q] == SpecSymbol::Epsilon ==> rhs.len() == 1,
    ensures
        rd_rhs(gr.productions, toks, rhs, i, pos, path, st, depth).0 matches Some((np, ts)) ==> {
            &&& pos <= np <= toks.len()
            &&& rhs == seq![SpecSymbol::Epsilon] ==> np == pos
            &&& rhs != seq![SpecSymbol::Epsilon] ==> derives(gr, rhs.skip(i), span(toks, pos as int, np as int))
        },
    decreases 201 - depth, 3int, rhs.len() - i,
{
    if i >= rhs.len() {
        assert(rhs.skip(i) =~= Seq::<SpecSymbol>::empty());
        assert(span(toks, pos as int, pos as int) =~= Seq::<SpecSymbol>::empty());
        lemma_derives_refl(gr, Seq::<SpecSymbol>::empty());
    } else {
        lemma_rd_sym_sound(gr, toks, rhs[i], pos, path, st, depth);
        let (r, s) = rd_sym(gr.productions, toks, rhs[i], pos, path, st, depth);
        if let Some((np, t)) = r {
            lemma_rd_rhs_sound(gr, toks, rhs, i + 1, np, path, s, depth);
            let (r2, s2) = rd_rhs(gr.productions, toks, rhs, i + 1, np, path, s, depth);
            if let Some((p2, ts)) = r2 {
                if rhs == seq![SpecSymbol::Epsilon] {
                    assert(rhs[i] == SpecSymbol::Epsilon);
                    assert(i + 1 >= rhs.len());
                } else {
                    if rhs[i] == SpecSymbol::Epsilon {
                        assert(rhs.len() == 1);
                        assert(rhs =~= seq![SpecSymbol::Epsilon]);
                    }
                    assert(seq![rhs[i]] + rhs.skip(i + 1) =~= rhs.skip(i));
                    assert(span(toks, pos as int, np as int) + span(toks, np as int, p2 as int) =~= span(toks, pos as int, p2 as int));
                    lemma_derives_concat(gr, seq![rhs[i]], span(toks, pos as int, np as int), rhs.skip(i + 1), span(toks, np as int, p2 as int));
                }
            }
        }
    }
}

/// A recursive-descent parse that accepts has found a derivation: the
/// tokens before the `$` at which it stops are derived from the start
/// symbol. (This needs `ϵ` to stand alone on a right side.)
pub proof fn rd_accept_derives_input(gr: SpecGrammar, input: Seq<String>)
    requires
        eps_alone(gr),
        gr.start != SpecSymbol::Epsilon,
        input.len() < usize::MAX,
    ensures
        rd_outcome(gr, input) is Ok ==> exists|k: int| 0 <= k <= input.len() && with_end_marker(input)[k] == "$"@
            && derives(gr, seq![gr.start], terminals_of(strs_view(input).take(k))),
{
    let toks = with_end_marker(input);
    let s0 = seq![SpecSnapshot { step: 0, stack: seq![gr.start], input_remaining: toks, action: "Start: expand "@ + sym_text(gr.start) }];
    lemma_rd_sym_sound(gr, toks, gr.start, 0, Seq::empty(), RdState { snaps: s0, nid: 0 }, 0);
    let (r, st) = rd_sym(gr.productions, toks, gr.start, 0, Seq::empty(), RdState { snaps: s0, nid: 0 }, 0);
    if let Some((p, t)) = r {
        if p < toks.len() && toks[p as int] == "$"@ {
            assert(toks.subrange(0, p as int) =~= strs_view(input).take(p as int));
        }
    }
}

/// Every non-terminal node of the tree has, as its children's labels, the
/// symbols of a right side of one of its productions (`ϵ` for an
/// ϵ-production); terminal and ϵ nodes are leaves.
pub open spec fn built_by(g: Seq<SpecProduction>, t: SpecTree) -> bool
    decreases t,
{
    &&& t.kind == "non_terminal"@ ==> exists|k: int| 0 <= k < g.len() && #[trigger] g[k].left == SpecSymbol::NonTerminal(t.label)
        && labels(t.children) == g[k].right.map_values(|x: SpecSymbol| sym_text(x))
    &&& t.kind != "non_terminal"@ ==> t.children.len() == 0
    &&& forall|j: int| 0 <= j < t.children.len() ==> built_by(g, #[trigger] t.children[j])
}

pub proof fn lemma_kinds_differ()
    ensures
        "terminal"@ != "non_terminal"@,
        "epsilon"@ != "non_terminal"@,
        "epsilon"@ != "terminal"@,
{
    reveal_strlit("terminal");
    reveal_strlit("non_terminal");
    reveal_strlit("epsilon");
    assert("terminal"@.len() != "non_terminal"@.len());
    assert("epsilon"@.len() != "non_terminal"@.len());
    assert("epsilon"@.len() != "terminal"@.len());
}

/// The tree the search finds for a symbol: its label is the symbol's, its
/// terminal leaves spell the tokens read, and it is built by productions.
proof fn lemma_rd_sym_tree(
    g: Seq<SpecProduction>,
    toks: Seq<Seq<char>>,
    x: SpecSymbol,
    pos: usize,
    path: Seq<SpecSymbol>,
    st: RdState,
    depth: usize,
)
    requires
        pos <= toks.len() <= usize::MAX,
    ensures
        rd_sym(g, toks, x, pos, path, st, depth).0 matches Some((np, t)) ==> {
            &&& pos <= np <= toks.len()
            &&& t.label == sym_text(x)
            &&& leaves(t) == toks.subrange(pos as int, np as int)
            &&& built_by(g, t)
        },
    decreases 201 - depth, 2int, 0int,
{
    lemma_kinds_differ();
    if depth <= MAX_DEPTH {
        match x {
            SpecSymbol::Terminal(tk) => {
                if pos < toks.len() && toks[pos as int] == tk {
                    let t = SpecTree { id: st.nid, label: tk, kind: "terminal"@, children: Seq::empty() };
                    assert(toks.subrange(pos as int, pos + 1) =~= seq![tk]);
                    assert(leaves(t) == seq![tk]);
                    assert(built_by(g, t));
                }
            },
            SpecSymbol::Epsilon => {
                let t = SpecTree { id: st.nid, label: "ϵ"@, kind: "epsilon"@, children: Seq::empty() };
                assert(leaves_all(t.children) =~= Seq::<Seq<char>>::empty());
                assert(leaves(t) =~= toks.subrange(pos as int, pos as int));
                assert(built_by(g, t));
            },
            SpecSymbol::NonTerminal(n) => {
                lemma_alternatives(g, x);
                lemma_rd_alts_tree(g, toks, x, alternatives(g, x), 0, pos, path.push(x), st, depth);
            },
        }
    }
}

proof fn lemma_rd_alts_tree(
    g: Seq<SpecProduction>,
    toks: Seq<Seq<char>>,
    x: SpecSymbol,
    alts: Seq<SpecProduction>,
    idx: int,
    pos: usize,
    path: Seq<SpecSymbol>,
    st: RdState,
    depth: usize,
)
    requires
        pos <= toks.len() <= usize::MAX,
        x is NonTerminal,
        forall|j: int| 0 <= j < alts.len() ==> exists|k: int| 0 <= k < g.len() && g[k] == #[trigger] alts[j],
        forall|j: int| 0 <= j < alts.len() ==> (#[trigger] alts[j]).left == x,
    ensures
        rd_alts(g, toks, x, alts, idx, pos, path, st, depth).0 matches Some((np, t)) ==> {
            &&& pos <= np <= toks.len()
            &&& t.label == sym_text(x)
            &&& leaves(t) == toks.subrange(pos as int, np as int)
            &&& built_by(g, t)
        },
    decreases 201 - depth, 1int, alts.len() - idx,
{
    lemma_kinds_differ();
    if !(depth > MAX_DEPTH || idx < 0 || idx >= alts.len()) {
        let n = sym_text(x);
        let rhs = alts[idx].right;
        let tried = RdState {
            snaps: st.snaps.push(rd_snap(st.snaps, path, toks, pos, try_text(n, rhs, idx, alts.len() as int))),
            nid: st.nid,
        };
        lemma_rd_rhs_tree(g, toks, rhs, 0, pos, path, tried, (depth + 1) as usize);
        let (res, after) = rd_rhs(g, toks, rhs, 0, pos, path, tried, (depth + 1) as usize);
        match res {
            Some((np, kids)) => {
                let t = SpecTree { id: after.nid, label: n, kind: "non_terminal"@, children: kids };
                let k = choose|k: int| 0 <= k < g.len() && g[k] == #[trigger] alts[idx];
                assert(rhs.skip(0) =~= rhs);
                assert(g[k].left == SpecSymbol::NonTerminal(t.label));
                assert(leaves(t) == leaves_all(kids));
            },
            None => {
                let saved = st.snaps.len();
                let kept = after.snaps.take(saved as int);
                let marked = kept.push(rd_snap(kept, path, toks, pos, backtrack_text(n, rhs, idx == alts.len() - 1)));
                lemma_rd_alts_tree(g, toks, x, alts, idx + 1, pos, path, RdState { snaps: marked, nid: after.nid }, depth);
            },
        }
    }
}

proof fn lemma_rd_rhs_tree(
    g: Seq<SpecProduction>,
    toks: Seq<Seq<char>>,
    rhs: Seq<SpecSymbol>,
    i: int,
    pos: usize,
    path: Seq<SpecSymbol>,
    st: RdState,
    depth: usize,
)
    requires
        pos <= toks.len() <= usize::MAX,
        0 <= i <= rhs.len(),
    ensures
        rd_rhs(g, toks, rhs, i, pos, path, st, depth).0 matches Some((np, ts)) ==> {
            &&& pos <= np <= toks.len()
            &&& labels(ts) == rhs.skip(i).map_values(|x: SpecSymbol| sym_text(x))
            &&& leaves_all(ts) == toks.subrange(pos as int, np as int)
            &&& forall|j: int| 0 <= j < ts.len() ==> built_by(g, #[trigger] ts[j])
        },
    decreases 201 - depth, 3int, rhs.len() - i,
{
    if i >= rhs.len() {
        assert(rhs.skip(i).map_values(|x: SpecSymbol| sym_text(x)) =~= Seq::<Seq<char>>::empty());
        assert(labels(Seq::<SpecTree>::empty()) =~= Seq::<Seq<char>>::empty());
        assert(toks.subrange(pos as int, pos as int) =~= Seq::<Seq<char>>::empty());
    } else {
        lemma_rd_sym_tree(g, toks, rhs[i], pos, path, st, depth);
        let (r, s) = rd_sym(g, toks, rhs[i], pos, path, st, depth);
        if let Some((np, t)) = r {
            lemma_rd_rhs_tree(g, toks, rhs, i + 1, np, path, s, depth);
            let (r2, s2) = rd_rhs(g, toks, rhs, i + 1, np, path, s, depth);
            if let Some((p2, ts)) = r2 {
                let all = seq![t] + ts;
                assert(all.subrange(1, all.len() as int) =~= ts);
                assert(all[0] == t);
                assert(leaves_all(all) == leaves(t) + leaves_all(ts));
                assert(toks.subrange(pos as int, np as int) + toks.subrange(np as int, p2 as int) =~= toks.subrange(pos as int, p2 as int));
                assert(rhs.skip(i).map_values(|x: SpecSymbol| sym_text(x)) =~= seq![sym_text(rhs[i])] + rhs.skip(i + 1).map_values(|x: SpecSymbol| sym_text(x)));
                assert(labels(all) =~= seq![t.label] + labels(ts));
                assert forall|j: int| 0 <= j < all.len() implies built_by(g, #[trigger] all[j]) by {
                    if j > 0 {
                        assert(all[j] == ts[j - 1]);
                    }
                }
            }
        }
    }
}

/// All the ids are at least `a` and below `b`.
pub open spec fn ids_within(xs: Seq<usize>, a: usize, b: usize) -> bool {
    forall|q: int| 0 <= q < xs.len() ==> a <= #[trigger] xs[q] < b
}

/// Two sequences of distinct ids with no id in common are distinct together.
proof fn lemma_ids_concat(xs: Seq<usize>, ys: Seq<usize>)
    requires
        xs.no_duplicates(),
        ys.no_duplicates(),
        forall|i: int, j: int| 0 <= i < xs.len() && 0 <= j < ys.len() ==> #[trigger] xs[i] != #[trigger] ys[j],
    ensures
        (xs + ys).no_duplicates(),
{
    let zs = xs + ys;
    assert forall|i: int, j: int| 0 <= i < zs.len() && 0 <= j < zs.len() && i != j implies zs[i] != zs[j] by {
        if i < xs.len() && j >= xs.len() {
            assert(zs[i] == xs[i] && zs[j] == ys[j - xs.len()]);
        } else if i >= xs.len() && j < xs.len() {
            assert(zs[j] == xs[j] && zs[i] == ys[i - xs.len()]);
        } else if i < xs.len() {
            assert(zs[i] == xs[i] && zs[j] == xs[j]);
        } else {
            assert(zs[i] == ys[i - xs.len()] && zs[j] == ys[j - xs.len()]);
        }
    }
}

/// The ids of the tree the search finds for a symbol are distinct, taken
/// from those it hands out, and each node's is above those beneath it.
proof fn lemma_rd_sym_ids(
    g: Seq<SpecProduction>,
    toks: Seq<Seq<char>>,
    x: SpecSymbol,
    pos: usize,
    path: Seq<SpecSymbol>,
    st: RdState,
    depth: usize,
)
    ensures
        rd_sym(g, toks, x, pos, path, st, depth).1.nid >= st.nid,
        rd_sym(g, toks, x, pos, path, st, depth).0 matches Some((np, t)) ==> {
            &&& ids(t).no_duplicates()
            &&& ids_within(ids(t), st.nid, rd_sym(g, toks, x, pos, path, st, depth).1.nid)
            &&& ids_above(t)
        },
    decreases 201 - depth, 2int, 0int,
{
    if depth <= MAX_DEPTH {
        match x {
            SpecSymbol::NonTerminal(n) => {
                lemma_rd_alts_ids(g, toks, x, alternatives(g, x), 0, pos, path.push(x), st, depth);
            },
            _ => {
                let t = SpecTree { id: st.nid, label: sym_text(x), kind: "terminal"@, children: Seq::empty() };
                assert(ids_all(Seq::<SpecTree>::empty()) =~= Seq::<usize>::empty());
                if let Some((np, t2)) = rd_sym(g, toks, x, pos, path, st, depth).0 {
                    assert(ids(t2) =~= seq![st.nid]);
                    assert(ids_above(t2));
                }
            },
        }
    }
}

proof fn lemma_rd_alts_ids(
    g: Seq<SpecProduction>,
    toks: Seq<Seq<char>>,
    x: SpecSymbol,
    alts: Seq<SpecProduction>,
    idx: int,
    pos: usize,
    path: Seq<SpecSymbol>,
    st: RdState,
    depth: usize,
)
    ensures
        rd_alts(g, toks, x, alts, idx, pos, path, st, depth).1.nid >= st.nid,
        rd_alts(g, toks, x, alts, idx, pos, path, st, depth).0 matches Some((np, t)) ==> {
            &&& ids(t).no_duplicates()
            &&& ids_within(ids(t), st.nid, rd_alts(g, toks, x, alts, idx, pos, path, st, depth).1.nid)
            &&& ids_above(t)
        },
    decreases 201 - depth, 1int, alts.len() - idx,
{
    if !(depth > MAX_DEPTH || idx < 0 || idx >= alts.len()) {
        let n = sym_text(x);
        let rhs = alts[idx].right;
        let tried = RdState {
            snaps: st.snaps.push(rd_snap(st.snaps, path, toks, pos, try_text(n, rhs, idx, alts.len() as int))),
            nid: st.nid,
        };
        lemma_rd_rhs_ids(g, toks, rhs, 0, pos, path, tried, (depth + 1) as usize);
        let (res, after) = rd_rhs(g, toks, rhs, 0, pos, path, tried, (depth + 1) as usize);
        match res {
            Some((np, kids)) => {
                if after.nid < usize::MAX {
                    let t = SpecTree { id: after.nid, label: n, kind: "non_terminal"@, children: kids };
                    let top = (after.nid + 1) as usize;
                    assert(ids(t) == seq![after.nid] + ids_all(kids));
                    assert(seq![after.nid].no_duplicates());
                    assert forall|i: int, j: int| 0 <= i < 1 && 0 <= j < ids_all(kids).len()
                        implies #[trigger] seq![after.nid][i] != #[trigger] ids_all(kids)[j] by {
                        assert(ids_all(kids)[j] < after.nid);
                    }
                    lemma_ids_concat(seq![after.nid], ids_all(kids));
                    assert(ids_within(ids(t), st.nid, top)) by {
                        assert forall|q: int| 0 <= q < ids(t).len() implies st.nid <= #[trigger] ids(t)[q] < top by {
                            if q > 0 {
                                assert(ids(t)[q] == ids_all(kids)[q - 1]);
                            }
                        }
                    }
                    assert(ids_above(t));
                }
            },
            None => {
                let saved = st.snaps.len();
                let kept = after.snaps.take(saved as int);
                let marked = kept.push(rd_snap(kept, path, toks, pos, backtrack_text(n, rhs, idx == alts.len() - 1)));
                lemma_rd_alts_ids(g, toks, x, alts, idx + 1, pos, path, RdState { snaps: marked, nid: after.nid }, depth);
            },
        }
    }
}

proof fn lemma_rd_rhs_ids(
    g: Seq<SpecProduction>,
    toks: Seq<Seq<char>>,
    rhs: Seq<SpecSymbol>,
    i: int,
    pos: usize,
    path: Seq<SpecSymbol>,
    st: RdState,
    depth: usize,
)
    ensures
        rd_rhs(g, toks, rhs, i, pos, path, st, depth).1.nid >= st.nid,
        rd_rhs(g, toks, rhs, i, pos, path, st, depth).0 matches Some((np, ts)) ==> {
            &&& ids_all(ts).no_duplicates()
            &&& ids_within(ids_all(ts), st.nid, rd_rhs(g, toks, rhs, i, pos, path, st, depth).1.nid)
            &&& forall|j: int| 0 <= j < ts.len() ==> ids_above(#[trigger] ts[j])
        },
    decreases 201 - depth, 3int, rhs.len() - i,
{
    if i < 0 || i >= rhs.len() {
        assert(ids_all(Seq::<SpecTree>::empty()) =~= Seq::<usize>::empty());
    } else {
        lemma_rd_sym_ids(g, toks, rhs[i], pos, path, st, depth);
        let (r, s) = rd_sym(g, toks, rhs[i], pos, path, st, depth);
        if let Some((np, t)) = r {
            lemma_rd_rhs_ids(g, toks, rhs, i + 1, np, path, s, depth);
            let (r2, s2) = rd_rhs(g, toks, rhs, i + 1, np, path, s, depth);
            if let Some((p2, ts)) = r2 {
                let all = seq![t] + ts;
                assert(all.subrange(1, all.len() as int) =~= ts);
                assert(all[0] == t);
                assert(ids_all(all) == ids(t) + ids_all(ts));
                assert forall|a: int, b: int| 0 <= a < ids(t).len() && 0 <= b < ids_all(ts).len()
                    implies #[trigger] ids(t)[a] != #[trigger] ids_all(ts)[b] by {
                    assert(ids(t)[a] < s.nid);
                    assert(s.nid <= ids_all(ts)[b]);
                }
                lemma_ids_concat(ids(t), ids_all(ts));
                assert forall|q: int| 0 <= q < ids_all(all).len() implies st.nid <= #[trigger] ids_all(all)[q] < s2.nid by {
                    if q < ids(t).len() {
                        assert(ids_all(all)[q] == ids(t)[q]);
                    } else {
                        assert(ids_all(all)[q] == ids_all(ts)[q - ids(t).len()]);
                    }
                }
                assert forall|j: int| 0 <= j < all.len() implies ids_above(#[trigger] all[j]) by {
                    if j > 0 {
                        assert(all[j] == ts[j - 1]);
                    }
                }
            }
        }
    }
}

/// The tree of a recursive-descent parse that accepts: its root is the
/// start symbol, its terminal leaves spell the input, left to right, and
/// each non-terminal node's children are labelled by the symbols of a right
/// side of one of its productions; its ids are distinct, and each node's id
/// is above the ids of the nodes beneath it. (This needs no token to be
/// `$`, and fewer tokens than the largest `usize`.)
pub proof fn rd_tree_spells_input(gr: SpecGrammar, input: Seq<String>)
    requires
        forall|j: int| 0 <= j < input.len() ==> (#[trigger] input[j])@ != "$"@,
        input.len() < usize::MAX,
    ensures
        rd_outcome(gr, input) matches Ok((_, t)) ==> {
            &&& t.label == sym_text(gr.start)
            &&& leaves(t) == strs_view(input)
            &&& built_by(gr.productions, t)
            &&& ids(t).no_duplicates()
            &&& ids_above(t)
        },
{
    let toks = with_end_marker(input);
    let s0 = seq![SpecSnapshot { step: 0, stack: seq![gr.start], input_remaining: toks, action: "Start: expand "@ + sym_text(gr.start) }];
    lemma_rd_sym_tree(gr.productions, toks, gr.start, 0, Seq::empty(), RdState { snaps: s0, nid: 0 }, 0);
    lemma_rd_sym_ids(gr.productions, toks, gr.start, 0, Seq::empty(), RdState { snaps: s0, nid: 0 }, 0);
    let (r, st) = rd_sym(gr.productions, toks, gr.start, 0, Seq::empty(), RdState { snaps: s0, nid: 0 }, 0);
    if let Some((p, t)) = r {
        if p < toks.len() && toks[p as int] == "$"@ {
            if p < input.len() {
                assert(toks[p as int] == input[p as int]@);
            }
            assert(toks.subrange(0, p as int) =~= strs_view(input));
        }
    }
}

/// Every production of `x` is among its alternatives.
proof fn lemma_alternatives_complete(g: Seq<SpecProduction>, x: SpecSymbol, i: int)
    requires
        0 <= i < g.len(),
        g[i].left == x,
    ensures
        exists|k: int| 0 <= k < alternatives(g, x).len() && alternatives(g, x)[k] == g[i],
    decreases g.len(),
{
    let a = alternatives(g.drop_last(), x);
    if i == g.len() - 1 {
        assert(alternatives(g, x)[a.len() as int] == g[i]);
    } else {
        assert(g.drop_last()[i] == g[i]);
        lemma_alternatives_complete(g.drop_last(), x, i);
        let k = choose|k: int| 0 <= k < a.len() && a[k] == g[i];
        if g.last().left == x {
            assert(alternatives(g, x) == a.push(g.last()));
            assert(alternatives(g, x)[k] == a[k]);
        } else {
            assert(alternatives(g, x) == a);
        }
        assert(alternatives(g, x)[k] == g[i]);
    }
}

/// Backtracking over alternatives that are single terminals goes on until
/// one of them matches: when some alternative from `idx` on is the token at
/// `pos`, the alternatives parse it.
proof fn lemma_rd_alts_single_terminals(
    g: Seq<SpecProduction>,
    toks: Seq<Seq<char>>,
    x: SpecSymbol,
    alts: Seq<SpecProduction>,
    idx: int,
    pos: usize,
    path: Seq<SpecSymbol>,
    st: RdState,
)
    requires
        0 <= idx,
        pos < toks.len(),
        pos + 1 <= usize::MAX,
        st.nid + 1 < usize::MAX,
        forall|k: int| 0 <= k < alts.len() ==> (#[trigger] alts[k]).right.len() == 1 && alts[k].right[0] is Terminal,
        exists|k: int| idx <= k < alts.len() && (#[trigger] alts[k]).right == seq![SpecSymbol::Terminal(toks[pos as int])],
    ensures
        rd_alts(g, toks, x, alts, idx, pos, path, st, 0).0 matches Some((np, _)) && np == pos + 1,
    decreases alts.len() - idx,
{
    let n = sym_text(x);
    let rhs = alts[idx].right;
    let tried = RdState {
        snaps: st.snaps.push(rd_snap(st.snaps, path, toks, pos, try_text(n, rhs, idx, alts.len() as int))),
        nid: st.nid,
    };
    let a = rhs[0]->Terminal_0;
    let (r, s) = rd_sym(g, toks, rhs[0], pos, path, tried, 1);
    if toks[pos as int] == a {
        assert(r is Some);
        let (r2, s2) = rd_rhs(g, toks, rhs, 1, (pos + 1) as usize, path, s, 1);
        assert(r2 is Some);
        assert(rd_rhs(g, toks, rhs, 0, pos, path, tried, 1).1.nid == st.nid + 1);
    } else {
        assert(r is None && s == tried);
        if alts[idx].right == seq![SpecSymbol::Terminal(toks[pos as int])] {
            assert(alts[idx].right[0] == SpecSymbol::Terminal(toks[pos as int]));
        }
        let (res, after) = rd_rhs(g, toks, rhs, 0, pos, path, tried, 1);
        assert(res is None && after == tried);
        let saved = st.snaps.len();
        let kept = after.snaps.take(saved as int);
        let marked = kept.push(rd_snap(kept, path, toks, pos, backtrack_text(n, rhs, idx == alts.len() - 1)));
        lemma_rd_alts_single_terminals(g, toks, x, alts, idx + 1, pos, path, RdState { snaps: marked, nid: after.nid });
    }
}

/// Backtracking is exhaustive: when every production of the start symbol
/// has a single terminal as its right side, the parse accepts each of those
/// terminals, whatever the order of the productions (all those before the
/// matching one are tried and backtracked first).
pub proof fn rd_accepts_each_single_terminal_alternative(gr: SpecGrammar, input: Seq<String>)
    requires
        gr.start is NonTerminal,
        input.len() == 1,
        forall|i: int| 0 <= i < gr.productions.len() && (#[trigger] gr.productions[i]).left == gr.start
            ==> gr.productions[i].right.len() == 1 && gr.productions[i].right[0] is Terminal,
        exists|i: int| 0 <= i < gr.productions.len() && (#[trigger] gr.productions[i]).left == gr.start
            && gr.productions[i].right == seq![SpecSymbol::Terminal(input[0]@)],
    ensures
        rd_outcome(gr, input) is Ok,
{
    let g = gr.productions;
    let toks = with_end_marker(input);
    let x = gr.start;
    let alts = alternatives(g, x);
    lemma_alternatives(g, x);
    let i = choose|i: int| 0 <= i < gr.productions.len() && (#[trigger] gr.productions[i]).left == gr.start
        && gr.productions[i].right == seq![SpecSymbol::Terminal(input[0]@)];
    lemma_alternatives_complete(g, x, i);
    let k = choose|k: int| 0 <= k < alts.len() && alts[k] == g[i];
    assert(toks[0] == input[0]@);
    assert(alts[k].right == seq![SpecSymbol::Terminal(toks[0])]);
    assert forall|q: int| 0 <= q < alts.len() implies (#[trigger] alts[q]).right.len() == 1 && alts[q].right[0] is Terminal by {
        let m = choose|m: int| 0 <= m < g.len() && g[m] == alts[q];
        assert(g[m].left == x);
    }
    let s0 = seq![SpecSnapshot { step: 0, stack: seq![gr.start], input_remaining: toks, action: "Start: expand "@ + sym_text(gr.start) }];
    let st = RdState { snaps: s0, nid: 0 };
    lemma_rd_alts_single_terminals(g, toks, x, alts, 0, 0, Seq::<SpecSymbol>::empty().push(x), st);
    assert(toks[1] == "$"@);
}

/// Numbers the steps of the snapshots from 0.
fn renumber(snapshots: &mut Vec<ParseSnapshot>)
    ensures
        views(final(snapshots)@) == renumbered(views(old(snapshots)@)),
{
    let ghost s0 = views(snapshots@);
    let mut i: usize = 0;
    while i < snapshots.len()
        invariant
            i <= snapshots@.len(),
            snapshots@.len() == s0.len(),
            forall|j: int| 0 <= j < i ==> #[trigger] views(snapshots@)[j] == renumbered(s0)[j],
            forall|j: int| i <= j < snapshots@.len() ==> #[trigger] views(snapshots@)[j] == s0[j],
        decreases snapshots.len() - i,
    {
        let ghost pre = snapshots@;
        let mut tmp = ParseSnapshot { step: 0, stack: Vec::new(), input_remaining: Vec::new(), action: String::new() };
        snapshots.set_and_swap(i, &mut tmp);
        assert(tmp == pre[i as int]);
        assert(views(pre)[i as int] == s0[i as int]);
        tmp.step = i;
        snapshots.set(i, tmp);
        assert(snapshots@ == pre.update(i as int, tmp));
        assert forall|j: int| 0 <= j < i + 1 implies #[trigger] views(snapshots@)[j] == renumbered(s0)[j] by {
            if j < i {
                assert(snapshots@[j] == pre[j]);
                assert(views(pre)[j] == renumbered(s0)[j]);
            } else {
                assert(snapshots@[j] == tmp);
            }
        }
        assert forall|j: int| i + 1 <= j < snapshots@.len() implies #[trigger] views(snapshots@)[j] == s0[j] by {
            assert(snapshots@[j] == pre[j]);
            assert(views(pre)[j] == s0[j]);
        }
        i += 1;
    }
    assert(views(snapshots@) =~= renumbered(s0));
}

/// A recursive-descent parser with backtracking; it refuses left-recursive
/// grammars.
#[derive(Debug)]
pub struct RecursiveDescentParser {
    pub grammar: Grammar,
}

impl RecursiveDescentParser {
    /// Accepts the grammar unless it is left-recursive.
    pub fn new(grammar: Grammar) -> (r: Result<Self, String>)
        ensures
            match r {
                Ok(p) => !left_recursive(grammar@) && p.grammar@ == grammar@,
                Err(e) => left_recursive(grammar@)
                    && e@ == "Recursive Descent cannot parse left-recursive grammars. Remove or transform left recursion first."@,
            },
    {
        if grammar.is_left_recursive() {
            return Err(String::from_str("Recursive Descent cannot parse left-recursive grammars. Remove or transform left recursion first."));
        }
        Ok(RecursiveDescentParser { grammar })
    }

    /// Runs the parse and builds the tree, as `rd_outcome` says.
    fn run(&self, input: Vec<String>) -> (r: Result<(Vec<ParseSnapshot>, ParseTreeNode), String>)
        ensures
            match r {
                Ok((v, t)) => rd_outcome(self.grammar@, input@) == Ok::<(Seq<SpecSnapshot>, SpecTree), Seq<char>>((views(v@), t@)),
                Err(e) => rd_outcome(self.grammar@, input@) == Err::<(Seq<SpecSnapshot>, SpecTree), Seq<char>>(e@),
            },
    {
        let ghost g = self.grammar@;
        let mut tokens = input;
        let ghost toks = with_end_marker(tokens@);
        tokens.push(String::from_str("$"));
        assert(strs_view(tokens@) =~= toks);
        let start = self.grammar.start_symbol.copy();
        let mut call_path: Vec<Symbol> = Vec::new();
        let mut snapshots: Vec<ParseSnapshot> = Vec::new();
        let mut first_stack: Vec<Symbol> = Vec::new();
        first_stack.push(start.copy());
        let t = start.to_text();
        let first = ParseSnapshot { step: 0, stack: first_stack, input_remaining: copy_strings(&tokens), action: concat("Start: expand ", t.as_str()) };
        push_snapshot(&mut snapshots, first);
        assert(views(snapshots@) =~= seq![SpecSnapshot { step: 0, stack: seq![g.start], input_remaining: toks, action: "Start: expand "@ + sym_text(g.start) }]) by {
            assert(syms_view(first.stack@) =~= seq![g.start]);
        }
        assert(syms_view(call_path@) =~= Seq::<SpecSymbol>::empty());
        let mut nid: usize = 0;
        match try_symbol(&self.grammar.productions, &start, &tokens, 0, &mut call_path, &mut snapshots, &mut nid, 0) {
            Some((pos, tree)) => {
                if pos < tokens.len() && tokens[pos] == String::from_str("$") {
                    assert(toks[pos as int] == tokens@[pos as int]@);
                    let step = snapshots.len();
                    let mut dollar: Vec<String> = Vec::new();
                    dollar.push(String::from_str("$"));
                    let accept = ParseSnapshot { step, stack: Vec::new(), input_remaining: dollar, action: String::from_str("Accept! ✓") };
                    assert(syms_view(accept.stack@) =~= Seq::<SpecSymbol>::empty());
                    assert(strs_view(accept.input_remaining@) =~= seq!["$"@]);
                    push_snapshot(&mut snapshots, accept);
                    renumber(&mut snapshots);
                    Ok((snapshots, tree))
                } else if pos < tokens.len() {
                    assert(toks[pos as int] == tokens@[pos as int]@);
                    let mut msg = concat("Syntax Error: Unexpected '", tokens[pos].as_str());
                    msg.append("' — input not fully consumed");
                    Err(msg)
                } else {
                    Err(String::from_str("Syntax Error: Input does not match grammar."))
                }
            },
            None => Err(String::from_str("Syntax Error: Input does not match grammar.")),
        }
    }

    /// Parses the tokens, returning the steps of the successful path with
    /// the backtrack steps (see `rd_outcome`).
    pub fn parse_input(&self, input: Vec<String>) -> (r: Result<Vec<ParseSnapshot>, String>)
        ensures
            match r {
                Ok(v) => rd_snapshots(self.grammar@, input@) == Ok::<Seq<SpecSnapshot>, Seq<char>>(views(v@)),
                Err(e) => rd_snapshots(self.grammar@, input@) == Err::<Seq<SpecSnapshot>, Seq<char>>(e@),
            },
    {
        match self.run(input) {
            Ok((v, _)) => Ok(v),
            Err(e) => Err(e),
        }
    }

    /// The parse of `parse_input`, with the parse tree: a leaf for each
    /// matched token or ϵ, a node for each expanded non-terminal.
    pub fn parse_input_with_tree(&self, input: Vec<String>) -> (r: Result<(Vec<ParseSnapshot>, ParseTreeNode), String>)
        ensures
            match r {
                Ok((v, t)) => rd_outcome(self.grammar@, input@) == Ok::<(Seq<SpecSnapshot>, SpecTree), Seq<char>>((views(v@), t@)),
                Err(e) => rd_outcome(self.grammar@, input@) == Err::<(Seq<SpecSnapshot>, SpecTree), Seq<char>>(e@),
            },
    {
        self.run(input)
    }
}

} // verus!
