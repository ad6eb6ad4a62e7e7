//! LL(1) analysis: FIRST and FOLLOW sets, the predictive parsing table, and a
//! table-driven parse that records each step.

use vstd::prelude::*;
use crate::derivation::{derives, derivation_of, step_at, rhs_yield, terminals_of, rev, eps_alone, lemma_derivation_extend, lemma_rev_concat};
use crate::collections::{VecSet, VecMap, Keyed, views};
use crate::symbols::{
    Symbol, SpecSymbol, Production, SpecProduction, Grammar, SpecGrammar, ParseSnapshot, SpecSnapshot,
    syms_view, strs_view, sym_text, copy_symbols, same_symbols, copy_strings_from,
};
use crate::text::concat;
use crate::parser::Parser;

verus! {

/// A relation between symbols: `(x, y)` holds when `y` is in the set of `x`.
pub type SymRel = Set<(SpecSymbol, SpecSymbol)>;

/// Whether `y` is in FIRST of the sequence `s`, given the FIRST sets of
/// single symbols in `r` (ϵ stands for "may derive the empty string").
pub open spec fn in_seq_first(s: Seq<SpecSymbol>, r: SymRel, y: SpecSymbol) -> bool
    decreases s.len(),
{
    if s.len() == 0 {
        y == SpecSymbol::Epsilon
    } else if r.contains((s[0], SpecSymbol::Epsilon)) {
        (y != SpecSymbol::Epsilon && r.contains((s[0], y))) || in_seq_first(s.drop_first(), r, y)
    } else {
        y != SpecSymbol::Epsilon && r.contains((s[0], y))
    }
}

/// `x` occurs on some right side.
pub open spec fn in_rhs(g: SpecGrammar, x: SpecSymbol) -> bool {
    exists|i: int, k: int|
        0 <= i < g.productions.len() && 0 <= k < g.productions[i].right.len()
            && #[trigger] g.productions[i].right[k] == x
}

/// `x` is the left side of some production.
pub open spec fn is_lhs(g: SpecGrammar, x: SpecSymbol) -> bool {
    exists|i: int| 0 <= i < g.productions.len() && #[trigger] g.productions[i].left == x
}

/// The pairs every FIRST relation starts from: `ϵ ∈ FIRST(ϵ)` and
/// `t ∈ FIRST(t)` for the terminals of the grammar.
pub open spec fn first_base(g: SpecGrammar, x: SpecSymbol, y: SpecSymbol) -> bool {
    ||| (x == SpecSymbol::Epsilon && y == SpecSymbol::Epsilon && g.productions.len() > 0)
    ||| (x is Terminal && y == x && in_rhs(g, x))
}

pub open spec fn holds_first_base(g: SpecGrammar, r: SymRel) -> bool {
    forall|x: SpecSymbol, y: SpecSymbol| first_base(g, x, y) ==> #[trigger] r.contains((x, y))
}

/// For every production `A -> α`, FIRST(α) ⊆ FIRST(A).
pub open spec fn first_closed(g: SpecGrammar, r: SymRel) -> bool {
    forall|i: int, y: SpecSymbol|
        0 <= i < g.productions.len() && #[trigger] in_seq_first(g.productions[i].right, r, y)
            ==> r.contains((g.productions[i].left, y))
}

/// `r` is the least relation that holds the base pairs and is closed.
pub open spec fn is_first_relation(g: SpecGrammar, r: SymRel) -> bool {
    &&& holds_first_base(g, r)
    &&& first_closed(g, r)
    &&& forall|r2: SymRel|
        #![trigger first_closed(g, r2)]
        holds_first_base(g, r2) && first_closed(g, r2) ==> r.subset_of(r2)
}

/// The FIRST relation of the grammar.
pub open spec fn first_relation(g: SpecGrammar) -> SymRel {
    choose|r: SymRel| is_first_relation(g, r)
}

/// The symbols that have a FIRST set: ϵ, the terminals on right sides, and
/// the left sides.
pub open spec fn first_key(g: SpecGrammar, x: SpecSymbol) -> bool {
    ||| (x == SpecSymbol::Epsilon && g.productions.len() > 0)
    ||| (x is Terminal && in_rhs(g, x))
    ||| is_lhs(g, x)
}

/// The end-of-input marker `$`.
pub open spec fn dollar() -> SpecSymbol {
    SpecSymbol::Terminal("$"@)
}

/// `$ ∈ FOLLOW(start)`.
pub open spec fn follow_base(g: SpecGrammar, x: SpecSymbol, y: SpecSymbol) -> bool {
    x == g.start && y == dollar()
}

pub open spec fn holds_follow_base(g: SpecGrammar, r: SymRel) -> bool {
    forall|x: SpecSymbol, y: SpecSymbol| follow_base(g, x, y) ==> #[trigger] r.contains((x, y))
}

/// The FOLLOW rule at position `k` of production `i`: when `B` there is a
/// non-terminal of `A -> α B β`, FIRST(β) \ {ϵ} ⊆ FOLLOW(B), and
/// FOLLOW(A) ⊆ FOLLOW(B) when ϵ ∈ FIRST(β).
pub open spec fn follow_ok_at(g: SpecGrammar, f: SymRel, r: SymRel, i: int, k: int) -> bool {
    let p = g.productions[i];
    p.right[k] is NonTerminal ==> forall|y: SpecSymbol|
        #![trigger r.contains((p.right[k], y))]
        {
            &&& (y != SpecSymbol::Epsilon && in_seq_first(p.right.skip(k + 1), f, y)) ==> r.contains((p.right[k], y))
            &&& (in_seq_first(p.right.skip(k + 1), f, SpecSymbol::Epsilon) && r.contains((p.left, y)))
                ==> r.contains((p.right[k], y))
        }
}

/// The FOLLOW rule holds at every position of every production.
pub open spec fn follow_closed(g: SpecGrammar, f: SymRel, r: SymRel) -> bool {
    forall|i: int, k: int|
        0 <= i < g.productions.len() && 0 <= k < g.productions[i].right.len() ==> #[trigger] follow_ok_at(g, f, r, i, k)
}

pub open spec fn is_follow_relation(g: SpecGrammar, f: SymRel, r: SymRel) -> bool {
    &&& holds_follow_base(g, r)
    &&& follow_closed(g, f, r)
    &&& forall|r2: SymRel|
        #![trigger follow_closed(g, f, r2)]
        holds_follow_base(g, r2) && follow_closed(g, f, r2) ==> r.subset_of(r2)
}

/// The FOLLOW relation of the grammar, given its FIRST relation `f`.
pub open spec fn follow_relation(g: SpecGrammar, f: SymRel) -> SymRel {
    choose|r: SymRel| is_follow_relation(g, f, r)
}

/// The symbols that have a FOLLOW set: the start symbol and the
/// non-terminals on right sides.
pub open spec fn follow_key(g: SpecGrammar, x: SpecSymbol) -> bool {
    x == g.start || (x is NonTerminal && in_rhs(g, x))
}

pub proof fn lemma_seq_first_mono(s: Seq<SpecSymbol>, r1: SymRel, r2: SymRel, y: SpecSymbol)
    requires
        r1.subset_of(r2),
        in_seq_first(s, r1, y),
    ensures
        in_seq_first(s, r2, y),
    decreases s.len(),
{
    if s.len() > 0 {
        if r1.contains((s[0], SpecSymbol::Epsilon)) {
            if !(y != SpecSymbol::Epsilon && r1.contains((s[0], y))) {
                lemma_seq_first_mono(s.drop_first(), r1, r2, y);
            }
        }
    }
}

pub proof fn lemma_seq_first_unfold(s: Seq<SpecSymbol>, k: int, r: SymRel, y: SpecSymbol)
    requires
        0 <= k < s.len(),
    ensures
        in_seq_first(s.skip(k), r, y) == if r.contains((s[k], SpecSymbol::Epsilon)) {
            (y != SpecSymbol::Epsilon && r.contains((s[k], y))) || in_seq_first(s.skip(k + 1), r, y)
        } else {
            y != SpecSymbol::Epsilon && r.contains((s[k], y))
        },
{
    assert(s.skip(k)[0] == s[k]);
    assert(s.skip(k).drop_first() =~= s.skip(k + 1));
}

pub proof fn lemma_first_relation(g: SpecGrammar, r: SymRel)
    requires
        is_first_relation(g, r),
    ensures
        first_relation(g) == r,
{
    let c = first_relation(g);
    assert(is_first_relation(g, c));
    assert(c.subset_of(r));
    assert(r.subset_of(c));
    assert(c =~= r);
}

/// The least FIRST relation exists.
pub proof fn lemma_first_relation_exists(g: SpecGrammar)
    ensures
        is_first_relation(g, first_relation(g)),
{
    let r = Set::new(|p: (SpecSymbol, SpecSymbol)| forall|r2: SymRel| #![trigger first_closed(g, r2)]
        holds_first_base(g, r2) && first_closed(g, r2) ==> r2.contains(p));
    assert forall|r2: SymRel| #![trigger first_closed(g, r2)] holds_first_base(g, r2) && first_closed(g, r2)
        implies r.subset_of(r2) by {}
    assert(holds_first_base(g, r));
    assert forall|i: int, y: SpecSymbol|
        0 <= i < g.productions.len() && #[trigger] in_seq_first(g.productions[i].right, r, y)
        implies r.contains((g.productions[i].left, y)) by {
        assert forall|r2: SymRel| #![trigger first_closed(g, r2)] holds_first_base(g, r2) && first_closed(g, r2)
            implies r2.contains((g.productions[i].left, y)) by {
            assert(r.subset_of(r2));
            lemma_seq_first_mono(g.productions[i].right, r, r2, y);
        }
    }
    assert(is_first_relation(g, r));
}

pub proof fn lemma_follow_relation(g: SpecGrammar, f: SymRel, r: SymRel)
    requires
        is_follow_relation(g, f, r),
    ensures
        follow_relation(g, f) == r,
{
    let c = follow_relation(g, f);
    assert(is_follow_relation(g, f, c));
    assert(c.subset_of(r));
    assert(r.subset_of(c));
    assert(c =~= r);
}

/// The symbols `y` with `(x, y)` in the relation `rel`, added to `out`;
/// returns whether `(x, ϵ)` is in `rel`.
fn collect_related(rel: &VecSet<(Symbol, Symbol)>, x: &Symbol, out: &mut VecSet<Symbol>, skip_eps: bool) -> (has_eps: bool)
    requires
        old(out).wf(),
    ensures
        final(out).wf(),
        has_eps == rel@.contains((x@, SpecSymbol::Epsilon)),
        forall|y: SpecSymbol| #[trigger] final(out)@.contains(y) <==> (old(out)@.contains(y) || (
            rel@.contains((x@, y)) && !(skip_eps && y == SpecSymbol::Epsilon))),
{
    let mut has_eps = false;
    let mut m: usize = 0;
    while m < rel.items.len()
        invariant
            out.wf(),
            m <= rel.items@.len(),
            has_eps == exists|q: int| 0 <= q < m && rel@[q] == (x@, SpecSymbol::Epsilon),
            forall|y: SpecSymbol| #[trigger] out@.contains(y) <==> (old(out)@.contains(y) || exists|q: int|
                0 <= q < m && rel@[q] == (x@, y) && !(skip_eps && y == SpecSymbol::Epsilon)),
        decreases rel.items.len() - m,
    {
        let pair = &rel.items[m];
        assert(rel@[m as int] == (pair.0@, pair.1@));
        let ghost before = out@;
        if pair.0.same(x) {
            if pair.1.is_epsilon() {
                has_eps = true;
            }
            if !(skip_eps && pair.1.is_epsilon()) {
                let y0 = pair.1.copy();
                out.insert(y0);
            }
        }
        assert forall|y: SpecSymbol| #[trigger] out@.contains(y) <==> (old(out)@.contains(y) || exists|q: int|
            0 <= q < m + 1 && rel@[q] == (x@, y) && !(skip_eps && y == SpecSymbol::Epsilon)) by {
            lemma_seq_push_contains(before, pair.1@, y);
            if exists|q: int| 0 <= q < m + 1 && rel@[q] == (x@, y) && !(skip_eps && y == SpecSymbol::Epsilon) {
                let q = choose|q: int| 0 <= q < m + 1 && rel@[q] == (x@, y) && !(skip_eps && y == SpecSymbol::Epsilon);
                if q < m {
                    assert(exists|q2: int| 0 <= q2 < m && rel@[q2] == (x@, y) && !(skip_eps && y == SpecSymbol::Epsilon));
                }
            }
        }
        m += 1;
    }
    has_eps
}

pub proof fn lemma_seq_push_contains<A>(s: Seq<A>, x: A, y: A)
    ensures
        s.push(x).contains(y) <==> (s.contains(y) || y == x),
{
    if s.contains(y) {
        let k = choose|k: int| 0 <= k < s.len() && s[k] == y;
        assert(s.push(x)[k] == y);
    }
    if y == x {
        assert(s.push(x)[s.len() as int] == y);
    }
    if s.push(x).contains(y) {
        let k = choose|k: int| 0 <= k < s.push(x).len() && s.push(x)[k] == y;
        if k < s.len() {
            assert(s[k] == y);
        }
    }
}

/// What is known of FIRST(s[start..]) after the symbols before `k` are read.
pub open spec fn seq_first_progress(sv: Seq<SpecSymbol>, start: int, r: SymRel, out: Seq<SpecSymbol>, k: int) -> bool {
    forall|y: SpecSymbol| y != SpecSymbol::Epsilon ==> (in_seq_first(sv.skip(start), r, y) <==> (
        #[trigger] out.contains(y) || in_seq_first(sv.skip(k), r, y)))
}

/// FIRST of `s[start..]`, given the FIRST sets of single symbols in `rel`.
fn first_of_seq(rel: &VecSet<(Symbol, Symbol)>, s: &Vec<Symbol>, start: usize) -> (out: VecSet<Symbol>)
    requires
        start <= s@.len(),
    ensures
        out.wf(),
        forall|y: SpecSymbol| #[trigger] out@.contains(y) <==> in_seq_first(syms_view(s@).skip(start as int), rel@.to_set(), y),
{
    let ghost sv = syms_view(s@);
    let ghost r = rel@.to_set();
    let mut out: VecSet<Symbol> = VecSet::new();
    let mut k = start;
    while k < s.len()
        invariant
            sv == syms_view(s@),
            r == rel@.to_set(),
            start <= k <= s@.len(),
            out.wf(),
            !out@.contains(SpecSymbol::Epsilon),
            seq_first_progress(sv, start as int, r, out@, k as int),
            in_seq_first(sv.skip(start as int), r, SpecSymbol::Epsilon) <==> in_seq_first(sv.skip(k as int), r, SpecSymbol::Epsilon),
        decreases s.len() - k,
    {
        assert(sv[k as int] == s@[k as int]@);
        let ghost before = out@;
        let has_eps = collect_related(rel, &s[k], &mut out, true);
        proof {
            assert forall|y: SpecSymbol| #[trigger] in_seq_first(sv.skip(k as int), r, y) == if r.contains((sv[k as int], SpecSymbol::Epsilon)) {
                (y != SpecSymbol::Epsilon && r.contains((sv[k as int], y))) || in_seq_first(sv.skip(k + 1), r, y)
            } else {
                y != SpecSymbol::Epsilon && r.contains((sv[k as int], y))
            } by {
                lemma_seq_first_unfold(sv, k as int, r, y);
            }
        }
        if !has_eps {
            assert forall|y: SpecSymbol| #[trigger] out@.contains(y) <==> in_seq_first(sv.skip(start as int), r, y) by {
                if y != SpecSymbol::Epsilon {
                    assert(in_seq_first(sv.skip(k as int), r, y) == r.contains((sv[k as int], y)));
                }
            }
            return out;
        }
        assert forall|y: SpecSymbol| y != SpecSymbol::Epsilon implies (in_seq_first(sv.skip(start as int), r, y) <==> (
            #[trigger] out@.contains(y) || in_seq_first(sv.skip(k + 1), r, y))) by {
            assert(r.contains((sv[k as int], SpecSymbol::Epsilon)));
            assert(out@.contains(y) <==> (before.contains(y) || rel@.contains((sv[k as int], y))));
            assert(rel@.contains((sv[k as int], y)) == r.contains((sv[k as int], y)));
        }
        assert(seq_first_progress(sv, start as int, r, out@, k + 1));
        k += 1;
    }
    assert(sv.skip(k as int).len() == 0);
    let ghost before = out@;
    out.insert(Symbol::Epsilon);
    assert forall|y: SpecSymbol| #[trigger] out@.contains(y) <==> in_seq_first(sv.skip(start as int), r, y) by {
        lemma_seq_push_contains(before, SpecSymbol::Epsilon, y);
    }
    out
}


/// The base pairs of the FIRST relation.
fn first_base_pairs(g: &Grammar) -> (rel: VecSet<(Symbol, Symbol)>)
    ensures
        rel.wf(),
        holds_first_base(g@, rel@.to_set()),
        forall|e: (SpecSymbol, SpecSymbol)| #[trigger] rel@.contains(e) ==> first_base(g@, e.0, e.1),
{
    let ghost gv = g@;
    let mut rel: VecSet<(Symbol, Symbol)> = VecSet::new();
    if g.productions.len() > 0 {
        rel.insert((Symbol::Epsilon, Symbol::Epsilon));
        assert(rel@[0] == (SpecSymbol::Epsilon, SpecSymbol::Epsilon));
    }
    let mut i: usize = 0;
    while i < g.productions.len()
        invariant
            gv == g@,
            rel.wf(),
            i <= g.productions@.len(),
            g.productions@.len() > 0 ==> rel@.contains((SpecSymbol::Epsilon, SpecSymbol::Epsilon)),
            forall|e: (SpecSymbol, SpecSymbol)| #[trigger] rel@.contains(e) ==> first_base(gv, e.0, e.1),
            forall|i2: int, k2: int|
                0 <= i2 < i && 0 <= k2 < gv.productions[i2].right.len() && (#[trigger] gv.productions[i2].right[k2]) is Terminal
                    ==> rel@.contains((gv.productions[i2].right[k2], gv.productions[i2].right[k2])),
        decreases g.productions.len() - i,
    {
        let p = &g.productions[i];
        assert(gv.productions[i as int] == p@);
        let mut k: usize = 0;
        while k < p.right.len()
            invariant
                gv == g@,
                rel.wf(),
                i < g.productions@.len(),
                gv.productions[i as int] == p@,
                k <= p.right@.len(),
                g.productions@.len() > 0 ==> rel@.contains((SpecSymbol::Epsilon, SpecSymbol::Epsilon)),
                forall|e: (SpecSymbol, SpecSymbol)| #[trigger] rel@.contains(e) ==> first_base(gv, e.0, e.1),
                forall|i2: int, k2: int|
                    0 <= i2 < i && 0 <= k2 < gv.productions[i2].right.len() && (#[trigger] gv.productions[i2].right[k2]) is Terminal
                        ==> rel@.contains((gv.productions[i2].right[k2], gv.productions[i2].right[k2])),
                forall|k2: int|
                    0 <= k2 < k && (#[trigger] p@.right[k2]) is Terminal ==> rel@.contains((p@.right[k2], p@.right[k2])),
            decreases p.right.len() - k,
        {
            assert(p@.right[k as int] == p.right@[k as int]@);
            let ghost before = rel@;
            if p.right[k].is_terminal() {
                assert(in_rhs(gv, p@.right[k as int]));
                rel.insert((p.right[k].copy(), p.right[k].copy()));
            }
            assert forall|e: (SpecSymbol, SpecSymbol)| #[trigger] rel@.contains(e) implies first_base(gv, e.0, e.1) by {
                lemma_seq_push_contains(before, (p@.right[k as int], p@.right[k as int]), e);
            }
            assert forall|e: (SpecSymbol, SpecSymbol)| before.contains(e) implies #[trigger] rel@.contains(e) by {
                lemma_seq_push_contains(before, (p@.right[k as int], p@.right[k as int]), e);
            }
            proof {
                if p@.right[k as int] is Terminal {
                    lemma_seq_push_contains(before, (p@.right[k as int], p@.right[k as int]), (p@.right[k as int], p@.right[k as int]));
                }
            }
            k += 1;
        }
        i += 1;
    }
    assert forall|x: SpecSymbol, y: SpecSymbol| first_base(gv, x, y) implies #[trigger] rel@.to_set().contains((x, y)) by {
        if x is Terminal && y == x && in_rhs(gv, x) {
            let (i2, k2) = choose|i2: int, k2: int|
                0 <= i2 < gv.productions.len() && 0 <= k2 < gv.productions[i2].right.len()
                    && #[trigger] gv.productions[i2].right[k2] == x;
        }
    }
    rel
}

/// Every pair of `rel` lies in every closed relation that holds the base.
pub open spec fn first_sound(g: SpecGrammar, rel: Seq<(SpecSymbol, SpecSymbol)>) -> bool {
    forall|r2: SymRel|
        #![trigger first_closed(g, r2)]
        holds_first_base(g, r2) && first_closed(g, r2) ==> rel.to_set().subset_of(r2)
}

/// The FIRST relation of the grammar, by iteration to a fixed point.
pub(crate) fn first_pairs(g: &Grammar) -> (rel: VecSet<(Symbol, Symbol)>)
    ensures
        rel.wf(),
        is_first_relation(g@, rel@.to_set()),
{
    let ghost gv = g@;
    let mut rel = first_base_pairs(g);
    assert(first_sound(gv, rel@)) by {
        assert forall|r2: SymRel| #![trigger first_closed(gv, r2)] holds_first_base(gv, r2) && first_closed(gv, r2) implies rel@.to_set().subset_of(r2) by {
            assert forall|e: (SpecSymbol, SpecSymbol)| rel@.to_set().contains(e) implies r2.contains(e) by {
                assert(first_base(gv, e.0, e.1));
            }
        }
    }
    let mut changed = true;
    while changed
        invariant
            gv == g@,
            rel.wf(),
            holds_first_base(gv, rel@.to_set()),
            first_sound(gv, rel@),
            !changed ==> first_closed(gv, rel@.to_set()),
        decreases 2 * (usize::MAX - rel@.len()) + (if changed { 1int } else { 0int }),
    {
        changed = false;
        let ghost start = rel@;
        assert(rel@.len() == rel.items.len());
        let mut j: usize = 0;
        while j < g.productions.len()
            invariant
                gv == g@,
                rel.wf(),
                j <= g.productions@.len(),
                first_sound(gv, rel@),
                start.len() <= rel@.len() <= usize::MAX,
                forall|e: (SpecSymbol, SpecSymbol)| start.contains(e) ==> #[trigger] rel@.contains(e),
                changed ==> rel@.len() > start.len(),
                !changed ==> rel@ == start,
                !changed ==> forall|i: int, y: SpecSymbol|
                    0 <= i < j && #[trigger] in_seq_first(gv.productions[i].right, rel@.to_set(), y)
                        ==> rel@.to_set().contains((gv.productions[i].left, y)),
            decreases g.productions.len() - j,
        {
            let p = &g.productions[j];
            assert(gv.productions[j as int] == p@);
            let fs = first_of_seq(&rel, &p.right, 0);
            assert(syms_view(p.right@).skip(0) =~= p@.right);
            let ghost at = rel@;
            let mut m: usize = 0;
            while m < fs.items.len()
                invariant
                    gv == g@,
                    rel.wf(),
                    j < gv.productions.len(),
                    gv.productions[j as int] == p@,
                    m <= fs@.len(),
                    forall|y: SpecSymbol| #[trigger] fs@.contains(y) <==> in_seq_first(p@.right, at.to_set(), y),
                    first_sound(gv, at),
                    first_sound(gv, rel@),
                    at.len() <= rel@.len() <= usize::MAX,
                    forall|e: (SpecSymbol, SpecSymbol)| at.contains(e) ==> #[trigger] rel@.contains(e),
                    start.len() <= at.len(),
                    forall|e: (SpecSymbol, SpecSymbol)| start.contains(e) ==> #[trigger] at.contains(e),
                    changed ==> rel@.len() > start.len(),
                    !changed ==> rel@ == start,
                    !changed ==> at == start,
                    forall|m2: int| 0 <= m2 < m ==> rel@.contains((p@.left, #[trigger] fs@[m2])),
                decreases fs.items.len() - m,
            {
                let y = &fs.items[m];
                assert(fs@[m as int] == y@);
                assert(fs@.contains(y@));
                let ghost before = rel@;
                let e = (p.left.copy(), y.copy());
                if rel.insert(e) {
                    changed = true;
                }
                assert forall|e2: (SpecSymbol, SpecSymbol)| before.contains(e2) implies #[trigger] rel@.contains(e2) by {
                    lemma_seq_push_contains(before, (p@.left, y@), e2);
                }
                assert(first_sound(gv, rel@)) by {
                    assert forall|r2: SymRel| #![trigger first_closed(gv, r2)] holds_first_base(gv, r2) && first_closed(gv, r2) implies rel@.to_set().subset_of(r2) by {
                        assert forall|e2: (SpecSymbol, SpecSymbol)| rel@.to_set().contains(e2) implies r2.contains(e2) by {
                            lemma_seq_push_contains(before, (p@.left, y@), e2);
                            if e2 == (p@.left, y@) {
                                assert(at.to_set().subset_of(r2));
                                lemma_seq_first_mono(p@.right, at.to_set(), r2, y@);
                                assert(in_seq_first(gv.productions[j as int].right, r2, y@));
                            } else {
                                assert(before.to_set().subset_of(r2));
                            }
                        }
                    }
                }
                assert(rel@.contains((p@.left, y@))) by {
                    lemma_seq_push_contains(before, (p@.left, y@), (p@.left, y@));
                }
                assert(rel@.len() == rel.items.len());
                m += 1;
            }
            assert forall|i: int, y: SpecSymbol|
                !changed && 0 <= i < j + 1 && #[trigger] in_seq_first(gv.productions[i].right, rel@.to_set(), y)
                    implies rel@.to_set().contains((gv.productions[i].left, y)) by {
                if i == j {
                    assert(fs@.contains(y));
                    let m2 = choose|m2: int| 0 <= m2 < fs@.len() && fs@[m2] == y;
                    assert(rel@.contains((p@.left, fs@[m2])));
                }
            }
            j += 1;
        }
        assert(rel@.len() <= usize::MAX);
        assert forall|x: SpecSymbol, y: SpecSymbol| first_base(gv, x, y) implies #[trigger] rel@.to_set().contains((x, y)) by {
            assert(start.to_set().contains((x, y)));
        }
    }
    rel
}


/// Every pair of `rel` lies in every closed relation that holds the base.
pub open spec fn follow_sound(g: SpecGrammar, f: SymRel, rel: Seq<(SpecSymbol, SpecSymbol)>) -> bool {
    forall|r2: SymRel|
        #![trigger follow_closed(g, f, r2)]
        holds_follow_base(g, r2) && follow_closed(g, f, r2) ==> rel.to_set().subset_of(r2)
}

/// Adds `(b, y)` to `rel` for every `y` in `ys`; every such pair must lie in
/// every closed relation. Returns whether something was added.
fn add_pairs(rel: &mut VecSet<(Symbol, Symbol)>, b: &Symbol, ys: &VecSet<Symbol>, Ghost(g): Ghost<SpecGrammar>, Ghost(f): Ghost<SymRel>) -> (added: bool)
    requires
        old(rel).wf(),
        follow_sound(g, f, old(rel)@),
        forall|r2: SymRel, y: SpecSymbol|
            #![trigger follow_closed(g, f, r2), ys@.contains(y)]
            holds_follow_base(g, r2) && follow_closed(g, f, r2) && ys@.contains(y) ==> r2.contains((b@, y)),
    ensures
        final(rel).wf(),
        follow_sound(g, f, final(rel)@),
        old(rel)@.len() <= final(rel)@.len() <= usize::MAX,
        forall|e: (SpecSymbol, SpecSymbol)| old(rel)@.contains(e) ==> #[trigger] final(rel)@.contains(e),
        added ==> final(rel)@.len() > old(rel)@.len(),
        !added ==> final(rel)@ == old(rel)@,
        forall|y: SpecSymbol| #[trigger] ys@.contains(y) ==> final(rel)@.contains((b@, y)),
{
    let mut added = false;
    let mut m: usize = 0;
    assert(rel@.len() == rel.items.len());
    while m < ys.items.len()
        invariant
            rel.wf(),
            m <= ys@.len(),
            follow_sound(g, f, rel@),
            forall|r2: SymRel, y: SpecSymbol|
                #![trigger follow_closed(g, f, r2), ys@.contains(y)]
                holds_follow_base(g, r2) && follow_closed(g, f, r2) && ys@.contains(y) ==> r2.contains((b@, y)),
            old(rel)@.len() <= rel@.len() <= usize::MAX,
            forall|e: (SpecSymbol, SpecSymbol)| old(rel)@.contains(e) ==> #[trigger] rel@.contains(e),
            added ==> rel@.len() > old(rel)@.len(),
            !added ==> rel@ == old(rel)@,
            forall|m2: int| 0 <= m2 < m ==> rel@.contains((b@, #[trigger] ys@[m2])),
        decreases ys.items.len() - m,
    {
        let y = &ys.items[m];
        assert(ys@[m as int] == y@);
        assert(ys@.contains(y@));
        let ghost before = rel@;
        if rel.insert((b.copy(), y.copy())) {
            added = true;
        }
        assert forall|e2: (SpecSymbol, SpecSymbol)| before.contains(e2) implies #[trigger] rel@.contains(e2) by {
            lemma_seq_push_contains(before, (b@, y@), e2);
        }
        assert(follow_sound(g, f, rel@)) by {
            assert forall|r2: SymRel| #![trigger follow_closed(g, f, r2)] holds_follow_base(g, r2) && follow_closed(g, f, r2) implies rel@.to_set().subset_of(r2) by {
                assert forall|e2: (SpecSymbol, SpecSymbol)| rel@.to_set().contains(e2) implies r2.contains(e2) by {
                    lemma_seq_push_contains(before, (b@, y@), e2);
                    if e2 != (b@, y@) {
                        assert(before.to_set().subset_of(r2));
                    }
                }
            }
        }
        assert(rel@.contains((b@, y@))) by {
            lemma_seq_push_contains(before, (b@, y@), (b@, y@));
        }
        assert(rel@.len() == rel.items.len());
        m += 1;
    }
    assert forall|y: SpecSymbol| #[trigger] ys@.contains(y) implies rel@.contains((b@, y)) by {
        let m2 = choose|m2: int| 0 <= m2 < ys@.len() && ys@[m2] == y;
        assert(rel@.contains((b@, ys@[m2])));
    }
    added
}

/// The FOLLOW relation of the grammar, given its FIRST relation, by
/// iteration to a fixed point.
fn follow_pairs(g: &Grammar, first: &VecSet<(Symbol, Symbol)>) -> (rel: VecSet<(Symbol, Symbol)>)
    ensures
        rel.wf(),
        is_follow_relation(g@, first@.to_set(), rel@.to_set()),
{
    let ghost gv = g@;
    let ghost f = first@.to_set();
    let mut rel: VecSet<(Symbol, Symbol)> = VecSet::new();
    rel.insert((g.start_symbol.copy(), Symbol::Terminal(String::from_str("$"))));
    assert(rel@[0] == (gv.start, dollar()));
    assert(holds_follow_base(gv, rel@.to_set()));
    assert(follow_sound(gv, f, rel@)) by {
        assert forall|r2: SymRel| #![trigger follow_closed(gv, f, r2)] holds_follow_base(gv, r2) && follow_closed(gv, f, r2) implies rel@.to_set().subset_of(r2) by {
            assert forall|e: (SpecSymbol, SpecSymbol)| rel@.to_set().contains(e) implies r2.contains(e) by {
                assert(e == (gv.start, dollar()));
                assert(follow_base(gv, gv.start, dollar()));
            }
        }
    }
    let mut changed = true;
    while changed
        invariant
            gv == g@,
            f == first@.to_set(),
            rel.wf(),
            holds_follow_base(gv, rel@.to_set()),
            follow_sound(gv, f, rel@),
            !changed ==> follow_closed(gv, f, rel@.to_set()),
        decreases 2 * (usize::MAX - rel@.len()) + (if changed { 1int } else { 0int }),
    {
        changed = false;
        let ghost start = rel@;
        assert(rel@.len() == rel.items.len());
        let mut j: usize = 0;
        while j < g.productions.len()
            invariant
                gv == g@,
                f == first@.to_set(),
                rel.wf(),
                j <= g.productions@.len(),
                follow_sound(gv, f, rel@),
                start.len() <= rel@.len() <= usize::MAX,
                forall|e: (SpecSymbol, SpecSymbol)| start.contains(e) ==> #[trigger] rel@.contains(e),
                changed ==> rel@.len() > start.len(),
                !changed ==> rel@ == start,
                !changed ==> forall|i: int, k: int|
                    0 <= i < j && 0 <= k < gv.productions[i].right.len() ==> #[trigger] follow_ok_at(gv, f, rel@.to_set(), i, k),
            decreases g.productions.len() - j,
        {
            let p = &g.productions[j];
            assert(gv.productions[j as int] == p@);
            let mut k: usize = 0;
            while k < p.right.len()
                invariant
                    gv == g@,
                    f == first@.to_set(),
                    rel.wf(),
                    j < gv.productions.len(),
                    gv.productions[j as int] == p@,
                    k <= p.right@.len(),
                    follow_sound(gv, f, rel@),
                    start.len() <= rel@.len() <= usize::MAX,
                    forall|e: (SpecSymbol, SpecSymbol)| start.contains(e) ==> #[trigger] rel@.contains(e),
                    changed ==> rel@.len() > start.len(),
                    !changed ==> rel@ == start,
                    !changed ==> forall|i: int, k2: int|
                        0 <= i < j && 0 <= k2 < gv.productions[i].right.len() ==> #[trigger] follow_ok_at(gv, f, rel@.to_set(), i, k2),
                    !changed ==> forall|k2: int| 0 <= k2 < k ==> #[trigger] follow_ok_at(gv, f, rel@.to_set(), j as int, k2),
                decreases p.right.len() - k,
            {
                assert(p@.right[k as int] == p.right@[k as int]@);
                if p.right[k].is_nonterminal() {
                    let b = &p.right[k];
                    let fs = first_of_seq(first, &p.right, k + 1);
                    let ghost at = rel@;
                    // FIRST(β) without ϵ.
                    let mut nonempty: VecSet<Symbol> = VecSet::new();
                    let mut m: usize = 0;
                    while m < fs.items.len()
                        invariant
                            nonempty.wf(),
                            m <= fs@.len(),
                            forall|y: SpecSymbol| #[trigger] nonempty@.contains(y) <==> exists|m2: int|
                                0 <= m2 < m && fs@[m2] == y && y != SpecSymbol::Epsilon,
                        decreases fs.items.len() - m,
                    {
                        let ghost before = nonempty@;
                        assert(fs@[m as int] == fs.items@[m as int]@);
                        if !fs.items[m].is_epsilon() {
                            nonempty.insert(fs.items[m].copy());
                        }
                        assert forall|y: SpecSymbol| #[trigger] nonempty@.contains(y) <==> exists|m2: int|
                            0 <= m2 < m + 1 && fs@[m2] == y && y != SpecSymbol::Epsilon by {
                            lemma_seq_push_contains(before, fs@[m as int], y);
                            if exists|m2: int| 0 <= m2 < m + 1 && fs@[m2] == y && y != SpecSymbol::Epsilon {
                                let m2 = choose|m2: int| 0 <= m2 < m + 1 && fs@[m2] == y && y != SpecSymbol::Epsilon;
                                if m2 < m {
                                    assert(exists|m3: int| 0 <= m3 < m && fs@[m3] == y && y != SpecSymbol::Epsilon);
                                }
                            }
                        }
                        m += 1;
                    }
                    assert forall|y: SpecSymbol| #[trigger] nonempty@.contains(y) <==> (y != SpecSymbol::Epsilon
                        && in_seq_first(p@.right.skip(k + 1), f, y)) by {
                        if fs@.contains(y) {
                            let m2 = choose|m2: int| 0 <= m2 < fs@.len() && fs@[m2] == y;
                        }
                    }
                    assert(syms_view(p.right@).skip(k + 1) == p@.right.skip(k + 1));
                    assert forall|r2: SymRel, y: SpecSymbol|
                        #![trigger follow_closed(gv, f, r2), nonempty@.contains(y)]
                        holds_follow_base(gv, r2) && follow_closed(gv, f, r2) && nonempty@.contains(y)
                            implies r2.contains((b@, y)) by {
                        assert(follow_ok_at(gv, f, r2, j as int, k as int));
                    }
                    let added1 = add_pairs(&mut rel, b, &nonempty, Ghost(gv), Ghost(f));
                    if added1 {
                        changed = true;
                    }
                    let ghost mid = rel@;
                    let eps = fs.contains(&Symbol::Epsilon);
                    if eps {
                        let mut inherited: VecSet<Symbol> = VecSet::new();
                        collect_related(&rel, &p.left, &mut inherited, false);
                        assert forall|r2: SymRel, y: SpecSymbol|
                            #![trigger follow_closed(gv, f, r2), inherited@.contains(y)]
                            holds_follow_base(gv, r2) && follow_closed(gv, f, r2) && inherited@.contains(y)
                                implies r2.contains((b@, y)) by {
                            assert(mid.to_set().subset_of(r2));
                            assert(r2.contains((p@.left, y)));
                            assert(follow_ok_at(gv, f, r2, j as int, k as int));
                        }
                        let added2 = add_pairs(&mut rel, b, &inherited, Ghost(gv), Ghost(f));
                        if added2 {
                            changed = true;
                        }
                        assert forall|y: SpecSymbol| mid.contains((p@.left, y)) implies #[trigger] rel@.contains((b@, y)) by {
                            assert(inherited@.contains(y));
                        }
                    }
                    assert forall|y: SpecSymbol| #[trigger] nonempty@.contains(y) implies rel@.contains((b@, y)) by {
                        assert(mid.contains((b@, y)));
                    }
                    assert(!changed ==> follow_ok_at(gv, f, rel@.to_set(), j as int, k as int)) by {
                        if !changed {
                            assert forall|y: SpecSymbol| #![trigger rel@.to_set().contains((p@.right[k as int], y))]
                                (y != SpecSymbol::Epsilon && in_seq_first(p@.right.skip(k + 1), f, y)) ==> rel@.to_set().contains((p@.right[k as int], y)) by {
                                if y != SpecSymbol::Epsilon && in_seq_first(p@.right.skip(k + 1), f, y) {
                                    assert(nonempty@.contains(y));
                                }
                            }
                        }
                    }
                }
                k += 1;
            }
            j += 1;
        }
        assert(rel@.len() <= usize::MAX);
        assert forall|x: SpecSymbol, y: SpecSymbol| follow_base(gv, x, y) implies #[trigger] rel@.to_set().contains((x, y)) by {
            assert(start.to_set().contains((x, y)));
        }
    }
    rel
}


/// The map from each key to the set of symbols related to it by `rel`.
fn relation_map(rel: &VecSet<(Symbol, Symbol)>, keys: &VecSet<Symbol>) -> (m: VecMap<Symbol, VecSet<Symbol>>)
    requires
        keys.wf(),
    ensures
        m.wf(),
        forall|x: SpecSymbol| #[trigger] m@.contains_key(x) <==> keys@.contains(x),
        forall|x: SpecSymbol, y: SpecSymbol| #![trigger m@[x].contains(y)]
            m@.contains_key(x) ==> (m@[x].contains(y) <==> rel@.contains((x, y))),
        forall|x: SpecSymbol| #[trigger] m@.contains_key(x) ==> m@[x].no_duplicates(),
{
    let mut m: VecMap<Symbol, VecSet<Symbol>> = VecMap::new();
    let mut i: usize = 0;
    while i < keys.items.len()
        invariant
            keys.wf(),
            m.wf(),
            i <= keys@.len(),
            forall|x: SpecSymbol| #[trigger] m@.contains_key(x) <==> exists|i2: int| 0 <= i2 < i && keys@[i2] == x,
            forall|x: SpecSymbol, y: SpecSymbol| #![trigger m@[x].contains(y)]
                m@.contains_key(x) ==> (m@[x].contains(y) <==> rel@.contains((x, y))),
            forall|x: SpecSymbol| #[trigger] m@.contains_key(x) ==> m@[x].no_duplicates(),
        decreases keys.items.len() - i,
    {
        let k = &keys.items[i];
        assert(keys@[i as int] == k@);
        let mut ys: VecSet<Symbol> = VecSet::new();
        collect_related(rel, k, &mut ys, false);
        assert(!m@.contains_key(k@)) by {
            if m@.contains_key(k@) {
                let i2 = choose|i2: int| 0 <= i2 < i && keys@[i2] == k@;
                assert(keys@[i2] == keys@[i as int]);
            }
        }
        m.insert(k.copy(), ys);
        i += 1;
    }
    assert forall|x: SpecSymbol| #[trigger] m@.contains_key(x) <==> keys@.contains(x) by {
        if keys@.contains(x) {
            let i2 = choose|i2: int| 0 <= i2 < keys@.len() && keys@[i2] == x;
        }
    }
    m
}


/// `x` is a terminal (when `terminals`) or a non-terminal (otherwise) on the
/// right side of one of the first `j` productions, or at one of the first
/// `k` positions of production `j`.
pub open spec fn rhs_upto(g: SpecGrammar, x: SpecSymbol, terminals: bool, j: int, k: int) -> bool {
    &&& (if terminals { x is Terminal } else { x is NonTerminal })
    &&& {
        ||| exists|i: int, k2: int|
            0 <= i < j && 0 <= k2 < g.productions[i].right.len() && #[trigger] g.productions[i].right[k2] == x
        ||| exists|k2: int| 0 <= k2 < k && #[trigger] g.productions[j].right[k2] == x
    }
}

/// Adds to `keys` the terminals (or the non-terminals) on right sides.
fn add_rhs_symbols(g: &Grammar, keys: &mut VecSet<Symbol>, terminals: bool)
    requires
        old(keys).wf(),
    ensures
        final(keys).wf(),
        forall|x: SpecSymbol| #[trigger] final(keys)@.contains(x) <==> (old(keys)@.contains(x) || (
            (if terminals { x is Terminal } else { x is NonTerminal }) && in_rhs(g@, x))),
{
    let ghost gv = g@;
    let mut j: usize = 0;
    while j < g.productions.len()
        invariant
            gv == g@,
            keys.wf(),
            j <= gv.productions.len(),
            forall|x: SpecSymbol| #[trigger] keys@.contains(x) <==> (old(keys)@.contains(x) || rhs_upto(gv, x, terminals, j as int, 0)),
        decreases g.productions.len() - j,
    {
        let p = &g.productions[j];
        assert(gv.productions[j as int] == p@);
        let mut k: usize = 0;
        while k < p.right.len()
            invariant
                gv == g@,
                keys.wf(),
                j < gv.productions.len(),
                gv.productions[j as int] == p@,
                k <= p.right@.len(),
                forall|x: SpecSymbol| #[trigger] keys@.contains(x) <==> (old(keys)@.contains(x) || rhs_upto(gv, x, terminals, j as int, k as int)),
            decreases p.right.len() - k,
        {
            let ghost before = keys@;
            assert(p@.right[k as int] == p.right@[k as int]@);
            let take = if terminals { p.right[k].is_terminal() } else { p.right[k].is_nonterminal() };
            if take {
                keys.insert(p.right[k].copy());
            }
            assert forall|x: SpecSymbol| #[trigger] keys@.contains(x) <==> (old(keys)@.contains(x) || rhs_upto(gv, x, terminals, j as int, k + 1)) by {
                lemma_seq_push_contains(before, p@.right[k as int], x);
                if rhs_upto(gv, x, terminals, j as int, k + 1) && !rhs_upto(gv, x, terminals, j as int, k as int) {
                    let k2 = choose|k2: int| 0 <= k2 < k + 1 && #[trigger] gv.productions[j as int].right[k2] == x;
                    assert(k2 == k);
                }
                if rhs_upto(gv, x, terminals, j as int, k as int) {
                    if exists|k2: int| 0 <= k2 < k && #[trigger] gv.productions[j as int].right[k2] == x {
                        let k2 = choose|k2: int| 0 <= k2 < k && #[trigger] gv.productions[j as int].right[k2] == x;
                        assert(0 <= k2 < k + 1);
                    }
                }
                if take && x == p@.right[k as int] {
                    assert(gv.productions[j as int].right[k as int] == x);
                }
            }
            k += 1;
        }
        assert forall|x: SpecSymbol| #[trigger] keys@.contains(x) <==> (old(keys)@.contains(x) || rhs_upto(gv, x, terminals, j + 1, 0)) by {
            if rhs_upto(gv, x, terminals, j as int, p.right@.len() as int) {
                if exists|k2: int| 0 <= k2 < p.right@.len() && #[trigger] gv.productions[j as int].right[k2] == x {
                    let k2 = choose|k2: int| 0 <= k2 < p.right@.len() && #[trigger] gv.productions[j as int].right[k2] == x;
                    assert(0 <= j < j + 1 && 0 <= k2 < gv.productions[j as int].right.len());
                }
            }
            if rhs_upto(gv, x, terminals, j + 1, 0) {
                let (i, k2) = choose|i: int, k2: int|
                    0 <= i < j + 1 && 0 <= k2 < gv.productions[i].right.len() && #[trigger] gv.productions[i].right[k2] == x;
                if i == j {
                    assert(exists|k3: int| 0 <= k3 < p.right@.len() && #[trigger] gv.productions[j as int].right[k3] == x);
                }
            }
        }
        j += 1;
    }
    assert forall|x: SpecSymbol| #[trigger] keys@.contains(x) <==> (old(keys)@.contains(x) || (
        (if terminals { x is Terminal } else { x is NonTerminal }) && in_rhs(gv, x))) by {
        if in_rhs(gv, x) {
            let (i, k2) = choose|i: int, k2: int|
                0 <= i < gv.productions.len() && 0 <= k2 < gv.productions[i].right.len() && #[trigger] gv.productions[i].right[k2] == x;
        }
    }
}

/// Adds to `keys` the left sides of the productions.
fn add_left_sides(g: &Grammar, keys: &mut VecSet<Symbol>)
    requires
        old(keys).wf(),
    ensures
        final(keys).wf(),
        forall|x: SpecSymbol| #[trigger] final(keys)@.contains(x) <==> (old(keys)@.contains(x) || is_lhs(g@, x)),
{
    let ghost gv = g@;
    let mut j: usize = 0;
    while j < g.productions.len()
        invariant
            gv == g@,
            keys.wf(),
            j <= gv.productions.len(),
            forall|x: SpecSymbol| #[trigger] keys@.contains(x) <==> (old(keys)@.contains(x) || exists|i: int|
                0 <= i < j && #[trigger] gv.productions[i].left == x),
        decreases g.productions.len() - j,
    {
        let p = &g.productions[j];
        assert(gv.productions[j as int] == p@);
        let ghost before = keys@;
        keys.insert(p.left.copy());
        assert forall|x: SpecSymbol| #[trigger] keys@.contains(x) <==> (old(keys)@.contains(x) || exists|i: int|
            0 <= i < j + 1 && #[trigger] gv.productions[i].left == x) by {
            lemma_seq_push_contains(before, p@.left, x);
            if exists|i: int| 0 <= i < j + 1 && #[trigger] gv.productions[i].left == x {
                let i = choose|i: int| 0 <= i < j + 1 && #[trigger] gv.productions[i].left == x;
                if i < j {
                    assert(exists|i2: int| 0 <= i2 < j && #[trigger] gv.productions[i2].left == x);
                }
            }
        }
        j += 1;
    }
}

/// The symbols that have a FIRST set.
fn first_keys(g: &Grammar) -> (keys: VecSet<Symbol>)
    ensures
        keys.wf(),
        forall|x: SpecSymbol| #[trigger] keys@.contains(x) <==> first_key(g@, x),
{
    let mut keys: VecSet<Symbol> = VecSet::new();
    if g.productions.len() > 0 {
        keys.insert(Symbol::Epsilon);
        assert(keys@[0] == SpecSymbol::Epsilon);
    }
    let ghost k0 = keys@;
    assert forall|x: SpecSymbol| #[trigger] k0.contains(x) <==> (x == SpecSymbol::Epsilon && g@.productions.len() > 0) by {
        if k0.contains(x) {
            let q = choose|q: int| 0 <= q < k0.len() && k0[q] == x;
        }
    }
    add_rhs_symbols(g, &mut keys, true);
    add_left_sides(g, &mut keys);
    keys
}

/// The symbols that have a FOLLOW set.
fn follow_keys(g: &Grammar) -> (keys: VecSet<Symbol>)
    ensures
        keys.wf(),
        forall|x: SpecSymbol| #[trigger] keys@.contains(x) <==> follow_key(g@, x),
{
    let mut keys: VecSet<Symbol> = VecSet::new();
    keys.insert(g.start_symbol.copy());
    assert(keys@[0] == g@.start);
    let ghost k0 = keys@;
    assert forall|x: SpecSymbol| #[trigger] k0.contains(x) <==> x == g@.start by {
        if k0.contains(x) {
            let q = choose|q: int| 0 <= q < k0.len() && k0[q] == x;
        }
    }
    add_rhs_symbols(g, &mut keys, false);
    keys
}


/// Production `p` is chosen in the table at terminal `x`: `x ∈ FIRST(α)`,
/// or `ϵ ∈ FIRST(α)` and `x ∈ FOLLOW(A)`.
pub open spec fn selects(f: SymRel, fo: SymRel, p: SpecProduction, x: SpecSymbol) -> bool {
    ||| (x is Terminal && in_seq_first(p.right, f, x))
    ||| (in_seq_first(p.right, f, SpecSymbol::Epsilon) && fo.contains((p.left, x)))
}

/// Two productions of the same left side with different right sides are
/// chosen at the same terminal.
pub open spec fn ll1_conflict_at(g: SpecGrammar, f: SymRel, fo: SymRel, i: int, j: int, x: SpecSymbol) -> bool {
    &&& 0 <= i < g.productions.len()
    &&& 0 <= j < g.productions.len()
    &&& selects(f, fo, g.productions[i], x)
    &&& selects(f, fo, g.productions[j], x)
    &&& g.productions[i].left == g.productions[j].left
    &&& g.productions[i].right != g.productions[j].right
}

pub open spec fn has_ll1_conflict(g: SpecGrammar, f: SymRel, fo: SymRel) -> bool {
    exists|i: int, j: int, x: SpecSymbol| #[trigger] ll1_conflict_at(g, f, fo, i, j, x)
}

pub open spec fn ll1_conflict_message(a: SpecSymbol, x: SpecSymbol) -> Seq<char> {
    "Grammar is not LL(1): Multiple entries for ["@ + sym_text(a) + ", "@ + sym_text(x) + "]"@
}

/// The table holds, at `(A, x)`, the right side of the production of `A`
/// chosen at `x`, and nothing else.
pub open spec fn table_matches(g: SpecGrammar, f: SymRel, fo: SymRel, t: Map<(SpecSymbol, SpecSymbol), Seq<Symbol>>) -> bool {
    &&& forall|a: SpecSymbol, x: SpecSymbol| #[trigger] t.contains_key((a, x)) <==> exists|i: int|
        0 <= i < g.productions.len() && g.productions[i].left == a && #[trigger] selects(f, fo, g.productions[i], x)
    &&& forall|i: int, x: SpecSymbol|
        0 <= i < g.productions.len() && #[trigger] selects(f, fo, g.productions[i], x)
            ==> syms_view(t[(g.productions[i].left, x)]) == g.productions[i].right
}

/// The terminals at which production `p` is chosen.
fn selection(p: &Production, first: &VecSet<(Symbol, Symbol)>, follow: &VecSet<(Symbol, Symbol)>) -> (sel: VecSet<Symbol>)
    ensures
        sel.wf(),
        forall|x: SpecSymbol| #[trigger] sel@.contains(x) <==> selects(first@.to_set(), follow@.to_set(), p@, x),
{
    let fs = first_of_seq(first, &p.right, 0);
    assert(syms_view(p.right@).skip(0) =~= p@.right);
    let mut sel: VecSet<Symbol> = VecSet::new();
    let mut m: usize = 0;
    while m < fs.items.len()
        invariant
            sel.wf(),
            m <= fs@.len(),
            forall|x: SpecSymbol| #[trigger] sel@.contains(x) <==> exists|m2: int| 0 <= m2 < m && fs@[m2] == x && x is Terminal,
        decreases fs.items.len() - m,
    {
        let ghost before = sel@;
        assert(fs@[m as int] == fs.items@[m as int]@);
        if fs.items[m].is_terminal() {
            sel.insert(fs.items[m].copy());
        }
        assert forall|x: SpecSymbol| #[trigger] sel@.contains(x) <==> exists|m2: int| 0 <= m2 < m + 1 && fs@[m2] == x && x is Terminal by {
            lemma_seq_push_contains(before, fs@[m as int], x);
            if exists|m2: int| 0 <= m2 < m + 1 && fs@[m2] == x && x is Terminal {
                let m2 = choose|m2: int| 0 <= m2 < m + 1 && fs@[m2] == x && x is Terminal;
                if m2 < m {
                    assert(exists|m3: int| 0 <= m3 < m && fs@[m3] == x && x is Terminal);
                }
            }
        }
        m += 1;
    }
    let ghost terms = sel@;
    assert forall|x: SpecSymbol| #[trigger] terms.contains(x) <==> (x is Terminal && in_seq_first(p@.right, first@.to_set(), x)) by {
        if fs@.contains(x) {
            let m2 = choose|m2: int| 0 <= m2 < fs@.len() && fs@[m2] == x;
        }
    }
    if fs.contains(&Symbol::Epsilon) {
        collect_related(follow, &p.left, &mut sel, false);
    }
    sel
}

/// `(i, x)` has been entered in the table: production `i` before `j`, or
/// production `j` with `x` among the terminals already entered.
pub open spec fn ll1_covered(g: SpecGrammar, f: SymRel, fo: SymRel, j: int, part: Seq<SpecSymbol>, i: int, x: SpecSymbol) -> bool {
    ||| (0 <= i < j && selects(f, fo, g.productions[i], x))
    ||| (i == j && part.contains(x))
}

/// The predictive parsing table, or the first conflict found.
fn ll1_table(g: &Grammar, first: &VecSet<(Symbol, Symbol)>, follow: &VecSet<(Symbol, Symbol)>) -> (r: Result<VecMap<(Symbol, Symbol), Vec<Symbol>>, String>)
    ensures
        match r {
            Ok(t) => t.wf() && table_matches(g@, first@.to_set(), follow@.to_set(), t@)
                && !has_ll1_conflict(g@, first@.to_set(), follow@.to_set()),
            Err(e) => exists|i: int, j: int, x: SpecSymbol|
                #[trigger] ll1_conflict_at(g@, first@.to_set(), follow@.to_set(), i, j, x)
                    && e@ == ll1_conflict_message(g@.productions[j].left, x),
        },
{
    let ghost gv = g@;
    let ghost f = first@.to_set();
    let ghost fo = follow@.to_set();
    let mut t: VecMap<(Symbol, Symbol), Vec<Symbol>> = VecMap::new();
    let mut j: usize = 0;
    while j < g.productions.len()
        invariant
            gv == g@,
            f == first@.to_set(),
            fo == follow@.to_set(),
            t.wf(),
            j <= gv.productions.len(),
            forall|i: int, x: SpecSymbol| #[trigger] ll1_covered(gv, f, fo, j as int, Seq::empty(), i, x)
                ==> t@.contains_key((gv.productions[i].left, x)) && syms_view(t@[(gv.productions[i].left, x)]) == gv.productions[i].right,
            forall|key: (SpecSymbol, SpecSymbol)| #[trigger] t@.contains_key(key) ==> exists|i: int|
                #[trigger] ll1_covered(gv, f, fo, j as int, Seq::empty(), i, key.1) && 0 <= i < gv.productions.len() && gv.productions[i].left == key.0,
        decreases g.productions.len() - j,
    {
        let p = &g.productions[j];
        assert(gv.productions[j as int] == p@);
        let sel = selection(p, first, follow);
        let mut m: usize = 0;
        assert(sel@.take(0) =~= Seq::<SpecSymbol>::empty());
        while m < sel.items.len()
            invariant
                gv == g@,
                f == first@.to_set(),
                fo == follow@.to_set(),
                t.wf(),
                j < gv.productions.len(),
                gv.productions[j as int] == p@,
                forall|x: SpecSymbol| #[trigger] sel@.contains(x) <==> selects(f, fo, p@, x),
                m <= sel@.len(),
                forall|i: int, x: SpecSymbol| #[trigger] ll1_covered(gv, f, fo, j as int, sel@.take(m as int), i, x)
                    ==> t@.contains_key((gv.productions[i].left, x)) && syms_view(t@[(gv.productions[i].left, x)]) == gv.productions[i].right,
                forall|key: (SpecSymbol, SpecSymbol)| #[trigger] t@.contains_key(key) ==> exists|i: int|
                    #[trigger] ll1_covered(gv, f, fo, j as int, sel@.take(m as int), i, key.1) && 0 <= i < gv.productions.len() && gv.productions[i].left == key.0,
            decreases sel.items.len() - m,
        {
            let x = &sel.items[m];
            assert(sel@[m as int] == x@);
            assert(sel@.contains(x@));
            let key = (p.left.copy(), x.copy());
            let ghost part = sel@.take(m as int);
            let ghost part1 = sel@.take(m + 1);
            assert forall|y: SpecSymbol| #[trigger] part1.contains(y) <==> (part.contains(y) || y == x@) by {
                assert(part1 =~= part.push(x@));
                lemma_seq_push_contains(part, x@, y);
            }
            match t.get(&key) {
                Some(existing) => {
                    if !same_symbols(existing, &p.right) {
                        let a_text = p.left.to_text();
                        let x_text = x.to_text();
                        let mut msg = concat("Grammar is not LL(1): Multiple entries for [", a_text.as_str());
                        msg.append(", ");
                        msg.append(x_text.as_str());
                        msg.append("]");
                        proof {
                            let i = choose|i: int|
                                #[trigger] ll1_covered(gv, f, fo, j as int, part, i, x@) && 0 <= i < gv.productions.len() && gv.productions[i].left == p@.left;
                            assert(ll1_conflict_at(gv, f, fo, i, j as int, x@));
                        }
                        return Err(msg);
                    }
                },
                None => {
                    t.insert(key, copy_symbols(&p.right));
                },
            }
            assert forall|i: int, y: SpecSymbol| #[trigger] ll1_covered(gv, f, fo, j as int, part1, i, y)
                implies t@.contains_key((gv.productions[i].left, y)) && syms_view(t@[(gv.productions[i].left, y)]) == gv.productions[i].right by {
                if !ll1_covered(gv, f, fo, j as int, part, i, y) {
                    assert(i == j && y == x@);
                }
            }
            assert forall|k2: (SpecSymbol, SpecSymbol)| #[trigger] t@.contains_key(k2) implies exists|i: int|
                #[trigger] ll1_covered(gv, f, fo, j as int, part1, i, k2.1) && 0 <= i < gv.productions.len() && gv.productions[i].left == k2.0 by {
                if k2 == (p@.left, x@) {
                    assert(ll1_covered(gv, f, fo, j as int, part1, j as int, k2.1));
                } else {
                    let i = choose|i: int|
                        #[trigger] ll1_covered(gv, f, fo, j as int, part, i, k2.1) && 0 <= i < gv.productions.len() && gv.productions[i].left == k2.0;
                    assert(ll1_covered(gv, f, fo, j as int, part1, i, k2.1));
                }
            }
            m += 1;
        }
        assert(sel@.take(sel@.len() as int) =~= sel@);
        assert forall|i: int, x: SpecSymbol| #[trigger] ll1_covered(gv, f, fo, j + 1, Seq::empty(), i, x)
            <==> ll1_covered(gv, f, fo, j as int, sel@, i, x) by {
        }
        assert forall|k2: (SpecSymbol, SpecSymbol)| #[trigger] t@.contains_key(k2) implies exists|i: int|
            #[trigger] ll1_covered(gv, f, fo, j + 1, Seq::empty(), i, k2.1) && 0 <= i < gv.productions.len() && gv.productions[i].left == k2.0 by {
            let i = choose|i: int|
                #[trigger] ll1_covered(gv, f, fo, j as int, sel@.take(sel@.len() as int), i, k2.1) && 0 <= i < gv.productions.len() && gv.productions[i].left == k2.0;
            assert(ll1_covered(gv, f, fo, j + 1, Seq::empty(), i, k2.1));
        }
        j += 1;
    }
    assert forall|i: int, x: SpecSymbol| 0 <= i < gv.productions.len() && #[trigger] selects(f, fo, gv.productions[i], x)
        implies syms_view(t@[(gv.productions[i].left, x)]) == gv.productions[i].right by {
        assert(ll1_covered(gv, f, fo, j as int, Seq::empty(), i, x));
    }
    assert forall|a: SpecSymbol, x: SpecSymbol| #[trigger] t@.contains_key((a, x)) <==> exists|i: int|
        0 <= i < gv.productions.len() && gv.productions[i].left == a && #[trigger] selects(f, fo, gv.productions[i], x) by {
        if exists|i: int| 0 <= i < gv.productions.len() && gv.productions[i].left == a && #[trigger] selects(f, fo, gv.productions[i], x) {
            let i = choose|i: int| 0 <= i < gv.productions.len() && gv.productions[i].left == a && #[trigger] selects(f, fo, gv.productions[i], x);
            assert(ll1_covered(gv, f, fo, j as int, Seq::empty(), i, x));
        }
        if t@.contains_key((a, x)) {
            let i = choose|i: int|
                #[trigger] ll1_covered(gv, f, fo, j as int, Seq::empty(), i, x) && 0 <= i < gv.productions.len() && gv.productions[i].left == a;
        }
    }
    assert(!has_ll1_conflict(gv, f, fo)) by {
        if has_ll1_conflict(gv, f, fo) {
            let (i, i2, x) = choose|i: int, i2: int, x: SpecSymbol| #[trigger] ll1_conflict_at(gv, f, fo, i, i2, x);
            assert(ll1_covered(gv, f, fo, j as int, Seq::empty(), i, x));
            assert(ll1_covered(gv, f, fo, j as int, Seq::empty(), i2, x));
        }
    }
    Ok(t)
}


/// The FIRST sets of a map: its keys are the symbols that have one.
pub open spec fn first_map_matches(g: SpecGrammar, m: Map<SpecSymbol, Seq<SpecSymbol>>) -> bool {
    &&& forall|x: SpecSymbol| #[trigger] m.contains_key(x) <==> first_key(g, x)
    &&& forall|x: SpecSymbol, y: SpecSymbol| #![trigger m[x].contains(y)]
        m.contains_key(x) ==> (m[x].contains(y) <==> first_relation(g).contains((x, y)))
}

/// The FOLLOW sets of a map: its keys are the symbols that have one.
pub open spec fn follow_map_matches(g: SpecGrammar, m: Map<SpecSymbol, Seq<SpecSymbol>>) -> bool {
    &&& forall|x: SpecSymbol| #[trigger] m.contains_key(x) <==> follow_key(g, x)
    &&& forall|x: SpecSymbol, y: SpecSymbol| #![trigger m[x].contains(y)]
        m.contains_key(x) ==> (m[x].contains(y) <==> follow_relation(g, first_relation(g)).contains((x, y)))
}

/// An LL(1) parser: the grammar with its FIRST and FOLLOW sets and its
/// predictive parsing table (non-terminal, terminal) → right side.
pub struct LL1Parser {
    pub grammar: Grammar,
    pub first: VecMap<Symbol, VecSet<Symbol>>,
    pub follow: VecMap<Symbol, VecSet<Symbol>>,
    pub table: VecMap<(Symbol, Symbol), Vec<Symbol>>,
}

impl LL1Parser {
    pub open spec fn wf(&self) -> bool {
        self.first.wf() && self.follow.wf() && self.table.wf()
    }

    /// FIRST, FOLLOW and the table are those of the grammar.
    pub open spec fn analyzed(&self) -> bool {
        let g = self.grammar@;
        let f = first_relation(g);
        let fo = follow_relation(g, f);
        &&& self.wf()
        &&& is_first_relation(g, f)
        &&& is_follow_relation(g, f, fo)
        &&& first_map_matches(g, self.first@)
        &&& follow_map_matches(g, self.follow@)
        &&& table_matches(g, f, fo, self.table@)
        &&& !has_ll1_conflict(g, f, fo)
    }

    /// Computes FIRST, FOLLOW and the LL(1) table; fails when two productions
    /// of one non-terminal are chosen at the same terminal.
    pub fn new(grammar: Grammar) -> (r: Result<Self, String>)
        ensures
            match r {
                Ok(p) => p.grammar@ == grammar@ && p.analyzed(),
                Err(e) => {
                    let f = first_relation(grammar@);
                    let fo = follow_relation(grammar@, f);
                    exists|i: int, j: int, x: SpecSymbol|
                        #[trigger] ll1_conflict_at(grammar@, f, fo, i, j, x)
                            && e@ == ll1_conflict_message(grammar@.productions[j].left, x)
                },
            },
    {
        let first_rel = first_pairs(&grammar);
        proof {
            lemma_first_relation(grammar@, first_rel@.to_set());
        }
        let follow_rel = follow_pairs(&grammar, &first_rel);
        proof {
            lemma_follow_relation(grammar@, first_rel@.to_set(), follow_rel@.to_set());
        }
        let table = match ll1_table(&grammar, &first_rel, &follow_rel) {
            Ok(t) => t,
            Err(e) => {
                return Err(e);
            },
        };
        let fk = first_keys(&grammar);
        let first = relation_map(&first_rel, &fk);
        let wk = follow_keys(&grammar);
        let follow = relation_map(&follow_rel, &wk);
        Ok(LL1Parser { grammar, first, follow, table })
    }
}

/// One more snapshot before what follows.
pub open spec fn prepend<S>(s: S, r: Result<Seq<S>, Seq<char>>) -> Result<Seq<S>, Seq<char>> {
    match r {
        Ok(t) => Ok(seq![s] + t),
        Err(e) => Err(e),
    }
}

/// Several snapshots before what follows.
pub open spec fn prepend_all<S>(s: Seq<S>, r: Result<Seq<S>, Seq<char>>) -> Result<Seq<S>, Seq<char>> {
    match r {
        Ok(t) => Ok(s + t),
        Err(e) => Err(e),
    }
}

/// The right side as the action shows it: ` X` for each symbol `X`.
pub open spec fn spaced_texts(rhs: Seq<SpecSymbol>) -> Seq<char>
    decreases rhs.len(),
{
    if rhs.len() == 0 {
        Seq::empty()
    } else {
        spaced_texts(rhs.drop_last()) + " "@ + sym_text(rhs.last())
    }
}

/// What expanding a non-terminal pushes on the stack: the symbols of the
/// right side other than ϵ, last first, so that the first ends on top.
pub open spec fn pushed(rhs: Seq<SpecSymbol>) -> Seq<SpecSymbol>
    decreases rhs.len(),
{
    if rhs.len() == 0 {
        Seq::empty()
    } else if rhs[0] == SpecSymbol::Epsilon {
        pushed(rhs.drop_first())
    } else {
        pushed(rhs.drop_first()).push(rhs[0])
    }
}

pub open spec fn expands_to_nothing(rhs: Seq<SpecSymbol>) -> bool {
    rhs.len() == 0 || rhs[0] == SpecSymbol::Epsilon
}

/// The steps of the table-driven LL(1) parse from the given stack, input
/// position and step number (at most `fuel` of them).
pub open spec fn ll1_trace(
    skip_eps: bool,
    t: Map<(SpecSymbol, SpecSymbol), Seq<Symbol>>,
    input: Seq<Seq<char>>,
    stack: Seq<SpecSymbol>,
    pos: int,
    step: int,
    fuel: nat,
) -> Result<Seq<SpecSnapshot>, Seq<char>>
    decreases fuel,
{
    if fuel == 0 || stack.len() == 0 || !(0 <= pos < input.len()) {
        Ok(Seq::empty())
    } else {
        let top = stack.last();
        let cur = input[pos];
        let cur_sym = SpecSymbol::Terminal(cur);
        let rest = input.skip(pos);
        if top == cur_sym {
            if top == dollar() {
                Ok(seq![SpecSnapshot { step: step as usize, stack, input_remaining: rest, action: "Success!"@ }])
            } else {
                prepend(
                    SpecSnapshot { step: step as usize, stack, input_remaining: rest, action: "Match terminal: "@ + cur },
                    ll1_trace(skip_eps, t, input, stack.drop_last(), pos + 1, step + 1, (fuel - 1) as nat),
                )
            }
        } else if top is NonTerminal {
            if t.contains_key((top, cur_sym)) {
                let rhs = syms_view(t[(top, cur_sym)]);
                let action = if expands_to_nothing(rhs) {
                    sym_text(top) + " ->"@ + " ϵ"@
                } else {
                    sym_text(top) + " ->"@ + rhs_text(rhs, skip_eps)
                };
                let new_stack = if expands_to_nothing(rhs) {
                    stack.drop_last()
                } else {
                    stack.drop_last() + pushed(rhs)
                };
                prepend(
                    SpecSnapshot { step: step as usize, stack, input_remaining: rest, action },
                    ll1_trace(skip_eps, t, input, new_stack, pos, step + 1, (fuel - 1) as nat),
                )
            } else {
                Err("Syntax Error: No rule for ["@ + sym_text(top) + ", "@ + cur + "]"@)
            }
        } else {
            Err("Syntax Error: Unexpected terminal "@ + cur)
        }
    }
}

/// The input as the parser reads it: the tokens followed by `$`.
pub open spec fn with_end_marker(input: Seq<String>) -> Seq<Seq<char>> {
    strs_view(input).push("$"@)
}

/// The whole LL(1) parse of the tokens.
pub open spec fn ll1_parse_spec(skip_eps: bool, t: Map<(SpecSymbol, SpecSymbol), Seq<Symbol>>, start: SpecSymbol, input: Seq<String>) -> Result<Seq<SpecSnapshot>, Seq<char>> {
    ll1_trace(skip_eps, t, with_end_marker(input), seq![dollar(), start], 0, 0, (usize::MAX + 1) as nat)
}

/// `$` is in FOLLOW of the start symbol of an analyzed grammar.
pub proof fn follow_of_start_has_end_marker(p: LL1Parser)
    requires
        p.analyzed(),
    ensures
        p.follow@.contains_key(p.grammar@.start),
        p.follow@[p.grammar@.start].contains(dollar()),
{
    let g = p.grammar@;
    let f = first_relation(g);
    let fo = follow_relation(g, f);
    assert(follow_base(g, g.start, dollar()));
    assert(fo.contains((g.start, dollar())));
    assert(follow_key(g, g.start));
}

/// FIRST of a terminal is the terminal itself: for a terminal `t` on a right
/// side, the parser's FIRST sets hold `t` at `t`, and nothing else when the
/// left sides are all non-terminals.
pub proof fn first_of_terminal_is_itself(p: LL1Parser, t: SpecSymbol)
    requires
        p.analyzed(),
        t is Terminal,
        in_rhs(p.grammar@, t),
    ensures
        p.first@.contains_key(t),
        p.first@[t].contains(t),
        (forall|i: int| 0 <= i < p.grammar@.productions.len() ==> (#[trigger] p.grammar@.productions[i]).left is NonTerminal)
            ==> forall|y: SpecSymbol| #[trigger] p.first@[t].contains(y) ==> y == t,
{
    let g = p.grammar@;
    let f = first_relation(g);
    assert(first_base(g, t, t));
    assert(f.contains((t, t)));
    assert(first_key(g, t));
    if forall|i: int| 0 <= i < g.productions.len() ==> (#[trigger] g.productions[i]).left is NonTerminal {
        let r = f.filter(|q: (SpecSymbol, SpecSymbol)| q.0 != t || q.1 == t);
        assert(holds_first_base(g, r));
        assert forall|i: int, y: SpecSymbol| 0 <= i < g.productions.len() && #[trigger] in_seq_first(g.productions[i].right, r, y)
            implies r.contains((g.productions[i].left, y)) by {
            lemma_seq_first_mono(g.productions[i].right, r, f, y);
            assert(g.productions[i].left is NonTerminal);
        }
        assert(first_closed(g, r));
        assert(f.subset_of(r));
        assert forall|y: SpecSymbol| #[trigger] p.first@[t].contains(y) implies y == t by {
            assert(f.contains((t, y)));
            assert(r.contains((t, y)));
        }
    }
}

/// Direct left recursion beside another alternative is not LL(1): when `A`
/// has a production `A → A α` and another production `A → β` with a
/// terminal `x` in FIRST(β), both are chosen at `x`, so the table has a
/// conflict there (and `LL1Parser::new` refuses the grammar).
pub proof fn direct_left_recursion_is_not_ll1(g: SpecGrammar, i: int, j: int, x: SpecSymbol)
    requires
        0 <= i < g.productions.len(),
        0 <= j < g.productions.len(),
        g.productions[i].left == g.productions[j].left,
        g.productions[i].right.len() > 0,
        g.productions[i].right[0] == g.productions[i].left,
        g.productions[i].right != g.productions[j].right,
        x is Terminal,
        in_seq_first(g.productions[j].right, first_relation(g), x),
    ensures
        ll1_conflict_at(g, first_relation(g), follow_relation(g, first_relation(g)), i, j, x),
        has_ll1_conflict(g, first_relation(g), follow_relation(g, first_relation(g))),
{
    let f = first_relation(g);
    lemma_first_relation_exists(g);
    assert(f.contains((g.productions[j].left, x)));
    assert(in_seq_first(g.productions[i].right, f, x));
    assert(ll1_conflict_at(g, f, follow_relation(g, f), i, j, x));
}

/// Each cell `(A, x)` of the LL(1) table holds the right side α of a
/// production `A → α` chosen at `x`: `x ∈ FIRST(α)`, or `ϵ ∈ FIRST(α)` and
/// `x ∈ FOLLOW(A)`; and each such choice has its cell.
pub proof fn table_cells_are_chosen_productions(p: LL1Parser, a: SpecSymbol, x: SpecSymbol)
    requires
        p.analyzed(),
    ensures
        p.table@.contains_key((a, x)) <==> exists|i: int| 0 <= i < p.grammar@.productions.len()
            && p.grammar@.productions[i].left == a
            && #[trigger] selects(first_relation(p.grammar@), follow_relation(p.grammar@, first_relation(p.grammar@)), p.grammar@.productions[i], x),
        p.table@.contains_key((a, x)) ==> exists|i: int| 0 <= i < p.grammar@.productions.len()
            && p.grammar@.productions[i].left == a
            && #[trigger] selects(first_relation(p.grammar@), follow_relation(p.grammar@, first_relation(p.grammar@)), p.grammar@.productions[i], x)
            && syms_view(p.table@[(a, x)]) == p.grammar@.productions[i].right,
{
    let g = p.grammar@;
    let f = first_relation(g);
    let fo = follow_relation(g, f);
    if p.table@.contains_key((a, x)) {
        let i = choose|i: int| 0 <= i < g.productions.len() && g.productions[i].left == a && #[trigger] selects(f, fo, g.productions[i], x);
        assert(syms_view(p.table@[(g.productions[i].left, x)]) == g.productions[i].right);
    }
}


/// one per step, and there are at most `fuel` of them.
pub proof fn lemma_ll1_trace_steps(
    t: Map<(SpecSymbol, SpecSymbol), Seq<Symbol>>,
    input: Seq<Seq<char>>,
    stack: Seq<SpecSymbol>,
    pos: int,
    step: int,
    fuel: nat,
)
    requires
        0 <= step,
        step + fuel <= usize::MAX + 1,
    ensures
        ll1_trace(false, t, input, stack, pos, step, fuel) matches Ok(sn) ==> {
            &&& sn.len() <= fuel
            &&& forall|i: int| 0 <= i < sn.len() ==> (#[trigger] sn[i]).step == step + i
        },
    decreases fuel,
{
    if fuel > 0 && stack.len() > 0 && 0 <= pos < input.len() {
        let top = stack.last();
        let cur_sym = SpecSymbol::Terminal(input[pos]);
        if top == cur_sym {
            if top != dollar() {
                lemma_ll1_trace_steps(t, input, stack.drop_last(), pos + 1, step + 1, (fuel - 1) as nat);
            }
        } else if top is NonTerminal && t.contains_key((top, cur_sym)) {
            let rhs = syms_view(t[(top, cur_sym)]);
            let new_stack = if expands_to_nothing(rhs) {
                stack.drop_last()
            } else {
                stack.drop_last() + pushed(rhs)
            };
            lemma_ll1_trace_steps(t, input, new_stack, pos, step + 1, (fuel - 1) as nat);
        }
        match ll1_trace(false, t, input, stack, pos, step, fuel) {
            Ok(sn) => {
                assert forall|i: int| 0 <= i < sn.len() implies (#[trigger] sn[i]).step == step + i by {
                    if i > 0 {
                        assert(sn[i] == sn.drop_first()[i - 1]);
                    }
                }
            },
            Err(_) => {},
        }
    }
}

/// An LL(1) parse that succeeds starts with `$` and the start symbol on
/// the stack and the whole input, then `$`, to read, and numbers its
/// snapshots by step from 0.
pub proof fn ll1_snapshots_numbered(t: Map<(SpecSymbol, SpecSymbol), Seq<Symbol>>, start: SpecSymbol, input: Seq<String>)
    ensures
        ll1_parse_spec(false, t, start, input) matches Ok(sn) ==> {
            &&& sn.len() > 0
            &&& sn[0].stack == seq![dollar(), start]
            &&& sn[0].input_remaining == with_end_marker(input)
            &&& forall|i: int| 0 <= i < sn.len() ==> (#[trigger] sn[i]).step == i
        },
{
    let iv = with_end_marker(input);
    lemma_ll1_trace_steps(t, iv, seq![dollar(), start], 0, 0, (usize::MAX + 1) as nat);
    assert(iv.skip(0) =~= iv);
}

/// Each cell of the table holds the right side of a production of its row.
pub open spec fn cells_are_rights(g: SpecGrammar, t: Map<(SpecSymbol, SpecSymbol), Seq<Symbol>>) -> bool {
    forall|a: SpecSymbol, x: SpecSymbol| #[trigger] t.contains_key((a, x)) ==> exists|i: int|
        0 <= i < g.productions.len() && g.productions[i].left == a && #[trigger] g.productions[i].right == syms_view(t[(a, x)])
}

pub proof fn lemma_pushed_reverses(rhs: Seq<SpecSymbol>)
    requires
        forall|k: int| 0 <= k < rhs.len() ==> rhs[k] != SpecSymbol::Epsilon,
    ensures
        pushed(rhs).len() == rhs.len(),
        rev(pushed(rhs)) == rhs,
        forall|j: int| 0 <= j < rhs.len() ==> #[trigger] pushed(rhs)[j] == rhs[rhs.len() - 1 - j],
    decreases rhs.len(),
{
    if rhs.len() > 0 {
        let rest = rhs.drop_first();
        lemma_pushed_reverses(rest);
        let pr = pushed(rest).push(rhs[0]);
        assert(pr.drop_last() =~= pushed(rest));
        assert(seq![rhs[0]] + rest =~= rhs);
        assert forall|j: int| 0 <= j < rhs.len() implies #[trigger] pr[j] == rhs[rhs.len() - 1 - j] by {
            if j < rest.len() {
                assert(pr[j] == pushed(rest)[j]);
                assert(rest[rest.len() - 1 - j] == rhs[rhs.len() - 1 - j]);
            }
        }
    }
}

pub proof fn lemma_match_text_not_success(c: Seq<char>)
    ensures
        "Match terminal: "@ + c != "Success!"@,
{
    reveal_strlit("Match terminal: ");
    reveal_strlit("Success!");
    assert(("Match terminal: "@ + c)[0] == 'M');
    assert("Success!"@[0] == 'S');
}

pub proof fn lemma_expand_text_not_success(name: Seq<char>, rest: Seq<char>)
    ensures
        name + " ->"@ + rest != "Success!"@,
{
    reveal_strlit(" ->");
    reveal_strlit("Success!");
    let x = name + " ->"@ + rest;
    assert(x[name.len() as int] == ' ');
    assert(" ->"@.len() == 3);
    assert("Success!"@.len() == 8);
    assert(x.len() == name.len() + 3 + rest.len());
    if x == "Success!"@ {
        assert(name.len() < 8);
        assert(forall|j: int| 0 <= j < 8 ==> "Success!"@[j] != ' ');
    }
}

/// One step of a successful LL(1) run keeps the tokens read followed by the
/// stack (top first, `$` left out) a form derived from the start symbol;
/// so a run that ends in success has derived the tokens read.
pub proof fn lemma_ll1_trace_sound(
    g: SpecGrammar,
    t: Map<(SpecSymbol, SpecSymbol), Seq<Symbol>>,
    input: Seq<Seq<char>>,
    stack: Seq<SpecSymbol>,
    pos: int,
    step: int,
    fuel: nat,
    forms: Seq<Seq<SpecSymbol>>,
)
    requires
        cells_are_rights(g, t),
        eps_alone(g),
        !in_rhs(g, dollar()),
        stack.len() >= 1,
        stack[0] == dollar(),
        forall|j: int| 1 <= j < stack.len() ==> stack[j] != dollar(),
        0 <= pos <= input.len(),
        derivation_of(g, forms, seq![g.start], terminals_of(input.take(pos)) + rev(stack.drop_first())),
    ensures
        ll1_trace(false, t, input, stack, pos, step, fuel) matches Ok(sn) && sn.len() > 0 && sn.last().action == "Success!"@
            ==> exists|k: int, fs: Seq<Seq<SpecSymbol>>| 0 <= k < input.len() && input[k] == "$"@
                && #[trigger] derivation_of(g, fs, seq![g.start], terminals_of(input.take(k))),
    decreases fuel,
{
    if fuel == 0 || !(0 <= pos < input.len()) {
        return;
    }
    let top = stack.last();
    let cur = input[pos];
    let cur_sym = SpecSymbol::Terminal(cur);
    let d = stack.drop_first();
    let consumed = terminals_of(input.take(pos));
    if top == cur_sym {
        if top == dollar() {
            if stack.len() > 1 {
                assert(stack[stack.len() - 1] != dollar());
            }
            assert(d =~= Seq::<SpecSymbol>::empty());
            assert(consumed + rev(d) =~= consumed);
            assert(derivation_of(g, forms, seq![g.start], terminals_of(input.take(pos))));
        } else {
            let ns = stack.drop_last();
            assert(stack.len() >= 2);
            assert(ns.drop_first() =~= d.drop_last());
            assert(d.last() == top);
            assert(rev(d) == seq![top] + rev(d.drop_last()));
            assert(input.take(pos + 1) =~= input.take(pos).push(cur));
            assert(terminals_of(input.take(pos + 1)) =~= consumed.push(cur_sym));
            assert(terminals_of(input.take(pos + 1)) + rev(ns.drop_first()) =~= consumed + rev(d));
            lemma_ll1_trace_sound(g, t, input, ns, pos + 1, step + 1, (fuel - 1) as nat, forms);
            let rec = ll1_trace(false, t, input, ns, pos + 1, step + 1, (fuel - 1) as nat);
            let snap = SpecSnapshot { step: step as usize, stack, input_remaining: input.skip(pos), action: "Match terminal: "@ + cur };
            assert(ll1_trace(false, t, input, stack, pos, step, fuel) == prepend(snap, rec));
            if let Ok(sn2) = rec {
                let sn = seq![snap] + sn2;
                if sn2.len() > 0 {
                    assert(sn.last() == sn2.last());
                } else {
                    assert(sn.last() == snap);
                    lemma_match_text_not_success(cur);
                }
            }
        }
    } else if top is NonTerminal && t.contains_key((top, cur_sym)) {
        let rhs = syms_view(t[(top, cur_sym)]);
        let i = choose|i: int| 0 <= i < g.productions.len() && g.productions[i].left == top && #[trigger] g.productions[i].right == syms_view(t[(top, cur_sym)]);
        assert(g.productions[i].right == rhs);
        assert(stack.len() >= 2);
        assert(d.last() == top);
        assert(rev(d) == seq![top] + rev(d.drop_last()));
        let rest = rev(d.drop_last());
        let before = consumed + rev(d);
        let k = consumed.len() as int;
        assert(before =~= consumed + seq![top] + rest);
        assert(before.take(k) =~= consumed);
        assert(before[k] == top);
        assert(before.skip(k + 1) =~= rest);
        assert forall|q: int| 0 <= q < rhs.len() implies rhs[q] != dollar() by {
            if rhs[q] == dollar() {
                assert(g.productions[i].right[q] == dollar());
            }
        }
        let new_stack = if expands_to_nothing(rhs) {
            stack.drop_last()
        } else {
            stack.drop_last() + pushed(rhs)
        };
        let action = if expands_to_nothing(rhs) {
            sym_text(top) + " ->"@ + " ϵ"@
        } else {
            sym_text(top) + " ->"@ + spaced_texts(rhs)
        };
        if expands_to_nothing(rhs) {
            if rhs.len() > 0 {
                assert(g.productions[i].right[0] == SpecSymbol::Epsilon);
                assert(rhs =~= seq![SpecSymbol::Epsilon]);
            }
            assert(rhs_yield(rhs) =~= Seq::<SpecSymbol>::empty());
            assert(new_stack.drop_first() =~= d.drop_last());
        } else {
            assert forall|q: int| 0 <= q < rhs.len() implies rhs[q] != SpecSymbol::Epsilon by {
                if rhs[q] == SpecSymbol::Epsilon {
                    assert(g.productions[i].right[q] == SpecSymbol::Epsilon);
                    assert(rhs.len() == 1);
                }
            }
            lemma_pushed_reverses(rhs);
            assert(rhs != seq![SpecSymbol::Epsilon]) by {
                if rhs == seq![SpecSymbol::Epsilon] {
                    assert(rhs[0] == SpecSymbol::Epsilon);
                }
            }
            assert(rhs_yield(rhs) == rhs);
            assert(new_stack.drop_first() =~= d.drop_last() + pushed(rhs));
            lemma_rev_concat(d.drop_last(), pushed(rhs));
            assert forall|j: int| 1 <= j < new_stack.len() implies new_stack[j] != dollar() by {
                if j >= stack.len() - 1 {
                    let q = j - (stack.len() - 1);
                    assert(new_stack[j] == pushed(rhs)[q]);
                    assert(pushed(rhs)[q] == rhs[rhs.len() - 1 - q]);
                } else {
                    assert(new_stack[j] == stack[j]);
                }
            }
        }
        let after = consumed + rhs_yield(g.productions[i].right) + rest;
        assert(consumed + rev(new_stack.drop_first()) =~= after);
        assert(step_at(g, before, after, k, i));
        lemma_derivation_extend(g, forms, seq![g.start], before, after);
        lemma_ll1_trace_sound(g, t, input, new_stack, pos, step + 1, (fuel - 1) as nat, forms.push(after));
        let rec = ll1_trace(false, t, input, new_stack, pos, step + 1, (fuel - 1) as nat);
        let snap = SpecSnapshot { step: step as usize, stack, input_remaining: input.skip(pos), action };
        assert(ll1_trace(false, t, input, stack, pos, step, fuel) == prepend(snap, rec));
        if let Ok(sn2) = rec {
            let sn = seq![snap] + sn2;
            if sn2.len() > 0 {
                assert(sn.last() == sn2.last());
            } else {
                assert(sn.last() == snap);
                if expands_to_nothing(rhs) {
                    lemma_expand_text_not_success(sym_text(top), " ϵ"@);
                } else {
                    lemma_expand_text_not_success(sym_text(top), spaced_texts(rhs));
                }
            }
        }
    }
}

/// An LL(1) parse that succeeds has found a derivation: the tokens it read
/// before the end marker are derived from the start symbol. (This needs
/// `$` to be no symbol of the grammar, and `ϵ` to stand alone on a right
/// side.)
pub proof fn ll1_success_derives_input(p: LL1Parser, input: Seq<String>)
    requires
        p.analyzed(),
        eps_alone(p.grammar@),
        !in_rhs(p.grammar@, dollar()),
        p.grammar@.start != dollar(),
    ensures
        ll1_parse_spec(false, p.table@, p.grammar@.start, input) matches Ok(sn) && sn.len() > 0 && sn.last().action == "Success!"@
            ==> exists|k: int| 0 <= k <= input.len() && with_end_marker(input)[k] == "$"@
                && derives(p.grammar@, seq![p.grammar@.start], terminals_of(strs_view(input).take(k))),
{
    let g = p.grammar@;
    let f = first_relation(g);
    let fo = follow_relation(g, f);
    let t = p.table@;
    assert forall|a: SpecSymbol, x: SpecSymbol| #[trigger] t.contains_key((a, x)) implies exists|i: int|
        0 <= i < g.productions.len() && g.productions[i].left == a && #[trigger] g.productions[i].right == syms_view(t[(a, x)]) by {
        let i = choose|i: int| 0 <= i < g.productions.len() && g.productions[i].left == a && #[trigger] selects(f, fo, g.productions[i], x);
        assert(syms_view(t[(g.productions[i].left, x)]) == g.productions[i].right);
    }
    let iv = with_end_marker(input);
    let stack = seq![dollar(), g.start];
    assert(iv.take(0) =~= Seq::<Seq<char>>::empty());
    assert(terminals_of(iv.take(0)) =~= Seq::<SpecSymbol>::empty());
    assert(stack.drop_first() =~= seq![g.start]);
    assert(rev(seq![g.start]) =~= seq![g.start]) by {
        assert(seq![g.start].drop_last() =~= Seq::<SpecSymbol>::empty());
        assert(rev(Seq::<SpecSymbol>::empty()) =~= Seq::<SpecSymbol>::empty());
        assert(seq![g.start].last() == g.start);
    }
    assert(terminals_of(iv.take(0)) + rev(stack.drop_first()) =~= seq![g.start]);
    assert(derivation_of(g, seq![seq![g.start]], seq![g.start], seq![g.start]));
    lemma_ll1_trace_sound(g, t, iv, stack, 0, 0, (usize::MAX + 1) as nat, seq![seq![g.start]]);
    if let Ok(sn) = ll1_parse_spec(false, t, g.start, input) {
        if sn.len() > 0 && sn.last().action == "Success!"@ {
            let (k, fs) = choose|k: int, fs: Seq<Seq<SpecSymbol>>| 0 <= k < iv.len() && iv[k] == "$"@
                && #[trigger] derivation_of(g, fs, seq![g.start], terminals_of(iv.take(k)));
            assert(iv.take(k) =~= strs_view(input).take(k));
            assert(derivation_of(g, fs, seq![g.start], terminals_of(strs_view(input).take(k))));
        }
    }
}

/// The right side as the action shows it with its `ϵ` symbols left out.
pub open spec fn spaced_texts_skip_eps(rhs: Seq<SpecSymbol>) -> Seq<char>
    decreases rhs.len(),
{
    if rhs.len() == 0 {
        Seq::empty()
    } else if rhs.last() == SpecSymbol::Epsilon {
        spaced_texts_skip_eps(rhs.drop_last())
    } else {
        spaced_texts_skip_eps(rhs.drop_last()) + " "@ + sym_text(rhs.last())
    }
}

/// The right side as an expansion step shows it: every symbol for `parse`,
/// the symbols other than `ϵ` for `parse_with_tree`.
pub open spec fn rhs_text(rhs: Seq<SpecSymbol>, skip_eps: bool) -> Seq<char> {
    if skip_eps {
        spaced_texts_skip_eps(rhs)
    } else {
        spaced_texts(rhs)
    }
}

/// The symbols pushed when expanding by `rhs`.
fn push_expansion(stack: &mut Vec<Symbol>, rhs: &Vec<Symbol>)
    ensures
        syms_view(final(stack)@) == syms_view(old(stack)@) + pushed(syms_view(rhs@)),
{
    let ghost rv = syms_view(rhs@);
    let ghost base = syms_view(stack@);
    let mut i = rhs.len();
    assert(rv.skip(rhs@.len() as int) =~= Seq::<SpecSymbol>::empty());
    assert(base + pushed(rv.skip(i as int)) =~= base);
    while i > 0
        invariant
            rv == syms_view(rhs@),
            i <= rhs@.len(),
            syms_view(stack@) == base + pushed(rv.skip(i as int)),
        decreases i,
    {
        let ghost before = stack@;
        assert(rv.skip(i - 1).drop_first() =~= rv.skip(i as int));
        assert(rv.skip(i - 1)[0] == rhs@[i - 1]@);
        if !rhs[i - 1].is_epsilon() {
            stack.push(rhs[i - 1].copy());
            assert(syms_view(stack@) =~= syms_view(before).push(rhs@[i - 1]@));
        }
        i -= 1;
    }
    assert(rv.skip(0) =~= rv);
}

/// The action text of an expansion `top -> rhs`.
pub(crate) fn expansion_action(skip_eps: bool, top: &Symbol, rhs: &Vec<Symbol>) -> (a: String)
    ensures
        a@ == if expands_to_nothing(syms_view(rhs@)) {
            sym_text(top@) + " ->"@ + " ϵ"@
        } else {
            sym_text(top@) + " ->"@ + rhs_text(syms_view(rhs@), skip_eps)
        },
{
    let ghost rv = syms_view(rhs@);
    let t = top.to_text();
    let mut a = concat(t.as_str(), " ->");
    if rhs.len() == 0 || rhs[0].is_epsilon() {
        a.append(" ϵ");
        return a;
    }
    let ghost base = a@;
    let mut i: usize = 0;
    assert(rv.take(0) =~= Seq::<SpecSymbol>::empty());
    while i < rhs.len()
        invariant
            rv == syms_view(rhs@),
            i <= rhs@.len(),
            a@ == base + rhs_text(rv.take(i as int), skip_eps),
        decreases rhs.len() - i,
    {
        assert(rv.take(i + 1).drop_last() =~= rv.take(i as int));
        assert(rv.take(i + 1).last() == rhs@[i as int]@);
        if !(skip_eps && rhs[i].is_epsilon()) {
            let s = rhs[i].to_text();
            a.append(" ");
            a.append(s.as_str());
        }
        assert(a@ =~= base + rhs_text(rv.take(i + 1), skip_eps));
        i += 1;
    }
    assert(rv.take(rhs@.len() as int) =~= rv);
    a
}

impl Parser for LL1Parser {
    open spec fn ready(&self) -> bool {
        self.wf()
    }

    /// Simulates the LL(1) parse of the tokens (see `ll1_trace`): `$` and
    /// the start symbol on the stack; a terminal on top must match the next
    /// token; a non-terminal on top is expanded by the table.
    fn parse(&self, input: Vec<String>) -> (r: Result<Vec<ParseSnapshot>, String>)
        ensures
            match r {
                Ok(v) => ll1_parse_spec(false, self.table@, self.grammar.start_symbol@, input@) == Ok::<Seq<SpecSnapshot>, Seq<char>>(views(v@)),
                Err(e) => ll1_parse_spec(false, self.table@, self.grammar.start_symbol@, input@) == Err::<Seq<SpecSnapshot>, Seq<char>>(e@),
            },
    {
        let ghost full = ll1_parse_spec(false, self.table@, self.grammar.start_symbol@, input@);
        let ghost t = self.table@;
        let mut toks = input;
        let ghost iv = with_end_marker(toks@);
        toks.push(String::from_str("$"));
        assert(strs_view(toks@) =~= iv);
        let mut stack: Vec<Symbol> = Vec::new();
        stack.push(Symbol::Terminal(String::from_str("$")));
        stack.push(self.grammar.start_symbol.copy());
        assert(syms_view(stack@) =~= seq![dollar(), self.grammar.start_symbol@]);
        let mut snapshots: Vec<ParseSnapshot> = Vec::new();
        let mut step: usize = 0;
        let mut ptr: usize = 0;
        assert(views(snapshots@) =~= Seq::<SpecSnapshot>::empty());
        while stack.len() > 0
            invariant
                t == self.table@,
                self.wf(),
                full == ll1_parse_spec(false, self.table@, self.grammar.start_symbol@, input@),
                iv == strs_view(toks@),
                iv.last() == "$"@,
                toks@.len() > 0,
                ptr < toks@.len(),
                step == snapshots@.len(),
                full == prepend_all(views(snapshots@), ll1_trace(false, t, iv, syms_view(stack@), ptr as int, step as int, (usize::MAX + 1 - step) as nat)),
            decreases usize::MAX - step,
        {
            let ghost fuel = (usize::MAX + 1 - step) as nat;
            let ghost sv = syms_view(stack@);
            let ghost before = snapshots@;
            let top = stack[stack.len() - 1].copy();
            assert(sv.last() == top@);
            let cur = toks[ptr].clone();
            let cur_sym = Symbol::Terminal(cur.clone());
            assert(iv[ptr as int] == cur@);
            let rest = copy_strings_from(&toks, ptr);
            assert(strs_view(rest@) =~= iv.skip(ptr as int));
            let stack_copy = copy_symbols(&stack);
            if top.same(&cur_sym) {
                if top.same(&Symbol::Terminal(String::from_str("$"))) {
                    let snap = ParseSnapshot { step, stack: stack_copy, input_remaining: rest, action: String::from_str("Success!") };
                    snapshots.push(snap);
                    assert(snapshots@.len() == snapshots.len());
                    assert(fuel > 0);
                    assert(snap@ == SpecSnapshot { step: step as usize, stack: sv, input_remaining: iv.skip(ptr as int), action: "Success!"@ });
                    assert(ll1_trace(false, t, iv, sv, ptr as int, step as int, fuel) == Ok::<Seq<SpecSnapshot>, Seq<char>>(seq![snap@]));
                    assert(views(snapshots@) =~= views(before).push(snap@));
                    assert(views(snapshots@) =~= views(before) + seq![snap@]);
                    assert(full == Ok::<Seq<SpecSnapshot>, Seq<char>>(views(snapshots@)));
                    return Ok(snapshots);
                }
                let snap = ParseSnapshot { step, stack: stack_copy, input_remaining: rest, action: concat("Match terminal: ", cur.as_str()) };
                snapshots.push(snap);
                assert(snapshots@.len() == snapshots.len());
                assert(toks@.len() == toks.len());
                assert(views(snapshots@) =~= views(before).push(snap@));
                assert(ptr + 1 < toks@.len()) by {
                    assert(iv.last() == "$"@);
                    if ptr + 1 == toks@.len() {
                        assert(cur@ == "$"@);
                    }
                }
                stack.pop();
                assert(syms_view(stack@) =~= sv.drop_last());
                ptr += 1;
                step += 1;
                assert(views(snapshots@) + Seq::empty() =~= views(before) + seq![snap@]);
                proof {
                    let tail = ll1_trace(false, t, iv, syms_view(stack@), ptr as int, step as int, (usize::MAX + 1 - step) as nat);
                    assert(prepend_all(views(snapshots@), tail) == prepend_all(views(before), prepend(snap@, tail))) by {
                        match tail {
                            Ok(tl) => { assert(views(snapshots@) + tl =~= views(before) + (seq![snap@] + tl)); },
                            Err(_) => {},
                        }
                    }
                }
            } else if top.is_nonterminal() {
                let key = (top.copy(), cur_sym.copy());
                match self.table.get(&key) {
                    Some(rhs) => {
                        let action = expansion_action(false, &top, rhs);
                        let snap = ParseSnapshot { step, stack: stack_copy, input_remaining: rest, action };
                        snapshots.push(snap);
                        assert(snapshots@.len() == snapshots.len());
                        assert(views(snapshots@) =~= views(before).push(snap@));
                        stack.pop();
                        assert(syms_view(stack@) =~= sv.drop_last());
                        if !(rhs.len() == 0 || rhs[0].is_epsilon()) {
                            push_expansion(&mut stack, rhs);
                        }
                        step += 1;
                        proof {
                            let tail = ll1_trace(false, t, iv, syms_view(stack@), ptr as int, step as int, (usize::MAX + 1 - step) as nat);
                            assert(prepend_all(views(snapshots@), tail) == prepend_all(views(before), prepend(snap@, tail))) by {
                                match tail {
                                    Ok(tl) => { assert(views(snapshots@) + tl =~= views(before) + (seq![snap@] + tl)); },
                                    Err(_) => {},
                                }
                            }
                        }
                    },
                    None => {
                        let tt = top.to_text();
                        let mut msg = concat("Syntax Error: No rule for [", tt.as_str());
                        msg.append(", ");
                        msg.append(cur.as_str());
                        msg.append("]");
                        return Err(msg);
                    },
                }
            } else {
                let msg = concat("Syntax Error: Unexpected terminal ", cur.as_str());
                assert(fuel > 0);
                assert(ll1_trace(false, t, iv, sv, ptr as int, step as int, fuel) == Err::<Seq<SpecSnapshot>, Seq<char>>(msg@));
                return Err(msg);
            }
        }
        assert(syms_view(stack@).len() == 0);
        assert(views(snapshots@) + Seq::empty() =~= views(snapshots@));
        Ok(snapshots)
    }
}

} // verus!
