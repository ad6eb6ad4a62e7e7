//! FIRST and FOLLOW sets keyed by symbol names, as the SLR(1) and LR(1)
//! parsers use them: the token `ε` marks that the empty string is derived.

use vstd::prelude::*;
use crate::collections::{VecSet, VecMap};
use crate::symbols::{Symbol, SpecSymbol, Production, SpecProduction, syms_view, prods_view, sym_text, is_epsilon_rhs};
use crate::ll1::lemma_seq_push_contains;

verus! {

/// A relation between names: `(x, y)` holds when the token `y` is in the set of `x`.
pub type StrRel = Set<(Seq<char>, Seq<char>)>;

/// The token that stands for the empty string.
pub open spec fn eps_token() -> Seq<char> {
    "ε"@
}

/// The name of a non-terminal (empty for other symbols).
pub open spec fn nt_name(s: SpecSymbol) -> Seq<char> {
    match s {
        SpecSymbol::NonTerminal(n) => n,
        _ => Seq::empty(),
    }
}

/// Whether `y` is in FIRST of the sequence `s`, given the FIRST sets of the
/// non-terminals in `r`: a terminal gives itself and stops; ϵ gives `ε` and
/// stops; a non-terminal gives its tokens other than `ε`, and lets the next
/// symbols count when `ε` is among them; the end gives `ε`.
pub open spec fn str_first(s: Seq<SpecSymbol>, r: StrRel, y: Seq<char>) -> bool
    decreases s.len(),
{
    if s.len() == 0 {
        y == eps_token()
    } else {
        match s[0] {
            SpecSymbol::Terminal(t) => y == t,
            SpecSymbol::Epsilon => y == eps_token(),
            SpecSymbol::NonTerminal(n) => (y != eps_token() && r.contains((n, y))) || (r.contains((n, eps_token()))
                && str_first(s.drop_first(), r, y)),
        }
    }
}

/// The pairs the FIRST relation starts from: `t ∈ FIRST(t)` for the
/// terminals of right sides, `ε ∈ FIRST(A)` for the ϵ-productions of `A`.
pub open spec fn sfirst_base(g: Seq<SpecProduction>, x: Seq<char>, y: Seq<char>) -> bool {
    ||| (y == x && exists|i: int, k: int| 0 <= i < g.len() && 0 <= k < g[i].right.len()
        && #[trigger] g[i].right[k] == SpecSymbol::Terminal(x))
    ||| (y == eps_token() && exists|i: int| 0 <= i < g.len() && #[trigger] g[i].left == SpecSymbol::NonTerminal(x)
        && is_epsilon_rhs(g[i].right))
}

pub open spec fn holds_sfirst_base(g: Seq<SpecProduction>, r: StrRel) -> bool {
    forall|x: Seq<char>, y: Seq<char>| sfirst_base(g, x, y) ==> #[trigger] r.contains((x, y))
}

/// For every production `A → α` (not an ϵ-production), FIRST(α) ⊆ FIRST(A).
pub open spec fn sfirst_closed(g: Seq<SpecProduction>, r: StrRel) -> bool {
    forall|i: int, y: Seq<char>|
        0 <= i < g.len() && g[i].left is NonTerminal && !is_epsilon_rhs(g[i].right) && #[trigger] str_first(g[i].right, r, y)
            ==> r.contains((nt_name(g[i].left), y))
}

/// `r` is the least relation that holds the base pairs and is closed.
pub open spec fn is_sfirst(g: Seq<SpecProduction>, r: StrRel) -> bool {
    &&& holds_sfirst_base(g, r)
    &&& sfirst_closed(g, r)
    &&& forall|r2: StrRel| #![trigger sfirst_closed(g, r2)] holds_sfirst_base(g, r2) && sfirst_closed(g, r2) ==> r.subset_of(r2)
}

/// The FIRST relation of the productions.
pub open spec fn sfirst(g: Seq<SpecProduction>) -> StrRel {
    choose|r: StrRel| is_sfirst(g, r)
}

pub proof fn lemma_sfirst(g: Seq<SpecProduction>, r: StrRel)
    requires
        is_sfirst(g, r),
    ensures
        sfirst(g) == r,
{
    let c = sfirst(g);
    assert(is_sfirst(g, c));
    assert(c.subset_of(r));
    assert(r.subset_of(c));
    assert(c =~= r);
}

pub proof fn lemma_str_first_mono(s: Seq<SpecSymbol>, r1: StrRel, r2: StrRel, y: Seq<char>)
    requires
        r1.subset_of(r2),
        str_first(s, r1, y),
    ensures
        str_first(s, r2, y),
    decreases s.len(),
{
    if s.len() > 0 {
        match s[0] {
            SpecSymbol::NonTerminal(n) => {
                if !(y != eps_token() && r1.contains((n, y))) {
                    lemma_str_first_mono(s.drop_first(), r1, r2, y);
                }
            },
            _ => {},
        }
    }
}

/// The tokens `y` with `(x, y)` in `rel`, added to `out`.
fn collect_tokens(rel: &VecSet<(String, String)>, x: &String, out: &mut VecSet<String>)
    requires
        old(out).wf(),
    ensures
        final(out).wf(),
        forall|y: Seq<char>| #[trigger] final(out)@.contains(y) <==> (old(out)@.contains(y) || rel@.contains((x@, y))),
{
    let mut m: usize = 0;
    while m < rel.items.len()
        invariant
            out.wf(),
            m <= rel.items@.len(),
            forall|y: Seq<char>| #[trigger] out@.contains(y) <==> (old(out)@.contains(y) || exists|q: int|
                0 <= q < m && rel@[q] == (x@, y)),
        decreases rel.items.len() - m,
    {
        let pair = &rel.items[m];
        assert(rel@[m as int] == (pair.0@, pair.1@));
        let ghost before = out@;
        if pair.0 == *x {
            out.insert(pair.1.clone());
        }
        assert forall|y: Seq<char>| #[trigger] out@.contains(y) <==> (old(out)@.contains(y) || exists|q: int|
            0 <= q < m + 1 && rel@[q] == (x@, y)) by {
            lemma_seq_push_contains(before, pair.1@, y);
            if exists|q: int| 0 <= q < m + 1 && rel@[q] == (x@, y) {
                let q = choose|q: int| 0 <= q < m + 1 && rel@[q] == (x@, y);
                if q < m {
                    assert(exists|q2: int| 0 <= q2 < m && rel@[q2] == (x@, y));
                }
            }
        }
        m += 1;
    }
    assert forall|y: Seq<char>| #[trigger] out@.contains(y) <==> (old(out)@.contains(y) || rel@.contains((x@, y))) by {
        if rel@.contains((x@, y)) {
            let q = choose|q: int| 0 <= q < rel@.len() && rel@[q] == (x@, y);
        }
    }
}

pub proof fn lemma_str_first_unfold(s: Seq<SpecSymbol>, k: int, r: StrRel, y: Seq<char>)
    requires
        0 <= k < s.len(),
    ensures
        s.skip(k)[0] == s[k],
        s.skip(k).drop_first() == s.skip(k + 1),
{
    assert(s.skip(k).drop_first() =~= s.skip(k + 1));
}

/// What is known of FIRST(s[start..]) once the symbols before `k` are read.
pub open spec fn str_first_progress(sv: Seq<SpecSymbol>, start: int, r: StrRel, out: Seq<Seq<char>>, k: int) -> bool {
    forall|y: Seq<char>| y != eps_token() ==> (str_first(sv.skip(start), r, y) <==> (
        #[trigger] out.contains(y) || str_first(sv.skip(k), r, y)))
}

/// FIRST of `s[start..]` (see `str_first`), given the relation `rel`.
pub fn str_first_of(rel: &VecSet<(String, String)>, s: &Vec<Symbol>, start: usize) -> (out: VecSet<String>)
    requires
        start <= s@.len(),
    ensures
        out.wf(),
        forall|y: Seq<char>| #[trigger] out@.contains(y) <==> str_first(syms_view(s@).skip(start as int), rel@.to_set(), y),
{
    let ghost sv = syms_view(s@);
    let ghost r = rel@.to_set();
    let mut out: VecSet<String> = VecSet::new();
    let mut k = start;
    while k < s.len()
        invariant
            sv == syms_view(s@),
            r == rel@.to_set(),
            start <= k <= s@.len(),
            out.wf(),
            !out@.contains(eps_token()),
            str_first_progress(sv, start as int, r, out@, k as int),
            str_first(sv.skip(start as int), r, eps_token()) <==> str_first(sv.skip(k as int), r, eps_token()),
        decreases s.len() - k,
    {
        assert(sv[k as int] == s@[k as int]@);
        proof {
            lemma_str_first_unfold(sv, k as int, r, eps_token());
        }
        let ghost before = out@;
        match &s[k] {
            Symbol::Terminal(t) => {
                out.insert(t.clone());
                assert forall|y: Seq<char>| #[trigger] out@.contains(y) <==> str_first(sv.skip(start as int), r, y) by {
                    lemma_seq_push_contains(before, t@, y);
                }
                return out;
            },
            Symbol::Epsilon => {
                out.insert(String::from_str("ε"));
                assert forall|y: Seq<char>| #[trigger] out@.contains(y) <==> str_first(sv.skip(start as int), r, y) by {
                    lemma_seq_push_contains(before, eps_token(), y);
                }
                return out;
            },
            Symbol::NonTerminal(n) => {
                let mut all: VecSet<String> = VecSet::new();
                collect_tokens(rel, n, &mut all);
                let eps = String::from_str("ε");
                let has_eps = all.contains(&eps);
                let mut m: usize = 0;
                while m < all.items.len()
                    invariant
                        out.wf(),
                        m <= all@.len(),
                        eps@ == eps_token(),
                        !out@.contains(eps_token()),
                        forall|y: Seq<char>| #[trigger] out@.contains(y) <==> (before.contains(y) || exists|q: int|
                            0 <= q < m && all@[q] == y && y != eps_token()),
                    decreases all.items.len() - m,
                {
                    let ghost b2 = out@;
                    assert(all@[m as int] == all.items@[m as int]@);
                    if all.items[m] != eps {
                        out.insert(all.items[m].clone());
                    }
                    assert forall|y: Seq<char>| #[trigger] out@.contains(y) <==> (before.contains(y) || exists|q: int|
                        0 <= q < m + 1 && all@[q] == y && y != eps_token()) by {
                        lemma_seq_push_contains(b2, all@[m as int], y);
                        if exists|q: int| 0 <= q < m + 1 && all@[q] == y && y != eps_token() {
                            let q = choose|q: int| 0 <= q < m + 1 && all@[q] == y && y != eps_token();
                            if q < m {
                                assert(exists|q2: int| 0 <= q2 < m && all@[q2] == y && y != eps_token());
                            }
                        }
                    }
                    proof {
                        lemma_seq_push_contains(b2, all@[m as int], eps_token());
                    }
                    m += 1;
                }
                assert forall|y: Seq<char>| y != eps_token() implies (#[trigger] out@.contains(y) <==> (before.contains(y)
                    || r.contains((n@, y)))) by {
                    if all@.contains(y) {
                        let q = choose|q: int| 0 <= q < all@.len() && all@[q] == y;
                    }
                    assert(rel@.contains((n@, y)) == r.contains((n@, y)));
                }
                assert(rel@.contains((n@, eps_token())) == r.contains((n@, eps_token())));
                assert(has_eps == r.contains((n@, eps_token())));
                assert(sv.skip(k as int)[0] == SpecSymbol::NonTerminal(n@));
                assert(sv.skip(k as int).drop_first() == sv.skip(k + 1));
                assert forall|y: Seq<char>| #[trigger] str_first(sv.skip(k as int), r, y) == ((y != eps_token() && r.contains((n@, y)))
                    || (r.contains((n@, eps_token())) && str_first(sv.skip(k + 1), r, y))) by {}
                if !has_eps {
                    assert forall|y: Seq<char>| #[trigger] out@.contains(y) <==> str_first(sv.skip(start as int), r, y) by {
                        assert(before.contains(y) || !before.contains(y));
                        assert(str_first(sv.skip(k as int), r, y) == ((y != eps_token() && r.contains((n@, y)))
                            || (r.contains((n@, eps_token())) && str_first(sv.skip(k + 1), r, y))));
                    }
                    return out;
                }
                assert forall|y: Seq<char>| y != eps_token() implies (str_first(sv.skip(start as int), r, y) <==> (
                    #[trigger] out@.contains(y) || str_first(sv.skip(k + 1), r, y))) by {
                    assert(before.contains(y) || !before.contains(y));
                    assert(str_first(sv.skip(k as int), r, y) == ((y != eps_token() && r.contains((n@, y)))
                        || (r.contains((n@, eps_token())) && str_first(sv.skip(k + 1), r, y))));
                }
                assert(str_first_progress(sv, start as int, r, out@, k + 1));
                k += 1;
            },
        }
    }
    assert(sv.skip(k as int).len() == 0);
    let ghost before = out@;
    out.insert(String::from_str("ε"));
    assert forall|y: Seq<char>| #[trigger] out@.contains(y) <==> str_first(sv.skip(start as int), r, y) by {
        lemma_seq_push_contains(before, eps_token(), y);
    }
    out
}

/// The base pairs of the FIRST relation.
fn sfirst_base_pairs(prods: &Vec<Production>) -> (rel: VecSet<(String, String)>)
    ensures
        rel.wf(),
        holds_sfirst_base(prods_view(prods@), rel@.to_set()),
        forall|e: (Seq<char>, Seq<char>)| #[trigger] rel@.contains(e) ==> sfirst_base(prods_view(prods@), e.0, e.1),
{
    let ghost g = prods_view(prods@);
    let mut rel: VecSet<(String, String)> = VecSet::new();
    let mut i: usize = 0;
    while i < prods.len()
        invariant
            g == prods_view(prods@),
            rel.wf(),
            i <= g.len(),
            forall|e: (Seq<char>, Seq<char>)| #[trigger] rel@.contains(e) ==> sfirst_base(g, e.0, e.1),
            forall|i2: int, k2: int|
                0 <= i2 < i && 0 <= k2 < g[i2].right.len() && (#[trigger] g[i2].right[k2]) is Terminal
                    ==> rel@.contains((sym_text(g[i2].right[k2]), sym_text(g[i2].right[k2]))),
            forall|i2: int| 0 <= i2 < i && (#[trigger] g[i2].left) is NonTerminal && is_epsilon_rhs(g[i2].right)
                ==> rel@.contains((nt_name(g[i2].left), eps_token())),
        decreases prods.len() - i,
    {
        let p = &prods[i];
        assert(g[i as int] == p@);
        let mut k: usize = 0;
        while k < p.right.len()
            invariant
                g == prods_view(prods@),
                rel.wf(),
                i < g.len(),
                g[i as int] == p@,
                k <= p.right@.len(),
                forall|e: (Seq<char>, Seq<char>)| #[trigger] rel@.contains(e) ==> sfirst_base(g, e.0, e.1),
                forall|i2: int, k2: int|
                    0 <= i2 < i && 0 <= k2 < g[i2].right.len() && (#[trigger] g[i2].right[k2]) is Terminal
                        ==> rel@.contains((sym_text(g[i2].right[k2]), sym_text(g[i2].right[k2]))),
                forall|i2: int| 0 <= i2 < i && (#[trigger] g[i2].left) is NonTerminal && is_epsilon_rhs(g[i2].right)
                    ==> rel@.contains((nt_name(g[i2].left), eps_token())),
                forall|k2: int| 0 <= k2 < k && (#[trigger] p@.right[k2]) is Terminal
                    ==> rel@.contains((sym_text(p@.right[k2]), sym_text(p@.right[k2]))),
            decreases p.right.len() - k,
        {
            assert(p@.right[k as int] == p.right@[k as int]@);
            let ghost before = rel@;
            match &p.right[k] {
                Symbol::Terminal(t) => {
                    assert(g[i as int].right[k as int] == SpecSymbol::Terminal(t@));
                    rel.insert((t.clone(), t.clone()));
                    proof {
                        lemma_seq_push_contains(before, (t@, t@), (t@, t@));
                    }
                },
                _ => {},
            }
            assert forall|e: (Seq<char>, Seq<char>)| #[trigger] rel@.contains(e) implies sfirst_base(g, e.0, e.1) by {
                lemma_seq_push_contains(before, (nt_name(p@.right[k as int]), nt_name(p@.right[k as int])), e);
                if !before.contains(e) {
                    if let Symbol::Terminal(t) = &p.right[k as int] {
                        lemma_seq_push_contains(before, (t@, t@), e);
                        assert(g[i as int].right[k as int] == SpecSymbol::Terminal(e.0));
                    }
                }
            }
            assert forall|e: (Seq<char>, Seq<char>)| before.contains(e) implies #[trigger] rel@.contains(e) by {
                if let Symbol::Terminal(t) = &p.right[k as int] {
                    lemma_seq_push_contains(before, (t@, t@), e);
                }
            }
            k += 1;
        }
        if p.is_epsilon_production() {
            if let Symbol::NonTerminal(a) = &p.left {
                let ghost before = rel@;
                rel.insert((a.clone(), String::from_str("ε")));
                proof {
                    lemma_seq_push_contains(before, (a@, eps_token()), (a@, eps_token()));
                    assert(g[i as int].left == SpecSymbol::NonTerminal(a@));
                }
                assert forall|e: (Seq<char>, Seq<char>)| #[trigger] rel@.contains(e) implies sfirst_base(g, e.0, e.1) by {
                    lemma_seq_push_contains(before, (a@, eps_token()), e);
                }
                assert forall|e: (Seq<char>, Seq<char>)| before.contains(e) implies #[trigger] rel@.contains(e) by {
                    lemma_seq_push_contains(before, (a@, eps_token()), e);
                }
            }
        }
        i += 1;
    }
    assert forall|x: Seq<char>, y: Seq<char>| sfirst_base(g, x, y) implies #[trigger] rel@.to_set().contains((x, y)) by {
        if y == x && exists|i: int, k: int| 0 <= i < g.len() && 0 <= k < g[i].right.len() && #[trigger] g[i].right[k] == SpecSymbol::Terminal(x) {
            let (i2, k2) = choose|i: int, k: int| 0 <= i < g.len() && 0 <= k < g[i].right.len() && #[trigger] g[i].right[k] == SpecSymbol::Terminal(x);
            assert(sym_text(g[i2].right[k2]) == x);
            assert(rel@.contains((x, x)));
        } else {
            let i2 = choose|i: int| 0 <= i < g.len() && #[trigger] g[i].left == SpecSymbol::NonTerminal(x) && is_epsilon_rhs(g[i].right);
            assert(nt_name(g[i2].left) == x);
            assert(rel@.contains((x, eps_token())));
        }
    }
    rel
}

/// Every pair of `rel` lies in every closed relation that holds the base.
pub open spec fn sfirst_sound(g: Seq<SpecProduction>, rel: Seq<(Seq<char>, Seq<char>)>) -> bool {
    forall|r2: StrRel| #![trigger sfirst_closed(g, r2)] holds_sfirst_base(g, r2) && sfirst_closed(g, r2) ==> rel.to_set().subset_of(r2)
}

/// The FIRST relation of the productions, by iteration to a fixed point.
pub fn sfirst_pairs(prods: &Vec<Production>) -> (rel: VecSet<(String, String)>)
    ensures
        rel.wf(),
        rel@.to_set() == sfirst(prods_view(prods@)),
{
    let ghost g = prods_view(prods@);
    let mut rel = sfirst_base_pairs(prods);
    assert(sfirst_sound(g, rel@)) by {
        assert forall|r2: StrRel| #![trigger sfirst_closed(g, r2)] holds_sfirst_base(g, r2) && sfirst_closed(g, r2) implies rel@.to_set().subset_of(r2) by {
            assert forall|e: (Seq<char>, Seq<char>)| rel@.to_set().contains(e) implies r2.contains(e) by {
                assert(sfirst_base(g, e.0, e.1));
            }
        }
    }
    let mut changed = true;
    while changed
        invariant
            g == prods_view(prods@),
            rel.wf(),
            holds_sfirst_base(g, rel@.to_set()),
            sfirst_sound(g, rel@),
            !changed ==> sfirst_closed(g, rel@.to_set()),
        decreases 2 * (usize::MAX - rel@.len()) + (if changed { 1int } else { 0int }),
    {
        changed = false;
        let ghost start = rel@;
        assert(rel@.len() == rel.items.len());
        let mut j: usize = 0;
        while j < prods.len()
            invariant
                g == prods_view(prods@),
                rel.wf(),
                j <= g.len(),
                sfirst_sound(g, rel@),
                start.len() <= rel@.len() <= usize::MAX,
                forall|e: (Seq<char>, Seq<char>)| start.contains(e) ==> #[trigger] rel@.contains(e),
                changed ==> rel@.len() > start.len(),
                !changed ==> rel@ == start,
                !changed ==> forall|i: int, y: Seq<char>|
                    0 <= i < j && g[i].left is NonTerminal && !is_epsilon_rhs(g[i].right) && #[trigger] str_first(g[i].right, rel@.to_set(), y)
                        ==> rel@.to_set().contains((nt_name(g[i].left), y)),
            decreases prods.len() - j,
        {
            let p = &prods[j];
            assert(g[j as int] == p@);
            if p.left.is_nonterminal() && !p.is_epsilon_production() {
                let a = p.left.to_text();
                assert(a@ == nt_name(p@.left));
                let fs = str_first_of(&rel, &p.right, 0);
                assert(syms_view(p.right@).skip(0) =~= p@.right);
                let ghost at = rel@;
                let mut m: usize = 0;
                while m < fs.items.len()
                    invariant
                        g == prods_view(prods@),
                        rel.wf(),
                        j < g.len(),
                        g[j as int] == p@,
                        p@.left is NonTerminal,
                        !is_epsilon_rhs(p@.right),
                        a@ == nt_name(p@.left),
                        m <= fs@.len(),
                        forall|y: Seq<char>| #[trigger] fs@.contains(y) <==> str_first(p@.right, at.to_set(), y),
                        sfirst_sound(g, at),
                        sfirst_sound(g, rel@),
                        at.len() <= rel@.len() <= usize::MAX,
                        forall|e: (Seq<char>, Seq<char>)| at.contains(e) ==> #[trigger] rel@.contains(e),
                        start.len() <= at.len(),
                        forall|e: (Seq<char>, Seq<char>)| start.contains(e) ==> #[trigger] at.contains(e),
                        changed ==> rel@.len() > start.len(),
                        !changed ==> rel@ == start,
                        !changed ==> at == start,
                        forall|m2: int| 0 <= m2 < m ==> rel@.contains((a@, #[trigger] fs@[m2])),
                    decreases fs.items.len() - m,
                {
                    let y = &fs.items[m];
                    assert(fs@[m as int] == y@);
                    assert(fs@.contains(y@));
                    let ghost before = rel@;
                    if rel.insert((a.clone(), y.clone())) {
                        changed = true;
                    }
                    assert forall|e2: (Seq<char>, Seq<char>)| before.contains(e2) implies #[trigger] rel@.contains(e2) by {
                        lemma_seq_push_contains(before, (a@, y@), e2);
                    }
                    assert(sfirst_sound(g, rel@)) by {
                        assert forall|r2: StrRel| #![trigger sfirst_closed(g, r2)] holds_sfirst_base(g, r2) && sfirst_closed(g, r2) implies rel@.to_set().subset_of(r2) by {
                            assert forall|e2: (Seq<char>, Seq<char>)| rel@.to_set().contains(e2) implies r2.contains(e2) by {
                                lemma_seq_push_contains(before, (a@, y@), e2);
                                if e2 == (a@, y@) {
                                    assert(at.to_set().subset_of(r2));
                                    lemma_str_first_mono(p@.right, at.to_set(), r2, y@);
                                    assert(str_first(g[j as int].right, r2, y@));
                                } else {
                                    assert(before.to_set().subset_of(r2));
                                }
                            }
                        }
                    }
                    assert(rel@.contains((a@, y@))) by {
                        lemma_seq_push_contains(before, (a@, y@), (a@, y@));
                    }
                    assert(rel@.len() == rel.items.len());
                    m += 1;
                }
                assert forall|i: int, y: Seq<char>|
                    !changed && 0 <= i < j + 1 && g[i].left is NonTerminal && !is_epsilon_rhs(g[i].right) && #[trigger] str_first(g[i].right, rel@.to_set(), y)
                        implies rel@.to_set().contains((nt_name(g[i].left), y)) by {
                    if i == j {
                        assert(fs@.contains(y));
                        let m2 = choose|m2: int| 0 <= m2 < fs@.len() && fs@[m2] == y;
                        assert(rel@.contains((a@, fs@[m2])));
                    }
                }
            }
            j += 1;
        }
        assert(rel@.len() <= usize::MAX);
        assert forall|x: Seq<char>, y: Seq<char>| sfirst_base(g, x, y) implies #[trigger] rel@.to_set().contains((x, y)) by {
            assert(start.to_set().contains((x, y)));
        }
    }
    proof {
        assert(is_sfirst(g, rel@.to_set()));
        lemma_sfirst(g, rel@.to_set());
    }
    rel
}

/// `$ ∈ FOLLOW(start)`.
pub open spec fn sfollow_base(start: Seq<char>, x: Seq<char>, y: Seq<char>) -> bool {
    x == start && y == "$"@
}

pub open spec fn holds_sfollow_base(start: Seq<char>, r: StrRel) -> bool {
    forall|x: Seq<char>, y: Seq<char>| sfollow_base(start, x, y) ==> #[trigger] r.contains((x, y))
}

/// The FOLLOW rule at position `k` of production `i` (`A → α B β`, not an
/// ϵ-production): FIRST(β) without `ε` is in FOLLOW(B), and so is FOLLOW(A)
/// when `ε ∈ FIRST(β)`.
pub open spec fn sfollow_ok_at(g: Seq<SpecProduction>, f: StrRel, r: StrRel, i: int, k: int) -> bool {
    let p = g[i];
    (p.left is NonTerminal && !is_epsilon_rhs(p.right) && p.right[k] is NonTerminal) ==> forall|y: Seq<char>|
        #![trigger r.contains((nt_name(p.right[k]), y))]
        {
            &&& (y != eps_token() && str_first(p.right.skip(k + 1), f, y)) ==> r.contains((nt_name(p.right[k]), y))
            &&& (str_first(p.right.skip(k + 1), f, eps_token()) && r.contains((nt_name(p.left), y)))
                ==> r.contains((nt_name(p.right[k]), y))
        }
}

pub open spec fn sfollow_closed(g: Seq<SpecProduction>, f: StrRel, r: StrRel) -> bool {
    forall|i: int, k: int| 0 <= i < g.len() && 0 <= k < g[i].right.len() ==> #[trigger] sfollow_ok_at(g, f, r, i, k)
}

pub open spec fn is_sfollow(g: Seq<SpecProduction>, f: StrRel, start: Seq<char>, r: StrRel) -> bool {
    &&& holds_sfollow_base(start, r)
    &&& sfollow_closed(g, f, r)
    &&& forall|r2: StrRel| #![trigger sfollow_closed(g, f, r2)]
        holds_sfollow_base(start, r2) && sfollow_closed(g, f, r2) ==> r.subset_of(r2)
}

/// The FOLLOW relation of the productions, given their FIRST relation `f`
/// and the start symbol's name.
pub open spec fn sfollow(g: Seq<SpecProduction>, f: StrRel, start: Seq<char>) -> StrRel {
    choose|r: StrRel| is_sfollow(g, f, start, r)
}

pub proof fn lemma_sfollow(g: Seq<SpecProduction>, f: StrRel, start: Seq<char>, r: StrRel)
    requires
        is_sfollow(g, f, start, r),
    ensures
        sfollow(g, f, start) == r,
{
    let c = sfollow(g, f, start);
    assert(is_sfollow(g, f, start, c));
    assert(c.subset_of(r));
    assert(r.subset_of(c));
    assert(c =~= r);
}

/// The least FIRST relation exists.
pub proof fn lemma_sfirst_exists(g: Seq<SpecProduction>)
    ensures
        is_sfirst(g, sfirst(g)),
{
    let r = Set::new(|p: (Seq<char>, Seq<char>)| forall|r2: StrRel| #![trigger sfirst_closed(g, r2)]
        holds_sfirst_base(g, r2) && sfirst_closed(g, r2) ==> r2.contains(p));
    assert forall|r2: StrRel| #![trigger sfirst_closed(g, r2)] holds_sfirst_base(g, r2) && sfirst_closed(g, r2)
        implies r.subset_of(r2) by {}
    assert(holds_sfirst_base(g, r));
    assert forall|i: int, y: Seq<char>|
        0 <= i < g.len() && g[i].left is NonTerminal && !is_epsilon_rhs(g[i].right) && #[trigger] str_first(g[i].right, r, y)
        implies r.contains((nt_name(g[i].left), y)) by {
        assert forall|r2: StrRel| #![trigger sfirst_closed(g, r2)] holds_sfirst_base(g, r2) && sfirst_closed(g, r2)
            implies r2.contains((nt_name(g[i].left), y)) by {
            assert(r.subset_of(r2));
            lemma_str_first_mono(g[i].right, r, r2, y);
        }
    }
    assert(is_sfirst(g, r));
}

/// The least FOLLOW relation exists.
pub proof fn lemma_sfollow_exists(g: Seq<SpecProduction>, f: StrRel, start: Seq<char>)
    ensures
        is_sfollow(g, f, start, sfollow(g, f, start)),
{
    let r = Set::new(|p: (Seq<char>, Seq<char>)| forall|r2: StrRel| #![trigger sfollow_closed(g, f, r2)]
        holds_sfollow_base(start, r2) && sfollow_closed(g, f, r2) ==> r2.contains(p));
    assert(holds_sfollow_base(start, r));
    assert forall|i: int, k: int| 0 <= i < g.len() && 0 <= k < g[i].right.len() implies #[trigger] sfollow_ok_at(g, f, r, i, k) by {
        let p = g[i];
        if p.left is NonTerminal && !is_epsilon_rhs(p.right) && p.right[k] is NonTerminal {
            assert forall|y: Seq<char>| #![trigger r.contains((nt_name(p.right[k]), y))]
                (y != eps_token() && str_first(p.right.skip(k + 1), f, y)) ==> r.contains((nt_name(p.right[k]), y)) by {
                if y != eps_token() && str_first(p.right.skip(k + 1), f, y) {
                    assert forall|r2: StrRel| #![trigger sfollow_closed(g, f, r2)] holds_sfollow_base(start, r2)
                        && sfollow_closed(g, f, r2) implies r2.contains((nt_name(p.right[k]), y)) by {
                        assert(sfollow_ok_at(g, f, r2, i, k));
                    }
                }
            }
            assert forall|y: Seq<char>| #![trigger r.contains((nt_name(p.right[k]), y))]
                (str_first(p.right.skip(k + 1), f, eps_token()) && r.contains((nt_name(p.left), y)))
                ==> r.contains((nt_name(p.right[k]), y)) by {
                if str_first(p.right.skip(k + 1), f, eps_token()) && r.contains((nt_name(p.left), y)) {
                    assert forall|r2: StrRel| #![trigger sfollow_closed(g, f, r2)] holds_sfollow_base(start, r2)
                        && sfollow_closed(g, f, r2) implies r2.contains((nt_name(p.right[k]), y)) by {
                        assert(r2.contains((nt_name(p.left), y)));
                        assert(sfollow_ok_at(g, f, r2, i, k));
                    }
                }
            }
        }
    }
    assert forall|r2: StrRel| #![trigger sfollow_closed(g, f, r2)] holds_sfollow_base(start, r2) && sfollow_closed(g, f, r2)
        implies r.subset_of(r2) by {}
    assert(is_sfollow(g, f, start, r));
}

pub open spec fn sfollow_sound(g: Seq<SpecProduction>, f: StrRel, start: Seq<char>, rel: Seq<(Seq<char>, Seq<char>)>) -> bool {
    forall|r2: StrRel| #![trigger sfollow_closed(g, f, r2)]
        holds_sfollow_base(start, r2) && sfollow_closed(g, f, r2) ==> rel.to_set().subset_of(r2)
}

/// Adds `(b, y)` for every `y` in `ys`; each such pair lies in every closed
/// relation. Returns whether something was added.
fn add_str_pairs(
    rel: &mut VecSet<(String, String)>,
    b: &String,
    ys: &VecSet<String>,
    Ghost(g): Ghost<Seq<SpecProduction>>,
    Ghost(f): Ghost<StrRel>,
    Ghost(start): Ghost<Seq<char>>,
) -> (added: bool)
    requires
        old(rel).wf(),
        sfollow_sound(g, f, start, old(rel)@),
        forall|r2: StrRel, y: Seq<char>| #![trigger sfollow_closed(g, f, r2), ys@.contains(y)]
            holds_sfollow_base(start, r2) && sfollow_closed(g, f, r2) && ys@.contains(y) ==> r2.contains((b@, y)),
    ensures
        final(rel).wf(),
        sfollow_sound(g, f, start, final(rel)@),
        old(rel)@.len() <= final(rel)@.len() <= usize::MAX,
        forall|e: (Seq<char>, Seq<char>)| old(rel)@.contains(e) ==> #[trigger] final(rel)@.contains(e),
        added ==> final(rel)@.len() > old(rel)@.len(),
        !added ==> final(rel)@ == old(rel)@,
        forall|y: Seq<char>| #[trigger] ys@.contains(y) ==> final(rel)@.contains((b@, y)),
{
    let mut added = false;
    let mut m: usize = 0;
    assert(rel@.len() == rel.items.len());
    while m < ys.items.len()
        invariant
            rel.wf(),
            m <= ys@.len(),
            sfollow_sound(g, f, start, rel@),
            forall|r2: StrRel, y: Seq<char>| #![trigger sfollow_closed(g, f, r2), ys@.contains(y)]
                holds_sfollow_base(start, r2) && sfollow_closed(g, f, r2) && ys@.contains(y) ==> r2.contains((b@, y)),
            old(rel)@.len() <= rel@.len() <= usize::MAX,
            forall|e: (Seq<char>, Seq<char>)| old(rel)@.contains(e) ==> #[trigger] rel@.contains(e),
            added ==> rel@.len() > old(rel)@.len(),
            !added ==> rel@ == old(rel)@,
            forall|m2: int| 0 <= m2 < m ==> rel@.contains((b@, #[trigger] ys@[m2])),
        decreases ys.items.len() - m,
    {
        let y = &ys.items[m];
        assert(ys@[m as int] == y@);
        assert(ys@.contains(y@));
        let ghost before = rel@;
        if rel.insert((b.clone(), y.clone())) {
            added = true;
        }
        assert forall|e2: (Seq<char>, Seq<char>)| before.contains(e2) implies #[trigger] rel@.contains(e2) by {
            lemma_seq_push_contains(before, (b@, y@), e2);
        }
        assert(sfollow_sound(g, f, start, rel@)) by {
            assert forall|r2: StrRel| #![trigger sfollow_closed(g, f, r2)] holds_sfollow_base(start, r2) && sfollow_closed(g, f, r2)
                implies rel@.to_set().subset_of(r2) by {
                assert forall|e2: (Seq<char>, Seq<char>)| rel@.to_set().contains(e2) implies r2.contains(e2) by {
                    lemma_seq_push_contains(before, (b@, y@), e2);
                    if e2 != (b@, y@) {
                        assert(before.to_set().subset_of(r2));
                    }
                }
            }
        }
        assert(rel@.contains((b@, y@))) by {
            lemma_seq_push_contains(before, (b@, y@), (b@, y@));
        }
        assert(rel@.len() == rel.items.len());
        m += 1;
    }
    assert forall|y: Seq<char>| #[trigger] ys@.contains(y) implies rel@.contains((b@, y)) by {
        let m2 = choose|m2: int| 0 <= m2 < ys@.len() && ys@[m2] == y;
        assert(rel@.contains((b@, ys@[m2])));
    }
    added
}

/// The FOLLOW relation of the productions, given their FIRST relation and
/// the name of the start symbol, by iteration to a fixed point.
pub fn sfollow_pairs(prods: &Vec<Production>, first: &VecSet<(String, String)>, start_name: &String) -> (rel: VecSet<(String, String)>)
    ensures
        rel.wf(),
        rel@.to_set() == sfollow(prods_view(prods@), first@.to_set(), start_name@),
{
    let ghost g = prods_view(prods@);
    let ghost f = first@.to_set();
    let ghost st = start_name@;
    let mut rel: VecSet<(String, String)> = VecSet::new();
    rel.insert((start_name.clone(), String::from_str("$")));
    assert(rel@[0] == (st, "$"@));
    assert(holds_sfollow_base(st, rel@.to_set()));
    assert(sfollow_sound(g, f, st, rel@)) by {
        assert forall|r2: StrRel| #![trigger sfollow_closed(g, f, r2)] holds_sfollow_base(st, r2) && sfollow_closed(g, f, r2)
            implies rel@.to_set().subset_of(r2) by {
            assert forall|e: (Seq<char>, Seq<char>)| rel@.to_set().contains(e) implies r2.contains(e) by {
                assert(e == (st, "$"@));
                assert(sfollow_base(st, st, "$"@));
            }
        }
    }
    let mut changed = true;
    while changed
        invariant
            g == prods_view(prods@),
            f == first@.to_set(),
            st == start_name@,
            rel.wf(),
            holds_sfollow_base(st, rel@.to_set()),
            sfollow_sound(g, f, st, rel@),
            !changed ==> sfollow_closed(g, f, rel@.to_set()),
        decreases 2 * (usize::MAX - rel@.len()) + (if changed { 1int } else { 0int }),
    {
        changed = false;
        let ghost start = rel@;
        assert(rel@.len() == rel.items.len());
        let mut j: usize = 0;
        while j < prods.len()
            invariant
                g == prods_view(prods@),
                f == first@.to_set(),
                st == start_name@,
                rel.wf(),
                j <= g.len(),
                sfollow_sound(g, f, st, rel@),
                start.len() <= rel@.len() <= usize::MAX,
                forall|e: (Seq<char>, Seq<char>)| start.contains(e) ==> #[trigger] rel@.contains(e),
                changed ==> rel@.len() > start.len(),
                !changed ==> rel@ == start,
                !changed ==> forall|i: int, k: int| 0 <= i < j && 0 <= k < g[i].right.len() ==> #[trigger] sfollow_ok_at(g, f, rel@.to_set(), i, k),
            decreases prods.len() - j,
        {
            let p = &prods[j];
            assert(g[j as int] == p@);
            let active = p.left.is_nonterminal() && !p.is_epsilon_production();
            let lhs = p.left.to_text();
            let mut k: usize = 0;
            while k < p.right.len()
                invariant
                    g == prods_view(prods@),
                    f == first@.to_set(),
                    st == start_name@,
                    rel.wf(),
                    j < g.len(),
                    g[j as int] == p@,
                    active == (p@.left is NonTerminal && !is_epsilon_rhs(p@.right)),
                    active ==> lhs@ == nt_name(p@.left),
                    k <= p.right@.len(),
                    sfollow_sound(g, f, st, rel@),
                    start.len() <= rel@.len() <= usize::MAX,
                    forall|e: (Seq<char>, Seq<char>)| start.contains(e) ==> #[trigger] rel@.contains(e),
                    changed ==> rel@.len() > start.len(),
                    !changed ==> rel@ == start,
                    !changed ==> forall|i: int, k2: int| 0 <= i < j && 0 <= k2 < g[i].right.len() ==> #[trigger] sfollow_ok_at(g, f, rel@.to_set(), i, k2),
                    !changed ==> forall|k2: int| 0 <= k2 < k ==> #[trigger] sfollow_ok_at(g, f, rel@.to_set(), j as int, k2),
                decreases p.right.len() - k,
            {
                assert(p@.right[k as int] == p.right@[k as int]@);
                if active && p.right[k].is_nonterminal() {
                    let b = p.right[k].to_text();
                    assert(b@ == nt_name(p@.right[k as int]));
                    let fs = str_first_of(first, &p.right, k + 1);
                    assert(syms_view(p.right@).skip(k + 1) == p@.right.skip(k + 1));
                    let eps = String::from_str("ε");
                    let mut nonempty: VecSet<String> = VecSet::new();
                    let mut m: usize = 0;
                    while m < fs.items.len()
                        invariant
                            nonempty.wf(),
                            m <= fs@.len(),
                            eps@ == eps_token(),
                            forall|y: Seq<char>| #[trigger] nonempty@.contains(y) <==> exists|m2: int|
                                0 <= m2 < m && fs@[m2] == y && y != eps_token(),
                        decreases fs.items.len() - m,
                    {
                        let ghost before = nonempty@;
                        assert(fs@[m as int] == fs.items@[m as int]@);
                        if fs.items[m] != eps {
                            nonempty.insert(fs.items[m].clone());
                        }
                        assert forall|y: Seq<char>| #[trigger] nonempty@.contains(y) <==> exists|m2: int|
                            0 <= m2 < m + 1 && fs@[m2] == y && y != eps_token() by {
                            lemma_seq_push_contains(before, fs@[m as int], y);
                            if exists|m2: int| 0 <= m2 < m + 1 && fs@[m2] == y && y != eps_token() {
                                let m2 = choose|m2: int| 0 <= m2 < m + 1 && fs@[m2] == y && y != eps_token();
                                if m2 < m {
                                    assert(exists|m3: int| 0 <= m3 < m && fs@[m3] == y && y != eps_token());
                                }
                            }
                        }
                        m += 1;
                    }
                    assert forall|y: Seq<char>| #[trigger] nonempty@.contains(y) <==> (y != eps_token()
                        && str_first(p@.right.skip(k + 1), f, y)) by {
                        if fs@.contains(y) {
                            let m2 = choose|m2: int| 0 <= m2 < fs@.len() && fs@[m2] == y;
                        }
                    }
                    assert forall|r2: StrRel, y: Seq<char>| #![trigger sfollow_closed(g, f, r2), nonempty@.contains(y)]
                        holds_sfollow_base(st, r2) && sfollow_closed(g, f, r2) && nonempty@.contains(y) implies r2.contains((b@, y)) by {
                        assert(sfollow_ok_at(g, f, r2, j as int, k as int));
                    }
                    let added1 = add_str_pairs(&mut rel, &b, &nonempty, Ghost(g), Ghost(f), Ghost(st));
                    if added1 {
                        changed = true;
                    }
                    let ghost mid = rel@;
                    let has_eps = fs.contains(&eps);
                    if has_eps {
                        let mut inherited: VecSet<String> = VecSet::new();
                        collect_tokens(&rel, &lhs, &mut inherited);
                        assert forall|r2: StrRel, y: Seq<char>| #![trigger sfollow_closed(g, f, r2), inherited@.contains(y)]
                            holds_sfollow_base(st, r2) && sfollow_closed(g, f, r2) && inherited@.contains(y) implies r2.contains((b@, y)) by {
                            assert(mid.to_set().subset_of(r2));
                            assert(r2.contains((lhs@, y)));
                            assert(sfollow_ok_at(g, f, r2, j as int, k as int));
                        }
                        let added2 = add_str_pairs(&mut rel, &b, &inherited, Ghost(g), Ghost(f), Ghost(st));
                        if added2 {
                            changed = true;
                        }
                        assert forall|y: Seq<char>| mid.contains((lhs@, y)) implies #[trigger] rel@.contains((b@, y)) by {
                            assert(inherited@.contains(y));
                        }
                    }
                    assert forall|y: Seq<char>| #[trigger] nonempty@.contains(y) implies rel@.contains((b@, y)) by {
                        assert(mid.contains((b@, y)));
                    }
                    assert(!changed ==> sfollow_ok_at(g, f, rel@.to_set(), j as int, k as int)) by {
                        if !changed {
                            assert forall|y: Seq<char>| #![trigger rel@.to_set().contains((nt_name(p@.right[k as int]), y))]
                                (y != eps_token() && str_first(p@.right.skip(k + 1), f, y)) ==> rel@.to_set().contains((nt_name(p@.right[k as int]), y)) by {
                                if y != eps_token() && str_first(p@.right.skip(k + 1), f, y) {
                                    assert(nonempty@.contains(y));
                                }
                            }
                        }
                    }
                }
                k += 1;
            }
            j += 1;
        }
        assert(rel@.len() <= usize::MAX);
        assert forall|x: Seq<char>, y: Seq<char>| sfollow_base(st, x, y) implies #[trigger] rel@.to_set().contains((x, y)) by {
            assert(start.to_set().contains((x, y)));
        }
    }
    proof {
        assert(is_sfollow(g, f, st, rel@.to_set()));
        lemma_sfollow(g, f, st, rel@.to_set());
    }
    rel
}

/// The map from each key to the tokens related to it by `rel`.
pub fn token_map(rel: &VecSet<(String, String)>, keys: &VecSet<String>) -> (m: VecMap<String, VecSet<String>>)
    requires
        keys.wf(),
    ensures
        m.wf(),
        forall|x: Seq<char>| #[trigger] m@.contains_key(x) <==> keys@.contains(x),
        forall|x: Seq<char>, y: Seq<char>| #![trigger m@[x].contains(y)]
            m@.contains_key(x) ==> (m@[x].contains(y) <==> rel@.contains((x, y))),
        forall|x: Seq<char>| #[trigger] m@.contains_key(x) ==> m@[x].no_duplicates(),
{
    let mut m: VecMap<String, VecSet<String>> = VecMap::new();
    let mut i: usize = 0;
    while i < keys.items.len()
        invariant
            keys.wf(),
            m.wf(),
            i <= keys@.len(),
            forall|x: Seq<char>| #[trigger] m@.contains_key(x) <==> exists|i2: int| 0 <= i2 < i && keys@[i2] == x,
            forall|x: Seq<char>, y: Seq<char>| #![trigger m@[x].contains(y)]
                m@.contains_key(x) ==> (m@[x].contains(y) <==> rel@.contains((x, y))),
            forall|x: Seq<char>| #[trigger] m@.contains_key(x) ==> m@[x].no_duplicates(),
        decreases keys.items.len() - i,
    {
        let k = &keys.items[i];
        assert(keys@[i as int] == k@);
        let mut ys: VecSet<String> = VecSet::new();
        collect_tokens(rel, k, &mut ys);
        assert(!m@.contains_key(k@)) by {
            if m@.contains_key(k@) {
                let i2 = choose|i2: int| 0 <= i2 < i && keys@[i2] == k@;
                assert(keys@[i2] == keys@[i as int]);
            }
        }
        m.insert(k.clone(), ys);
        i += 1;
    }
    assert forall|x: Seq<char>| #[trigger] m@.contains_key(x) <==> keys@.contains(x) by {
        if keys@.contains(x) {
            let i2 = choose|i2: int| 0 <= i2 < keys@.len() && keys@[i2] == x;
        }
    }
    m
}

/// The names that have a FOLLOW set: the start symbol, the non-terminals on
/// left sides, and those on the right sides of productions of non-terminals.
pub open spec fn sfollow_key(g: Seq<SpecProduction>, start: Seq<char>, x: Seq<char>) -> bool {
    ||| x == start
    ||| exists|i: int| 0 <= i < g.len() && #[trigger] g[i].left == SpecSymbol::NonTerminal(x)
    ||| exists|i: int, k: int| 0 <= i < g.len() && 0 <= k < g[i].right.len() && g[i].left is NonTerminal
        && #[trigger] g[i].right[k] == SpecSymbol::NonTerminal(x)
}

/// The names that have a FOLLOW set.
pub fn sfollow_keys(prods: &Vec<Production>, start_name: &String) -> (keys: VecSet<String>)
    ensures
        keys.wf(),
        forall|x: Seq<char>| #[trigger] keys@.contains(x) <==> sfollow_key(prods_view(prods@), start_name@, x),
{
    let ghost g = prods_view(prods@);
    let mut keys: VecSet<String> = VecSet::new();
    keys.insert(start_name.clone());
    assert(keys@[0] == start_name@);
    let mut j: usize = 0;
    while j < prods.len()
        invariant
            g == prods_view(prods@),
            keys.wf(),
            j <= g.len(),
            keys@.contains(start_name@),
            forall|x: Seq<char>| #[trigger] keys@.contains(x) ==> sfollow_key(g, start_name@, x),
            forall|i: int| 0 <= i < j && (#[trigger] g[i].left) is NonTerminal ==> keys@.contains(nt_name(g[i].left)),
            forall|i: int, k: int| 0 <= i < j && 0 <= k < g[i].right.len() && g[i].left is NonTerminal
                && (#[trigger] g[i].right[k]) is NonTerminal ==> keys@.contains(nt_name(g[i].right[k])),
        decreases prods.len() - j,
    {
        let p = &prods[j];
        assert(g[j as int] == p@);
        if let Symbol::NonTerminal(a) = &p.left {
            let ghost before = keys@;
            keys.insert(a.clone());
            assert forall|x: Seq<char>| #[trigger] keys@.contains(x) implies sfollow_key(g, start_name@, x) by {
                lemma_seq_push_contains(before, a@, x);
                if x == a@ {
                    assert(g[j as int].left == SpecSymbol::NonTerminal(x));
                }
            }
            assert forall|x: Seq<char>| before.contains(x) implies #[trigger] keys@.contains(x) by {
                lemma_seq_push_contains(before, a@, x);
            }
            proof {
                lemma_seq_push_contains(before, a@, a@);
            }
            let mut k: usize = 0;
            while k < p.right.len()
                invariant
                    g == prods_view(prods@),
                    keys.wf(),
                    j < g.len(),
                    g[j as int] == p@,
                    p@.left is NonTerminal,
                    k <= p.right@.len(),
                    keys@.contains(start_name@),
                    keys@.contains(nt_name(p@.left)),
                    forall|x: Seq<char>| #[trigger] keys@.contains(x) ==> sfollow_key(g, start_name@, x),
                    forall|i: int| 0 <= i < j && (#[trigger] g[i].left) is NonTerminal ==> keys@.contains(nt_name(g[i].left)),
                    forall|i: int, k2: int| 0 <= i < j && 0 <= k2 < g[i].right.len() && g[i].left is NonTerminal
                        && (#[trigger] g[i].right[k2]) is NonTerminal ==> keys@.contains(nt_name(g[i].right[k2])),
                    forall|k2: int| 0 <= k2 < k && (#[trigger] p@.right[k2]) is NonTerminal ==> keys@.contains(nt_name(p@.right[k2])),
                decreases p.right.len() - k,
            {
                assert(p@.right[k as int] == p.right@[k as int]@);
                if let Symbol::NonTerminal(b) = &p.right[k] {
                    let ghost b2 = keys@;
                    keys.insert(b.clone());
                    assert forall|x: Seq<char>| #[trigger] keys@.contains(x) implies sfollow_key(g, start_name@, x) by {
                        lemma_seq_push_contains(b2, b@, x);
                        if x == b@ {
                            assert(g[j as int].right[k as int] == SpecSymbol::NonTerminal(x));
                        }
                    }
                    assert forall|x: Seq<char>| b2.contains(x) implies #[trigger] keys@.contains(x) by {
                        lemma_seq_push_contains(b2, b@, x);
                    }
                    proof {
                        lemma_seq_push_contains(b2, b@, b@);
                    }
                }
                k += 1;
            }
        }
        j += 1;
    }
    assert forall|x: Seq<char>| sfollow_key(g, start_name@, x) implies #[trigger] keys@.contains(x) by {
        if x != start_name@ {
            if exists|i: int| 0 <= i < g.len() && #[trigger] g[i].left == SpecSymbol::NonTerminal(x) {
                let i = choose|i: int| 0 <= i < g.len() && #[trigger] g[i].left == SpecSymbol::NonTerminal(x);
                assert(nt_name(g[i].left) == x);
            } else {
                let (i, k) = choose|i: int, k: int| 0 <= i < g.len() && 0 <= k < g[i].right.len() && g[i].left is NonTerminal
                    && #[trigger] g[i].right[k] == SpecSymbol::NonTerminal(x);
                assert(nt_name(g[i].right[k]) == x);
            }
        }
    }
    keys
}

} // verus!
