//! Symbol names in sorted order, as the parsers list their terminals and
//! non-terminals.

use vstd::prelude::*;
use crate::collections::VecSet;
use crate::symbols::{Symbol, SpecSymbol, Production, SpecProduction, prods_view};
use crate::lr0::{grammar_terminals, rhs_terminals, terminal_names};
use crate::symbols::strs_view;
use crate::ll1::lemma_seq_push_contains;

verus! {

/// `a` comes strictly before `b` in lexicographic order of code points
/// (the order of `String`s).
pub open spec fn lex_lt(a: Seq<char>, b: Seq<char>) -> bool
    decreases a.len(),
{
    if b.len() == 0 {
        false
    } else if a.len() == 0 {
        true
    } else if (a[0] as int) < (b[0] as int) {
        true
    } else if (a[0] as int) > (b[0] as int) {
        false
    } else {
        lex_lt(a.drop_first(), b.drop_first())
    }
}

pub proof fn lemma_lex_irreflexive(a: Seq<char>)
    ensures
        !lex_lt(a, a),
    decreases a.len(),
{
    if a.len() > 0 {
        lemma_lex_irreflexive(a.drop_first());
    }
}

pub proof fn lemma_lex_total(a: Seq<char>, b: Seq<char>)
    requires
        a != b,
    ensures
        lex_lt(a, b) || lex_lt(b, a),
    decreases a.len(),
{
    if a.len() > 0 && b.len() > 0 && (a[0] as int) == (b[0] as int) {
        assert(a[0] == b[0]);
        if a.drop_first() == b.drop_first() {
            assert(a =~= seq![a[0]] + a.drop_first());
            assert(b =~= seq![b[0]] + b.drop_first());
        }
        lemma_lex_total(a.drop_first(), b.drop_first());
    } else if a.len() == 0 && b.len() == 0 {
        assert(a =~= b);
    }
}

pub proof fn lemma_lex_transitive(a: Seq<char>, b: Seq<char>, c: Seq<char>)
    requires
        lex_lt(a, b),
        lex_lt(b, c),
    ensures
        lex_lt(a, c),
    decreases a.len(),
{
    if a.len() > 0 && b.len() > 0 && c.len() > 0 {
        if (a[0] as int) == (b[0] as int) && (b[0] as int) == (c[0] as int) {
            lemma_lex_transitive(a.drop_first(), b.drop_first(), c.drop_first());
        }
    }
}

/// Whether `a` comes strictly before `b`.
pub fn str_lt(a: &String, b: &String) -> (r: bool)
    ensures
        r == lex_lt(a@, b@),
{
    let n = a.as_str().unicode_len();
    let m = b.as_str().unicode_len();
    let mut i: usize = 0;
    assert(a@.skip(0) =~= a@);
    assert(b@.skip(0) =~= b@);
    while i < n && i < m
        invariant
            n == a@.len(),
            m == b@.len(),
            i <= n,
            i <= m,
            lex_lt(a@, b@) == lex_lt(a@.skip(i as int), b@.skip(i as int)),
        decreases n - i,
    {
        let ca = a.as_str().get_char(i);
        let cb = b.as_str().get_char(i);
        assert(a@.skip(i as int)[0] == ca);
        assert(b@.skip(i as int)[0] == cb);
        assert(a@.skip(i as int).drop_first() =~= a@.skip(i + 1));
        assert(b@.skip(i as int).drop_first() =~= b@.skip(i + 1));
        if (ca as u32) < (cb as u32) {
            return true;
        }
        if (ca as u32) > (cb as u32) {
            return false;
        }
        i += 1;
    }
    i < m
}

/// `s` is in strictly increasing order.
pub open spec fn sorted_strict(s: Seq<Seq<char>>) -> bool {
    forall|i: int, j: int| 0 <= i < j < s.len() ==> lex_lt(#[trigger] s[i], #[trigger] s[j])
}

/// The names of `v`, sorted in increasing order.
pub fn sorted_names(v: &VecSet<String>) -> (r: Vec<String>)
    requires
        v.wf(),
    ensures
        sorted_strict(crate::symbols::strs_view(r@)),
        forall|x: Seq<char>| #[trigger] crate::symbols::strs_view(r@).contains(x) <==> v@.contains(x),
        crate::symbols::strs_view(r@).len() == v@.len(),
{
    let mut r: Vec<String> = Vec::new();
    let mut i: usize = 0;
    while i < v.items.len()
        invariant
            v.wf(),
            i <= v@.len(),
            crate::symbols::strs_view(r@).len() == i,
            sorted_strict(crate::symbols::strs_view(r@)),
            forall|x: Seq<char>| #[trigger] crate::symbols::strs_view(r@).contains(x) <==> exists|j: int| 0 <= j < i && v@[j] == x,
        decreases v.items.len() - i,
    {
        let ghost rv = crate::symbols::strs_view(r@);
        let x = &v.items[i];
        assert(v@[i as int] == x@);
        assert(!rv.contains(x@)) by {
            if rv.contains(x@) {
                let j = choose|j: int| 0 <= j < i && v@[j] == x@;
                assert(v@[j] == v@[i as int]);
            }
        }
        let mut k: usize = 0;
        while k < r.len() && !str_lt(x, &r[k])
            invariant
                rv == crate::symbols::strs_view(r@),
                k <= r@.len(),
                !rv.contains(x@),
                forall|j: int| 0 <= j < k ==> lex_lt(#[trigger] rv[j], x@),
            decreases r.len() - k,
        {
            assert(rv[k as int] == r@[k as int]@);
            proof {
                assert(rv[k as int] != x@);
                lemma_lex_total(rv[k as int], x@);
            }
            k += 1;
        }
        proof {
            if k < r@.len() {
                assert(rv[k as int] == r@[k as int]@);
                assert(lex_lt(x@, rv[k as int]));
                assert forall|j: int| k <= j < rv.len() implies lex_lt(x@, #[trigger] rv[j]) by {
                    if j > k {
                        lemma_lex_transitive(x@, rv[k as int], rv[j]);
                    }
                }
            }
        }
        r.insert(k, x.clone());
        let ghost nv = crate::symbols::strs_view(r@);
        assert(nv =~= rv.insert(k as int, x@));
        assert(sorted_strict(nv)) by {
            assert forall|a: int, b: int| 0 <= a < b < nv.len() implies lex_lt(#[trigger] nv[a], #[trigger] nv[b]) by {
                if a < k && b < k {
                    assert(nv[a] == rv[a] && nv[b] == rv[b]);
                } else if a < k && b == k {
                    assert(nv[a] == rv[a]);
                } else if a < k {
                    assert(nv[a] == rv[a] && nv[b] == rv[b - 1]);
                    lemma_lex_transitive(rv[a], x@, rv[b - 1]);
                } else if a == k {
                    assert(nv[b] == rv[b - 1]);
                } else {
                    assert(nv[a] == rv[a - 1] && nv[b] == rv[b - 1]);
                }
            }
        }
        assert forall|y: Seq<char>| #[trigger] nv.contains(y) <==> exists|j: int| 0 <= j < i + 1 && v@[j] == y by {
            if nv.contains(y) {
                let q = choose|q: int| 0 <= q < nv.len() && nv[q] == y;
                if q < k {
                    assert(rv[q] == y);
                    assert(rv.contains(y));
                } else if q > k {
                    assert(rv[q - 1] == y);
                    assert(rv.contains(y));
                }
            }
            if exists|j: int| 0 <= j < i + 1 && v@[j] == y {
                let j = choose|j: int| 0 <= j < i + 1 && v@[j] == y;
                if j < i {
                    assert(rv.contains(y));
                    let q = choose|q: int| 0 <= q < rv.len() && rv[q] == y;
                    if q < k {
                        assert(nv[q] == y);
                    } else {
                        assert(nv[q + 1] == y);
                    }
                } else {
                    assert(nv[k as int] == y);
                }
            }
        }
        i += 1;
    }
    assert forall|x: Seq<char>| #[trigger] crate::symbols::strs_view(r@).contains(x) <==> v@.contains(x) by {
        if v@.contains(x) {
            let j = choose|j: int| 0 <= j < v@.len() && v@[j] == x;
        }
    }
    r
}

/// `x` names a terminal on some right side.
pub open spec fn is_terminal_name(g: Seq<SpecProduction>, x: Seq<char>) -> bool {
    exists|i: int, k: int| 0 <= i < g.len() && 0 <= k < g[i].right.len() && #[trigger] g[i].right[k] == SpecSymbol::Terminal(x)
}

/// `x` names a non-terminal on some left side, other than `S'`.
pub open spec fn is_nonterminal_name(g: Seq<SpecProduction>, x: Seq<char>) -> bool {
    x != "S'"@ && exists|i: int| 0 <= i < g.len() && #[trigger] g[i].left == SpecSymbol::NonTerminal(x)
}

pub proof fn lemma_rhs_terminals(acc: Seq<Seq<char>>, rhs: Seq<SpecSymbol>, x: Seq<char>)
    ensures
        rhs_terminals(acc, rhs).contains(x) <==> (acc.contains(x) || exists|k: int| 0 <= k < rhs.len() && #[trigger] rhs[k] == SpecSymbol::Terminal(x)),
    decreases rhs.len(),
{
    if rhs.len() > 0 {
        let front = rhs.drop_last();
        lemma_rhs_terminals(acc, front, x);
        let a = rhs_terminals(acc, front);
        match rhs.last() {
            SpecSymbol::Terminal(t) => {
                if !a.contains(t) {
                    lemma_seq_push_contains(a, t, x);
                }
            },
            _ => {},
        }
        if exists|k: int| 0 <= k < rhs.len() && #[trigger] rhs[k] == SpecSymbol::Terminal(x) {
            let k = choose|k: int| 0 <= k < rhs.len() && #[trigger] rhs[k] == SpecSymbol::Terminal(x);
            if k < rhs.len() - 1 {
                assert(front[k] == SpecSymbol::Terminal(x));
            }
        }
        if exists|k: int| 0 <= k < front.len() && #[trigger] front[k] == SpecSymbol::Terminal(x) {
            let k = choose|k: int| 0 <= k < front.len() && #[trigger] front[k] == SpecSymbol::Terminal(x);
            assert(rhs[k] == SpecSymbol::Terminal(x));
        }
    }
}

pub proof fn lemma_grammar_terminals(g: Seq<SpecProduction>, x: Seq<char>)
    ensures
        grammar_terminals(g).contains(x) <==> is_terminal_name(g, x),
    decreases g.len(),
{
    if g.len() > 0 {
        let front = g.drop_last();
        lemma_grammar_terminals(front, x);
        lemma_rhs_terminals(grammar_terminals(front), g.last().right, x);
        if is_terminal_name(g, x) {
            let (i, k) = choose|i: int, k: int| 0 <= i < g.len() && 0 <= k < g[i].right.len() && #[trigger] g[i].right[k] == SpecSymbol::Terminal(x);
            if i < g.len() - 1 {
                assert(front[i].right[k] == SpecSymbol::Terminal(x));
            } else {
                assert(g.last().right[k] == SpecSymbol::Terminal(x));
            }
        }
        if is_terminal_name(front, x) {
            let (i, k) = choose|i: int, k: int| 0 <= i < front.len() && 0 <= k < front[i].right.len() && #[trigger] front[i].right[k] == SpecSymbol::Terminal(x);
            assert(g[i].right[k] == SpecSymbol::Terminal(x));
        }
        if exists|k: int| 0 <= k < g.last().right.len() && #[trigger] g.last().right[k] == SpecSymbol::Terminal(x) {
            let k = choose|k: int| 0 <= k < g.last().right.len() && #[trigger] g.last().right[k] == SpecSymbol::Terminal(x);
            assert(g[g.len() - 1].right[k] == SpecSymbol::Terminal(x));
        }
    }
}

/// `r` lists the terminal names of `g` in increasing order, then `$`.
pub open spec fn terminal_list(g: Seq<SpecProduction>, r: Seq<Seq<char>>) -> bool {
    &&& r.len() >= 1
    &&& r.last() == "$"@
    &&& sorted_strict(r.drop_last())
    &&& forall|x: Seq<char>| #[trigger] r.drop_last().contains(x) <==> is_terminal_name(g, x)
}

/// `r` lists the non-terminal names of the left sides of `g` (but `S'`) in
/// increasing order.
pub open spec fn nonterminal_list(g: Seq<SpecProduction>, r: Seq<Seq<char>>) -> bool {
    &&& sorted_strict(r)
    &&& forall|x: Seq<char>| #[trigger] r.contains(x) <==> is_nonterminal_name(g, x)
}

/// The terminals of the productions in increasing order, then `$`.
pub fn all_terminals(prods: &Vec<Production>) -> (r: Vec<String>)
    ensures
        terminal_list(prods_view(prods@), strs_view(r@)),
        strs_view(r@).len() >= 1,
        strs_view(r@).last() == "$"@,
        sorted_strict(strs_view(r@).drop_last()),
        forall|x: Seq<char>| #[trigger] strs_view(r@).drop_last().contains(x) <==> is_terminal_name(prods_view(prods@), x),
{
    let names = terminal_names(prods);
    let mut r = sorted_names(&names);
    let ghost before = strs_view(r@);
    r.push(String::from_str("$"));
    assert(strs_view(r@) =~= before.push("$"@));
    assert(strs_view(r@).drop_last() =~= before);
    assert forall|x: Seq<char>| #[trigger] strs_view(r@).drop_last().contains(x) <==> is_terminal_name(prods_view(prods@), x) by {
        lemma_grammar_terminals(prods_view(prods@), x);
    }
    r
}

/// The non-terminals on the left sides other than `S'`, in increasing order.
pub fn all_non_terminals(prods: &Vec<Production>) -> (r: Vec<String>)
    ensures
        nonterminal_list(prods_view(prods@), strs_view(r@)),
        sorted_strict(strs_view(r@)),
        forall|x: Seq<char>| #[trigger] strs_view(r@).contains(x) <==> is_nonterminal_name(prods_view(prods@), x),
{
    let ghost g = prods_view(prods@);
    let aug = String::from_str("S'");
    let mut names: VecSet<String> = VecSet::new();
    let mut i: usize = 0;
    while i < prods.len()
        invariant
            g == prods_view(prods@),
            aug@ == "S'"@,
            names.wf(),
            i <= g.len(),
            forall|x: Seq<char>| #[trigger] names@.contains(x) <==> (x != "S'"@ && exists|j: int| 0 <= j < i && #[trigger] g[j].left == SpecSymbol::NonTerminal(x)),
        decreases prods.len() - i,
    {
        assert(g[i as int] == prods@[i as int]@);
        let ghost before = names@;
        if let Symbol::NonTerminal(n) = &prods[i].left {
            if *n != aug {
                names.insert(n.clone());
            }
        }
        assert forall|x: Seq<char>| #[trigger] names@.contains(x) <==> (x != "S'"@ && exists|j: int| 0 <= j < i + 1 && #[trigger] g[j].left == SpecSymbol::NonTerminal(x)) by {
            assert(g[i as int].left == prods@[i as int].left@);
            if let Symbol::NonTerminal(n) = &prods[i as int].left {
                lemma_seq_push_contains(before, n@, x);
                if x == n@ && x != "S'"@ {
                    assert(g[i as int].left == SpecSymbol::NonTerminal(x));
                }
            }
            if x != "S'"@ && exists|j: int| 0 <= j < i + 1 && #[trigger] g[j].left == SpecSymbol::NonTerminal(x) {
                let j = choose|j: int| 0 <= j < i + 1 && #[trigger] g[j].left == SpecSymbol::NonTerminal(x);
                if j < i {
                    assert(before.contains(x));
                }
            }
        }
        i += 1;
    }
    sorted_names(&names)
}

} // verus!
