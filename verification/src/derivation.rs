//! Derivations in a grammar: rewriting a non-terminal of a sentential form
//! by the right side of one of its productions, any number of times.

use vstd::prelude::*;
use crate::symbols::{SpecSymbol, SpecGrammar};

verus! {

/// What a right side puts in a sentential form: nothing for `ϵ`, else its
/// symbols.
pub open spec fn rhs_yield(rhs: Seq<SpecSymbol>) -> Seq<SpecSymbol> {
    if rhs == seq![SpecSymbol::Epsilon] {
        Seq::empty()
    } else {
        rhs
    }
}

/// `b` is `a` with the symbol at `k` rewritten by production `i`.
pub open spec fn step_at(g: SpecGrammar, a: Seq<SpecSymbol>, b: Seq<SpecSymbol>, k: int, i: int) -> bool {
    &&& 0 <= k < a.len()
    &&& 0 <= i < g.productions.len()
    &&& g.productions[i].left == a[k]
    &&& b == a.take(k) + rhs_yield(g.productions[i].right) + a.skip(k + 1)
}

/// `a` rewrites to `b` in one step.
pub open spec fn derives_step(g: SpecGrammar, a: Seq<SpecSymbol>, b: Seq<SpecSymbol>) -> bool {
    exists|k: int, i: int| #[trigger] step_at(g, a, b, k, i)
}

/// `forms` is a derivation: each form rewrites to the next in one step.
pub open spec fn is_derivation(g: SpecGrammar, forms: Seq<Seq<SpecSymbol>>) -> bool
    decreases forms.len(),
{
    if forms.len() <= 1 {
        true
    } else {
        is_derivation(g, forms.drop_last()) && derives_step(g, forms[forms.len() - 2], forms.last())
    }
}

/// `forms` derives `b` from `a`.
pub open spec fn derivation_of(g: SpecGrammar, forms: Seq<Seq<SpecSymbol>>, a: Seq<SpecSymbol>, b: Seq<SpecSymbol>) -> bool {
    &&& forms.len() >= 1
    &&& is_derivation(g, forms)
    &&& forms[0] == a
    &&& forms.last() == b
}

/// `a` rewrites to `b` in some number of steps.
pub open spec fn derives(g: SpecGrammar, a: Seq<SpecSymbol>, b: Seq<SpecSymbol>) -> bool {
    exists|forms: Seq<Seq<SpecSymbol>>| #[trigger] derivation_of(g, forms, a, b)
}

/// The tokens as terminal symbols.
pub open spec fn terminals_of(toks: Seq<Seq<char>>) -> Seq<SpecSymbol> {
    toks.map_values(|t: Seq<char>| SpecSymbol::Terminal(t))
}

/// `s` in reverse order.
pub open spec fn rev(s: Seq<SpecSymbol>) -> Seq<SpecSymbol>
    decreases s.len(),
{
    if s.len() == 0 {
        Seq::empty()
    } else {
        seq![s.last()] + rev(s.drop_last())
    }
}

/// Each `ϵ` of a right side stands alone: `A → ϵ`.
pub open spec fn eps_alone(g: SpecGrammar) -> bool {
    forall|i: int, k: int|
        0 <= i < g.productions.len() && 0 <= k < g.productions[i].right.len()
            && #[trigger] g.productions[i].right[k] == SpecSymbol::Epsilon ==> g.productions[i].right.len() == 1
}

pub proof fn lemma_derivation_extend(g: SpecGrammar, forms: Seq<Seq<SpecSymbol>>, a: Seq<SpecSymbol>, m: Seq<SpecSymbol>, b: Seq<SpecSymbol>)
    requires
        derivation_of(g, forms, a, m),
        derives_step(g, m, b),
    ensures
        derivation_of(g, forms.push(b), a, b),
{
    assert(forms.push(b).drop_last() =~= forms);
    assert(forms.push(b)[forms.push(b).len() - 2] == m);
}

pub proof fn lemma_rev_len(s: Seq<SpecSymbol>)
    ensures
        rev(s).len() == s.len(),
    decreases s.len(),
{
    if s.len() > 0 {
        lemma_rev_len(s.drop_last());
    }
}

pub proof fn lemma_rev_concat(a: Seq<SpecSymbol>, b: Seq<SpecSymbol>)
    ensures
        rev(a + b) == rev(b) + rev(a),
    decreases b.len(),
{
    if b.len() == 0 {
        assert(a + b =~= a);
        assert(rev(b) + rev(a) =~= rev(a));
    } else {
        assert((a + b).drop_last() =~= a + b.drop_last());
        assert((a + b).last() == b.last());
        lemma_rev_concat(a, b.drop_last());
        assert(seq![b.last()] + (rev(b.drop_last()) + rev(a)) =~= (seq![b.last()] + rev(b.drop_last())) + rev(a));
    }
}

pub proof fn lemma_derivation_prepend(g: SpecGrammar, forms: Seq<Seq<SpecSymbol>>, a: Seq<SpecSymbol>, b: Seq<SpecSymbol>, c: Seq<SpecSymbol>)
    requires
        derives_step(g, a, b),
        derivation_of(g, forms, b, c),
    ensures
        derivation_of(g, seq![a] + forms, a, c),
    decreases forms.len(),
{
    let fs = seq![a] + forms;
    if forms.len() == 1 {
        assert(fs.drop_last() =~= seq![a]);
        assert(is_derivation(g, fs.drop_last()));
        assert(fs[fs.len() - 2] == a);
        assert(forms[0] == b);
        assert(fs.last() == b);
        assert(is_derivation(g, fs));
    } else {
        assert(is_derivation(g, forms.drop_last()) && derives_step(g, forms[forms.len() - 2], forms.last()));
        assert(forms.drop_last()[0] == b);
        lemma_derivation_prepend(g, forms.drop_last(), a, b, forms[forms.len() - 2]);
        assert(fs.drop_last() =~= seq![a] + forms.drop_last());
        assert(fs[fs.len() - 2] == forms[forms.len() - 2]);
        assert(fs.last() == forms.last());
        assert(is_derivation(g, fs));
    }
}

/// The forms with `x` put at the end of each.
pub open spec fn with_suffix(forms: Seq<Seq<SpecSymbol>>, x: SpecSymbol) -> Seq<Seq<SpecSymbol>> {
    forms.map_values(|f: Seq<SpecSymbol>| f.push(x))
}

pub proof fn lemma_step_suffix(g: SpecGrammar, a: Seq<SpecSymbol>, b: Seq<SpecSymbol>, x: SpecSymbol)
    requires
        derives_step(g, a, b),
    ensures
        derives_step(g, a.push(x), b.push(x)),
{
    let (k, i) = choose|k: int, i: int| #[trigger] step_at(g, a, b, k, i);
    assert(a.push(x).take(k) =~= a.take(k));
    assert(a.push(x).skip(k + 1) =~= a.skip(k + 1).push(x));
    assert(b.push(x) =~= a.push(x).take(k) + rhs_yield(g.productions[i].right) + a.push(x).skip(k + 1));
    assert(step_at(g, a.push(x), b.push(x), k, i));
}

pub proof fn lemma_derivation_suffix(g: SpecGrammar, forms: Seq<Seq<SpecSymbol>>, a: Seq<SpecSymbol>, b: Seq<SpecSymbol>, x: SpecSymbol)
    requires
        derivation_of(g, forms, a, b),
    ensures
        derivation_of(g, with_suffix(forms, x), a.push(x), b.push(x)),
    decreases forms.len(),
{
    let fs = with_suffix(forms, x);
    if forms.len() > 1 {
        let front = forms.drop_last();
        lemma_derivation_suffix(g, front, a, forms[forms.len() - 2], x);
        assert(fs.drop_last() =~= with_suffix(front, x));
        lemma_step_suffix(g, forms[forms.len() - 2], forms.last(), x);
        assert(fs[fs.len() - 2] == forms[forms.len() - 2].push(x));
    }
}

/// The forms put between `pre` and `post`.
pub open spec fn in_context(forms: Seq<Seq<SpecSymbol>>, pre: Seq<SpecSymbol>, post: Seq<SpecSymbol>) -> Seq<Seq<SpecSymbol>> {
    forms.map_values(|f: Seq<SpecSymbol>| pre + f + post)
}

pub proof fn lemma_step_context(g: SpecGrammar, a: Seq<SpecSymbol>, b: Seq<SpecSymbol>, pre: Seq<SpecSymbol>, post: Seq<SpecSymbol>)
    requires
        derives_step(g, a, b),
    ensures
        derives_step(g, pre + a + post, pre + b + post),
{
    let (k, i) = choose|k: int, i: int| #[trigger] step_at(g, a, b, k, i);
    let x = pre + a + post;
    let k2 = pre.len() + k;
    assert(x.take(k2) =~= pre + a.take(k));
    assert(x.skip(k2 + 1) =~= a.skip(k + 1) + post);
    assert(x[k2] == a[k]);
    assert(pre + b + post =~= x.take(k2) + rhs_yield(g.productions[i].right) + x.skip(k2 + 1));
    assert(step_at(g, x, pre + b + post, k2, i));
}

pub proof fn lemma_derivation_context(
    g: SpecGrammar,
    forms: Seq<Seq<SpecSymbol>>,
    a: Seq<SpecSymbol>,
    b: Seq<SpecSymbol>,
    pre: Seq<SpecSymbol>,
    post: Seq<SpecSymbol>,
)
    requires
        derivation_of(g, forms, a, b),
    ensures
        derivation_of(g, in_context(forms, pre, post), pre + a + post, pre + b + post),
    decreases forms.len(),
{
    let fs = in_context(forms, pre, post);
    if forms.len() > 1 {
        let front = forms.drop_last();
        assert(is_derivation(g, front) && derives_step(g, forms[forms.len() - 2], forms.last()));
        lemma_derivation_context(g, front, a, forms[forms.len() - 2], pre, post);
        assert(fs.drop_last() =~= in_context(front, pre, post));
        lemma_step_context(g, forms[forms.len() - 2], forms.last(), pre, post);
        assert(fs[fs.len() - 2] == pre + forms[forms.len() - 2] + post);
        assert(is_derivation(g, fs));
    }
}

pub proof fn lemma_derivation_chain(
    g: SpecGrammar,
    f1: Seq<Seq<SpecSymbol>>,
    f2: Seq<Seq<SpecSymbol>>,
    a: Seq<SpecSymbol>,
    b: Seq<SpecSymbol>,
    c: Seq<SpecSymbol>,
)
    requires
        derivation_of(g, f1, a, b),
        derivation_of(g, f2, b, c),
    ensures
        derivation_of(g, f1 + f2.drop_first(), a, c),
    decreases f2.len(),
{
    let fs = f1 + f2.drop_first();
    if f2.len() == 1 {
        assert(f2.drop_first() =~= Seq::<Seq<SpecSymbol>>::empty());
        assert(fs =~= f1);
    } else {
        let front = f2.drop_last();
        assert(is_derivation(g, front) && derives_step(g, f2[f2.len() - 2], f2.last()));
        lemma_derivation_chain(g, f1, front, a, b, f2[f2.len() - 2]);
        assert(fs.drop_last() =~= f1 + front.drop_first());
        assert(fs[fs.len() - 2] == f2[f2.len() - 2]);
        assert(fs.last() == f2.last());
        assert(is_derivation(g, fs));
    }
}

pub proof fn lemma_derives_refl(g: SpecGrammar, a: Seq<SpecSymbol>)
    ensures
        derives(g, a, a),
{
    assert(derivation_of(g, seq![a], a, a));
}

pub proof fn lemma_derives_trans(g: SpecGrammar, a: Seq<SpecSymbol>, b: Seq<SpecSymbol>, c: Seq<SpecSymbol>)
    requires
        derives(g, a, b),
        derives(g, b, c),
    ensures
        derives(g, a, c),
{
    let f1 = choose|f: Seq<Seq<SpecSymbol>>| #[trigger] derivation_of(g, f, a, b);
    let f2 = choose|f: Seq<Seq<SpecSymbol>>| #[trigger] derivation_of(g, f, b, c);
    lemma_derivation_chain(g, f1, f2, a, b, c);
}

/// Derivations of two parts side by side derive the whole.
pub proof fn lemma_derives_concat(g: SpecGrammar, a1: Seq<SpecSymbol>, b1: Seq<SpecSymbol>, a2: Seq<SpecSymbol>, b2: Seq<SpecSymbol>)
    requires
        derives(g, a1, b1),
        derives(g, a2, b2),
    ensures
        derives(g, a1 + a2, b1 + b2),
{
    let e = Seq::<SpecSymbol>::empty();
    let f1 = choose|f: Seq<Seq<SpecSymbol>>| #[trigger] derivation_of(g, f, a1, b1);
    let f2 = choose|f: Seq<Seq<SpecSymbol>>| #[trigger] derivation_of(g, f, a2, b2);
    lemma_derivation_context(g, f1, a1, b1, e, a2);
    lemma_derivation_context(g, f2, a2, b2, b1, e);
    assert(e + a1 + a2 =~= a1 + a2);
    assert(e + b1 + a2 =~= b1 + a2);
    assert(b1 + a2 + e =~= b1 + a2);
    assert(b1 + b2 + e =~= b1 + b2);
    assert(derivation_of(g, in_context(f1, e, a2), a1 + a2, b1 + a2));
    assert(derivation_of(g, in_context(f2, b1, e), b1 + a2, b1 + b2));
    lemma_derivation_chain(g, in_context(f1, e, a2), in_context(f2, b1, e), a1 + a2, b1 + a2, b1 + b2);
}

/// One step then a derivation.
pub proof fn lemma_derives_step_then(g: SpecGrammar, a: Seq<SpecSymbol>, b: Seq<SpecSymbol>, c: Seq<SpecSymbol>)
    requires
        derives_step(g, a, b),
        derives(g, b, c),
    ensures
        derives(g, a, c),
{
    let f = choose|f: Seq<Seq<SpecSymbol>>| #[trigger] derivation_of(g, f, b, c);
    lemma_derivation_prepend(g, f, a, b, c);
}

/// The first step of a derivation, and the derivation that follows it.
pub proof fn lemma_derivation_front(g: SpecGrammar, forms: Seq<Seq<SpecSymbol>>, a: Seq<SpecSymbol>, b: Seq<SpecSymbol>)
    requires
        derivation_of(g, forms, a, b),
        forms.len() >= 2,
    ensures
        derives_step(g, forms[0], forms[1]),
        derivation_of(g, forms.drop_first(), forms[1], b),
    decreases forms.len(),
{
    if forms.len() == 2 {
        assert(forms.drop_last() =~= seq![a]);
        assert(forms.drop_first() =~= seq![b]);
    } else {
        let front = forms.drop_last();
        assert(is_derivation(g, front) && derives_step(g, forms[forms.len() - 2], forms.last()));
        lemma_derivation_front(g, front, a, forms[forms.len() - 2]);
        assert(front[1] == forms[1]);
        assert(front.drop_first().push(b) =~= forms.drop_first());
        lemma_derivation_extend(g, front.drop_first(), forms[1], forms[forms.len() - 2], b);
    }
}

/// A derivation from two parts side by side is one derivation of each part:
/// the derived form is what the first part derives, then what the second
/// does, and the two take as many steps as the whole.
pub proof fn lemma_derivation_split(g: SpecGrammar, forms: Seq<Seq<SpecSymbol>>, a1: Seq<SpecSymbol>, a2: Seq<SpecSymbol>, w: Seq<SpecSymbol>)
    -> (r: (Seq<Seq<SpecSymbol>>, Seq<Seq<SpecSymbol>>))
    requires
        derivation_of(g, forms, a1 + a2, w),
    ensures
        derivation_of(g, r.0, a1, r.0.last()),
        derivation_of(g, r.1, a2, r.1.last()),
        r.0.last() + r.1.last() == w,
        r.0.len() + r.1.len() == forms.len() + 1,
    decreases forms.len(),
{
    if forms.len() == 1 {
        (seq![a1], seq![a2])
    } else {
        lemma_derivation_front(g, forms, a1 + a2, w);
        let m = forms[1];
        let (k, i) = choose|k: int, i: int| #[trigger] step_at(g, a1 + a2, m, k, i);
        let y = rhs_yield(g.productions[i].right);
        if k < a1.len() {
            let b1 = a1.take(k) + y + a1.skip(k + 1);
            assert((a1 + a2).take(k) =~= a1.take(k));
            assert((a1 + a2).skip(k + 1) =~= a1.skip(k + 1) + a2);
            assert(m =~= b1 + a2);
            assert(step_at(g, a1, b1, k, i));
            let (f1, f2) = lemma_derivation_split(g, forms.drop_first(), b1, a2, w);
            lemma_derivation_prepend(g, f1, a1, b1, f1.last());
            assert((seq![a1] + f1).last() == f1.last());
            (seq![a1] + f1, f2)
        } else {
            let k2 = k - a1.len();
            let b2 = a2.take(k2) + y + a2.skip(k2 + 1);
            assert((a1 + a2).take(k) =~= a1 + a2.take(k2));
            assert((a1 + a2).skip(k + 1) =~= a2.skip(k2 + 1));
            assert((a1 + a2)[k] == a2[k2]);
            assert(m =~= a1 + b2);
            assert(step_at(g, a2, b2, k2, i));
            let (f1, f2) = lemma_derivation_split(g, forms.drop_first(), a1, b2, w);
            lemma_derivation_prepend(g, f2, a2, b2, f2.last());
            assert((seq![a2] + f2).last() == f2.last());
            (f1, seq![a2] + f2)
        }
    }
}

/// A form without non-terminals derives only itself.
pub proof fn lemma_derivation_no_nonterminal(g: SpecGrammar, forms: Seq<Seq<SpecSymbol>>, a: Seq<SpecSymbol>, b: Seq<SpecSymbol>)
    requires
        forall|i: int| 0 <= i < g.productions.len() ==> (#[trigger] g.productions[i]).left is NonTerminal,
        forall|j: int| 0 <= j < a.len() ==> !(#[trigger] a[j] is NonTerminal),
        derivation_of(g, forms, a, b),
    ensures
        forms.len() == 1,
        b == a,
{
    if forms.len() >= 2 {
        lemma_derivation_front(g, forms, a, b);
        let (k, i) = choose|k: int, i: int| #[trigger] step_at(g, forms[0], forms[1], k, i);
        assert(g.productions[i].left is NonTerminal);
        assert(!(a[k] is NonTerminal));
    }
}

/// Derivations of two parts side by side, as one derivation of the whole
/// with as many steps as both.
pub proof fn lemma_derivation_concat(
    g: SpecGrammar,
    f1: Seq<Seq<SpecSymbol>>,
    f2: Seq<Seq<SpecSymbol>>,
    a1: Seq<SpecSymbol>,
    b1: Seq<SpecSymbol>,
    a2: Seq<SpecSymbol>,
    b2: Seq<SpecSymbol>,
) -> (r: Seq<Seq<SpecSymbol>>)
    requires
        derivation_of(g, f1, a1, b1),
        derivation_of(g, f2, a2, b2),
    ensures
        derivation_of(g, r, a1 + a2, b1 + b2),
        r.len() + 1 == f1.len() + f2.len(),
{
    let e = Seq::<SpecSymbol>::empty();
    lemma_derivation_context(g, f1, a1, b1, e, a2);
    lemma_derivation_context(g, f2, a2, b2, b1, e);
    assert(e + a1 + a2 =~= a1 + a2);
    assert(e + b1 + a2 =~= b1 + a2);
    assert(b1 + a2 + e =~= b1 + a2);
    assert(b1 + b2 + e =~= b1 + b2);
    let c1 = in_context(f1, e, a2);
    let c2 = in_context(f2, b1, e);
    assert(derivation_of(g, c1, a1 + a2, b1 + a2));
    assert(derivation_of(g, c2, b1 + a2, b1 + b2));
    lemma_derivation_chain(g, c1, c2, a1 + a2, b1 + a2, b1 + b2);
    c1 + c2.drop_first()
}

} // verus!
