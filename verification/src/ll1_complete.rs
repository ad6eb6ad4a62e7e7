//! The LL(1) parse accepts every input that the grammar derives: FIRST and
//! FOLLOW hold what derivations start with and what may follow, so the
//! table always holds the production that a derivation of the rest of the
//! input uses next.

use vstd::prelude::*;
use crate::symbols::{Symbol, SpecSymbol, SpecGrammar, syms_view, strs_view};
use crate::ll1::{
    SymRel, in_seq_first, in_rhs, holds_first_base, first_closed, first_base, follow_closed, follow_ok_at, dollar, table_matches,
    selects, ll1_trace, expands_to_nothing, pushed, lemma_pushed_reverses, LL1Parser, ll1_parse_spec, with_end_marker,
    first_relation, follow_relation, follow_base,
};
use crate::derivation::{
    derivation_of, step_at, rhs_yield, eps_alone, rev, terminals_of, lemma_derivation_front, lemma_derivation_split,
    lemma_derivation_no_nonterminal, lemma_derivation_concat, lemma_rev_concat,
};

verus! {

/// All symbols of `w` are terminals.
pub open spec fn all_terminals(w: Seq<SpecSymbol>) -> bool {
    forall|j: int| 0 <= j < w.len() ==> (#[trigger] w[j]) is Terminal
}

/// A sentential form of the grammar: no `ϵ` in it, and its terminals occur
/// on right sides.
pub open spec fn clean_form(g: SpecGrammar, s: Seq<SpecSymbol>) -> bool {
    forall|j: int| 0 <= j < s.len() ==> (#[trigger] s[j]) != SpecSymbol::Epsilon && (s[j] is Terminal ==> in_rhs(g, s[j]))
}

/// Every left side is a non-terminal.
pub open spec fn lefts_nonterminal(g: SpecGrammar) -> bool {
    forall|i: int| 0 <= i < g.productions.len() ==> (#[trigger] g.productions[i]).left is NonTerminal
}

/// FIRST of `u` followed by `v`.
pub proof fn lemma_seq_first_concat(u: Seq<SpecSymbol>, v: Seq<SpecSymbol>, f: SymRel, y: SpecSymbol)
    ensures
        in_seq_first(u + v, f, y) == ((y != SpecSymbol::Epsilon && in_seq_first(u, f, y)) || (in_seq_first(u, f, SpecSymbol::Epsilon)
            && in_seq_first(v, f, y))),
    decreases u.len(),
{
    if u.len() == 0 {
        assert(u + v =~= v);
    } else {
        assert((u + v)[0] == u[0]);
        assert((u + v).drop_first() =~= u.drop_first() + v);
        lemma_seq_first_concat(u.drop_first(), v, f, y);
    }
}

/// The right side of a production as it stands in a sentential form.
proof fn lemma_rhs_clean(g: SpecGrammar, i: int)
    requires
        0 <= i < g.productions.len(),
        eps_alone(g),
    ensures
        clean_form(g, rhs_yield(g.productions[i].right)),
        g.productions[i].right != seq![SpecSymbol::Epsilon] ==> rhs_yield(g.productions[i].right) == g.productions[i].right,
{
    let r = g.productions[i].right;
    if r != seq![SpecSymbol::Epsilon] {
        assert forall|j: int| 0 <= j < r.len() implies (#[trigger] r[j]) != SpecSymbol::Epsilon && (r[j] is Terminal ==> in_rhs(g, r[j])) by {
            if r[j] == SpecSymbol::Epsilon {
                assert(r.len() == 1);
                assert(r =~= seq![SpecSymbol::Epsilon]);
            }
        }
    }
}

/// What a form derives starts with a token of its FIRST set: a derivation
/// of terminals from `a` gives FIRST(`a`) its first terminal, or `ϵ` when
/// it derives nothing.
pub proof fn lemma_first_of_derivation(g: SpecGrammar, f: SymRel, forms: Seq<Seq<SpecSymbol>>, a: Seq<SpecSymbol>, w: Seq<SpecSymbol>)
    requires
        holds_first_base(g, f),
        first_closed(g, f),
        g.productions.len() > 0,
        lefts_nonterminal(g),
        eps_alone(g),
        clean_form(g, a),
        all_terminals(w),
        derivation_of(g, forms, a, w),
    ensures
        w.len() > 0 ==> in_seq_first(a, f, w[0]),
        w.len() == 0 ==> in_seq_first(a, f, SpecSymbol::Epsilon),
    decreases forms.len(), a.len(),
{
    if a.len() == 0 {
        lemma_derivation_no_nonterminal(g, forms, a, w);
        return;
    }
    let a0 = a[0];
    let rest = a.drop_first();
    assert(seq![a0] + rest =~= a);
    let (f1, f2) = lemma_derivation_split(g, forms, seq![a0], rest, w);
    let w1 = f1.last();
    let w2 = f2.last();
    assert forall|j: int| 0 <= j < w1.len() implies (#[trigger] w1[j]) is Terminal by {
        assert(w[j] == w1[j]);
    }
    assert forall|j: int| 0 <= j < w2.len() implies (#[trigger] w2[j]) is Terminal by {
        assert(w[w1.len() + j] == w2[j]);
    }
    assert(a[0] == a0);
    // What `a0` derives.
    if a0 is NonTerminal {
        if f1.len() == 1 {
            assert(w1 == seq![a0]);
            assert(w1[0] is Terminal);
        }
        lemma_derivation_front(g, f1, seq![a0], w1);
        let (k, i) = choose|k: int, i: int| #[trigger] step_at(g, f1[0], f1[1], k, i);
        assert(k == 0);
        let y = rhs_yield(g.productions[i].right);
        assert(seq![a0].take(0) + y + seq![a0].skip(1) =~= y);
        lemma_rhs_clean(g, i);
        lemma_first_of_derivation(g, f, f1.drop_first(), y, w1);
        if g.productions[i].right == seq![SpecSymbol::Epsilon] {
            assert(first_base(g, SpecSymbol::Epsilon, SpecSymbol::Epsilon));
            assert(g.productions[i].right.drop_first() =~= Seq::<SpecSymbol>::empty());
            assert(in_seq_first(g.productions[i].right, f, SpecSymbol::Epsilon));
            lemma_derivation_no_nonterminal(g, f1.drop_first(), y, w1);
        }
        if w1.len() > 0 {
            assert(in_seq_first(g.productions[i].right, f, w1[0]));
            assert(f.contains((a0, w1[0])));
        } else {
            assert(in_seq_first(g.productions[i].right, f, SpecSymbol::Epsilon));
            assert(f.contains((a0, SpecSymbol::Epsilon)));
        }
    } else {
        assert(a0 is Terminal);
        lemma_derivation_no_nonterminal(g, f1, seq![a0], w1);
        assert(in_rhs(g, a0));
        assert(first_base(g, a0, a0));
        assert(f.contains((a0, a0)));
    }
    // The rest of `a`.
    assert(clean_form(g, rest)) by {
        assert forall|j: int| 0 <= j < rest.len() implies (#[trigger] rest[j]) != SpecSymbol::Epsilon && (rest[j] is Terminal ==> in_rhs(g, rest[j])) by {
            assert(rest[j] == a[j + 1]);
        }
    }
    if w1.len() > 0 {
        assert(w[0] == w1[0]);
        assert(w1[0] != SpecSymbol::Epsilon);
    } else {
        assert(w =~= w2);
        lemma_first_of_derivation(g, f, f2, rest, w2);
    }
}

/// `y` may come right after `s` at the end of the input: a terminal of
/// FIRST(`s`), or `$` when `s` may derive nothing.
pub open spec fn ends_first(f: SymRel, s: Seq<SpecSymbol>, y: SpecSymbol) -> bool {
    ||| (y is Terminal && in_seq_first(s, f, y))
    ||| (in_seq_first(s, f, SpecSymbol::Epsilon) && y == dollar())
}

/// In the form `s` (what the parser's stack holds, top first), whatever may
/// come after a non-terminal is in its FOLLOW set.
pub open spec fn follow_ready(f: SymRel, fo: SymRel, s: Seq<SpecSymbol>) -> bool {
    forall|k: int, y: SpecSymbol|
        0 <= k < s.len() && s[k] is NonTerminal && #[trigger] ends_first(f, s.skip(k + 1), y) ==> fo.contains((s[k], y))
}

proof fn lemma_follow_ready_tail(f: SymRel, fo: SymRel, s: Seq<SpecSymbol>)
    requires
        follow_ready(f, fo, s),
        s.len() >= 1,
    ensures
        follow_ready(f, fo, s.drop_first()),
{
    let s2 = s.drop_first();
    assert forall|k: int, y: SpecSymbol|
        0 <= k < s2.len() && s2[k] is NonTerminal && #[trigger] ends_first(f, s2.skip(k + 1), y) implies fo.contains((s2[k], y)) by {
        assert(s2.skip(k + 1) =~= s.skip(k + 2));
        assert(s2[k] == s[k + 1]);
        assert(ends_first(f, s.skip(k + 1 + 1), y));
    }
}

/// Expanding the first symbol of the form by production `i` keeps the
/// FOLLOW sets ready.
proof fn lemma_follow_ready_expand(g: SpecGrammar, f: SymRel, fo: SymRel, i: int, s: Seq<SpecSymbol>)
    requires
        follow_closed(g, f, fo),
        follow_ready(f, fo, s),
        s.len() >= 1,
        0 <= i < g.productions.len(),
        g.productions[i].left == s[0],
        s[0] is NonTerminal,
    ensures
        follow_ready(f, fo, rhs_yield(g.productions[i].right) + s.drop_first()),
{
    let right = g.productions[i].right;
    let y = rhs_yield(right);
    let rest = s.drop_first();
    let n = y + rest;
    assert(s.skip(1) =~= rest);
    assert forall|k: int, z: SpecSymbol| 0 <= k < n.len() && n[k] is NonTerminal && #[trigger] ends_first(f, n.skip(k + 1), z)
        implies fo.contains((n[k], z)) by {
        if k < y.len() {
            assert(y =~= right);
            assert(n[k] == right[k]);
            assert(n.skip(k + 1) =~= right.skip(k + 1) + rest);
            lemma_seq_first_concat(right.skip(k + 1), rest, f, z);
            lemma_seq_first_concat(right.skip(k + 1), rest, f, SpecSymbol::Epsilon);
            assert(follow_ok_at(g, f, fo, i, k));
            if z is Terminal && in_seq_first(right.skip(k + 1), f, z) {
                assert(fo.contains((right[k], z)));
            } else {
                assert(in_seq_first(right.skip(k + 1), f, SpecSymbol::Epsilon));
                assert(ends_first(f, rest, z));
                assert(ends_first(f, s.skip(0int + 1), z));
                assert(fo.contains((s[0], z)));
                assert(fo.contains((right[k], z)));
            }
        } else {
            let k2 = k - y.len();
            assert(n[k] == s[k2 + 1]);
            assert(n.skip(k + 1) =~= s.skip(k2 + 1 + 1));
        }
    }
}

/// The stack holds `$` under the form, top last: taking off the top takes
/// the form's first symbol.
proof fn lemma_stack_top(stack: Seq<SpecSymbol>)
    requires
        stack.len() >= 2,
    ensures
        rev(stack.drop_first()) == seq![stack.last()] + rev(stack.drop_last().drop_first()),
        rev(stack.drop_first())[0] == stack.last(),
        rev(stack.drop_first()).drop_first() == rev(stack.drop_last().drop_first()),
{
    let d = stack.drop_first();
    assert(d.drop_last() =~= stack.drop_last().drop_first());
    assert(d.last() == stack.last());
    assert(rev(d) == seq![d.last()] + rev(d.drop_last()));
    assert((seq![stack.last()] + rev(stack.drop_last().drop_first())).drop_first() =~= rev(stack.drop_last().drop_first()));
}

/// The tokens from `pos` up to the end marker, as terminals.
pub open spec fn rest_terminals(input: Seq<Seq<char>>, pos: int) -> Seq<SpecSymbol> {
    terminals_of(input.subrange(pos, input.len() - 1))
}

/// A run of the LL(1) parse from a stack whose form (top first, `$` left
/// out) derives the tokens still to read ends in success, given fuel for
/// every step of that derivation and every token.
pub proof fn lemma_ll1_trace_complete(
    g: SpecGrammar,
    f: SymRel,
    fo: SymRel,
    t: Map<(SpecSymbol, SpecSymbol), Seq<Symbol>>,
    input: Seq<Seq<char>>,
    stack: Seq<SpecSymbol>,
    pos: int,
    step: int,
    fuel: nat,
    forms: Seq<Seq<SpecSymbol>>,
)
    requires
        holds_first_base(g, f),
        first_closed(g, f),
        follow_closed(g, f, fo),
        table_matches(g, f, fo, t),
        g.productions.len() > 0,
        lefts_nonterminal(g),
        eps_alone(g),
        !in_rhs(g, dollar()),
        input.len() >= 1,
        input.last() == "$"@,
        stack.len() >= 1,
        stack[0] == dollar(),
        clean_form(g, rev(stack.drop_first())),
        follow_ready(f, fo, rev(stack.drop_first())),
        0 <= pos < input.len(),
        derivation_of(g, forms, rev(stack.drop_first()), rest_terminals(input, pos)),
        forms.len() + (input.len() - 1 - pos) <= fuel,
    ensures
        ll1_trace(false, t, input, stack, pos, step, fuel) matches Ok(sn) && sn.len() > 0 && sn.last().action == "Success!"@,
    decreases fuel,
{
    let phi = rev(stack.drop_first());
    let rem = rest_terminals(input, pos);
    let cur = input[pos];
    let cur_sym = SpecSymbol::Terminal(cur);
    assert(all_terminals(rem));
    if stack.len() == 1 {
        assert(stack.drop_first() =~= Seq::<SpecSymbol>::empty());
        assert(phi =~= Seq::<SpecSymbol>::empty());
        lemma_derivation_no_nonterminal(g, forms, phi, rem);
        assert(input.subrange(pos, input.len() - 1).len() == 0);
        assert(pos == input.len() - 1);
        assert(stack.last() == dollar());
        return;
    }
    lemma_stack_top(stack);
    let top = stack.last();
    let rest = phi.drop_first();
    assert(seq![top] + rest =~= phi);
    let (f1, f2) = lemma_derivation_split(g, forms, seq![top], rest, rem);
    let w1 = f1.last();
    let w2 = f2.last();
    assert forall|j: int| 0 <= j < w1.len() implies (#[trigger] w1[j]) is Terminal by {
        assert(rem[j] == w1[j]);
    }
    assert forall|j: int| 0 <= j < w2.len() implies (#[trigger] w2[j]) is Terminal by {
        assert(rem[w1.len() + j] == w2[j]);
    }
    assert(clean_form(g, rest)) by {
        assert forall|j: int| 0 <= j < rest.len() implies (#[trigger] rest[j]) != SpecSymbol::Epsilon && (rest[j] is Terminal ==> in_rhs(g, rest[j])) by {
            assert(rest[j] == phi[j + 1]);
        }
    }
    lemma_follow_ready_tail(f, fo, phi);
    let ns = stack.drop_last();
    assert(ns.drop_first() =~= stack.drop_first().drop_last());
    if rem.len() > 0 {
        assert(rem[0] == cur_sym);
    } else {
        assert(pos == input.len() - 1);
        assert(cur_sym == dollar());
    }
    assert(phi[0] == top);
    if top is Terminal {
        lemma_derivation_no_nonterminal(g, f1, seq![top], w1);
        assert(rem[0] == top);
        assert(in_rhs(g, top));
        assert(top != dollar());
        assert(rem.drop_first() =~= rest_terminals(input, pos + 1));
        assert(w2 =~= rem.drop_first());
        lemma_ll1_trace_complete(g, f, fo, t, input, ns, pos + 1, step + 1, (fuel - 1) as nat, f2);
    } else {
        assert(top is NonTerminal);
        if f1.len() == 1 {
            assert(w1 == seq![top]);
            assert(w1[0] is Terminal);
        }
        lemma_derivation_front(g, f1, seq![top], w1);
        let (k, i) = choose|k: int, i: int| #[trigger] step_at(g, f1[0], f1[1], k, i);
        assert(k == 0);
        let right = g.productions[i].right;
        let y = rhs_yield(right);
        assert(seq![top].take(0) + y + seq![top].skip(1) =~= y);
        lemma_rhs_clean(g, i);
        lemma_first_of_derivation(g, f, f1.drop_first(), y, w1);
        lemma_first_of_derivation(g, f, f2, rest, w2);
        if right == seq![SpecSymbol::Epsilon] {
            assert(first_base(g, SpecSymbol::Epsilon, SpecSymbol::Epsilon));
            assert(right.drop_first() =~= Seq::<SpecSymbol>::empty());
            assert(in_seq_first(right, f, SpecSymbol::Epsilon));
            lemma_derivation_no_nonterminal(g, f1.drop_first(), y, w1);
        }
        // The production is chosen at the current token.
        if w1.len() > 0 {
            assert(rem[0] == w1[0]);
            assert(in_seq_first(right, f, cur_sym));
        } else {
            assert(in_seq_first(right, f, SpecSymbol::Epsilon));
            assert(rem =~= w2);
            assert(ends_first(f, phi.skip(0int + 1), cur_sym)) by {
                assert(phi.skip(1) =~= rest);
            }
            assert(fo.contains((top, cur_sym)));
        }
        assert(selects(f, fo, g.productions[i], cur_sym));
        assert(t.contains_key((top, cur_sym)));
        assert(syms_view(t[(top, cur_sym)]) == right);
        // The stack after the expansion holds the right side over the rest.
        let new_stack = if expands_to_nothing(right) {
            stack.drop_last()
        } else {
            stack.drop_last() + pushed(right)
        };
        if expands_to_nothing(right) {
            if right.len() > 0 {
                assert(right[0] == SpecSymbol::Epsilon);
                assert(right =~= seq![SpecSymbol::Epsilon]);
            }
            assert(y =~= Seq::<SpecSymbol>::empty());
            assert(rev(new_stack.drop_first()) =~= y + rest);
        } else {
            assert(right != seq![SpecSymbol::Epsilon]);
            assert forall|q: int| 0 <= q < right.len() implies right[q] != SpecSymbol::Epsilon by {
                assert(y[q] == right[q]);
            }
            lemma_pushed_reverses(right);
            assert(new_stack.drop_first() =~= stack.drop_last().drop_first() + pushed(right));
            lemma_rev_concat(stack.drop_last().drop_first(), pushed(right));
            assert(rev(new_stack.drop_first()) =~= y + rest);
        }
        assert(new_stack.len() >= 1 && new_stack[0] == dollar());
        lemma_follow_ready_expand(g, f, fo, i, phi);
        assert(clean_form(g, y + rest)) by {
            assert forall|j: int| 0 <= j < (y + rest).len() implies (#[trigger] (y + rest)[j]) != SpecSymbol::Epsilon
                && ((y + rest)[j] is Terminal ==> in_rhs(g, (y + rest)[j])) by {
                if j < y.len() {
                    assert((y + rest)[j] == y[j]);
                } else {
                    assert((y + rest)[j] == rest[j - y.len()]);
                }
            }
        }
        let nf = lemma_derivation_concat(g, f1.drop_first(), f2, y, w1, rest, w2);
        assert(w1 + w2 == rem);
        lemma_ll1_trace_complete(g, f, fo, t, input, new_stack, pos, step + 1, (fuel - 1) as nat, nf);
    }
}

/// The LL(1) parser accepts every input that its grammar derives: when the
/// tokens are derived from the start symbol (by the derivation `forms`), the
/// parse ends in success. (This needs the left sides to be non-terminals,
/// `ϵ` to stand alone on a right side, `$` to be no symbol of the grammar,
/// and the derivation and the input to be short enough for the parse to
/// count their steps.)
pub proof fn ll1_accepts_derived_input(p: LL1Parser, input: Seq<String>, forms: Seq<Seq<SpecSymbol>>)
    requires
        p.analyzed(),
        lefts_nonterminal(p.grammar@),
        eps_alone(p.grammar@),
        !in_rhs(p.grammar@, dollar()),
        p.grammar@.start is NonTerminal,
        derivation_of(p.grammar@, forms, seq![p.grammar@.start], terminals_of(strs_view(input))),
        forms.len() + input.len() <= usize::MAX + 1,
    ensures
        ll1_parse_spec(false, p.table@, p.grammar@.start, input) matches Ok(sn) && sn.len() > 0 && sn.last().action == "Success!"@,
{
    let g = p.grammar@;
    let f = first_relation(g);
    let fo = follow_relation(g, f);
    let iv = with_end_marker(input);
    let stack = seq![dollar(), g.start];
    let w = terminals_of(strs_view(input));
    if forms.len() == 1 {
        assert(seq![g.start][0] == w[0]);
    }
    lemma_derivation_front(g, forms, seq![g.start], w);
    let (k, i) = choose|k: int, i: int| #[trigger] step_at(g, forms[0], forms[1], k, i);
    assert(g.productions.len() > 0);
    assert(stack.drop_first() =~= seq![g.start]);
    assert(rev(seq![g.start]) =~= seq![g.start]) by {
        assert(seq![g.start].drop_last() =~= Seq::<SpecSymbol>::empty());
        assert(rev(Seq::<SpecSymbol>::empty()) =~= Seq::<SpecSymbol>::empty());
        assert(seq![g.start].last() == g.start);
    }
    assert(clean_form(g, seq![g.start]));
    assert(follow_ready(f, fo, seq![g.start])) by {
        assert forall|k: int, y: SpecSymbol| 0 <= k < 1 && seq![g.start][k] is NonTerminal && #[trigger] ends_first(f, seq![g.start].skip(k + 1), y)
            implies fo.contains((seq![g.start][k], y)) by {
            assert(seq![g.start].skip(1) =~= Seq::<SpecSymbol>::empty());
            assert(follow_base(g, g.start, dollar()));
        }
    }
    assert(iv.subrange(0, iv.len() - 1) =~= strs_view(input));
    assert(rest_terminals(iv, 0) == w);
    lemma_ll1_trace_complete(g, f, fo, p.table@, iv, stack, 0, 0, (usize::MAX + 1) as nat, forms);
}

} // verus!
