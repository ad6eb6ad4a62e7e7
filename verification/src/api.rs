//! What the HTTP endpoints compute: the request and response records, the
//! tokenizer for input strings, and the responses of the grammar analysis
//! and of the LL(1), LR(0) and SLR(1) parses.

use vstd::prelude::*;
use crate::collections::{VecMap, views};
use crate::symbols::{Symbol, SpecSymbol, Production, SpecProduction, Grammar, SpecGrammar, syms_view, prods_view, strs_view};
use crate::text::{is_ws, words, word_ranges, range_texts, chars_of, substring, starts_at};
use crate::ll1::{LL1Parser, ll1_trace, dollar, first_relation, follow_relation, has_ll1_conflict, ll1_conflict_at, ll1_conflict_message};
use crate::collections::map_of;
use crate::symbols::{ParseSnapshot, LR0ParseSnapshot, SpecLRSnapshot, sym_text};
use crate::text::{concat, usize_text, nat_text, join};
use crate::grammar::{parse_grammar, left_recursive};
use crate::lr::{SpecAction, TableAction, ActMap, GotoMap, action_text, lr_trace, LRState};
use crate::parser::Parser;
use crate::lr0::{LR0Parser, LR0Item, SpecItem, texts, joined_texts, item_text, complete, states_view, lr0_refused};
use crate::slr1::{SLR1Parser, slr1_refused};
use crate::names::{terminal_list, nonterminal_list};

verus! {

/// The number of bytes of the UTF-8 encoding of `c`.
pub open spec fn utf8_width(c: char) -> nat {
    if '\u{80}' > c {
        1
    } else if '\u{800}' > c {
        2
    } else if '\u{10000}' > c {
        3
    } else {
        4
    }
}

/// The number of bytes of the UTF-8 encoding of `s` (what `str::len` gives).
pub open spec fn byte_len(s: Seq<char>) -> nat
    decreases s.len(),
{
    if s.len() == 0 {
        0
    } else {
        byte_len(s.drop_last()) + utf8_width(s.last())
    }
}

/// Whether a terminal name takes part in tokenizing: not one of the words
/// for ϵ, and not empty.
pub open spec fn token_name(t: Seq<char>) -> bool {
    t.len() > 0 && t != "ϵ"@ && t != "ε"@ && t != "epsilon"@
}

/// The terminal names of a right side added to `acc` (once each, in order).
pub open spec fn add_token_names(acc: Seq<Seq<char>>, rhs: Seq<SpecSymbol>) -> Seq<Seq<char>>
    decreases rhs.len(),
{
    if rhs.len() == 0 {
        acc
    } else {
        let a = add_token_names(acc, rhs.drop_last());
        match rhs.last() {
            SpecSymbol::Terminal(t) => if token_name(t) && !a.contains(t) { a.push(t) } else { a },
            _ => a,
        }
    }
}

/// The distinct terminal names used for tokenizing, in order of appearance.
pub open spec fn token_names(g: Seq<SpecProduction>) -> Seq<Seq<char>>
    decreases g.len(),
{
    if g.len() == 0 {
        Seq::empty()
    } else {
        add_token_names(token_names(g.drop_last()), g.last().right)
    }
}

/// The position at which `x` goes into `s` (sorted by decreasing byte
/// length): after every name at least as long.
pub open spec fn insert_pos(s: Seq<Seq<char>>, x: Seq<char>, k: int) -> int
    decreases s.len() - k,
{
    if k < 0 || k >= s.len() {
        s.len() as int
    } else if byte_len(s[k]) < byte_len(x) {
        k
    } else {
        insert_pos(s, x, k + 1)
    }
}

/// The names sorted by decreasing byte length, names of equal length
/// keeping their order (as a stable sort does).
pub open spec fn sort_by_len(s: Seq<Seq<char>>) -> Seq<Seq<char>>
    decreases s.len(),
{
    if s.len() == 0 {
        Seq::empty()
    } else {
        let t = sort_by_len(s.drop_last());
        t.insert(insert_pos(t, s.last(), 0), s.last())
    }
}

/// The index of the first name of `terms` (from `k`) that starts `rem`.
pub open spec fn first_match(terms: Seq<Seq<char>>, rem: Seq<char>, k: int) -> Option<int>
    decreases terms.len() - k,
{
    if k < 0 || k >= terms.len() {
        None
    } else if terms[k].len() > 0 && terms[k].len() <= rem.len() && rem.take(terms[k].len() as int) == terms[k] {
        Some(k)
    } else {
        first_match(terms, rem, k + 1)
    }
}

/// Greedy tokenizing: at each point the first name (longest first) that
/// starts the rest, else one character.
pub open spec fn greedy_tokens(rem: Seq<char>, terms: Seq<Seq<char>>) -> Seq<Seq<char>>
    decreases rem.len(),
{
    if rem.len() == 0 {
        Seq::empty()
    } else {
        match first_match(terms, rem, 0) {
            Some(k) => if 0 <= k < terms.len() && 0 < terms[k].len() <= rem.len() {
                seq![terms[k]] + greedy_tokens(rem.skip(terms[k].len() as int), terms)
            } else {
                Seq::empty()
            },
            None => seq![seq![rem[0]]] + greedy_tokens(rem.skip(1), terms),
        }
    }
}

/// The tokens of an input string: split at whitespace when it holds a
/// space, else cut greedily by the grammar's terminal names.
pub open spec fn tokens_of(input: Seq<char>, g: SpecGrammar) -> Seq<Seq<char>> {
    if input.contains(' ') {
        words(input)
    } else {
        greedy_tokens(input, sort_by_len(token_names(g.productions)))
    }
}

pub proof fn lemma_first_match(terms: Seq<Seq<char>>, rem: Seq<char>, k: int)
    ensures
        first_match(terms, rem, k) matches Some(j) ==> k <= j < terms.len() && 0 < terms[j].len() <= rem.len()
            && rem.take(terms[j].len() as int) == terms[j],
    decreases terms.len() - k,
{
    if 0 <= k < terms.len() {
        lemma_first_match(terms, rem, k + 1);
    }
}

pub proof fn lemma_byte_len_bound(s: Seq<char>)
    ensures
        byte_len(s) <= 4 * s.len(),
    decreases s.len(),
{
    if s.len() > 0 {
        lemma_byte_len_bound(s.drop_last());
    }
}

/// The tokens put back together.
pub open spec fn joined_tokens(ts: Seq<Seq<char>>) -> Seq<char>
    decreases ts.len(),
{
    if ts.len() == 0 {
        Seq::empty()
    } else {
        joined_tokens(ts.drop_last()) + ts.last()
    }
}

/// The characters of `s` that are not whitespace, in order.
pub open spec fn visible(s: Seq<char>) -> Seq<char>
    decreases s.len(),
{
    if s.len() == 0 {
        Seq::empty()
    } else if is_ws(s.last()) {
        visible(s.drop_last())
    } else {
        visible(s.drop_last()).push(s.last())
    }
}

pub proof fn lemma_joined_front(x: Seq<char>, rest: Seq<Seq<char>>)
    ensures
        joined_tokens(seq![x] + rest) == x + joined_tokens(rest),
    decreases rest.len(),
{
    if rest.len() == 0 {
        assert(seq![x] + rest =~= seq![x]);
        assert(seq![x].drop_last() =~= Seq::<Seq<char>>::empty());
        assert(x + Seq::<char>::empty() =~= x);
        assert(Seq::<char>::empty() + x =~= x);
        assert(joined_tokens(seq![x]) == joined_tokens(Seq::<Seq<char>>::empty()) + x);
    } else {
        lemma_joined_front(x, rest.drop_last());
        assert((seq![x] + rest).drop_last() =~= seq![x] + rest.drop_last());
        assert((seq![x] + rest).last() == rest.last());
        assert(x + joined_tokens(rest.drop_last()) + rest.last() =~= x + (joined_tokens(rest.drop_last()) + rest.last()));
    }
}

/// Greedy cutting gives back the text when joined, in non-empty tokens.
pub proof fn lemma_greedy_rejoins(rem: Seq<char>, terms: Seq<Seq<char>>)
    ensures
        joined_tokens(greedy_tokens(rem, terms)) == rem,
        forall|i: int| 0 <= i < greedy_tokens(rem, terms).len() ==> (#[trigger] greedy_tokens(rem, terms)[i]).len() > 0,
    decreases rem.len(),
{
    if rem.len() > 0 {
        lemma_first_match(terms, rem, 0);
        match first_match(terms, rem, 0) {
            Some(k) => {
                let n = terms[k].len() as int;
                lemma_greedy_rejoins(rem.skip(n), terms);
                let rest = greedy_tokens(rem.skip(n), terms);
                lemma_joined_front(terms[k], rest);
                assert(terms[k] + rem.skip(n) =~= rem);
                assert forall|i: int| 0 <= i < (seq![terms[k]] + rest).len() implies (#[trigger] (seq![terms[k]] + rest)[i]).len() > 0 by {
                    if i > 0 {
                        assert((seq![terms[k]] + rest)[i] == rest[i - 1]);
                    }
                }
            },
            None => {
                lemma_greedy_rejoins(rem.skip(1), terms);
                let rest = greedy_tokens(rem.skip(1), terms);
                lemma_joined_front(seq![rem[0]], rest);
                assert(seq![rem[0]] + rem.skip(1) =~= rem);
                assert forall|i: int| 0 <= i < (seq![seq![rem[0]]] + rest).len() implies (#[trigger] (seq![seq![rem[0]]] + rest)[i]).len() > 0 by {
                    if i > 0 {
                        assert((seq![seq![rem[0]]] + rest)[i] == rest[i - 1]);
                    }
                }
            },
        }
    }
}

/// The words of a text, joined, are its characters that are not
/// whitespace; no word is empty or holds whitespace.
pub proof fn lemma_words_rejoin(s: Seq<char>)
    ensures
        joined_tokens(words(s)) == visible(s),
        forall|i: int| 0 <= i < words(s).len() ==> (#[trigger] words(s)[i]).len() > 0,
        forall|i: int, j: int| 0 <= i < words(s).len() && 0 <= j < words(s)[i].len() ==> !is_ws(#[trigger] words(s)[i][j]),
    decreases s.len(),
{
    crate::text::lemma_words_nonempty(s);
    if s.len() > 0 {
        let p = s.drop_last();
        let c = s.last();
        lemma_words_rejoin(p);
        crate::text::lemma_words_nonempty(p);
        let w = words(p);
        if is_ws(c) {
        } else if s.len() >= 2 && !is_ws(s[s.len() - 2]) {
            assert(p.last() == s[s.len() - 2]);
            let y = w.last().push(c);
            let u = w.update(w.len() - 1, y);
            assert(u.drop_last() =~= w.drop_last());
            assert(joined_tokens(w.drop_last()) + y =~= (joined_tokens(w.drop_last()) + w.last()).push(c));
            assert forall|i: int, j: int| 0 <= i < u.len() && 0 <= j < u[i].len() implies !is_ws(#[trigger] u[i][j]) by {
                if i < u.len() - 1 {
                    assert(u[i] == w[i]);
                } else if j < w.last().len() {
                    assert(u[i][j] == w[w.len() - 1][j]);
                }
            }
        } else {
            let u = w.push(seq![c]);
            assert(u.drop_last() =~= w);
            assert forall|i: int, j: int| 0 <= i < u.len() && 0 <= j < u[i].len() implies !is_ws(#[trigger] u[i][j]) by {
                if i < w.len() {
                    assert(u[i] == w[i]);
                }
            }
        }
    }
}

/// Tokenizing loses nothing and makes no empty token: split at whitespace
/// (when the input holds a space), the tokens hold the input's characters
/// that are not whitespace, in order, and none of them holds whitespace;
/// cut by the terminal names, the tokens joined give back the input.
pub proof fn tokens_rejoin_input(input: Seq<char>, g: SpecGrammar)
    ensures
        forall|i: int| 0 <= i < tokens_of(input, g).len() ==> (#[trigger] tokens_of(input, g)[i]).len() > 0,
        input.contains(' ') ==> joined_tokens(tokens_of(input, g)) == visible(input),
        input.contains(' ') ==> forall|i: int, j: int| 0 <= i < tokens_of(input, g).len() && 0 <= j < tokens_of(input, g)[i].len()
            ==> !is_ws(#[trigger] tokens_of(input, g)[i][j]),
        !input.contains(' ') ==> joined_tokens(tokens_of(input, g)) == input,
{
    if input.contains(' ') {
        lemma_words_rejoin(input);
    } else {
        lemma_greedy_rejoins(input, sort_by_len(token_names(g.productions)));
    }
}

/// The byte length of a text.
fn byte_length(s: &Vec<char>) -> (r: u128)
    ensures
        r == byte_len(s@),
{
    let mut n: u128 = 0;
    let mut i: usize = 0;
    assert(s@.take(0) =~= Seq::<char>::empty());
    while i < s.len()
        invariant
            i <= s@.len(),
            n == byte_len(s@.take(i as int)),
        decreases s.len() - i,
    {
        assert(s@.take(i + 1).drop_last() =~= s@.take(i as int));
        proof {
            lemma_byte_len_bound(s@.take(i + 1));
        }
        let c = s[i];
        let w: u128 = if '\u{80}' > c {
            1
        } else if '\u{800}' > c {
            2
        } else if '\u{10000}' > c {
            3
        } else {
            4
        };
        assert(w == utf8_width(c));
        assert(s@.take(i + 1).last() == c);
        assert(byte_len(s@.take(i + 1)) == n + w);
        n = n + w;
        i += 1;
    }
    assert(s@.take(s@.len() as int) =~= s@);
    n
}

pub proof fn lemma_byte_len_prefix(s: Seq<char>, k: int)
    requires
        0 <= k <= s.len(),
    ensures
        byte_len(s.take(k)) <= byte_len(s),
    decreases s.len() - k,
{
    if k < s.len() {
        lemma_byte_len_prefix(s, k + 1);
        assert(s.take(k + 1).drop_last() =~= s.take(k));
    } else {
        assert(s.take(k) =~= s);
    }
}

/// The names used for tokenizing, in order of appearance.
fn token_names_of(prods: &Vec<Production>) -> (r: Vec<String>)
    ensures
        strs_view(r@) == token_names(prods_view(prods@)),
{
    let ghost g = prods_view(prods@);
    let mut r: Vec<String> = Vec::new();
    let mut i: usize = 0;
    assert(g.take(0) =~= Seq::<SpecProduction>::empty());
    while i < prods.len()
        invariant
            g == prods_view(prods@),
            i <= g.len(),
            strs_view(r@) == token_names(g.take(i as int)),
        decreases prods.len() - i,
    {
        let rhs = &prods[i].right;
        let ghost rv = syms_view(rhs@);
        let ghost base = strs_view(r@);
        assert(g[i as int].right == rv);
        let mut j: usize = 0;
        assert(rv.take(0) =~= Seq::<SpecSymbol>::empty());
        while j < rhs.len()
            invariant
                rv == syms_view(rhs@),
                j <= rhs@.len(),
                strs_view(r@) == add_token_names(base, rv.take(j as int)),
            decreases rhs.len() - j,
        {
            assert(rv.take(j + 1).drop_last() =~= rv.take(j as int));
            assert(rv.take(j + 1).last() == rhs@[j as int]@);
            if let Symbol::Terminal(t) = &rhs[j] {
                let usable = t.as_str().unicode_len() > 0 && *t != String::from_str("ϵ") && *t != String::from_str("ε")
                    && *t != String::from_str("epsilon");
                if usable && !contains_string(&r, t) {
                    let ghost before = strs_view(r@);
                    r.push(t.clone());
                    assert(strs_view(r@) =~= before.push(t@));
                }
            }
            j += 1;
        }
        assert(rv.take(rhs@.len() as int) =~= rv);
        assert(g.take(i + 1).drop_last() =~= g.take(i as int));
        i += 1;
    }
    assert(g.take(prods@.len() as int) =~= g);
    r
}

/// Whether `v` holds `x`.
pub fn contains_string(v: &Vec<String>, x: &String) -> (r: bool)
    ensures
        r == strs_view(v@).contains(x@),
{
    let mut i: usize = 0;
    while i < v.len()
        invariant
            i <= v@.len(),
            forall|j: int| 0 <= j < i ==> v@[j]@ != x@,
        decreases v.len() - i,
    {
        if v[i] == *x {
            assert(strs_view(v@)[i as int] == x@);
            return true;
        }
        i += 1;
    }
    assert(!strs_view(v@).contains(x@)) by {
        if strs_view(v@).contains(x@) {
            let j = choose|j: int| 0 <= j < v@.len() && strs_view(v@)[j] == x@;
            assert(v@[j]@ == x@);
        }
    }
    false
}

/// The names sorted by decreasing byte length, stably.
fn sort_names_by_len(names: &Vec<String>) -> (r: Vec<String>)
    ensures
        strs_view(r@) == sort_by_len(strs_view(names@)),
{
    let ghost nv = strs_view(names@);
    let mut r: Vec<String> = Vec::new();
    let mut lens: Vec<u128> = Vec::new();
    let mut i: usize = 0;
    assert(nv.take(0) =~= Seq::<Seq<char>>::empty());
    while i < names.len()
        invariant
            nv == strs_view(names@),
            i <= nv.len(),
            strs_view(r@) == sort_by_len(nv.take(i as int)),
            lens@.len() == r@.len(),
            forall|q: int| 0 <= q < lens@.len() ==> lens@[q] == byte_len(#[trigger] strs_view(r@)[q]),
        decreases names.len() - i,
    {
        let ghost rv = strs_view(r@);
        let x = &names[i];
        let xc = chars_of(x.as_str());
        let xl = byte_length(&xc);
        assert(nv.take(i + 1).drop_last() =~= nv.take(i as int));
        assert(nv.take(i + 1).last() == x@);
        let mut k: usize = 0;
        while k < r.len() && !(lens[k] < xl)
            invariant
                rv == strs_view(r@),
                lens@.len() == r@.len(),
                forall|q: int| 0 <= q < lens@.len() ==> lens@[q] == byte_len(#[trigger] strs_view(r@)[q]),
                xl == byte_len(x@),
                k <= r@.len(),
                insert_pos(rv, x@, 0) == insert_pos(rv, x@, k as int),
            decreases r.len() - k,
        {
            k += 1;
        }
        proof {
            if k < r@.len() {
                assert(lens@[k as int] == byte_len(rv[k as int]));
            }
        }
        r.insert(k, x.clone());
        lens.insert(k, xl);
        assert(strs_view(r@) =~= rv.insert(k as int, x@));
        assert forall|q: int| 0 <= q < lens@.len() implies lens@[q] == byte_len(#[trigger] strs_view(r@)[q]) by {
            if q < k {
                assert(strs_view(r@)[q] == rv[q]);
            } else if q > k {
                assert(strs_view(r@)[q] == rv[q - 1]);
            }
        }
        i += 1;
    }
    assert(nv.take(names@.len() as int) =~= nv);
    r
}

/// Splits the input into tokens: at whitespace when it holds a space, else
/// greedily by the grammar's terminal names, longest first, one character
/// at a time where none fits.
pub fn tokenize_input(input: &str, grammar: &Grammar) -> (r: Vec<String>)
    ensures
        strs_view(r@) == tokens_of(input@, grammar@),
{
    let chars = chars_of(input);
    let n = chars.len();
    let mut has_space = false;
    let mut i: usize = 0;
    while i < n
        invariant
            n == chars@.len(),
            i <= n,
            has_space == exists|q: int| 0 <= q < i && chars@[q] == ' ',
        decreases n - i,
    {
        if chars[i] == ' ' {
            has_space = true;
        }
        i += 1;
    }
    assert(has_space == input@.contains(' '));
    if has_space {
        let ranges = word_ranges(&chars, 0, n);
        assert(chars@.subrange(0, n as int) =~= input@);
        let ghost wv = range_texts(chars@, ranges@);
        let mut out: Vec<String> = Vec::new();
        let mut k: usize = 0;
        while k < ranges.len()
            invariant
                chars@ == input@,
                wv == range_texts(chars@, ranges@),
                crate::text::ranges_ok(chars@, ranges@),
                k <= ranges@.len(),
                strs_view(out@) =~= wv.take(k as int),
            decreases ranges.len() - k,
        {
            let (a, b) = ranges[k];
            let w = substring(input, &chars, a, b);
            let ghost before = strs_view(out@);
            out.push(w);
            assert(strs_view(out@) =~= before.push(w@));
            assert(wv.take(k + 1) =~= wv.take(k as int).push(wv[k as int]));
            k += 1;
        }
        assert(wv.take(ranges@.len() as int) =~= wv);
        return out;
    }
    let names = token_names_of(&grammar.productions);
    let sorted = sort_names_by_len(&names);
    let ghost terms = strs_view(sorted@);
    let mut sorted_chars: Vec<Vec<char>> = Vec::new();
    let mut q: usize = 0;
    while q < sorted.len()
        invariant
            q <= sorted@.len(),
            sorted_chars@.len() == q,
            forall|j: int| 0 <= j < q ==> (#[trigger] sorted_chars@[j])@ == sorted@[j]@,
        decreases sorted.len() - q,
    {
        sorted_chars.push(chars_of(sorted[q].as_str()));
        q += 1;
    }
    let mut tokens: Vec<String> = Vec::new();
    let mut pos: usize = 0;
    assert(input@.skip(0) =~= input@);
    assert(strs_view(tokens@) + greedy_tokens(input@.skip(0), terms) =~= greedy_tokens(input@, terms));
    while pos < n
        invariant
            chars@ == input@,
            n == chars@.len(),
            pos <= n,
            terms == strs_view(sorted@),
            sorted_chars@.len() == sorted@.len(),
            forall|j: int| 0 <= j < sorted@.len() ==> (#[trigger] sorted_chars@[j])@ == sorted@[j]@,
            strs_view(tokens@) + greedy_tokens(input@.skip(pos as int), terms) == greedy_tokens(input@, terms),
        decreases n - pos,
    {
        let ghost rem = input@.skip(pos as int);
        let ghost before = strs_view(tokens@);
        let mut found: Option<usize> = None;
        let mut k: usize = 0;
        while k < sorted_chars.len() && found.is_none()
            invariant
                chars@ == input@,
                pos < n,
                n == chars@.len(),
                rem == input@.skip(pos as int),
                terms == strs_view(sorted@),
                sorted_chars@.len() == sorted@.len(),
                forall|j: int| 0 <= j < sorted@.len() ==> (#[trigger] sorted_chars@[j])@ == sorted@[j]@,
                k <= sorted_chars@.len(),
                found matches Some(j) ==> first_match(terms, rem, 0) == Some(j as int) && j < sorted@.len(),
                found is None ==> first_match(terms, rem, 0) == first_match(terms, rem, k as int),
            decreases sorted_chars.len() - k + (if found is None { 1int } else { 0int }),
        {
            assert(sorted_chars@[k as int]@ == terms[k as int]);
            if sorted_chars[k].len() > 0 && starts_at(&chars, pos, &sorted_chars[k]) {
                found = Some(k);
            } else {
                k += 1;
            }
        }
        proof {
            lemma_first_match(terms, rem, 0);
        }
        match found {
            Some(k) => {
                assert(first_match(terms, rem, 0) == Some(k as int));
                let len = sorted_chars[k].len();
                tokens.push(sorted[k].clone());
                assert(strs_view(tokens@) =~= before.push(terms[k as int]));
                assert(rem.skip(len as int) =~= input@.skip(pos + len));
                assert(greedy_tokens(rem, terms) == seq![terms[k as int]] + greedy_tokens(rem.skip(len as int), terms));
                assert(before.push(terms[k as int]) + greedy_tokens(input@.skip(pos + len), terms) =~= before + (seq![terms[k as int]] + greedy_tokens(rem.skip(len as int), terms)));
                pos = pos + len;
            },
            None => {
                assert(first_match(terms, rem, 0) is None);
                let c = substring(input, &chars, pos, pos + 1);
                assert(c@ =~= seq![rem[0]]);
                tokens.push(c);
                assert(strs_view(tokens@) =~= before.push(seq![rem[0]]));
                assert(rem.skip(1) =~= input@.skip(pos + 1));
                assert(before.push(seq![rem[0]]) + greedy_tokens(input@.skip(pos + 1), terms) =~= before + (seq![seq![rem[0]]] + greedy_tokens(rem.skip(1), terms)));
                pos = pos + 1;
            },
        }
    }
    assert(input@.skip(n as int) =~= Seq::<char>::empty());
    assert(strs_view(tokens@) + Seq::<Seq<char>>::empty() =~= strs_view(tokens@));
    tokens
}

/// A request to analyze a grammar.
pub struct AnalyzeRequest {
    pub raw_grammar: String,
}

/// The analysis of a grammar, or the error met reading it.
pub struct AnalyzeResponse {
    pub status: String,
    pub has_left_recursion: Option<bool>,
    pub start_symbol: Option<Symbol>,
    pub production_count: Option<usize>,
    pub productions: Option<Vec<Production>>,
    pub message: Option<String>,
}

/// A request to parse an input string with a grammar.
pub struct ParseRequest {
    pub raw_grammar: String,
    pub input_string: String,
}

/// A table shown as text: (row, column) → cell.
pub type TextTable = VecMap<(String, String), String>;

/// The outcome of an LL(1) parse with its table.
pub struct ParseResponse {
    pub status: String,
    pub snapshots: Option<Vec<ParseSnapshot>>,
    pub parsing_table: Option<TextTable>,
    pub message: Option<String>,
}

/// A state of the automaton as shown: its items as text, and whether it
/// accepts.
pub struct LR0AutomatonStateResponse {
    pub id: usize,
    pub items: Vec<String>,
    pub is_accept: bool,
}

pub struct LR0TransitionResponse {
    pub from: usize,
    pub to: usize,
    pub symbol: String,
}

pub struct LR0AutomatonResponse {
    pub states: Vec<LR0AutomatonStateResponse>,
    pub transitions: Vec<LR0TransitionResponse>,
}

/// The outcome of a shift-reduce parse with its automaton and tables.
pub struct LR0ParseResponse {
    pub status: String,
    pub automaton: Option<LR0AutomatonResponse>,
    pub action_table: Option<TextTable>,
    pub goto_table: Option<TextTable>,
    pub terminals: Option<Vec<String>>,
    pub non_terminals: Option<Vec<String>>,
    pub snapshots: Option<Vec<LR0ParseSnapshot>>,
    pub message: Option<String>,
}

pub type SLR1ParseResponse = LR0ParseResponse;

/// The cells of the LL(1) table as text: (A, x) → the right side's symbols.
pub open spec fn ll1_cells(es: Seq<((SpecSymbol, SpecSymbol), Seq<SpecSymbol>)>) -> Seq<((Seq<char>, Seq<char>), Seq<char>)> {
    es.map_values(|e: ((SpecSymbol, SpecSymbol), Seq<SpecSymbol>)| ((sym_text(e.0.0), sym_text(e.0.1)), join(texts(e.1), " "@)))
}

/// The models of the entries of an LL(1) table.
pub open spec fn ll1_entries(es: Seq<((Symbol, Symbol), Vec<Symbol>)>) -> Seq<((SpecSymbol, SpecSymbol), Seq<SpecSymbol>)> {
    es.map_values(|e: ((Symbol, Symbol), Vec<Symbol>)| ((e.0.0@, e.0.1@), syms_view(e.1@)))
}

/// The LL(1) table as text, entry by entry (a later entry shown the same
/// way replaces an earlier one).
pub fn ll1_table_text(t: &VecMap<(Symbol, Symbol), Vec<Symbol>>) -> (r: TextTable)
    ensures
        r.wf(),
        r@ == map_of(ll1_cells(ll1_entries(t.entries@))),
{
    let ghost cells = ll1_cells(ll1_entries(t.entries@));
    let mut r: TextTable = VecMap::new();
    let mut i: usize = 0;
    assert(cells.take(0) =~= Seq::<((Seq<char>, Seq<char>), Seq<char>)>::empty());
    while i < t.entries.len()
        invariant
            cells == ll1_cells(ll1_entries(t.entries@)),
            i <= t.entries@.len(),
            r.wf(),
            r@ == map_of(cells.take(i as int)),
        decreases t.entries.len() - i,
    {
        let e = &t.entries[i];
        let a = e.0.0.to_text();
        let x = e.0.1.to_text();
        let v = joined_texts(&e.1);
        assert(cells.take(i + 1).drop_last() =~= cells.take(i as int));
        assert(cells.take(i + 1).last() == ((a@, x@), v@));
        r.insert((a, x), v);
        i += 1;
    }
    assert(cells.take(t.entries@.len() as int) =~= cells);
    r
}

/// The cells of an ACTION table as text: (state, terminal) → action.
pub open spec fn action_cells(es: Seq<((usize, Seq<char>), SpecAction)>) -> Seq<((Seq<char>, Seq<char>), Seq<char>)> {
    es.map_values(|e: ((usize, Seq<char>), SpecAction)| ((nat_text(e.0.0 as nat), e.0.1), action_text(e.1)))
}

/// The cells of a GOTO table (or of the transitions) as text.
pub open spec fn goto_cells(es: Seq<((usize, Seq<char>), usize)>) -> Seq<((Seq<char>, Seq<char>), Seq<char>)> {
    es.map_values(|e: ((usize, Seq<char>), usize)| ((nat_text(e.0.0 as nat), e.0.1), nat_text(e.1 as nat)))
}

/// An ACTION table as text, entry by entry.
pub fn action_table_text<A: TableAction>(t: &VecMap<(usize, String), A>) -> (r: TextTable)
    ensures
        r.wf(),
        r@ == map_of(action_cells(views(t.entries@))),
{
    let ghost cells = action_cells(views(t.entries@));
    let mut r: TextTable = VecMap::new();
    let mut i: usize = 0;
    assert(cells.take(0) =~= Seq::<((Seq<char>, Seq<char>), Seq<char>)>::empty());
    while i < t.entries.len()
        invariant
            cells == action_cells(views(t.entries@)),
            i <= t.entries@.len(),
            r.wf(),
            r@ == map_of(cells.take(i as int)),
        decreases t.entries.len() - i,
    {
        let e = &t.entries[i];
        let a = usize_text(e.0.0);
        let x = e.0.1.clone();
        let v = e.1.as_lr0().to_display_string();
        assert(views(t.entries@)[i as int] == ((e.0.0, e.0.1@), e.1@));
        assert(cells.take(i + 1).drop_last() =~= cells.take(i as int));
        assert(cells.take(i + 1).last() == ((a@, x@), v@));
        r.insert((a, x), v);
        i += 1;
    }
    assert(cells.take(t.entries@.len() as int) =~= cells);
    r
}

/// A GOTO table as text, entry by entry.
pub fn goto_table_text(t: &VecMap<(usize, String), usize>) -> (r: TextTable)
    ensures
        r.wf(),
        r@ == map_of(goto_cells(views(t.entries@))),
{
    let ghost cells = goto_cells(views(t.entries@));
    let mut r: TextTable = VecMap::new();
    let mut i: usize = 0;
    assert(cells.take(0) =~= Seq::<((Seq<char>, Seq<char>), Seq<char>)>::empty());
    while i < t.entries.len()
        invariant
            cells == goto_cells(views(t.entries@)),
            i <= t.entries@.len(),
            r.wf(),
            r@ == map_of(cells.take(i as int)),
        decreases t.entries.len() - i,
    {
        let e = &t.entries[i];
        let a = usize_text(e.0.0);
        let x = e.0.1.clone();
        let v = usize_text(e.1);
        assert(views(t.entries@)[i as int] == ((e.0.0, e.0.1@), e.1));
        assert(cells.take(i + 1).drop_last() =~= cells.take(i as int));
        assert(cells.take(i + 1).last() == ((a@, x@), v@));
        r.insert((a, x), v);
        i += 1;
    }
    assert(cells.take(t.entries@.len() as int) =~= cells);
    r
}

/// Reads the grammar and reports its left recursion, start symbol and
/// productions (status 200), or the error met reading it (status 400).
pub fn analyze_grammar(payload: AnalyzeRequest) -> (r: (u16, AnalyzeResponse))
    ensures
        match parse_grammar(payload.raw_grammar@) {
            Ok(g) => {
                &&& r.0 == 200
                &&& r.1.status@ == "success"@
                &&& r.1.has_left_recursion == Some(left_recursive(g))
                &&& r.1.start_symbol matches Some(s) && s@ == g.start
                &&& r.1.production_count == Some(g.productions.len() as usize)
                &&& r.1.productions matches Some(ps) && prods_view(ps@) == g.productions
                &&& r.1.message is None
            },
            Err(e) => {
                &&& r.0 == 400
                &&& r.1.status@ == "error"@
                &&& r.1.has_left_recursion is None
                &&& r.1.start_symbol is None
                &&& r.1.production_count is None
                &&& r.1.productions is None
                &&& r.1.message matches Some(m) && m@ == e
            },
        },
{
    match Grammar::from_string(payload.raw_grammar.as_str()) {
        Ok(grammar) => {
            let is_recursive = grammar.is_left_recursive();
            let start = grammar.start_symbol.copy();
            let count = grammar.productions.len();
            (200, AnalyzeResponse {
                status: String::from_str("success"),
                has_left_recursion: Some(is_recursive),
                start_symbol: Some(start),
                production_count: Some(count),
                productions: Some(grammar.productions),
                message: None,
            })
        },
        Err(e) => (400, AnalyzeResponse {
            status: String::from_str("error"),
            has_left_recursion: None,
            start_symbol: None,
            production_count: None,
            productions: None,
            message: Some(e),
        }),
    }
}

/// What `parse_ll1` answers for a grammar read without error.
pub open spec fn ll1_answer(g: SpecGrammar, input: Seq<char>, r: (u16, ParseResponse)) -> bool {
    let f = first_relation(g);
    let fo = follow_relation(g, f);
    if has_ll1_conflict(g, f, fo) {
        &&& r.0 == 400
        &&& r.1.status@ == "error"@
        &&& r.1.snapshots is None
        &&& r.1.parsing_table is None
        &&& r.1.message matches Some(m) && exists|i: int, j: int, x: SpecSymbol| #[trigger] ll1_conflict_at(g, f, fo, i, j, x)
            && m@ == ll1_conflict_message(g.productions[j].left, x)
    } else {
        &&& r.0 == 200
        &&& exists|p: LL1Parser| #[trigger] p.analyzed() && p.grammar@ == g && match ll1_trace(false, p.table@, tokens_of(input, g).push("$"@), seq![dollar(), g.start], 0, 0, (usize::MAX + 1) as nat) {
            Ok(sn) => {
                &&& r.1.status@ == "success"@
                &&& r.1.snapshots matches Some(v) && views(v@) == sn
                &&& r.1.parsing_table matches Some(pt) && pt@ == map_of(ll1_cells(ll1_entries(p.table.entries@)))
                &&& r.1.message is None
            },
            Err(e) => {
                &&& r.1.status@ == "error"@
                &&& r.1.snapshots is None
                &&& r.1.parsing_table is None
                &&& r.1.message matches Some(m) && m@ == e
            },
        }
    }
}

/// Reads the grammar, builds its LL(1) table and parses the tokens of the
/// input: status 400 for a grammar or table error, else 200 with the
/// snapshots and the table, or the parse error.
pub fn parse_ll1(payload: ParseRequest) -> (r: (u16, ParseResponse))
    ensures
        match parse_grammar(payload.raw_grammar@) {
            Err(e) => {
                &&& r.0 == 400
                &&& r.1.status@ == "error"@
                &&& r.1.snapshots is None
                &&& r.1.parsing_table is None
                &&& r.1.message matches Some(m) && m@ == "Grammar Error: "@ + e
            },
            Ok(g) => ll1_answer(g, payload.input_string@, r),
        },
{
    let grammar = match Grammar::from_string(payload.raw_grammar.as_str()) {
        Ok(g) => g,
        Err(e) => {
            return (400, ParseResponse {
                status: String::from_str("error"),
                snapshots: None,
                parsing_table: None,
                message: Some(concat("Grammar Error: ", e.as_str())),
            });
        },
    };
    let ghost g = grammar@;
    let parser = match LL1Parser::new(grammar) {
        Ok(p) => p,
        Err(e) => {
            return (400, ParseResponse {
                status: String::from_str("error"),
                snapshots: None,
                parsing_table: None,
                message: Some(e),
            });
        },
    };
    let tokens = tokenize_input(payload.input_string.as_str(), &parser.grammar);
    assert(crate::ll1::with_end_marker(tokens@) =~= tokens_of(payload.input_string@, g).push("$"@));
    match parser.parse(tokens) {
        Ok(snapshots) => {
            let table = ll1_table_text(&parser.table);
            let r = (200, ParseResponse {
                status: String::from_str("success"),
                snapshots: Some(snapshots),
                parsing_table: Some(table),
                message: None,
            });
            assert(parser.analyzed() && parser.grammar@ == g);
            r
        },
        Err(e) => {
            let r = (200, ParseResponse { status: String::from_str("error"), snapshots: None, parsing_table: None, message: Some(e) });
            assert(parser.analyzed() && parser.grammar@ == g);
            r
        },
    }
}

/// The items of a state as text.
pub open spec fn item_texts(items: Seq<SpecItem>) -> Seq<Seq<char>> {
    items.map_values(|it: SpecItem| item_text(it.prod, it.dot))
}

/// Whether a state holds a complete item of the start symbol.
pub open spec fn state_accepts(items: Seq<SpecItem>, start: SpecSymbol) -> bool {
    exists|k: int| 0 <= k < items.len() && #[trigger] complete(items[k].prod, items[k].dot) && items[k].prod.left == start
}

/// Whether `r` shows the states `st` (by number, with their items as text
/// and whether they accept) and the transitions `tr`, in order.
pub open spec fn shows_automaton(r: LR0AutomatonResponse, st: Seq<Seq<SpecItem>>, tr: Seq<((usize, Seq<char>), usize)>, start: SpecSymbol) -> bool {
    &&& r.states@.len() == st.len()
    &&& forall|i: int| 0 <= i < st.len() ==> {
        let s = #[trigger] r.states@[i];
        &&& s.id == i
        &&& strs_view(s.items@) == item_texts(st[i])
        &&& s.is_accept == state_accepts(st[i], start)
    }
    &&& r.transitions@.len() == tr.len()
    &&& forall|i: int| 0 <= i < tr.len() ==> {
        let t = #[trigger] r.transitions@[i];
        &&& t.from == tr[i].0.0
        &&& t.to == tr[i].1
        &&& t.symbol@ == tr[i].0.1
    }
}

/// One state of the automaton as shown.
fn state_response(id: usize, items: &Vec<LR0Item>, start: &Symbol) -> (r: LR0AutomatonStateResponse)
    ensures
        r.id == id,
        strs_view(r.items@) == item_texts(views(items@)),
        r.is_accept == state_accepts(views(items@), start@),
{
    let ghost iv = views(items@);
    let mut texts_out: Vec<String> = Vec::new();
    let mut accept = false;
    let mut i: usize = 0;
    while i < items.len()
        invariant
            iv == views(items@),
            i <= items@.len(),
            strs_view(texts_out@) =~= item_texts(iv).take(i as int),
            accept == exists|k: int| 0 <= k < i && #[trigger] complete(iv[k].prod, iv[k].dot) && iv[k].prod.left == start@,
        decreases items.len() - i,
    {
        let it = &items[i];
        assert(iv[i as int] == it@);
        let t = it.to_display_string();
        let ghost before = strs_view(texts_out@);
        texts_out.push(t);
        assert(strs_view(texts_out@) =~= before.push(t@));
        assert(item_texts(iv).take(i + 1) =~= item_texts(iv).take(i as int).push(item_texts(iv)[i as int]));
        if it.is_complete() && it.production.left.same(start) {
            accept = true;
        }
        i += 1;
    }
    assert(item_texts(iv).take(items@.len() as int) =~= item_texts(iv));
    LR0AutomatonStateResponse { id, items: texts_out, is_accept: accept }
}

/// The automaton as shown: each state with its items and whether it
/// accepts, and the transitions in the order of the table.
pub fn automaton_response(states: &Vec<Vec<LR0Item>>, transitions: &VecMap<(usize, String), usize>, start: &Symbol) -> (r: LR0AutomatonResponse)
    ensures
        shows_automaton(r, states_view(states@), views(transitions.entries@), start@),
{
    let ghost st = states_view(states@);
    let mut out: Vec<LR0AutomatonStateResponse> = Vec::new();
    let mut i: usize = 0;
    while i < states.len()
        invariant
            st == states_view(states@),
            i <= states@.len(),
            out@.len() == i,
            forall|j: int| 0 <= j < i ==> {
                let s = #[trigger] out@[j];
                &&& s.id == j
                &&& strs_view(s.items@) == item_texts(st[j])
                &&& s.is_accept == state_accepts(st[j], start@)
            },
        decreases states.len() - i,
    {
        assert(st[i as int] == views(states@[i as int]@));
        let s = state_response(i, &states[i], start);
        out.push(s);
        i += 1;
    }
    let ghost tr = views(transitions.entries@);
    let mut moves: Vec<LR0TransitionResponse> = Vec::new();
    let mut k: usize = 0;
    while k < transitions.entries.len()
        invariant
            tr == views(transitions.entries@),
            k <= tr.len(),
            moves@.len() == k,
            forall|j: int| 0 <= j < k ==> {
                let t = #[trigger] moves@[j];
                &&& t.from == tr[j].0.0
                &&& t.to == tr[j].1
                &&& t.symbol@ == tr[j].0.1
            },
        decreases transitions.entries.len() - k,
    {
        let e = &transitions.entries[k];
        assert(tr[k as int] == ((e.0.0, e.0.1@), e.1));
        moves.push(LR0TransitionResponse { from: e.0.0, to: e.1, symbol: e.0.1.clone() });
        k += 1;
    }
    LR0AutomatonResponse { states: out, transitions: moves }
}

/// Whether `r` is a refusal (status 400) with message `m` and nothing else.
pub open spec fn lr_refusal(r: (u16, LR0ParseResponse), m: Seq<char>) -> bool {
    &&& r.0 == 400
    &&& r.1.status@ == "error"@
    &&& r.1.automaton is None
    &&& r.1.action_table is None
    &&& r.1.goto_table is None
    &&& r.1.terminals is None
    &&& r.1.non_terminals is None
    &&& r.1.snapshots is None
    &&& r.1.message matches Some(x) && x@ == m
}

/// The snapshots of the shift-reduce parse of the tokens `toks` (then `$`),
/// or its error.
pub open spec fn lr_outcome(act: ActMap, gt: GotoMap, prods: Seq<SpecProduction>, toks: Seq<Seq<char>>) -> Result<Seq<SpecLRSnapshot>, Seq<char>> {
    match lr_trace(
        act, gt, prods, toks.push("$"@),
        LRState { ss: seq![0usize], sy: Seq::empty(), nodes: Seq::empty(), nid: 0, pos: 0, step: 0 },
        1001,
    ) {
        Ok(t) => Ok(t.0),
        Err(e) => Err(e),
    }
}

/// Whether `resp` shows a shift-reduce parser (its augmented grammar `ag`,
/// states `st`, transitions `tr` and tables) and the outcome of the parse.
pub open spec fn lr_shown(
    resp: LR0ParseResponse,
    ag: SpecGrammar,
    st: Seq<Seq<SpecItem>>,
    tr: Seq<((usize, Seq<char>), usize)>,
    act: Seq<((usize, Seq<char>), SpecAction)>,
    gt: Seq<((usize, Seq<char>), usize)>,
    outcome: Result<Seq<SpecLRSnapshot>, Seq<char>>,
) -> bool {
    &&& resp.automaton matches Some(a) && shows_automaton(a, st, tr, ag.start)
    &&& resp.action_table matches Some(t) && t@ == map_of(action_cells(act))
    &&& resp.goto_table matches Some(t) && t@ == map_of(goto_cells(gt))
    &&& resp.terminals matches Some(ts) && terminal_list(ag.productions, strs_view(ts@))
    &&& resp.non_terminals matches Some(ns) && nonterminal_list(ag.productions, strs_view(ns@))
    &&& match outcome {
        Ok(sn) => {
            &&& resp.status@ == "success"@
            &&& resp.snapshots matches Some(v) && views(v@) == sn
            &&& resp.message is None
        },
        Err(e) => {
            &&& resp.status@ == "error"@
            &&& resp.snapshots is None
            &&& resp.message matches Some(m) && m@ == e
        },
    }
}

/// What `parse_lr0` shows of an LR(0) parser and the tokens of the input.
pub open spec fn lr0_shown(resp: LR0ParseResponse, p: LR0Parser, toks: Seq<Seq<char>>) -> bool {
    lr_shown(
        resp, p.augmented_grammar@, states_view(p.states@), views(p.transitions.entries@),
        views(p.action_table.entries@), views(p.goto_table.entries@),
        lr_outcome(p.action_table@, p.goto_table@, prods_view(p.production_list@), toks),
    )
}

/// What `parse_slr1` shows of an SLR(1) parser and the tokens of the input.
pub open spec fn slr1_shown(resp: LR0ParseResponse, p: SLR1Parser, toks: Seq<Seq<char>>) -> bool {
    lr_shown(
        resp, p.augmented_grammar@, states_view(p.states@), views(p.transitions.entries@),
        views(p.action_table.entries@), views(p.goto_table.entries@),
        lr_outcome(p.action_table@, p.goto_table@, prods_view(p.production_list@), toks),
    )
}

/// What `parse_lr0` answers for a grammar read without error: a table
/// error (400), or (200) the parser built from it with the outcome of the
/// parse of the tokens of the input.
pub open spec fn lr0_answer(g: SpecGrammar, input: Seq<char>, r: (u16, LR0ParseResponse)) -> bool {
    ||| exists|e: Seq<char>| lr0_refused(g, e) && #[trigger] lr_refusal(r, "LR(0) Table Error: "@ + e)
    ||| r.0 == 200 && exists|p: LR0Parser| p.built_from(g) && #[trigger] lr0_shown(r.1, p, tokens_of(input, g))
}

/// What `parse_slr1` answers for a grammar read without error.
pub open spec fn slr1_answer(g: SpecGrammar, input: Seq<char>, r: (u16, LR0ParseResponse)) -> bool {
    ||| exists|e: Seq<char>| slr1_refused(g, e) && #[trigger] lr_refusal(r, "SLR(1) Table Error: "@ + e)
    ||| r.0 == 200 && exists|p: SLR1Parser| p.built_from(g) && #[trigger] slr1_shown(r.1, p, tokens_of(input, g))
}

/// A refusal with message `m`.
fn refusal(m: String) -> (r: (u16, LR0ParseResponse))
    ensures
        lr_refusal(r, m@),
{
    (400, LR0ParseResponse {
        status: String::from_str("error"),
        automaton: None,
        action_table: None,
        goto_table: None,
        terminals: None,
        non_terminals: None,
        snapshots: None,
        message: Some(m),
    })
}

/// The response for a built parser and the outcome of its parse.
fn lr_response(
    automaton: LR0AutomatonResponse,
    action_table: TextTable,
    goto_table: TextTable,
    terminals: Vec<String>,
    non_terminals: Vec<String>,
    outcome: Result<Vec<LR0ParseSnapshot>, String>,
) -> (r: LR0ParseResponse)
    ensures
        r.automaton == Some(automaton),
        r.action_table == Some(action_table),
        r.goto_table == Some(goto_table),
        r.terminals == Some(terminals),
        r.non_terminals == Some(non_terminals),
        match outcome {
            Ok(v) => r.status@ == "success"@ && r.snapshots == Some(v) && r.message is None,
            Err(e) => r.status@ == "error"@ && r.snapshots is None && r.message == Some(e),
        },
{
    match outcome {
        Ok(v) => LR0ParseResponse {
            status: String::from_str("success"),
            automaton: Some(automaton),
            action_table: Some(action_table),
            goto_table: Some(goto_table),
            terminals: Some(terminals),
            non_terminals: Some(non_terminals),
            snapshots: Some(v),
            message: None,
        },
        Err(e) => LR0ParseResponse {
            status: String::from_str("error"),
            automaton: Some(automaton),
            action_table: Some(action_table),
            goto_table: Some(goto_table),
            terminals: Some(terminals),
            non_terminals: Some(non_terminals),
            snapshots: None,
            message: Some(e),
        },
    }
}

/// Reads the grammar, builds its LR(0) automaton and tables and parses the
/// tokens of the input: status 400 for a grammar or table error, else 200
/// with the automaton, the tables, the terminals and non-terminals, and the
/// snapshots or the parse error.
pub fn parse_lr0(payload: ParseRequest) -> (r: (u16, LR0ParseResponse))
    ensures
        match parse_grammar(payload.raw_grammar@) {
            Err(e) => lr_refusal(r, "Grammar Error: "@ + e),
            Ok(g) => lr0_answer(g, payload.input_string@, r),
        },
{
    let grammar = match Grammar::from_string(payload.raw_grammar.as_str()) {
        Ok(g) => g,
        Err(e) => {
            return refusal(concat("Grammar Error: ", e.as_str()));
        },
    };
    let ghost g = grammar@;
    let tokens = tokenize_input(payload.input_string.as_str(), &grammar);
    let parser = match LR0Parser::new(grammar) {
        Ok(p) => p,
        Err(e) => {
            let r = refusal(concat("LR(0) Table Error: ", e.as_str()));
            assert(lr_refusal(r, "LR(0) Table Error: "@ + e@));
            return r;
        },
    };
    let automaton = automaton_response(&parser.states, &parser.transitions, &parser.augmented_grammar.start_symbol);
    let action_map = action_table_text(&parser.action_table);
    let goto_map = goto_table_text(&parser.goto_table);
    let terminals = parser.get_all_terminals();
    let non_terminals = parser.get_all_non_terminals();
    assert(crate::ll1::with_end_marker(tokens@) =~= tokens_of(payload.input_string@, g).push("$"@));
    let outcome = parser.parse_input(tokens);
    let resp = lr_response(automaton, action_map, goto_map, terminals, non_terminals, outcome);
    assert(lr0_shown(resp, parser, tokens_of(payload.input_string@, g)));
    assert(parser.built_from(g));
    let r = (200, resp);
    assert(r.1 == resp);
    assert(lr0_answer(g, payload.input_string@, r));
    r
}

/// Reads the grammar, builds its SLR(1) tables and parses the tokens of the
/// input: status 400 for a grammar or table error, else 200 with the
/// automaton, the tables, the terminals and non-terminals, and the
/// snapshots or the parse error.
pub fn parse_slr1(payload: ParseRequest) -> (r: (u16, SLR1ParseResponse))
    ensures
        match parse_grammar(payload.raw_grammar@) {
            Err(e) => lr_refusal(r, "Grammar Error: "@ + e),
            Ok(g) => slr1_answer(g, payload.input_string@, r),
        },
{
    let grammar = match Grammar::from_string(payload.raw_grammar.as_str()) {
        Ok(g) => g,
        Err(e) => {
            return refusal(concat("Grammar Error: ", e.as_str()));
        },
    };
    let ghost g = grammar@;
    let tokens = tokenize_input(payload.input_string.as_str(), &grammar);
    let parser = match SLR1Parser::new(grammar) {
        Ok(p) => p,
        Err(e) => {
            let r = refusal(concat("SLR(1) Table Error: ", e.as_str()));
            assert(lr_refusal(r, "SLR(1) Table Error: "@ + e@));
            return r;
        },
    };
    let automaton = automaton_response(&parser.states, &parser.transitions, &parser.augmented_grammar.start_symbol);
    let action_map = action_table_text(&parser.action_table);
    let goto_map = goto_table_text(&parser.goto_table);
    let terminals = parser.get_all_terminals();
    let non_terminals = parser.get_all_non_terminals();
    assert(crate::ll1::with_end_marker(tokens@) =~= tokens_of(payload.input_string@, g).push("$"@));
    let outcome = parser.parse_input(tokens);
    let resp = lr_response(automaton, action_map, goto_map, terminals, non_terminals, outcome);
    assert(slr1_shown(resp, parser, tokens_of(payload.input_string@, g)));
    assert(parser.built_from(g));
    let r = (200, resp);
    assert(r.1 == resp);
    assert(slr1_answer(g, payload.input_string@, r));
    r
}

} // verus!
