//! Reading a grammar from text, and detecting left recursion.

use vstd::prelude::*;
use crate::collections::VecSet;
use crate::ll1::{first_relation, first_pairs, lemma_first_relation};
use crate::symbols::{Symbol, SpecSymbol, Production, SpecProduction, Grammar, SpecGrammar, syms_view, prods_view};
use crate::text::{
    trim, split_char, split_arrow, words, range_texts, ranges_ok, trim_range, split_ranges,
    split_arrow_ranges, word_ranges, range_is, chars_of, substring, concat,
    lemma_split_char_nonempty, lemma_words_nonempty, trim_start, trim_end, is_ws,
};

verus! {

/// Whether a character is uppercase (Unicode `Uppercase` property).
pub uninterp spec fn char_is_uppercase(c: char) -> bool;

/// Calls `char::is_uppercase`. Its result is a function of the character
/// alone, named `char_is_uppercase`; std documents that ASCII capital letters
/// are uppercase and ASCII small letters are not.
#[verifier::external_body]
fn is_uppercase(c: char) -> (r: bool)
    ensures
        r == char_is_uppercase(c),
        'A' <= c <= 'Z' ==> r,
        'a' <= c <= 'z' ==> !r,
{
    c.is_uppercase()
}

/// A name that starts with an uppercase letter (a non-terminal).
pub open spec fn starts_upper(w: Seq<char>) -> bool {
    w.len() > 0 && char_is_uppercase(w[0])
}

/// The words that denote the empty string.
pub open spec fn is_eps_word(w: Seq<char>) -> bool {
    w == "ϵ"@ || w == "ε"@ || w == "epsilon"@
}

/// The symbol a word denotes, given whether it starts with an uppercase
/// letter: ϵ for the words of the empty string, else a non-terminal when
/// it does, a terminal when it does not.
pub open spec fn word_class(w: Seq<char>, upper: bool) -> SpecSymbol {
    if is_eps_word(w) {
        SpecSymbol::Epsilon
    } else if upper {
        SpecSymbol::NonTerminal(w)
    } else {
        SpecSymbol::Terminal(w)
    }
}

/// The symbol a word of a right side denotes.
pub open spec fn word_symbol(w: Seq<char>) -> SpecSymbol {
    word_class(w, starts_upper(w))
}

/// The symbols of one alternative of a right side.
pub open spec fn alt_symbols(alt: Seq<char>) -> Seq<SpecSymbol> {
    let a = trim(alt);
    if a.len() == 0 || is_eps_word(a) {
        seq![SpecSymbol::Epsilon]
    } else {
        words(a).map_values(|w: Seq<char>| word_symbol(w))
    }
}

/// The left and right side of a production line, split at its one arrow
/// (`->`, or else `→`).
pub open spec fn line_parts(l: Seq<char>) -> Option<(Seq<char>, Seq<char>)> {
    let pa = split_arrow(l);
    if pa.len() > 1 {
        if pa.len() == 2 {
            Some((pa[0], pa[1]))
        } else {
            None
        }
    } else {
        let pu = split_char(l, '→');
        if pu.len() == 2 {
            Some((pu[0], pu[1]))
        } else {
            None
        }
    }
}

/// The error a raw line of the grammar text gives, if any.
pub open spec fn line_error(raw: Seq<char>) -> Option<Seq<char>> {
    let l = trim(raw);
    if l.len() == 0 {
        None
    } else {
        match line_parts(l) {
            None => Some("Invalid production format: "@ + l),
            Some(p) => if starts_upper(trim(p.0)) {
                None
            } else {
                Some("Left side must be a Non-Terminal: "@ + trim(p.0))
            },
        }
    }
}

/// The first error among the lines, in order.
pub open spec fn first_error(ls: Seq<Seq<char>>) -> Option<Seq<char>>
    decreases ls.len(),
{
    if ls.len() == 0 {
        None
    } else {
        match first_error(ls.drop_last()) {
            Some(e) => Some(e),
            None => line_error(ls.last()),
        }
    }
}

/// The productions of one line: one for each alternative of its right side.
pub open spec fn line_productions(raw: Seq<char>) -> Seq<SpecProduction> {
    let l = trim(raw);
    if l.len() == 0 {
        Seq::empty()
    } else {
        match line_parts(l) {
            None => Seq::empty(),
            Some(p) => split_char(p.1, '|').map_values(
                |alt: Seq<char>|
                    SpecProduction { left: SpecSymbol::NonTerminal(trim(p.0)), right: alt_symbols(alt) },
            ),
        }
    }
}

pub open spec fn lines_productions(ls: Seq<Seq<char>>) -> Seq<SpecProduction>
    decreases ls.len(),
{
    if ls.len() == 0 {
        Seq::empty()
    } else {
        lines_productions(ls.drop_last()) + line_productions(ls.last())
    }
}

/// The left side of the first production line.
pub open spec fn first_left(ls: Seq<Seq<char>>) -> Option<Seq<char>>
    decreases ls.len(),
{
    if ls.len() == 0 {
        None
    } else {
        match first_left(ls.drop_last()) {
            Some(x) => Some(x),
            None => {
                let l = trim(ls.last());
                if l.len() > 0 {
                    match line_parts(l) {
                        Some(p) => Some(trim(p.0)),
                        None => None,
                    }
                } else {
                    None
                }
            },
        }
    }
}

/// The grammar a text denotes, or the error it gives. Lines are split at
/// newlines and trimmed; empty lines are skipped; each other line is
/// `Left -> alt | alt | ...` (or with `→`); the first left side is the start.
pub open spec fn parse_grammar(text: Seq<char>) -> Result<SpecGrammar, Seq<char>> {
    let ls = split_char(text, '\n');
    match first_error(ls) {
        Some(e) => Err(e),
        None => match first_left(ls) {
            None => Err("Grammar must have at least one production"@),
            Some(s) => Ok(
                SpecGrammar { productions: lines_productions(ls), start: SpecSymbol::NonTerminal(s) },
            ),
        },
    }
}

/// The ranges of the two sides of the line `s[a..b]`.
fn parts_of(s: &Vec<char>, a: usize, b: usize) -> (r: Option<((usize, usize), (usize, usize))>)
    requires
        a <= b <= s@.len(),
    ensures
        match r {
            None => line_parts(s@.subrange(a as int, b as int)) is None,
            Some(p) => p.0.0 <= p.0.1 <= s@.len() && p.1.0 <= p.1.1 <= s@.len() && line_parts(
                s@.subrange(a as int, b as int),
            ) == Some(
                (
                    s@.subrange(p.0.0 as int, p.0.1 as int),
                    s@.subrange(p.1.0 as int, p.1.1 as int),
                ),
            ),
        },
{
    let pa = split_arrow_ranges(s, a, b);
    let ghost ta = range_texts(s@, pa@);
    if pa.len() > 1 {
        if pa.len() == 2 {
            assert(ta[0] == s@.subrange(pa@[0].0 as int, pa@[0].1 as int));
            assert(ta[1] == s@.subrange(pa@[1].0 as int, pa@[1].1 as int));
            Some((pa[0], pa[1]))
        } else {
            None
        }
    } else {
        let pu = split_ranges(s, a, b, '→');
        let ghost tu = range_texts(s@, pu@);
        if pu.len() == 2 {
            assert(tu[0] == s@.subrange(pu@[0].0 as int, pu@[0].1 as int));
            assert(tu[1] == s@.subrange(pu@[1].0 as int, pu@[1].1 as int));
            Some((pu[0], pu[1]))
        } else {
            None
        }
    }
}

/// Whether `s[a..b]` is a word for the empty string.
fn range_is_eps(s: &Vec<char>, a: usize, b: usize) -> (r: bool)
    requires
        a <= b <= s@.len(),
    ensures
        r == is_eps_word(s@.subrange(a as int, b as int)),
{
    range_is(s, a, b, "ϵ") || range_is(s, a, b, "ε") || range_is(s, a, b, "epsilon")
}

/// Whether the name `s[a..b]` starts with an uppercase letter.
fn range_starts_upper(s: &Vec<char>, a: usize, b: usize) -> (r: bool)
    requires
        a <= b <= s@.len(),
    ensures
        r == starts_upper(s@.subrange(a as int, b as int)),
{
    a < b && is_uppercase(s[a])
}

/// Whether the word starts with an uppercase letter (and so names a
/// non-terminal): ASCII capitals do, ASCII small letters do not.
pub fn word_starts_uppercase(word: &str) -> (r: bool)
    ensures
        r == starts_upper(word@),
        word@.len() > 0 && 'A' <= word@[0] <= 'Z' ==> r,
        word@.len() > 0 && 'a' <= word@[0] <= 'z' ==> !r,
{
    let chars = chars_of(word);
    if chars.len() == 0 {
        false
    } else {
        is_uppercase(chars[0])
    }
}

/// The symbol a word denotes, given whether it starts with an uppercase
/// letter.
pub fn symbol_of_word(word: String, upper: bool) -> (r: Symbol)
    ensures
        r@ == word_class(word@, upper),
{
    let chars = chars_of(word.as_str());
    if range_is_eps(&chars, 0, chars.len()) {
        assert(chars@.subrange(0, chars@.len() as int) =~= word@);
        Symbol::Epsilon
    } else if upper {
        assert(chars@.subrange(0, chars@.len() as int) =~= word@);
        Symbol::NonTerminal(word)
    } else {
        assert(chars@.subrange(0, chars@.len() as int) =~= word@);
        Symbol::Terminal(word)
    }
}

/// The symbols of the alternative `text[a..b]`.
fn alternative_symbols(text: &str, s: &Vec<char>, a: usize, b: usize) -> (r: Vec<Symbol>)
    requires
        s@ == text@,
        a <= b <= s@.len(),
    ensures
        syms_view(r@) == alt_symbols(s@.subrange(a as int, b as int)),
{
    let (ta, tb) = trim_range(s, a, b);
    let mut out: Vec<Symbol> = Vec::new();
    if ta == tb || range_is_eps(s, ta, tb) {
        out.push(Symbol::Epsilon);
        assert(syms_view(out@) =~= seq![SpecSymbol::Epsilon]);
        return out;
    }
    let ws = word_ranges(s, ta, tb);
    let ghost wt = range_texts(s@, ws@);
    let ghost target = wt.map_values(|w: Seq<char>| word_symbol(w));
    let mut i: usize = 0;
    while i < ws.len()
        invariant
            s@ == text@,
            ranges_ok(s@, ws@),
            wt == range_texts(s@, ws@),
            target == wt.map_values(|w: Seq<char>| word_symbol(w)),
            i <= ws@.len(),
            syms_view(out@) == target.take(i as int),
        decreases ws.len() - i,
    {
        let (wa, wb) = ws[i];
        assert(wt[i as int] == s@.subrange(wa as int, wb as int));
        let upper = range_starts_upper(s, wa, wb);
        let sym = symbol_of_word(substring(text, s, wa, wb), upper);
        assert(target[i as int] == word_symbol(wt[i as int]));
        assert(sym@ == target[i as int]);
        let ghost old_out = out@;
        out.push(sym);
        assert(syms_view(out@) =~= syms_view(old_out).push(sym@));
        assert(syms_view(out@) =~= target.take(i + 1));
        i += 1;
    }
    assert(target.take(ws@.len() as int) =~= target);
    out
}

/// The productions of lines with no error are productions of non-terminals
/// whose names start with an uppercase letter, each with a non-empty right
/// side.
pub proof fn lines_productions_shape(ls: Seq<Seq<char>>)
    requires
        first_error(ls) is None,
    ensures
        forall|i: int| 0 <= i < lines_productions(ls).len() ==> {
            let p = #[trigger] lines_productions(ls)[i];
            &&& p.left is NonTerminal
            &&& starts_upper(p.left->NonTerminal_0)
            &&& p.right.len() > 0
        },
    decreases ls.len(),
{
    if ls.len() > 0 {
        lines_productions_shape(ls.drop_last());
        let front = lines_productions(ls.drop_last());
        let lp = line_productions(ls.last());
        assert(line_error(ls.last()) is None);
        assert forall|k: int| 0 <= k < lp.len() implies {
            let p = #[trigger] lp[k];
            &&& p.left is NonTerminal
            &&& starts_upper(p.left->NonTerminal_0)
            &&& p.right.len() > 0
        } by {
            let l = trim(ls.last());
            let pp = line_parts(l)->0;
            let alt = split_char(pp.1, '|')[k];
            assert(lp[k].right == alt_symbols(alt));
            if !(trim(alt).len() == 0 || is_eps_word(trim(alt))) {
                lemma_words_nonempty(trim(alt));
                lemma_trim_last(alt);
            }
        }
        assert forall|i: int| 0 <= i < lines_productions(ls).len() implies {
            let p = #[trigger] lines_productions(ls)[i];
            &&& p.left is NonTerminal
            &&& starts_upper(p.left->NonTerminal_0)
            &&& p.right.len() > 0
        } by {
            if i < front.len() {
                assert(lines_productions(ls)[i] == front[i]);
            } else {
                assert(lines_productions(ls)[i] == lp[i - front.len()]);
            }
        }
    }
}

/// A trimmed non-empty text ends with a character that is not whitespace.
pub proof fn lemma_trim_last(s: Seq<char>)
    ensures
        trim(s).len() > 0 ==> !is_ws(trim(s).last()),
{
    lemma_trim_end_last(trim_start(s));
}

pub proof fn lemma_trim_end_last(s: Seq<char>)
    ensures
        trim_end(s).len() > 0 ==> !is_ws(trim_end(s).last()),
    decreases s.len(),
{
    if s.len() > 0 && is_ws(s.last()) {
        lemma_trim_end_last(s.drop_last());
    }
}

/// When the lines have no error and one of them has a left side, the first
/// production is one of that first left side.
pub proof fn first_production_is_first_left(ls: Seq<Seq<char>>)
    requires
        first_error(ls) is None,
    ensures
        first_left(ls) matches Some(x) ==> lines_productions(ls).len() > 0
            && lines_productions(ls)[0].left == SpecSymbol::NonTerminal(x),
        first_left(ls) is None ==> lines_productions(ls).len() == 0,
    decreases ls.len(),
{
    if ls.len() > 0 {
        first_production_is_first_left(ls.drop_last());
        let front = lines_productions(ls.drop_last());
        let l = trim(ls.last());
        if first_left(ls.drop_last()) is None && l.len() > 0 {
            if let Some(p) = line_parts(l) {
                lemma_split_char_nonempty(p.1, '|');
            }
        }
        if front.len() > 0 {
            assert(lines_productions(ls)[0] == front[0]);
        }
    }
}

/// A grammar read from text starts with a production of its start symbol
/// (the left side of the first production line), and every production is
/// one of a non-terminal whose name starts with an uppercase letter, with a
/// non-empty right side.
pub proof fn read_grammar_shape(text: Seq<char>)
    ensures
        parse_grammar(text) matches Ok(g) ==> {
            &&& g.productions.len() > 0
            &&& g.productions[0].left == g.start
            &&& forall|i: int| 0 <= i < g.productions.len() ==> {
                let p = #[trigger] g.productions[i];
                &&& p.left is NonTerminal
                &&& starts_upper(p.left->NonTerminal_0)
                &&& p.right.len() > 0
            }
        },
{
    let ls = split_char(text, '\n');
    if first_error(ls) is None {
        first_production_is_first_left(ls);
        lines_productions_shape(ls);
    }
}

impl Grammar {
    /// Reads a grammar from text (see `parse_grammar`): `S -> A B | a`, one
    /// rule per line, with `->` or `→`; names that start with an uppercase
    /// letter are non-terminals, other names terminals, and `ϵ`, `ε` or
    /// `epsilon` the empty string.
    pub fn from_string(input: &str) -> (r: Result<Grammar, String>)
        ensures
            match r {
                Ok(g) => parse_grammar(input@) == Ok::<SpecGrammar, Seq<char>>(g@),
                Err(e) => parse_grammar(input@) == Err::<SpecGrammar, Seq<char>>(e@),
            },
    {
        let chars = chars_of(input);
        let n = chars.len();
        let lines = split_ranges(&chars, 0, n, '\n');
        let ghost ls = range_texts(chars@, lines@);
        assert(chars@.subrange(0, n as int) =~= input@);
        assert(ls == split_char(input@, '\n'));
        // First pass: every line must be a well-formed production.
        let mut i: usize = 0;
        while i < lines.len()
            invariant
                chars@ == input@,
                ranges_ok(chars@, lines@),
                ls == range_texts(chars@, lines@),
                ls == split_char(input@, '\n'),
                i <= lines@.len(),
                first_error(ls.take(i as int)) is None,
            decreases lines.len() - i,
        {
            let (a, b) = lines[i];
            assert(ls.take(i + 1).drop_last() =~= ls.take(i as int));
            assert(ls.take(i + 1).last() == chars@.subrange(a as int, b as int));
            let (la, lb) = trim_range(&chars, a, b);
            if la < lb {
                match parts_of(&chars, la, lb) {
                    None => {
                        let line = substring(input, &chars, la, lb);
                        let msg = concat("Invalid production format: ", line.as_str());
                        assert(line_error(chars@.subrange(a as int, b as int)) == Some(msg@));
                        assert(first_error(ls.take(i + 1)) == Some(msg@));
                        assert(first_error(ls) == first_error(ls.take(i + 1))) by {
                            lemma_first_error_prefix(ls, i + 1);
                        }
                        return Err(msg);
                    },
                    Some((lhs, _rhs)) => {
                        let (ta, tb) = trim_range(&chars, lhs.0, lhs.1);
                        if !range_starts_upper(&chars, ta, tb) {
                            let left = substring(input, &chars, ta, tb);
                            let msg = concat("Left side must be a Non-Terminal: ", left.as_str());
                            assert(line_error(chars@.subrange(a as int, b as int)) == Some(msg@));
                            assert(first_error(ls.take(i + 1)) == Some(msg@));
                            assert(first_error(ls) == first_error(ls.take(i + 1))) by {
                                lemma_first_error_prefix(ls, i + 1);
                            }
                            return Err(msg);
                        }
                    },
                }
            }
            i += 1;
        }
        assert(ls.take(lines@.len() as int) =~= ls);
        // Second pass: build the productions.
        let mut productions: Vec<Production> = Vec::new();
        let mut start: Option<String> = None;
        let mut i: usize = 0;
        assert(ls.take(0) =~= Seq::<Seq<char>>::empty());
        assert(prods_view(productions@) =~= lines_productions(ls.take(0)));
        while i < lines.len()
            invariant
                chars@ == input@,
                ranges_ok(chars@, lines@),
                ls == range_texts(chars@, lines@),
                ls == split_char(input@, '\n'),
                i <= lines@.len(),
                first_error(ls) is None,
                prods_view(productions@) == lines_productions(ls.take(i as int)),
                match start {
                    Some(s) => first_left(ls.take(i as int)) == Some(s@),
                    None => first_left(ls.take(i as int)) is None,
                },
            decreases lines.len() - i,
        {
            let (a, b) = lines[i];
            let ghost raw = chars@.subrange(a as int, b as int);
            assert(ls.take(i + 1).drop_last() =~= ls.take(i as int));
            assert(ls.take(i + 1).last() == raw);
            let (la, lb) = trim_range(&chars, a, b);
            if la < lb {
                proof {
                    lemma_first_error_line(ls, i as int);
                }
                match parts_of(&chars, la, lb) {
                    None => {
                        assert(false);
                    },
                    Some((lhs, rhs)) => {
                        let (ta, tb) = trim_range(&chars, lhs.0, lhs.1);
                        let left_name = substring(input, &chars, ta, tb);
                        if start.is_none() {
                            start = Some(left_name.clone());
                        }
                        let alts = split_ranges(&chars, rhs.0, rhs.1, '|');
                        let ghost at = range_texts(chars@, alts@);
                        let ghost line_ps = line_productions(raw);
                        let ghost before = prods_view(productions@);
                        let mut k: usize = 0;
                        while k < alts.len()
                            invariant
                                chars@ == input@,
                                rhs.0 <= rhs.1 <= chars@.len(),
                                lhs.0 <= lhs.1 <= chars@.len(),
                                ranges_ok(chars@, alts@),
                                at == range_texts(chars@, alts@),
                                at == split_char(chars@.subrange(rhs.0 as int, rhs.1 as int), '|'),
                                left_name@ == trim(chars@.subrange(lhs.0 as int, lhs.1 as int)),
                                line_ps == at.map_values(
                                    |alt: Seq<char>|
                                        SpecProduction {
                                            left: SpecSymbol::NonTerminal(left_name@),
                                            right: alt_symbols(alt),
                                        },
                                ),
                                k <= alts@.len(),
                                prods_view(productions@) == before + line_ps.take(k as int),
                            decreases alts.len() - k,
                        {
                            let (xa, xb) = alts[k];
                            assert(at[k as int] == chars@.subrange(xa as int, xb as int));
                            let right = alternative_symbols(input, &chars, xa, xb);
                            let p = Production { left: Symbol::NonTerminal(left_name.clone()), right };
                            assert(line_ps[k as int] == p@);
                            let ghost old_ps = productions@;
                            productions.push(p);
                            assert(prods_view(productions@) =~= prods_view(old_ps).push(p@));
                            assert(prods_view(productions@) =~= before + line_ps.take(k + 1));
                            k += 1;
                        }
                        assert(line_ps.take(alts@.len() as int) =~= line_ps);
                        assert(lines_productions(ls.take(i + 1)) == before + line_ps);
                    },
                }
            } else {
                assert(line_productions(raw) =~= Seq::<SpecProduction>::empty());
                assert(lines_productions(ls.take(i + 1)) =~= lines_productions(ls.take(i as int)));
            }
            i += 1;
        }
        assert(ls.take(lines@.len() as int) =~= ls);
        match start {
            None => Err(String::from_str("Grammar must have at least one production")),
            Some(s) => Ok(Grammar { productions, start_symbol: Symbol::NonTerminal(s) }),
        }
    }
}

proof fn lemma_first_error_prefix(ls: Seq<Seq<char>>, k: int)
    requires
        0 <= k <= ls.len(),
        first_error(ls.take(k)) is Some,
    ensures
        first_error(ls) == first_error(ls.take(k)),
    decreases ls.len() - k,
{
    if k < ls.len() {
        assert(ls.take(k + 1).drop_last() =~= ls.take(k));
        lemma_first_error_prefix(ls, k + 1);
    } else {
        assert(ls.take(k) =~= ls);
    }
}

proof fn lemma_first_error_line(ls: Seq<Seq<char>>, i: int)
    requires
        0 <= i < ls.len(),
        first_error(ls) is None,
    ensures
        line_error(ls[i]) is None,
{
    lemma_first_error_none_prefix(ls, i + 1);
    assert(ls.take(i + 1).drop_last() =~= ls.take(i));
}

proof fn lemma_first_error_none_prefix(ls: Seq<Seq<char>>, k: int)
    requires
        0 <= k <= ls.len(),
        first_error(ls) is None,
    ensures
        first_error(ls.take(k)) is None,
    decreases ls.len() - k,
{
    if k < ls.len() {
        lemma_first_error_none_prefix(ls, k + 1);
        assert(ls.take(k + 1).drop_last() =~= ls.take(k));
    } else {
        assert(ls.take(k) =~= ls);
    }
}


/// The symbols of `right` before position `k` may all derive nothing:
/// `ϵ` is in FIRST of each of them.
pub open spec fn nullable_prefix(g: SpecGrammar, right: Seq<SpecSymbol>, k: int) -> bool {
    forall|j: int| 0 <= j < k ==> first_relation(g).contains((#[trigger] right[j], SpecSymbol::Epsilon))
}

/// Production `p` gives the edge `a → b` of the left-corner graph: it is a
/// production of `a` whose right side has the non-terminal `b` after
/// symbols that may all derive nothing.
pub open spec fn corner_of(g: SpecGrammar, p: SpecProduction, a: SpecSymbol, b: SpecSymbol) -> bool {
    &&& p.left == a
    &&& b is NonTerminal
    &&& exists|k: int| 0 <= k < p.right.len() && #[trigger] p.right[k] == b && nullable_prefix(g, p.right, k)
}

/// An edge `a → b` given by one of the first `n` productions.
pub open spec fn edge_upto(g: SpecGrammar, a: SpecSymbol, b: SpecSymbol, n: int) -> bool {
    exists|i: int| 0 <= i < n && #[trigger] corner_of(g, g.productions[i], a, b)
}

/// An edge `a → b` of the left-corner graph: `a` derives, in one step and
/// then by erasing symbols that derive nothing, a form that starts with `b`.
pub open spec fn first_edge(g: SpecGrammar, a: SpecSymbol, b: SpecSymbol) -> bool {
    edge_upto(g, a, b, g.productions.len() as int)
}

proof fn lemma_edge_upto_step(g: SpecGrammar, a: SpecSymbol, b: SpecSymbol, n: int)
    requires
        0 <= n,
    ensures
        edge_upto(g, a, b, n + 1) == (edge_upto(g, a, b, n) || corner_of(g, g.productions[n], a, b)),
{
    if edge_upto(g, a, b, n + 1) {
        let i = choose|i: int| 0 <= i < n + 1 && #[trigger] corner_of(g, g.productions[i], a, b);
        if i < n {
            assert(edge_upto(g, a, b, n));
        }
    }
}

/// A walk of at least one edge in the left-corner graph.
pub open spec fn is_first_path(g: SpecGrammar, p: Seq<SpecSymbol>) -> bool {
    &&& p.len() >= 2
    &&& forall|i: int| #![trigger p[i]] 0 <= i < p.len() - 1 ==> first_edge(g, p[i], p[i + 1])
}

/// `a` derives, by left-most expansion, a form that starts with `a` again.
pub open spec fn reaches_itself(g: SpecGrammar, a: SpecSymbol) -> bool {
    exists|p: Seq<SpecSymbol>| #[trigger] is_first_path(g, p) && p[0] == a && p.last() == a
}

/// The grammar is left-recursive: some non-terminal reaches itself in the
/// left-corner graph, directly (`A -> A ...`, or `A -> B A ...` with
/// `B ⇒* ϵ`) or through other non-terminals.
pub open spec fn left_recursive(g: SpecGrammar) -> bool {
    exists|a: SpecSymbol| #[trigger] reaches_itself(g, a)
}

proof fn lemma_path_extend(g: SpecGrammar, p: Seq<SpecSymbol>, b: SpecSymbol)
    requires
        is_first_path(g, p),
        first_edge(g, p.last(), b),
    ensures
        is_first_path(g, p.push(b)),
{
    let q = p.push(b);
    assert forall|i: int| #![trigger q[i]] 0 <= i < q.len() - 1 implies first_edge(g, q[i], q[i + 1]) by {
        if i < p.len() - 1 {
            assert(q[i] == p[i] && q[i + 1] == p[i + 1]);
        } else {
            assert(q[i] == p.last());
        }
    }
}

/// Every walk from `a` ends inside a set that holds the successors of `a`
/// and is closed under edges.
proof fn lemma_path_in_closed(g: SpecGrammar, a: SpecSymbol, r: Seq<SpecSymbol>, p: Seq<SpecSymbol>)
    requires
        forall|b: SpecSymbol| first_edge(g, a, b) ==> #[trigger] r.contains(b),
        forall|x: SpecSymbol, b: SpecSymbol| r.contains(x) && #[trigger] first_edge(g, x, b) ==> r.contains(b),
        is_first_path(g, p),
        p[0] == a,
    ensures
        r.contains(p.last()),
    decreases p.len(),
{
    if p.len() == 2 {
        assert(first_edge(g, p[0], p[1]));
    } else {
        let q = p.drop_last();
        assert forall|i: int| #![trigger q[i]] 0 <= i < q.len() - 1 implies first_edge(g, q[i], q[i + 1]) by {
            assert(q[i] == p[i] && q[i + 1] == p[i + 1]);
        }
        lemma_path_in_closed(g, a, r, q);
        assert(first_edge(g, p[p.len() - 2], p[p.len() - 1]));
    }
}

impl Grammar {
    /// Adds to `r` the non-terminals that production `p` gives as edges from
    /// `x` (`rel` is the FIRST relation).
    fn add_corners(&self, rel: &VecSet<(Symbol, Symbol)>, p: &Production, x: &Symbol, r: &mut VecSet<Symbol>)
        requires
            old(r).wf(),
            rel@.to_set() == first_relation(self@),
        ensures
            final(r).wf(),
            forall|y: SpecSymbol| #[trigger] final(r)@.contains(y) <==> (old(r)@.contains(y) || corner_of(self@, p@, x@, y)),
            old(r)@.len() <= final(r)@.len(),
            forall|k: int| 0 <= k < old(r)@.len() ==> final(r)@[k] == old(r)@[k],
    {
        let ghost g = self@;
        let ghost right = p@.right;
        let mut k: usize = 0;
        let mut go = p.left.same(x);
        while k < p.right.len() && go
            invariant
                g == self@,
                right == p@.right,
                right == syms_view(p.right@),
                rel@.to_set() == first_relation(g),
                r.wf(),
                k <= right.len(),
                go ==> p@.left == x@ && nullable_prefix(g, right, k as int),
                !go ==> forall|y: SpecSymbol| !corner_of(g, p@, x@, y) || (exists|k2: int| 0 <= k2 < k && #[trigger] right[k2] == y
                    && nullable_prefix(g, right, k2) && y is NonTerminal),
                forall|y: SpecSymbol| #[trigger] r@.contains(y) <==> (old(r)@.contains(y) || (p@.left == x@ && y is NonTerminal
                    && exists|k2: int| 0 <= k2 < k && #[trigger] right[k2] == y && nullable_prefix(g, right, k2))),
                old(r)@.len() <= r@.len(),
                forall|q: int| 0 <= q < old(r)@.len() ==> r@[q] == old(r)@[q],
            decreases p.right.len() - k,
        {
            let ghost before = r@;
            assert(right[k as int] == p.right@[k as int]@);
            if p.right[k].is_nonterminal() {
                let z = p.right[k].copy();
                let ghost zv = z@;
                r.insert(z);
                assert forall|y: SpecSymbol| #[trigger] r@.contains(y) <==> (before.contains(y) || y == zv) by {
                    if r@ == before.push(zv) {
                        if before.contains(y) {
                            let q = choose|q: int| 0 <= q < before.len() && before[q] == y;
                            assert(r@[q] == y);
                        }
                        if y == zv {
                            assert(r@[before.len() as int] == y);
                        }
                        if r@.contains(y) {
                            let q = choose|q: int| 0 <= q < r@.len() && r@[q] == y;
                            if q < before.len() {
                                assert(before[q] == y);
                            }
                        }
                    }
                }
            }
            let key = (p.right[k].copy(), Symbol::Epsilon);
            let nullable = rel.contains(&key);
            assert(nullable == first_relation(g).contains((right[k as int], SpecSymbol::Epsilon))) by {
                assert(key@ == (right[k as int], SpecSymbol::Epsilon));
                assert(rel@.contains(key@) == rel@.to_set().contains(key@));
            }
            assert forall|y: SpecSymbol| #[trigger] r@.contains(y) <==> (old(r)@.contains(y) || (p@.left == x@ && y is NonTerminal
                && exists|k2: int| 0 <= k2 < k + 1 && #[trigger] right[k2] == y && nullable_prefix(g, right, k2))) by {
                if exists|k2: int| 0 <= k2 < k + 1 && #[trigger] right[k2] == y && nullable_prefix(g, right, k2) {
                    let k2 = choose|k2: int| 0 <= k2 < k + 1 && #[trigger] right[k2] == y && nullable_prefix(g, right, k2);
                    if k2 < k {
                        assert(exists|k3: int| 0 <= k3 < k && #[trigger] right[k3] == y && nullable_prefix(g, right, k3));
                    }
                }
                if y is NonTerminal && y == right[k as int] {
                    assert(exists|k3: int| 0 <= k3 < k + 1 && #[trigger] right[k3] == y && nullable_prefix(g, right, k3));
                }
            }
            if !nullable {
                go = false;
                assert forall|y: SpecSymbol| !corner_of(g, p@, x@, y) || (exists|k2: int| 0 <= k2 < k + 1 && #[trigger] right[k2] == y
                    && nullable_prefix(g, right, k2) && y is NonTerminal) by {
                    if corner_of(g, p@, x@, y) {
                        let k2 = choose|k2: int| 0 <= k2 < right.len() && #[trigger] right[k2] == y && nullable_prefix(g, right, k2);
                        if k2 > k {
                            assert(first_relation(g).contains((right[k as int], SpecSymbol::Epsilon)));
                        }
                    }
                }
            }
            k += 1;
        }
        assert forall|y: SpecSymbol| #[trigger] r@.contains(y) <==> (old(r)@.contains(y) || corner_of(g, p@, x@, y)) by {
            if corner_of(g, p@, x@, y) && go {
                let k2 = choose|k2: int| 0 <= k2 < right.len() && #[trigger] right[k2] == y && nullable_prefix(g, right, k2);
                assert(k == right.len());
            }
        }
    }

    /// Adds to `r` every successor of `x` in the left-corner graph.
    fn add_successors(&self, rel: &VecSet<(Symbol, Symbol)>, x: &Symbol, r: &mut VecSet<Symbol>)
        requires
            old(r).wf(),
            rel@.to_set() == first_relation(self@),
        ensures
            final(r).wf(),
            forall|y: SpecSymbol| #[trigger] final(r)@.contains(y) <==> (old(r)@.contains(y) || first_edge(self@, x@, y)),
            forall|y: SpecSymbol| old(r)@.contains(y) ==> #[trigger] final(r)@.contains(y),
            old(r)@.len() <= final(r)@.len(),
            forall|k: int| 0 <= k < old(r)@.len() ==> final(r)@[k] == old(r)@[k],
    {
        let ghost g = self@;
        let mut j: usize = 0;
        while j < self.productions.len()
            invariant
                g == self@,
                rel@.to_set() == first_relation(g),
                r.wf(),
                j <= self.productions@.len(),
                forall|y: SpecSymbol| #[trigger] r@.contains(y) <==> (old(r)@.contains(y) || edge_upto(g, x@, y, j as int)),
                old(r)@.len() <= r@.len(),
                forall|k: int| 0 <= k < old(r)@.len() ==> r@[k] == old(r)@[k],
            decreases self.productions.len() - j,
        {
            let p = &self.productions[j];
            assert(g.productions[j as int] == p@);
            let ghost before = r@;
            let ghost blen = r@.len();
            self.add_corners(rel, p, x, r);
            assert forall|y: SpecSymbol| #[trigger] r@.contains(y) <==> (old(r)@.contains(y) || edge_upto(g, x@, y, j + 1)) by {
                lemma_edge_upto_step(g, x@, y, j as int);
                assert(before.contains(y) <==> (old(r)@.contains(y) || edge_upto(g, x@, y, j as int)));
            }
            assert forall|k: int| 0 <= k < old(r)@.len() implies r@[k] == old(r)@[k] by {
                assert(before[k] == old(r)@[k]);
            }
            j += 1;
        }
    }

    /// Whether `a` reaches itself in the left-corner graph.
    fn cycles_back(&self, rel: &VecSet<(Symbol, Symbol)>, a: &Symbol) -> (res: bool)
        requires
            rel@.to_set() == first_relation(self@),
        ensures
            res == reaches_itself(self@, a@),
    {
        let ghost g = self@;
        let mut reached: VecSet<Symbol> = VecSet::new();
        self.add_successors(rel, a, &mut reached);
        assert forall|y: SpecSymbol| #[trigger] reached@.contains(y) implies exists|p: Seq<SpecSymbol>|
            #[trigger] is_first_path(g, p) && p[0] == a@ && p.last() == y by {
            let p = seq![a@, y];
            assert(first_edge(g, p[0], p[1]));
            assert(is_first_path(g, p));
        }
        let mut i: usize = 0;
        while i < reached.len()
            invariant
                g == self@,
                rel@.to_set() == first_relation(g),
                reached.wf(),
                i <= reached@.len(),
                forall|b: SpecSymbol| first_edge(g, a@, b) ==> #[trigger] reached@.contains(b),
                forall|k: int, b: SpecSymbol|
                    0 <= k < i && #[trigger] first_edge(g, reached@[k], b) ==> reached@.contains(b),
                forall|y: SpecSymbol| #[trigger] reached@.contains(y) ==> exists|p: Seq<SpecSymbol>|
                    #[trigger] is_first_path(g, p) && p[0] == a@ && p.last() == y,
            decreases usize::MAX - i,
        {
            let x = reached.items[i].copy();
            let ghost before = reached@;
            assert(before[i as int] == x@);
            assert(before.contains(x@));
            self.add_successors(rel, &x, &mut reached);
            assert forall|y: SpecSymbol| #[trigger] reached@.contains(y) implies exists|p: Seq<SpecSymbol>|
                #[trigger] is_first_path(g, p) && p[0] == a@ && p.last() == y by {
                if !before.contains(y) {
                    assert(first_edge(g, x@, y));
                    let p = choose|p: Seq<SpecSymbol>| #[trigger] is_first_path(g, p) && p[0] == a@ && p.last() == x@;
                    lemma_path_extend(g, p, y);
                    assert(p.push(y)[0] == a@);
                    assert(p.push(y).last() == y);
                }
            }
            assert forall|k: int, b: SpecSymbol|
                0 <= k < i + 1 && #[trigger] first_edge(g, reached@[k], b) implies reached@.contains(b) by {
                if k < i {
                    assert(reached@[k] == before[k]);
                    assert(before.contains(b));
                } else {
                    assert(reached@[k] == x@);
                }
            }
            i += 1;
        }
        let res = reached.contains(a);
        proof {
            if reaches_itself(g, a@) {
                let p = choose|p: Seq<SpecSymbol>| #[trigger] is_first_path(g, p) && p[0] == a@ && p.last() == a@;
                assert forall|x: SpecSymbol, b: SpecSymbol|
                    reached@.contains(x) && #[trigger] first_edge(g, x, b) implies reached@.contains(b) by {
                    let k = choose|k: int| 0 <= k < reached@.len() && reached@[k] == x;
                }
                lemma_path_in_closed(g, a@, reached@, p);
            }
        }
        res
    }

    /// Whether the grammar has left recursion, direct (`A -> A ...`) or
    /// indirect (`A -> B ...`, `B -> A ...`), also past leading symbols that
    /// may derive nothing (`A -> B A ...` with `B ⇒* ϵ`).
    pub fn is_left_recursive(&self) -> (r: bool)
        ensures
            r == left_recursive(self@),
    {
        let ghost g = self@;
        let rel = first_pairs(self);
        proof {
            lemma_first_relation(g, rel@.to_set());
        }
        let mut j: usize = 0;
        while j < self.productions.len()
            invariant
                g == self@,
                rel@.to_set() == first_relation(g),
                j <= self.productions@.len(),
                forall|i: int| 0 <= i < j ==> !reaches_itself(g, #[trigger] g.productions[i].left),
            decreases self.productions.len() - j,
        {
            let p = &self.productions[j];
            assert(g.productions[j as int] == p@);
            if self.cycles_back(&rel, &p.left) {
                return true;
            }
            j += 1;
        }
        proof {
            if exists|a: SpecSymbol| #[trigger] reaches_itself(g, a) {
                let a = choose|a: SpecSymbol| #[trigger] reaches_itself(g, a);
                let p = choose|p: Seq<SpecSymbol>| #[trigger] is_first_path(g, p) && p[0] == a && p.last() == a;
                assert(first_edge(g, p[0], p[1]));
                let i = choose|i: int| 0 <= i < g.productions.len() && #[trigger] corner_of(g, g.productions[i], p[0], p[1]);
                assert(!reaches_itself(g, g.productions[i].left));
            }
        }
        false
    }
}

} // verus!
