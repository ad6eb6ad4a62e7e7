//! Character-level text processing: whitespace, trimming, splitting into
//! pieces and words, and building strings.

use vstd::prelude::*;

verus! {

/// Characters with the Unicode `White_Space` property (what `char::is_whitespace` tests).
pub open spec fn is_ws(c: char) -> bool {
    ||| '\u{9}' <= c <= '\u{d}'
    ||| c == ' '
    ||| c == '\u{85}'
    ||| c == '\u{a0}'
    ||| c == '\u{1680}'
    ||| '\u{2000}' <= c <= '\u{200a}'
    ||| c == '\u{2028}'
    ||| c == '\u{2029}'
    ||| c == '\u{202f}'
    ||| c == '\u{205f}'
    ||| c == '\u{3000}'
}

pub fn char_is_ws(c: char) -> (r: bool)
    ensures
        r == is_ws(c),
{
    ('\u{9}' <= c && c <= '\u{d}') || c == ' ' || c == '\u{85}' || c == '\u{a0}' || c == '\u{1680}'
        || ('\u{2000}' <= c && c <= '\u{200a}') || c == '\u{2028}' || c == '\u{2029}' || c
        == '\u{202f}' || c == '\u{205f}' || c == '\u{3000}'
}

/// `s` without its leading whitespace.
pub open spec fn trim_start(s: Seq<char>) -> Seq<char>
    decreases s.len(),
{
    if s.len() > 0 && is_ws(s[0]) {
        trim_start(s.drop_first())
    } else {
        s
    }
}

/// `s` without its trailing whitespace.
pub open spec fn trim_end(s: Seq<char>) -> Seq<char>
    decreases s.len(),
{
    if s.len() > 0 && is_ws(s.last()) {
        trim_end(s.drop_last())
    } else {
        s
    }
}

/// `s` without whitespace at either end.
pub open spec fn trim(s: Seq<char>) -> Seq<char> {
    trim_end(trim_start(s))
}

/// The pieces of `s` between occurrences of `sep` (as `str::split` with a char).
pub open spec fn split_char(s: Seq<char>, sep: char) -> Seq<Seq<char>>
    decreases s.len(),
{
    if s.len() == 0 {
        seq![Seq::empty()]
    } else {
        let p = split_char(s.drop_last(), sep);
        if s.last() == sep {
            p.push(Seq::empty())
        } else {
            p.update(p.len() - 1, p.last().push(s.last()))
        }
    }
}

/// The pieces of `s` between occurrences of `->` (as `str::split("->")`).
pub open spec fn split_arrow(s: Seq<char>) -> Seq<Seq<char>>
    decreases s.len(),
{
    if s.len() == 0 {
        seq![Seq::empty()]
    } else {
        let p = split_arrow(s.drop_last());
        if s.last() == '>' && p.last().len() > 0 && p.last().last() == '-' {
            p.update(p.len() - 1, p.last().drop_last()).push(Seq::empty())
        } else {
            p.update(p.len() - 1, p.last().push(s.last()))
        }
    }
}

/// The maximal runs of non-whitespace characters of `s` (as `str::split_whitespace`).
pub open spec fn words(s: Seq<char>) -> Seq<Seq<char>>
    decreases s.len(),
{
    if s.len() == 0 {
        Seq::empty()
    } else {
        let w = words(s.drop_last());
        let c = s.last();
        if is_ws(c) {
            w
        } else if s.len() >= 2 && !is_ws(s[s.len() - 2]) {
            w.update(w.len() - 1, w.last().push(c))
        } else {
            w.push(seq![c])
        }
    }
}

pub proof fn lemma_split_char_nonempty(s: Seq<char>, sep: char)
    ensures
        split_char(s, sep).len() >= 1,
    decreases s.len(),
{
    if s.len() > 0 {
        lemma_split_char_nonempty(s.drop_last(), sep);
    }
}

pub proof fn lemma_split_arrow_nonempty(s: Seq<char>)
    ensures
        split_arrow(s).len() >= 1,
    decreases s.len(),
{
    if s.len() > 0 {
        lemma_split_arrow_nonempty(s.drop_last());
    }
}

pub proof fn lemma_words_nonempty(s: Seq<char>)
    ensures
        s.len() > 0 && !is_ws(s.last()) ==> words(s).len() > 0,
        forall|i: int| 0 <= i < words(s).len() ==> (#[trigger] words(s)[i]).len() > 0,
    decreases s.len(),
{
    if s.len() > 0 {
        lemma_words_nonempty(s.drop_last());
        let w = words(s.drop_last());
        if !is_ws(s.last()) && s.len() >= 2 && !is_ws(s[s.len() - 2]) {
            assert(s.drop_last().last() == s[s.len() - 2]);
        }
    }
}

/// The texts of ranges of `s`.
pub open spec fn range_texts(s: Seq<char>, rs: Seq<(usize, usize)>) -> Seq<Seq<char>> {
    rs.map_values(|r: (usize, usize)| s.subrange(r.0 as int, r.1 as int))
}

pub open spec fn ranges_ok(s: Seq<char>, rs: Seq<(usize, usize)>) -> bool {
    forall|i: int| 0 <= i < rs.len() ==> (#[trigger] rs[i]).0 <= rs[i].1 <= s.len()
}

/// The range of `s[a..b]` without whitespace at either end.
pub fn trim_range(s: &Vec<char>, a: usize, b: usize) -> (r: (usize, usize))
    requires
        a <= b <= s@.len(),
    ensures
        a <= r.0 <= r.1 <= b,
        s@.subrange(r.0 as int, r.1 as int) == trim(s@.subrange(a as int, b as int)),
{
    let mut i = a;
    while i < b && char_is_ws(s[i])
        invariant
            a <= i <= b <= s@.len(),
            trim_start(s@.subrange(a as int, b as int)) == trim_start(s@.subrange(i as int, b as int)),
        decreases b - i,
    {
        assert(s@.subrange(i as int, b as int).drop_first() =~= s@.subrange(i + 1, b as int));
        i += 1;
    }
    let mut j = b;
    while j > i && char_is_ws(s[j - 1])
        invariant
            a <= i <= j <= b <= s@.len(),
            trim_start(s@.subrange(a as int, b as int)) == s@.subrange(i as int, b as int),
            trim_end(s@.subrange(i as int, b as int)) == trim_end(s@.subrange(i as int, j as int)),
        decreases j - i,
    {
        assert(s@.subrange(i as int, j as int).drop_last() =~= s@.subrange(i as int, j - 1));
        j -= 1;
    }
    (i, j)
}

/// The ranges of the pieces of `s[a..b]` between occurrences of `sep`.
pub fn split_ranges(s: &Vec<char>, a: usize, b: usize, sep: char) -> (r: Vec<(usize, usize)>)
    requires
        a <= b <= s@.len(),
    ensures
        ranges_ok(s@, r@),
        forall|i: int| 0 <= i < r@.len() ==> a <= (#[trigger] r@[i]).0 && r@[i].1 <= b,
        range_texts(s@, r@) == split_char(s@.subrange(a as int, b as int), sep),
{
    let mut pieces: Vec<(usize, usize)> = Vec::new();
    let mut cur = a;
    let mut i = a;
    assert(s@.subrange(a as int, a as int) =~= Seq::<char>::empty());
    assert(range_texts(s@, pieces@.push((cur, i))) =~= split_char(s@.subrange(a as int, i as int), sep));
    while i < b
        invariant
            a <= cur <= i <= b <= s@.len(),
            ranges_ok(s@, pieces@),
            forall|k: int| 0 <= k < pieces@.len() ==> a <= (#[trigger] pieces@[k]).0 && pieces@[k].1 <= b,
            range_texts(s@, pieces@.push((cur, i))) == split_char(s@.subrange(a as int, i as int), sep),
        decreases b - i,
    {
        let ghost prev = split_char(s@.subrange(a as int, i as int), sep);
        assert(s@.subrange(a as int, i + 1).drop_last() =~= s@.subrange(a as int, i as int));
        assert(s@.subrange(a as int, i + 1).last() == s@[i as int]);
        if s[i] == sep {
            pieces.push((cur, i));
            cur = i + 1;
            assert(s@.subrange(cur as int, cur as int) =~= Seq::<char>::empty());
            assert(range_texts(s@, pieces@.push((cur, (i + 1) as usize))) =~= prev.push(Seq::empty()));
        } else {
            assert(s@.subrange(cur as int, i + 1) =~= s@.subrange(cur as int, i as int).push(s@[i as int]));
            assert(range_texts(s@, pieces@.push((cur, (i + 1) as usize))) =~= prev.update(
                prev.len() - 1,
                prev.last().push(s@[i as int]),
            ));
        }
        i += 1;
    }
    pieces.push((cur, b));
    pieces
}

/// The ranges of the pieces of `s[a..b]` between occurrences of `->`.
pub fn split_arrow_ranges(s: &Vec<char>, a: usize, b: usize) -> (r: Vec<(usize, usize)>)
    requires
        a <= b <= s@.len(),
    ensures
        ranges_ok(s@, r@),
        range_texts(s@, r@) == split_arrow(s@.subrange(a as int, b as int)),
{
    let mut pieces: Vec<(usize, usize)> = Vec::new();
    let mut cur = a;
    let mut i = a;
    assert(s@.subrange(a as int, a as int) =~= Seq::<char>::empty());
    assert(range_texts(s@, pieces@.push((cur, i))) =~= split_arrow(s@.subrange(a as int, i as int)));
    while i < b
        invariant
            a <= cur <= i <= b <= s@.len(),
            ranges_ok(s@, pieces@),
            range_texts(s@, pieces@.push((cur, i))) == split_arrow(s@.subrange(a as int, i as int)),
        decreases b - i,
    {
        let ghost prev = split_arrow(s@.subrange(a as int, i as int));
        assert(s@.subrange(a as int, i + 1).drop_last() =~= s@.subrange(a as int, i as int));
        assert(s@.subrange(a as int, i + 1).last() == s@[i as int]);
        assert(prev.last() == s@.subrange(cur as int, i as int));
        if s[i] == '>' && i > cur && s[i - 1] == '-' {
            pieces.push((cur, i - 1));
            assert(s@.subrange(cur as int, i - 1) =~= prev.last().drop_last());
            cur = i + 1;
            assert(s@.subrange(cur as int, cur as int) =~= Seq::<char>::empty());
            assert(range_texts(s@, pieces@.push((cur, (i + 1) as usize))) =~= prev.update(
                prev.len() - 1,
                prev.last().drop_last(),
            ).push(Seq::empty()));
        } else {
            assert(s@.subrange(cur as int, i + 1) =~= s@.subrange(cur as int, i as int).push(s@[i as int]));
            assert(range_texts(s@, pieces@.push((cur, (i + 1) as usize))) =~= prev.update(
                prev.len() - 1,
                prev.last().push(s@[i as int]),
            ));
        }
        i += 1;
    }
    pieces.push((cur, b));
    pieces
}

/// The ranges of the words of `s[a..b]`.
pub fn word_ranges(s: &Vec<char>, a: usize, b: usize) -> (r: Vec<(usize, usize)>)
    requires
        a <= b <= s@.len(),
    ensures
        ranges_ok(s@, r@),
        range_texts(s@, r@) == words(s@.subrange(a as int, b as int)),
{
    let mut ws: Vec<(usize, usize)> = Vec::new();
    let mut i = a;
    assert(range_texts(s@, ws@) =~= words(s@.subrange(a as int, a as int)));
    while i < b
        invariant
            a <= i <= b <= s@.len(),
            ranges_ok(s@, ws@),
            forall|k: int| 0 <= k < ws@.len() ==> (#[trigger] ws@[k]).1 <= i,
            ws@.len() > 0 ==> ws@.last().1 <= i && (ws@.last().1 == i <==> (i > a && !is_ws(s@[i - 1]))),
            range_texts(s@, ws@) == words(s@.subrange(a as int, i as int)),
        decreases b - i,
    {
        let ghost sub = s@.subrange(a as int, i + 1);
        let ghost prev = words(s@.subrange(a as int, i as int));
        assert(sub.drop_last() =~= s@.subrange(a as int, i as int));
        assert(sub.last() == s@[i as int]);
        proof {
            lemma_words_nonempty(s@.subrange(a as int, i as int));
        }
        if !char_is_ws(s[i]) {
            if i > a && !char_is_ws(s[i - 1]) {
                assert(sub[sub.len() - 2] == s@[i - 1]);
                assert(ws@.len() > 0);
                let k = ws.len() - 1;
                let st = ws[k].0;
                ws.set(k, (st, i + 1));
                assert(s@.subrange(st as int, i + 1) =~= s@.subrange(st as int, i as int).push(s@[i as int]));
                assert(range_texts(s@, ws@) =~= prev.update(prev.len() - 1, prev.last().push(s@[i as int])));
            } else {
                if i > a {
                    assert(sub[sub.len() - 2] == s@[i - 1]);
                }
                ws.push((i, i + 1));
                assert(s@.subrange(i as int, i + 1) =~= seq![s@[i as int]]);
                assert(range_texts(s@, ws@) =~= prev.push(seq![s@[i as int]]));
            }
        } else {
            assert(range_texts(s@, ws@) =~= prev);
        }
        i += 1;
    }
    ws
}

/// Whether `s[a..b]` is the text `lit`.
pub fn range_is(s: &Vec<char>, a: usize, b: usize, lit: &str) -> (r: bool)
    requires
        a <= b <= s@.len(),
    ensures
        r == (s@.subrange(a as int, b as int) == lit@),
{
    let n = lit.unicode_len();
    if b - a != n {
        return false;
    }
    let mut i: usize = 0;
    while i < n
        invariant
            n == lit@.len(),
            b - a == n,
            a <= b <= s@.len(),
            i <= n,
            forall|k: int| 0 <= k < i ==> s@[a + k] == lit@[k],
        decreases n - i,
    {
        if s[a + i] != lit.get_char(i) {
            assert(s@.subrange(a as int, b as int)[i as int] != lit@[i as int]);
            return false;
        }
        i += 1;
    }
    assert(s@.subrange(a as int, b as int) =~= lit@);
    true
}

/// Whether the characters of `t` occur in `s` at `pos`.
pub fn starts_at(s: &Vec<char>, pos: usize, t: &Vec<char>) -> (r: bool)
    requires
        pos <= s@.len(),
    ensures
        r == (t@.len() <= s@.skip(pos as int).len() && s@.skip(pos as int).take(t@.len() as int) == t@),
{
    if t.len() > s.len() - pos {
        return false;
    }
    let mut i: usize = 0;
    assert(t@.len() == t.len());
    while i < t.len()
        invariant
            pos + t@.len() <= s@.len(),
            i <= t@.len(),
            forall|q: int| 0 <= q < i ==> s@[pos + q] == t@[q],
        decreases t.len() - i,
    {
        assert(s@.len() == s.len());
        assert(pos + i < s@.len());
        if s[pos + i] != t[i] {
            assert(s@.skip(pos as int).take(t@.len() as int)[i as int] != t@[i as int]);
            return false;
        }
        i += 1;
    }
    assert(s@.skip(pos as int).take(t@.len() as int) =~= t@);
    true
}

/// The characters of `s`.
pub fn chars_of(s: &str) -> (r: Vec<char>)
    ensures
        r@ == s@,
{
    let n = s.unicode_len();
    let mut v: Vec<char> = Vec::new();
    let mut i: usize = 0;
    while i < n
        invariant
            n == s@.len(),
            i <= n,
            v@ == s@.subrange(0, i as int),
        decreases n - i,
    {
        v.push(s.get_char(i));
        i += 1;
    }
    assert(v@ =~= s@);
    v
}

/// The text `s[a..b]` as a string, where `chars` holds the characters of `s`.
pub fn substring(s: &str, chars: &Vec<char>, a: usize, b: usize) -> (r: String)
    requires
        chars@ == s@,
        a <= b <= s@.len(),
    ensures
        r@ == s@.subrange(a as int, b as int),
{
    String::from_str(s.substring_char(a, b))
}

/// The concatenation of two texts.
pub fn concat(a: &str, b: &str) -> (r: String)
    ensures
        r@ == a@ + b@,
{
    let mut r = String::from_str(a);
    r.append(b);
    r
}

/// The decimal digit `d`.
pub open spec fn digit_text(d: nat) -> Seq<char> {
    if d == 0 {
        "0"@
    } else if d == 1 {
        "1"@
    } else if d == 2 {
        "2"@
    } else if d == 3 {
        "3"@
    } else if d == 4 {
        "4"@
    } else if d == 5 {
        "5"@
    } else if d == 6 {
        "6"@
    } else if d == 7 {
        "7"@
    } else if d == 8 {
        "8"@
    } else {
        "9"@
    }
}

/// The decimal notation of `n`.
pub open spec fn nat_text(n: nat) -> Seq<char>
    decreases n,
{
    if n < 10 {
        digit_text(n)
    } else {
        nat_text(n / 10) + digit_text(n % 10)
    }
}

fn digit_str(d: usize) -> (r: &'static str)
    requires
        d < 10,
    ensures
        r@ == digit_text(d as nat),
{
    if d == 0 {
        "0"
    } else if d == 1 {
        "1"
    } else if d == 2 {
        "2"
    } else if d == 3 {
        "3"
    } else if d == 4 {
        "4"
    } else if d == 5 {
        "5"
    } else if d == 6 {
        "6"
    } else if d == 7 {
        "7"
    } else if d == 8 {
        "8"
    } else {
        "9"
    }
}

/// The decimal notation of `n`.
pub fn usize_text(n: usize) -> (r: String)
    ensures
        r@ == nat_text(n as nat),
    decreases n,
{
    if n < 10 {
        String::from_str(digit_str(n))
    } else {
        let front = usize_text(n / 10);
        concat(front.as_str(), digit_str(n % 10))
    }
}

/// The texts joined with `sep` between consecutive ones.
pub open spec fn join(parts: Seq<Seq<char>>, sep: Seq<char>) -> Seq<char>
    decreases parts.len(),
{
    if parts.len() == 0 {
        Seq::empty()
    } else if parts.len() == 1 {
        parts[0]
    } else {
        join(parts.drop_last(), sep) + sep + parts.last()
    }
}

/// Appends `part` to `acc`, which holds the join of the parts before it.
pub fn join_push(acc: &mut String, part: &str, first: bool, Ghost(parts): Ghost<Seq<Seq<char>>>)
    requires
        old(acc)@ == join(parts, " "@),
        first == (parts.len() == 0),
    ensures
        final(acc)@ == join(parts.push(part@), " "@),
{
    assert(parts.push(part@).drop_last() =~= parts);
    if first {
        assert(old(acc)@ =~= Seq::<char>::empty());
        acc.append(part);
        assert(final(acc)@ =~= part@);
    } else {
        acc.append(" ");
        acc.append(part);
    }
}


/// A digit's text is one character, and different digits have different ones.
pub proof fn lemma_digit_text(d: nat, e: nat)
    requires
        d < 10,
        e < 10,
    ensures
        digit_text(d).len() == 1,
        digit_text(d) == digit_text(e) ==> d == e,
{
    reveal_strlit("0");
    reveal_strlit("1");
    reveal_strlit("2");
    reveal_strlit("3");
    reveal_strlit("4");
    reveal_strlit("5");
    reveal_strlit("6");
    reveal_strlit("7");
    reveal_strlit("8");
    reveal_strlit("9");
    if digit_text(d) == digit_text(e) {
        assert(digit_text(d)[0] == digit_text(e)[0]);
    }
}

/// One character for a number below ten, more above.
pub proof fn lemma_nat_text_len(n: nat)
    ensures
        n < 10 ==> nat_text(n).len() == 1,
        n >= 10 ==> nat_text(n).len() >= 2,
    decreases n,
{
    lemma_digit_text(n % 10, 0);
    if n >= 10 {
        lemma_nat_text_len(n / 10);
    }
}

/// Different numbers have different decimal notations.
pub proof fn lemma_nat_text_injective(a: nat, b: nat)
    requires
        nat_text(a) == nat_text(b),
    ensures
        a == b,
    decreases a,
{
    lemma_nat_text_len(a);
    lemma_nat_text_len(b);
    if a < 10 {
        lemma_digit_text(a, b);
    } else {
        let pa = nat_text(a / 10);
        let pb = nat_text(b / 10);
        lemma_digit_text(a % 10, b % 10);
        lemma_digit_text(b % 10, a % 10);
        assert((pa + digit_text(a % 10)).drop_last() =~= pa);
        assert((pb + digit_text(b % 10)).drop_last() =~= pb);
        assert(pa == pb);
        let la = nat_text(a).len() - 1;
        assert(nat_text(a)[la] == digit_text(a % 10)[0]);
        assert(nat_text(b)[la] == digit_text(b % 10)[0]);
        assert(digit_text(a % 10) =~= digit_text(b % 10));
        lemma_nat_text_injective(a / 10, b / 10);
    }
}

} // verus!
