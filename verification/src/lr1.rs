//! LR(1) items and actions, and the canonical LR(1) parser.

use vstd::prelude::*;
use crate::collections::{Keyed, VecSet, VecMap, views};
use crate::ll1::lemma_seq_push_contains;
use crate::symbols::{Symbol, SpecSymbol, Production, SpecProduction, Grammar, SpecGrammar, LR0ParseSnapshot, SpecLRSnapshot, prods_view, strs_view, sym_text};
use crate::text::{concat, usize_text};
use crate::tree::ParseTreeNode;
use crate::lr::{
    SpecAction, SpecDesc, ItemDesc, TableAction, ActMap, GotoMap, action_text, tables_spec, descs_view, build_tables, lr_run,
    lr_snapshots_spec, lr_parse_spec,
};
use crate::lr0::{LR0Action, next_sym, complete, item_text, dotted_rhs_text, augment, aug_start, augmented, copy_productions, entered};
use crate::lr_sets::{StrRel, str_first, eps_token, str_first_of, sfirst, sfirst_pairs};

use crate::names::{all_terminals, all_non_terminals, terminal_list, nonterminal_list};

verus! {

/// An LR(1) item `[A → α · β, a]`: a production, the dot, and the lookahead.
#[derive(Debug, Clone)]
pub struct LR1Item {
    pub production: Production,
    pub dot_position: usize,
    pub lookahead: String,
}

pub struct SpecItem1 {
    pub prod: SpecProduction,
    pub dot: usize,
    pub la: Seq<char>,
}

impl View for LR1Item {
    type V = SpecItem1;

    open spec fn view(&self) -> SpecItem1 {
        SpecItem1 { prod: self.production@, dot: self.dot_position, la: self.lookahead@ }
    }
}

impl LR1Item {
    pub fn new(production: Production, dot_position: usize, lookahead: String) -> (r: Self)
        ensures
            r.production == production,
            r.dot_position == dot_position,
            r.lookahead == lookahead,
    {
        LR1Item { production, dot_position, lookahead }
    }

    /// The symbol right after the dot, or `None` when the item is complete.
    pub fn next_symbol(&self) -> (r: Option<&Symbol>)
        ensures
            match r {
                Some(s) => next_sym(self@.prod, self.dot_position) == Some(s@),
                None => next_sym(self@.prod, self.dot_position) is None,
            },
    {
        if self.production.is_epsilon_production() {
            return None;
        }
        if self.dot_position < self.production.right.len() {
            Some(&self.production.right[self.dot_position])
        } else {
            None
        }
    }

    /// Whether the dot is at the end (ready to reduce).
    pub fn is_complete(&self) -> (r: bool)
        ensures
            r == complete(self@.prod, self.dot_position),
    {
        if self.production.is_epsilon_production() {
            return true;
        }
        self.dot_position >= self.production.right.len()
    }

    /// The item as text: `A → α · β, a`.
    pub fn to_display_string(&self) -> (r: String)
        ensures
            r@ == item_text(self@.prod, self.dot_position) + ", "@ + self.lookahead@,
    {
        let left = self.production.left.to_text();
        let mut r = if self.production.is_epsilon_production() {
            concat(left.as_str(), " → ·")
        } else {
            let mut r = concat(left.as_str(), " → ");
            let rest = dotted_rhs_text(&self.production.right, self.dot_position);
            r.append(rest.as_str());
            r
        };
        r.append(", ");
        r.append(self.lookahead.as_str());
        r
    }

    pub fn copy(&self) -> (r: Self)
        ensures
            r@ == self@,
    {
        LR1Item { production: self.production.copy(), dot_position: self.dot_position, lookahead: self.lookahead.clone() }
    }
}

impl Keyed for LR1Item {
    fn same_key(&self, other: &Self) -> (r: bool) {
        self.dot_position == other.dot_position && self.lookahead == other.lookahead && self.production.same(&other.production)
    }

    fn copy_key(&self) -> (r: Self) {
        self.copy()
    }
}

/// An entry of the LR(1) ACTION table.
#[derive(Debug, Clone)]
pub enum LR1Action {
    Shift(usize),
    /// The production's index and its text.
    Reduce(usize, String),
    Accept,
}

impl View for LR1Action {
    type V = SpecAction;

    open spec fn view(&self) -> SpecAction {
        match self {
            LR1Action::Shift(s) => SpecAction::Shift(*s),
            LR1Action::Reduce(i, t) => SpecAction::Reduce(*i, t@),
            LR1Action::Accept => SpecAction::Accept,
        }
    }
}

impl LR1Action {
    /// The compact text of the action: `s3`, `r2` or `acc`.
    pub fn to_display_string(&self) -> (r: String)
        ensures
            r@ == action_text(self@),
    {
        match self {
            LR1Action::Shift(s) => {
                let n = usize_text(*s);
                concat("s", n.as_str())
            },
            LR1Action::Reduce(i, _) => {
                let n = usize_text(*i);
                concat("r", n.as_str())
            },
            LR1Action::Accept => String::from_str("acc"),
        }
    }
}

impl TableAction for LR1Action {
    fn shift(target: usize) -> (r: Self) {
        LR1Action::Shift(target)
    }

    fn reduce(index: usize, text: String) -> (r: Self) {
        LR1Action::Reduce(index, text)
    }

    fn accept() -> (r: Self) {
        LR1Action::Accept
    }

    fn as_lr0(&self) -> (r: LR0Action) {
        match self {
            LR1Action::Shift(s) => LR0Action::Shift(*s),
            LR1Action::Reduce(i, t) => LR0Action::Reduce(*i, t.clone()),
            LR1Action::Accept => LR0Action::Accept,
        }
    }
}

/// `b` is in FIRST(β a) for the item `[A → α · B β, a]`: a token of
/// FIRST(β) other than `ε`, or `a` when β derives the empty string.
pub open spec fn lookahead_of(f: StrRel, it: SpecItem1, b: Seq<char>) -> bool {
    let beta = it.prod.right.skip(it.dot + 1);
    (b != eps_token() && str_first(beta, f, b)) || (str_first(beta, f, eps_token()) && b == it.la)
}

/// The item `p → ·γ` with lookahead `b`.
pub open spec fn start_item1(p: SpecProduction, b: Seq<char>) -> SpecItem1 {
    SpecItem1 { prod: p, dot: 0, la: b }
}

/// The item `[g[k] → ·γ, b]` is added by the closure for the item `it`.
pub open spec fn expands1(g: Seq<SpecProduction>, f: StrRel, it: SpecItem1, k: int, b: Seq<char>) -> bool {
    0 <= k < g.len() && g[k].left is NonTerminal && next_sym(it.prod, it.dot) == Some(g[k].left) && lookahead_of(f, it, b)
}

pub open spec fn closed1_set(g: Seq<SpecProduction>, f: StrRel, s: Set<SpecItem1>) -> bool {
    forall|it: SpecItem1, k: int, b: Seq<char>| #![trigger s.contains(it), expands1(g, f, it, k, b)]
        s.contains(it) && expands1(g, f, it, k, b) ==> s.contains(start_item1(g[k], b))
}

pub open spec fn closed1_seq(g: Seq<SpecProduction>, f: StrRel, q: Seq<SpecItem1>) -> bool {
    forall|j: int, k: int, b: Seq<char>| #![trigger q[j], expands1(g, f, q[j], k, b)]
        0 <= j < q.len() && expands1(g, f, q[j], k, b) ==> q.contains(start_item1(g[k], b))
}

pub open spec fn all_in1(q: Seq<SpecItem1>, s: Set<SpecItem1>) -> bool {
    forall|j: int| 0 <= j < q.len() ==> s.contains(#[trigger] q[j])
}

/// `out` (without repetitions) is the LR(1) closure of `input` under the
/// productions `g` and the FIRST relation `f`: the least closed set holding it.
pub open spec fn is_closure1(g: Seq<SpecProduction>, f: StrRel, input: Set<SpecItem1>, out: Seq<SpecItem1>) -> bool {
    &&& out.no_duplicates()
    &&& forall|x: SpecItem1| input.contains(x) ==> out.contains(x)
    &&& closed1_seq(g, f, out)
    &&& forall|s: Set<SpecItem1>| #[trigger] closed1_set(g, f, s) && input.subset_of(s) ==> all_in1(out, s)
}

pub open spec fn item_set1(q: Seq<SpecItem1>) -> Set<SpecItem1> {
    Set::new(|x: SpecItem1| q.contains(x))
}

/// FIRST(β a) for the item (see `lookahead_of`).
fn lookaheads(first: &VecSet<(String, String)>, it: &LR1Item) -> (r: VecSet<String>)
    requires
        it.dot_position < it.production.right@.len(),
    ensures
        r.wf(),
        forall|b: Seq<char>| #[trigger] r@.contains(b) <==> lookahead_of(first@.to_set(), it@, b),
{
    assert(it.production.right@.len() == it.production.right.len());
    let fs = str_first_of(first, &it.production.right, it.dot_position + 1);
    let eps = String::from_str("ε");
    let mut r: VecSet<String> = VecSet::new();
    let mut m: usize = 0;
    let mut has_eps = false;
    while m < fs.items.len()
        invariant
            r.wf(),
            m <= fs@.len(),
            eps@ == eps_token(),
            has_eps == exists|q: int| 0 <= q < m && fs@[q] == eps_token(),
            forall|y: Seq<char>| #[trigger] r@.contains(y) <==> exists|q: int| 0 <= q < m && fs@[q] == y && y != eps_token(),
        decreases fs.items.len() - m,
    {
        let ghost before = r@;
        assert(fs@[m as int] == fs.items@[m as int]@);
        if fs.items[m] == eps {
            has_eps = true;
        } else {
            r.insert(fs.items[m].clone());
        }
        assert forall|y: Seq<char>| #[trigger] r@.contains(y) <==> exists|q: int| 0 <= q < m + 1 && fs@[q] == y && y != eps_token() by {
            lemma_seq_push_contains(before, fs@[m as int], y);
            if exists|q: int| 0 <= q < m + 1 && fs@[q] == y && y != eps_token() {
                let q = choose|q: int| 0 <= q < m + 1 && fs@[q] == y && y != eps_token();
                if q < m {
                    assert(exists|q2: int| 0 <= q2 < m && fs@[q2] == y && y != eps_token());
                }
            }
        }
        m += 1;
    }
    assert(has_eps == fs@.contains(eps_token()));
    let ghost sv = it@.prod.right.skip(it.dot_position + 1);
    assert(crate::symbols::syms_view(it.production.right@).skip(it.dot_position + 1) == sv);
    if has_eps {
        let ghost before = r@;
        r.insert(it.lookahead.clone());
        assert forall|b: Seq<char>| #[trigger] r@.contains(b) <==> lookahead_of(first@.to_set(), it@, b) by {
            lemma_seq_push_contains(before, it.lookahead@, b);
            if fs@.contains(b) {
                let q = choose|q: int| 0 <= q < fs@.len() && fs@[q] == b;
            }
        }
    } else {
        assert forall|b: Seq<char>| #[trigger] r@.contains(b) <==> lookahead_of(first@.to_set(), it@, b) by {
            if fs@.contains(b) {
                let q = choose|q: int| 0 <= q < fs@.len() && fs@[q] == b;
            }
        }
    }
    r
}

/// The LR(1) closure of a set of items under `prods`, given their FIRST relation.
pub fn closure1(prods: &Vec<Production>, first: &VecSet<(String, String)>, items: &Vec<LR1Item>) -> (r: Vec<LR1Item>)
    ensures
        is_closure1(prods_view(prods@), first@.to_set(), item_set1(views(items@)), views(r@)),
{
    let ghost g = prods_view(prods@);
    let ghost f = first@.to_set();
    let ghost input = item_set1(views(items@));
    let mut out: VecSet<LR1Item> = VecSet::new();
    let mut i: usize = 0;
    while i < items.len()
        invariant
            out.wf(),
            i <= items@.len(),
            input == item_set1(views(items@)),
            forall|j: int| 0 <= j < i ==> out@.contains(#[trigger] items@[j]@),
            forall|j: int| 0 <= j < out@.len() ==> input.contains(#[trigger] out@[j]),
        decreases items.len() - i,
    {
        let ghost before = out@;
        let ghost x = items@[i as int]@;
        assert(views(items@)[i as int] == x);
        out.insert(items[i].copy());
        proof {
            assert forall|j: int| 0 <= j <= i implies out@.contains(#[trigger] items@[j]@) by {
                lemma_seq_push_contains(before, x, items@[j]@);
            }
            assert forall|j: int| 0 <= j < out@.len() implies input.contains(#[trigger] out@[j]) by {
                if j < before.len() {
                    assert(out@[j] == before[j]);
                }
            }
        }
        i += 1;
    }
    assert forall|x: SpecItem1| input.contains(x) implies out@.contains(x) by {
        let j = choose|j: int| 0 <= j < views(items@).len() && views(items@)[j] == x;
        assert(items@[j]@ == x);
    }
    assert forall|s: Set<SpecItem1>| #[trigger] closed1_set(g, f, s) && input.subset_of(s) implies all_in1(out@, s) by {
        assert forall|j: int| 0 <= j < out@.len() implies s.contains(#[trigger] out@[j]) by {
            assert(input.contains(out@[j]));
        }
    }
    let mut k: usize = 0;
    while k < out.len()
        invariant
            out.wf(),
            g == prods_view(prods@),
            f == first@.to_set(),
            k <= out@.len(),
            forall|x: SpecItem1| input.contains(x) ==> out@.contains(x),
            forall|s: Set<SpecItem1>| #[trigger] closed1_set(g, f, s) && input.subset_of(s) ==> all_in1(out@, s),
            forall|j: int, m: int, b: Seq<char>| #![trigger out@[j], expands1(g, f, out@[j], m, b)]
                0 <= j < k && expands1(g, f, out@[j], m, b) ==> out@.contains(start_item1(g[m], b)),
        decreases usize::MAX - k,
    {
        let it = out.items[k].copy();
        assert(out@[k as int] == it@);
        match it.next_symbol() {
            Some(sym) => {
                if sym.is_nonterminal() {
                    assert(it.dot_position < it.production.right@.len());
                    let las = lookaheads(first, &it);
                    let mut m: usize = 0;
                    while m < prods.len()
                        invariant
                            out.wf(),
                            g == prods_view(prods@),
                            f == first@.to_set(),
                            k < out@.len(),
                            out@[k as int] == it@,
                            next_sym(it@.prod, it@.dot) == Some(sym@),
                            sym@ is NonTerminal,
                            las.wf(),
                            forall|b: Seq<char>| #[trigger] las@.contains(b) <==> lookahead_of(f, it@, b),
                            m <= prods@.len(),
                            forall|x: SpecItem1| input.contains(x) ==> out@.contains(x),
                            forall|s: Set<SpecItem1>| #[trigger] closed1_set(g, f, s) && input.subset_of(s) ==> all_in1(out@, s),
                            forall|j: int, m2: int, b: Seq<char>| #![trigger out@[j], expands1(g, f, out@[j], m2, b)]
                                0 <= j < k && expands1(g, f, out@[j], m2, b) ==> out@.contains(start_item1(g[m2], b)),
                            forall|m2: int, b: Seq<char>| 0 <= m2 < m && #[trigger] expands1(g, f, it@, m2, b) ==> out@.contains(start_item1(g[m2], b)),
                        decreases prods.len() - m,
                    {
                        if prods[m].left.same(sym) {
                            let mut q: usize = 0;
                            while q < las.items.len()
                                invariant
                                    out.wf(),
                                    g == prods_view(prods@),
                                    f == first@.to_set(),
                                    k < out@.len(),
                                    out@[k as int] == it@,
                                    m < prods@.len(),
                                    g[m as int].left == sym@,
                                    next_sym(it@.prod, it@.dot) == Some(sym@),
                                    sym@ is NonTerminal,
                                    las.wf(),
                                    forall|b: Seq<char>| #[trigger] las@.contains(b) <==> lookahead_of(f, it@, b),
                                    q <= las@.len(),
                                    forall|x: SpecItem1| input.contains(x) ==> out@.contains(x),
                                    forall|s: Set<SpecItem1>| #[trigger] closed1_set(g, f, s) && input.subset_of(s) ==> all_in1(out@, s),
                                    forall|j: int, m2: int, b: Seq<char>| #![trigger out@[j], expands1(g, f, out@[j], m2, b)]
                                        0 <= j < k && expands1(g, f, out@[j], m2, b) ==> out@.contains(start_item1(g[m2], b)),
                                    forall|m2: int, b: Seq<char>| 0 <= m2 < m && #[trigger] expands1(g, f, it@, m2, b) ==> out@.contains(start_item1(g[m2], b)),
                                    forall|q2: int| 0 <= q2 < q ==> out@.contains(start_item1(g[m as int], #[trigger] las@[q2])),
                                decreases las.items.len() - q,
                            {
                                let ghost before = out@;
                                let b = las.items[q].clone();
                                assert(las@[q as int] == b@);
                                assert(las@.contains(b@));
                                let ghost y = start_item1(g[m as int], b@);
                                let fresh = LR1Item::new(prods[m].copy(), 0, b);
                                assert(fresh@ == y);
                                out.insert(fresh);
                                proof {
                                    assert forall|z: SpecItem1| before.contains(z) implies out@.contains(z) by {
                                        lemma_seq_push_contains(before, y, z);
                                    }
                                    lemma_seq_push_contains(before, y, y);
                                    assert forall|s: Set<SpecItem1>| #[trigger] closed1_set(g, f, s) && input.subset_of(s) implies all_in1(out@, s) by {
                                        assert(all_in1(before, s));
                                        assert(s.contains(before[k as int]));
                                        assert(expands1(g, f, it@, m as int, y.la));
                                        assert(s.contains(y));
                                        assert forall|j: int| 0 <= j < out@.len() implies s.contains(#[trigger] out@[j]) by {
                                            if j < before.len() {
                                                assert(out@[j] == before[j]);
                                            }
                                        }
                                    }
                                    assert forall|j: int, m2: int, b2: Seq<char>| #![trigger out@[j], expands1(g, f, out@[j], m2, b2)]
                                        0 <= j < k && expands1(g, f, out@[j], m2, b2) implies out@.contains(start_item1(g[m2], b2)) by {
                                        assert(out@[j] == before[j]);
                                        assert(before.contains(start_item1(g[m2], b2)));
                                    }
                                    assert forall|m2: int, b2: Seq<char>| 0 <= m2 < m && #[trigger] expands1(g, f, it@, m2, b2) implies out@.contains(start_item1(g[m2], b2)) by {
                                        assert(before.contains(start_item1(g[m2], b2)));
                                    }
                                    assert forall|q2: int| 0 <= q2 < q + 1 implies out@.contains(start_item1(g[m as int], #[trigger] las@[q2])) by {
                                        if q2 < q {
                                            assert(before.contains(start_item1(g[m as int], las@[q2])));
                                        }
                                    }
                                }
                                q += 1;
                            }
                            assert forall|m2: int, b2: Seq<char>| 0 <= m2 < m + 1 && #[trigger] expands1(g, f, it@, m2, b2) implies out@.contains(start_item1(g[m2], b2)) by {
                                if m2 == m {
                                    assert(las@.contains(b2));
                                    let q2 = choose|q2: int| 0 <= q2 < las@.len() && las@[q2] == b2;
                                    assert(out@.contains(start_item1(g[m as int], las@[q2])));
                                }
                            }
                        }
                        m += 1;
                    }
                } else {
                    assert forall|m2: int, b2: Seq<char>| #[trigger] expands1(g, f, it@, m2, b2) implies out@.contains(start_item1(g[m2], b2)) by {}
                }
            },
            None => {},
        }
        assert forall|j: int, m2: int, b2: Seq<char>| #![trigger out@[j], expands1(g, f, out@[j], m2, b2)]
            0 <= j < k + 1 && expands1(g, f, out@[j], m2, b2) implies out@.contains(start_item1(g[m2], b2)) by {
            if j == k {
                assert(out@[j] == it@);
            }
        }
        k += 1;
    }
    assert(closed1_seq(g, f, out@));
    out.items
}

/// The item with its dot moved one symbol right.
pub open spec fn advanced1(it: SpecItem1) -> SpecItem1 {
    SpecItem1 { prod: it.prod, dot: (it.dot + 1) as usize, la: it.la }
}

/// The kernel of goto(I, X): the items of `I` with `X` after the dot, with
/// the dot moved past it.
pub open spec fn kernel1(items: Seq<SpecItem1>, x: SpecSymbol) -> Set<SpecItem1> {
    Set::new(|y: SpecItem1| exists|j: int| #![trigger items[j]]
        0 <= j < items.len() && next_sym(items[j].prod, items[j].dot) == Some(x)
            && y == advanced1(items[j]))
}

/// Whether `X` is the symbol after the dot of some item.
pub open spec fn after_dot1(items: Seq<SpecItem1>, x: SpecSymbol) -> bool {
    exists|j: int| 0 <= j < items.len() && next_sym(items[j].prod, items[j].dot) == Some(x)
}

/// `out` is goto(I, X): the closure of the kernel, or nothing when the kernel
/// is empty.
pub open spec fn is_goto1(g: Seq<SpecProduction>, f: StrRel, items: Seq<SpecItem1>, x: SpecSymbol, out: Seq<SpecItem1>) -> bool {
    if after_dot1(items, x) {
        is_closure1(g, f, kernel1(items, x), out)
    } else {
        out.len() == 0
    }
}

/// goto(I, X) for LR(1) items.
pub fn goto1(prods: &Vec<Production>, first: &VecSet<(String, String)>, items: &Vec<LR1Item>, sym: &Symbol) -> (r: Vec<LR1Item>)
    ensures
        is_goto1(prods_view(prods@), first@.to_set(), views(items@), sym@, views(r@)),
{
    let ghost iv = views(items@);
    let ghost ker = kernel1(iv, sym@);
    let mut moved: Vec<LR1Item> = Vec::new();
    let mut i: usize = 0;
    while i < items.len()
        invariant
            iv == views(items@),
            ker == kernel1(iv, sym@),
            i <= items@.len(),
            forall|y: SpecItem1| item_set1(views(moved@)).contains(y) <==> (exists|j: int| #![trigger iv[j]]
                0 <= j < i && next_sym(iv[j].prod, iv[j].dot) == Some(sym@)
                    && y == advanced1(iv[j])),
            (moved@.len() == 0) <==> !(exists|j: int| 0 <= j < i && next_sym(iv[j].prod, iv[j].dot) == Some(sym@)),
        decreases items.len() - i,
    {
        let ghost before = views(moved@);
        assert(iv[i as int] == items@[i as int]@);
        match items[i].next_symbol() {
            Some(n) => {
                if n.same(sym) {
                    assert(items[i as int].dot_position < items[i as int].production.right@.len());
                    assert(items[i as int].production.right@.len() == items[i as int].production.right.len());
                    let d = items[i].dot_position + 1;
                    let y = LR1Item::new(items[i].production.copy(), d, items[i].lookahead.clone());
                    let ghost yv = y@;
                    moved.push(y);
                    assert(views(moved@) =~= before.push(yv));
                    proof {
                        assert forall|z: SpecItem1| item_set1(views(moved@)).contains(z) <==> (exists|j: int| #![trigger iv[j]]
                            0 <= j < i + 1 && next_sym(iv[j].prod, iv[j].dot) == Some(sym@)
                                && z == advanced1(iv[j])) by {
                            lemma_seq_push_contains(before, yv, z);
                            assert(item_set1(before).contains(z) == before.contains(z));
                            if z == yv {
                                assert(next_sym(iv[i as int].prod, iv[i as int].dot) == Some(sym@) && z == advanced1(iv[i as int]));
                            }
                            if exists|j: int| #![trigger iv[j]] 0 <= j < i + 1 && next_sym(iv[j].prod, iv[j].dot) == Some(sym@)
                                && z == advanced1(iv[j]) {
                                let j = choose|j: int| #![trigger iv[j]] 0 <= j < i + 1 && next_sym(iv[j].prod, iv[j].dot) == Some(sym@)
                                    && z == advanced1(iv[j]);
                                if j < i {
                                    assert(item_set1(before).contains(z));
                                }
                            }
                        }
                    }
                } else {
                    assert forall|z: SpecItem1| item_set1(views(moved@)).contains(z) <==> (exists|j: int| #![trigger iv[j]]
                        0 <= j < i + 1 && next_sym(iv[j].prod, iv[j].dot) == Some(sym@)
                            && z == advanced1(iv[j])) by {
                        if exists|j: int| #![trigger iv[j]] 0 <= j < i + 1 && next_sym(iv[j].prod, iv[j].dot) == Some(sym@)
                            && z == advanced1(iv[j]) {
                            let j = choose|j: int| #![trigger iv[j]] 0 <= j < i + 1 && next_sym(iv[j].prod, iv[j].dot) == Some(sym@)
                                && z == advanced1(iv[j]);
                            assert(j < i);
                        }
                    }
                }
            },
            None => {
                assert forall|z: SpecItem1| item_set1(views(moved@)).contains(z) <==> (exists|j: int| #![trigger iv[j]]
                    0 <= j < i + 1 && next_sym(iv[j].prod, iv[j].dot) == Some(sym@)
                        && z == advanced1(iv[j])) by {
                    if exists|j: int| #![trigger iv[j]] 0 <= j < i + 1 && next_sym(iv[j].prod, iv[j].dot) == Some(sym@)
                        && z == advanced1(iv[j]) {
                        let j = choose|j: int| #![trigger iv[j]] 0 <= j < i + 1 && next_sym(iv[j].prod, iv[j].dot) == Some(sym@)
                            && z == advanced1(iv[j]);
                        assert(j < i);
                    }
                }
            },
        }
        i += 1;
    }
    assert(item_set1(views(moved@)) =~= ker);
    if moved.len() == 0 {
        assert(views(moved@).len() == 0);
        return moved;
    }
    closure1(prods, first, &moved)
}

/// Whether the item `x` is in `v`.
pub fn contains_item1(v: &Vec<LR1Item>, x: &LR1Item) -> (r: bool)
    ensures
        r == views(v@).contains(x@),
{
    let mut i: usize = 0;
    while i < v.len()
        invariant
            i <= v@.len(),
            forall|j: int| 0 <= j < i ==> v@[j]@ != x@,
        decreases v.len() - i,
    {
        if v[i].same_key(x) {
            assert(views(v@)[i as int] == x@);
            return true;
        }
        i += 1;
    }
    assert(!views(v@).contains(x@)) by {
        if views(v@).contains(x@) {
            let j = choose|j: int| 0 <= j < views(v@).len() && views(v@)[j] == x@;
            assert(v@[j]@ == x@);
        }
    }
    false
}

/// Whether `a` and `b` hold the same items.
pub fn same_items1(a: &Vec<LR1Item>, b: &Vec<LR1Item>) -> (r: bool)
    ensures
        r == (item_set1(views(a@)) == item_set1(views(b@))),
{
    let mut i: usize = 0;
    while i < a.len()
        invariant
            i <= a@.len(),
            forall|j: int| 0 <= j < i ==> views(b@).contains(#[trigger] views(a@)[j]),
        decreases a.len() - i,
    {
        if !contains_item1(b, &a[i]) {
            assert(views(a@)[i as int] == a@[i as int]@);
            assert(views(a@).contains(a@[i as int]@));
            assert(item_set1(views(a@)).contains(a@[i as int]@));
            assert(!item_set1(views(b@)).contains(a@[i as int]@));
            return false;
        }
        i += 1;
    }
    let mut k: usize = 0;
    while k < b.len()
        invariant
            k <= b@.len(),
            forall|j: int| 0 <= j < a@.len() ==> views(b@).contains(#[trigger] views(a@)[j]),
            forall|j: int| 0 <= j < k ==> views(a@).contains(#[trigger] views(b@)[j]),
        decreases b.len() - k,
    {
        if !contains_item1(a, &b[k]) {
            assert(views(b@)[k as int] == b@[k as int]@);
            assert(views(b@).contains(b@[k as int]@));
            assert(item_set1(views(b@)).contains(b@[k as int]@));
            assert(!item_set1(views(a@)).contains(b@[k as int]@));
            return false;
        }
        k += 1;
    }
    assert(item_set1(views(a@)) =~= item_set1(views(b@))) by {
        assert forall|x: SpecItem1| item_set1(views(a@)).contains(x) implies item_set1(views(b@)).contains(x) by {
            let j = choose|j: int| 0 <= j < views(a@).len() && views(a@)[j] == x;
        }
        assert forall|x: SpecItem1| item_set1(views(b@)).contains(x) implies item_set1(views(a@)).contains(x) by {
            let j = choose|j: int| 0 <= j < views(b@).len() && views(b@)[j] == x;
        }
    }
    true
}

/// The models of the item sets.
pub open spec fn states_view1(st: Seq<Vec<LR1Item>>) -> Seq<Seq<SpecItem1>> {
    st.map_values(|v: Vec<LR1Item>| views(v@))
}

/// The index of a state holding the same items as `set`.
pub fn find_state1(states: &Vec<Vec<LR1Item>>, set: &Vec<LR1Item>) -> (r: Option<usize>)
    ensures
        match r {
            Some(j) => j < states@.len() && item_set1(states_view1(states@)[j as int]) == item_set1(views(set@)),
            None => forall|j: int| 0 <= j < states@.len() ==> item_set1(#[trigger] states_view1(states@)[j]) != item_set1(views(set@)),
        },
{
    let mut j: usize = 0;
    while j < states.len()
        invariant
            j <= states@.len(),
            forall|k: int| 0 <= k < j ==> item_set1(#[trigger] states_view1(states@)[k]) != item_set1(views(set@)),
        decreases states.len() - j,
    {
        if same_items1(&states[j], set) {
            return Some(j);
        }
        j += 1;
    }
    None
}

/// The distinct symbols (by text) found after the dot in `items`.
pub fn symbols_after_dot1(items: &Vec<LR1Item>) -> (r: Vec<Symbol>)
    ensures
        forall|a: int, b: int| 0 <= a < b < r@.len() ==> sym_text(#[trigger] r@[a]@) != sym_text(#[trigger] r@[b]@),
        forall|q: int| 0 <= q < r@.len() ==> after_dot1(views(items@), #[trigger] r@[q]@),
        forall|j: int| 0 <= j < items@.len() && (#[trigger] next_sym(items@[j]@.prod, items@[j]@.dot)) is Some
            ==> exists|q: int| 0 <= q < r@.len() && sym_text(#[trigger] r@[q]@) == sym_text(next_sym(items@[j]@.prod, items@[j]@.dot)->0),
{
    let ghost iv = views(items@);
    let mut r: Vec<Symbol> = Vec::new();
    let mut seen: VecSet<String> = VecSet::new();
    let mut i: usize = 0;
    while i < items.len()
        invariant
            iv == views(items@),
            seen.wf(),
            i <= items@.len(),
            seen@.len() == r@.len(),
            forall|q: int| 0 <= q < r@.len() ==> seen@[q] == sym_text(#[trigger] r@[q]@),
            forall|q: int| 0 <= q < r@.len() ==> after_dot1(iv, #[trigger] r@[q]@),
            forall|j: int| 0 <= j < i && (#[trigger] next_sym(items@[j]@.prod, items@[j]@.dot)) is Some
                ==> exists|q: int| 0 <= q < r@.len() && sym_text(#[trigger] r@[q]@) == sym_text(next_sym(items@[j]@.prod, items@[j]@.dot)->0),
        decreases items.len() - i,
    {
        assert(iv[i as int] == items@[i as int]@);
        match items[i].next_symbol() {
            Some(n) => {
                let key = n.to_text();
                if !seen.contains(&key) {
                    let ghost before = r@;
                    seen.insert(key);
                    r.push(n.copy());
                    assert(r@[r@.len() - 1] == n);
                    assert forall|j: int| 0 <= j < i + 1 && (#[trigger] next_sym(items@[j]@.prod, items@[j]@.dot)) is Some
                        implies exists|q: int| 0 <= q < r@.len() && sym_text(#[trigger] r@[q]@) == sym_text(next_sym(items@[j]@.prod, items@[j]@.dot)->0) by {
                        let x = next_sym(items@[j]@.prod, items@[j]@.dot)->0;
                        if j < i {
                            let q = choose|q: int| 0 <= q < before.len() && sym_text(#[trigger] before[q]@) == sym_text(x);
                            assert(r@[q] == before[q]);
                        } else {
                            assert(r@[before.len() as int]@ == x);
                        }
                    }
                    assert forall|q: int| 0 <= q < r@.len() implies after_dot1(iv, #[trigger] r@[q]@) by {
                        if q < before.len() {
                            assert(r@[q] == before[q]);
                        } else {
                            assert(next_sym(iv[i as int].prod, iv[i as int].dot) == Some(r@[q]@));
                        }
                    }
                } else {
                    proof {
                        let q0 = choose|q: int| 0 <= q < seen@.len() && seen@[q] == key@;
                        assert(sym_text(r@[q0]@) == sym_text(n@));
                    }
                }
            },
            None => {},
        }
        i += 1;
    }
    assert forall|a: int, b: int| 0 <= a < b < r@.len() implies sym_text(#[trigger] r@[a]@) != sym_text(#[trigger] r@[b]@) by {
        assert(seen@[a] != seen@[b]);
    }
    r
}

/// The state `dst` is goto(`src`, X) for a symbol X shown as `name` that
/// appears after a dot in `src`.
pub open spec fn goto_target1(g: Seq<SpecProduction>, f: StrRel, src: Seq<SpecItem1>, name: Seq<char>, dst: Seq<SpecItem1>) -> bool {
    exists|x: SpecSymbol| #[trigger] after_dot1(src, x) && sym_text(x) == name && is_goto1(g, f, src, x, dst)
}

/// The canonical collection of LR(1) item sets of the augmented grammar
/// `g` (whose first production is `S' → S`) and its transitions, keyed by
/// state and symbol text: state 0 is the closure of `S' → ·S`; every
/// transition leads to the goto of its state on its symbol; every symbol
/// after a dot has its transition; the states are distinct and each but
/// state 0 is entered by a transition from an earlier state.
pub open spec fn automaton1(g: Seq<SpecProduction>, f: StrRel, st: Seq<Seq<SpecItem1>>, tr: Map<(usize, Seq<char>), usize>) -> bool {
    &&& st.len() >= 1
    &&& is_closure1(g, f, set![start_item1(g[0], "$"@)], st[0])
    &&& forall|i: int| 0 <= i < st.len() ==> (#[trigger] st[i]).no_duplicates()
    &&& forall|i: int, j: int| 0 <= i < j < st.len() ==> item_set1(#[trigger] st[i]) != item_set1(#[trigger] st[j])
    &&& forall|k: (usize, Seq<char>)| #[trigger] tr.contains_key(k) ==> k.0 < st.len() && tr[k] < st.len()
        && goto_target1(g, f, st[k.0 as int], k.1, st[tr[k] as int])
    &&& forall|i: int, j: int| 0 <= i < st.len() && 0 <= j < st[i].len() && (#[trigger] st[i][j]).prod == st[i][j].prod
        && next_sym(st[i][j].prod, st[i][j].dot) is Some
        ==> tr.contains_key((i as usize, sym_text(next_sym(st[i][j].prod, st[i][j].dot)->0)))
    &&& forall|j: int| 0 < j < st.len() ==> #[trigger] entered(tr, j)
}

pub proof fn lemma_closure_same_set1(g: Seq<SpecProduction>, f: StrRel, input: Set<SpecItem1>, a: Seq<SpecItem1>, b: Seq<SpecItem1>)
    requires
        is_closure1(g, f, input, a),
        b.no_duplicates(),
        item_set1(a) == item_set1(b),
    ensures
        is_closure1(g, f, input, b),
{
    assert forall|x: SpecItem1| a.contains(x) <==> b.contains(x) by {
        assert(item_set1(a).contains(x) == a.contains(x));
        assert(item_set1(b).contains(x) == b.contains(x));
    }
    assert forall|j: int, k: int, c: Seq<char>| #![trigger b[j], expands1(g, f, b[j], k, c)]
        0 <= j < b.len() && expands1(g, f, b[j], k, c) implies b.contains(start_item1(g[k], c)) by {
        assert(b.contains(b[j]));
        let ja = choose|ja: int| 0 <= ja < a.len() && a[ja] == b[j];
        assert(expands1(g, f, a[ja], k, c));
    }
    assert forall|s: Set<SpecItem1>| #[trigger] closed1_set(g, f, s) && input.subset_of(s) implies all_in1(b, s) by {
        assert(all_in1(a, s));
        assert forall|j: int| 0 <= j < b.len() implies s.contains(#[trigger] b[j]) by {
            assert(b.contains(b[j]));
            let ja = choose|ja: int| 0 <= ja < a.len() && a[ja] == b[j];
        }
    }
}

/// The canonical collection of LR(1) item sets of the augmented grammar
/// Closing an LR(1) closure again adds nothing: the closure of the items of a
/// closure holds the same items.
pub proof fn closure1_is_idempotent(g: Seq<SpecProduction>, f: StrRel, input: Set<SpecItem1>, a: Seq<SpecItem1>, b: Seq<SpecItem1>)
    requires
        is_closure1(g, f, input, a),
        is_closure1(g, f, item_set1(a), b),
    ensures
        item_set1(b) == item_set1(a),
{
    let sa = item_set1(a);
    assert forall|it: SpecItem1, k: int, c: Seq<char>| #![trigger sa.contains(it), expands1(g, f, it, k, c)]
        sa.contains(it) && expands1(g, f, it, k, c) implies sa.contains(start_item1(g[k], c)) by {
        let j = choose|j: int| 0 <= j < a.len() && a[j] == it;
        assert(expands1(g, f, a[j], k, c));
    }
    assert(closed1_set(g, f, sa));
    assert(sa.subset_of(sa));
    assert(all_in1(b, sa));
    assert forall|x: SpecItem1| item_set1(b).contains(x) <==> sa.contains(x) by {
        if item_set1(b).contains(x) {
            let j = choose|j: int| 0 <= j < b.len() && b[j] == x;
        }
        if sa.contains(x) {
            assert(b.contains(x));
        }
    }
    assert(item_set1(b) =~= sa);
}


/// `prods` and its transitions.
pub fn canonical1(prods: &Vec<Production>, first: &VecSet<(String, String)>) -> (r: (Vec<Vec<LR1Item>>, VecMap<(usize, String), usize>))
    requires
        prods@.len() >= 1,
    ensures
        r.1.wf(),
        automaton1(prods_view(prods@), first@.to_set(), states_view1(r.0@), r.1@),
{
    let ghost g = prods_view(prods@);
    let ghost f = first@.to_set();
    let mut init: Vec<LR1Item> = Vec::new();
    init.push(LR1Item::new(prods[0].copy(), 0, String::from_str("$")));
    assert(item_set1(views(init@)) =~= set![start_item1(g[0], "$"@)]) by {
        assert(views(init@) =~= seq![start_item1(g[0], "$"@)]);
        assert forall|x: SpecItem1| item_set1(views(init@)).contains(x) <==> set![start_item1(g[0], "$"@)].contains(x) by {
            if x == start_item1(g[0], "$"@) {
                assert(views(init@)[0] == x);
            }
        }
    }
    let i0 = closure1(prods, first, &init);
    let mut states: Vec<Vec<LR1Item>> = Vec::new();
    states.push(i0);
    let mut trans: VecMap<(usize, String), usize> = VecMap::new();
    let mut i: usize = 0;
    assert(states_view1(states@) =~= seq![views(i0@)]);
    while i < states.len()
        invariant
            g == prods_view(prods@),
            f == first@.to_set(),
            prods@.len() >= 1,
            trans.wf(),
            i <= states@.len(),
            states@.len() >= 1,
            is_closure1(g, f, set![start_item1(g[0], "$"@)], states_view1(states@)[0]),
            forall|a: int| 0 <= a < states@.len() ==> (#[trigger] states_view1(states@)[a]).no_duplicates(),
            forall|a: int, b: int| 0 <= a < b < states@.len() ==> item_set1(#[trigger] states_view1(states@)[a]) != item_set1(#[trigger] states_view1(states@)[b]),
            forall|k: (usize, Seq<char>)| #[trigger] trans@.contains_key(k) ==> k.0 < i && trans@[k] < states@.len()
                && goto_target1(g, f, states_view1(states@)[k.0 as int], k.1, states_view1(states@)[trans@[k] as int]),
            forall|a: int, j: int| 0 <= a < i && 0 <= j < states_view1(states@)[a].len()
                && (#[trigger] states_view1(states@)[a][j]).prod == states_view1(states@)[a][j].prod
                && next_sym(states_view1(states@)[a][j].prod, states_view1(states@)[a][j].dot) is Some
                ==> trans@.contains_key((a as usize, sym_text(next_sym(states_view1(states@)[a][j].prod, states_view1(states@)[a][j].dot)->0))),
            forall|j: int| 0 < j < states@.len() ==> #[trigger] entered(trans@, j),
        decreases usize::MAX - i,
    {
        let syms = symbols_after_dot1(&states[i]);
        let ghost si = states_view1(states@)[i as int];
        assert(views(states@[i as int]@) == si);
        let mut q: usize = 0;
        while q < syms.len()
            invariant
                g == prods_view(prods@),
                f == first@.to_set(),
            f == first@.to_set(),
                trans.wf(),
                i < states@.len(),
                si == states_view1(states@)[i as int],
                forall|q2: int| 0 <= q2 < syms@.len() ==> after_dot1(si, #[trigger] syms@[q2]@),
                forall|j: int| 0 <= j < si.len() && (#[trigger] next_sym(si[j].prod, si[j].dot)) is Some
                    ==> exists|q2: int| 0 <= q2 < syms@.len() && sym_text(#[trigger] syms@[q2]@) == sym_text(next_sym(si[j].prod, si[j].dot)->0),
                q <= syms@.len(),
                is_closure1(g, f, set![start_item1(g[0], "$"@)], states_view1(states@)[0]),
                forall|a: int| 0 <= a < states@.len() ==> (#[trigger] states_view1(states@)[a]).no_duplicates(),
                forall|a: int, b: int| 0 <= a < b < states@.len() ==> item_set1(#[trigger] states_view1(states@)[a]) != item_set1(#[trigger] states_view1(states@)[b]),
                forall|k: (usize, Seq<char>)| #[trigger] trans@.contains_key(k) ==> k.0 <= i && trans@[k] < states@.len()
                    && goto_target1(g, f, states_view1(states@)[k.0 as int], k.1, states_view1(states@)[trans@[k] as int]),
                forall|a: int, j: int| 0 <= a < i && 0 <= j < states_view1(states@)[a].len()
                    && (#[trigger] states_view1(states@)[a][j]).prod == states_view1(states@)[a][j].prod
                    && next_sym(states_view1(states@)[a][j].prod, states_view1(states@)[a][j].dot) is Some
                    ==> trans@.contains_key((a as usize, sym_text(next_sym(states_view1(states@)[a][j].prod, states_view1(states@)[a][j].dot)->0))),
                forall|q2: int| 0 <= q2 < q ==> trans@.contains_key((i, sym_text(#[trigger] syms@[q2]@))),
                forall|a: int, b: int| 0 <= a < b < syms@.len() ==> sym_text(#[trigger] syms@[a]@) != sym_text(#[trigger] syms@[b]@),
                forall|k: (usize, Seq<char>)| #[trigger] trans@.contains_key(k) && k.0 == i ==> exists|q2: int| 0 <= q2 < q && k.1 == sym_text(#[trigger] syms@[q2]@),
                forall|j: int| 0 < j < states@.len() ==> #[trigger] entered(trans@, j),
            decreases syms.len() - q,
        {
            let ghost old_states = states_view1(states@);
            let ghost old_trans = trans@;
            let x = &syms[q];
            let gv = goto1(prods, first, &states[i], x);
            assert(views(states@[i as int]@) == si);
            assert(after_dot1(si, x@));
            let target = match find_state1(&states, &gv) {
                Some(j) => {
                    proof {
                        lemma_closure_same_set1(g, f, kernel1(si, x@), views(gv@), old_states[j as int]);
                    }
                    j
                },
                None => {
                    let n = states.len();
                    states.push(gv);
                    assert(states_view1(states@) =~= old_states.push(views(gv@)));
                    n
                },
            };
            let ghost new_states = states_view1(states@);
            assert(new_states.len() >= old_states.len());
            assert forall|a: int| 0 <= a < old_states.len() implies #[trigger] new_states[a] == old_states[a] by {}
            assert(is_goto1(g, f, si, x@, new_states[target as int]));
            let name = x.to_text();
            trans.insert((i, name), target);
            proof {
                let key = (i, sym_text(x@));
                assert(goto_target1(g, f, new_states[i as int], key.1, new_states[target as int]));
                assert forall|k: (usize, Seq<char>)| #[trigger] trans@.contains_key(k) implies k.0 <= i && trans@[k] < states@.len()
                    && goto_target1(g, f, states_view1(states@)[k.0 as int], k.1, states_view1(states@)[trans@[k] as int]) by {
                    if k != key {
                        assert(old_trans.contains_key(k));
                        let x2 = choose|x2: SpecSymbol| #[trigger] after_dot1(old_states[k.0 as int], x2) && sym_text(x2) == k.1
                            && is_goto1(g, f, old_states[k.0 as int], x2, old_states[old_trans[k] as int]);
                        assert(after_dot1(new_states[k.0 as int], x2));
                    }
                }
                assert forall|a: int, b: int| 0 <= a < b < states@.len() implies item_set1(#[trigger] states_view1(states@)[a]) != item_set1(#[trigger] states_view1(states@)[b]) by {
                    if b == old_states.len() {
                        assert(new_states[a] == old_states[a]);
                    } else {
                        assert(new_states[a] == old_states[a]);
                        assert(new_states[b] == old_states[b]);
                    }
                }
                assert forall|a: int| 0 <= a < states@.len() implies (#[trigger] states_view1(states@)[a]).no_duplicates() by {
                    if a < old_states.len() {
                        assert(new_states[a] == old_states[a]);
                    }
                }
                assert forall|a: int, j: int| 0 <= a < i && 0 <= j < states_view1(states@)[a].len()
                    && (#[trigger] states_view1(states@)[a][j]).prod == states_view1(states@)[a][j].prod
                    && next_sym(states_view1(states@)[a][j].prod, states_view1(states@)[a][j].dot) is Some
                    implies trans@.contains_key((a as usize, sym_text(next_sym(states_view1(states@)[a][j].prod, states_view1(states@)[a][j].dot)->0))) by {
                    assert(new_states[a] == old_states[a]);
                    assert(old_states[a][j] == new_states[a][j]);
                }
                assert forall|j: int| 0 < j < states@.len() implies #[trigger] entered(trans@, j) by {
                    if j < old_states.len() {
                        assert(entered(old_trans, j));
                        let k = choose|k: (usize, Seq<char>)| #[trigger] old_trans.contains_key(k) && k.0 < j && old_trans[k] == j;
                        if k == key {
                            let q2 = choose|q2: int| 0 <= q2 < q && k.1 == sym_text(#[trigger] syms@[q2]@);
                            assert(sym_text(syms@[q2]@) != sym_text(syms@[q as int]@));
                        } else {
                            assert(trans@.contains_key(k) && k.0 < j && trans@[k] == j);
                        }
                    } else {
                        assert(trans@.contains_key(key) && key.0 < j && trans@[key] == j);
                    }
                }
                assert(new_states[0] == old_states[0]);
                assert forall|q2: int| 0 <= q2 < q + 1 implies trans@.contains_key((i, sym_text(#[trigger] syms@[q2]@))) by {}
                assert forall|k: (usize, Seq<char>)| #[trigger] trans@.contains_key(k) && k.0 == i implies exists|q2: int| 0 <= q2 < q + 1 && k.1 == sym_text(#[trigger] syms@[q2]@) by {
                    if k == key {
                        assert(k.1 == sym_text(syms@[q as int]@));
                    } else {
                        assert(old_trans.contains_key(k));
                        let q2 = choose|q2: int| 0 <= q2 < q && k.1 == sym_text(#[trigger] syms@[q2]@);
                        assert(k.1 == sym_text(syms@[q2]@));
                    }
                }
            }
            q += 1;
        }
        proof {
            assert forall|a: int, j: int| 0 <= a < i + 1 && 0 <= j < states_view1(states@)[a].len()
                && (#[trigger] states_view1(states@)[a][j]).prod == states_view1(states@)[a][j].prod
                && next_sym(states_view1(states@)[a][j].prod, states_view1(states@)[a][j].dot) is Some
                implies trans@.contains_key((a as usize, sym_text(next_sym(states_view1(states@)[a][j].prod, states_view1(states@)[a][j].dot)->0))) by {
                if a == i {
                    assert(states_view1(states@)[a][j] == si[j]);
                    assert(next_sym(si[j].prod, si[j].dot) is Some);
                    let q2 = choose|q2: int| 0 <= q2 < syms@.len() && sym_text(#[trigger] syms@[q2]@) == sym_text(next_sym(si[j].prod, si[j].dot)->0);
                    assert(trans@.contains_key((i, sym_text(syms@[q2]@))));
                }
            }
        }
        i += 1;
    }
    (states, trans)
}

/// The descriptions of the items of each state: each reduces on its own
/// lookahead.
pub open spec fn lr1_descs(st: Seq<Seq<SpecItem1>>) -> Seq<Seq<SpecDesc>> {
    st.map_values(|items: Seq<SpecItem1>| items.map_values(|it: SpecItem1| SpecDesc { prod: it.prod, dot: it.dot, on: seq![it.la] }))
}

fn lookahead_descs(states: &Vec<Vec<LR1Item>>) -> (r: Vec<Vec<ItemDesc>>)
    ensures
        descs_view(r@) == lr1_descs(states_view1(states@)),
{
    let ghost target = lr1_descs(states_view1(states@));
    let mut r: Vec<Vec<ItemDesc>> = Vec::new();
    let mut s: usize = 0;
    while s < states.len()
        invariant
            target == lr1_descs(states_view1(states@)),
            s <= states@.len(),
            descs_view(r@) =~= target.take(s as int),
        decreases states.len() - s,
    {
        let items = &states[s];
        let ghost tv = target[s as int];
        assert(states_view1(states@)[s as int] == views(items@));
        let mut ds: Vec<ItemDesc> = Vec::new();
        let mut i: usize = 0;
        while i < items.len()
            invariant
                tv == views(items@).map_values(|it: SpecItem1| SpecDesc { prod: it.prod, dot: it.dot, on: seq![it.la] }),
                i <= items@.len(),
                views(ds@) =~= tv.take(i as int),
            decreases items.len() - i,
        {
            let it = &items[i];
            let mut on: Vec<String> = Vec::new();
            on.push(it.lookahead.clone());
            let d = ItemDesc { production: it.production.copy(), dot: it.dot_position, reduce_on: on };
            let ghost before = views(ds@);
            assert(views(items@)[i as int] == it@);
            assert(strs_view(d.reduce_on@) =~= seq![it@.la]);
            assert(d@ == tv[i as int]);
            ds.push(d);
            assert(views(ds@) =~= before.push(d@));
            assert(views(ds@) =~= tv.take(i + 1));
            i += 1;
        }
        assert(tv.take(items@.len() as int) =~= tv);
        let ghost before_r = descs_view(r@);
        let ghost dsv = views(ds@);
        r.push(ds);
        assert(descs_view(r@) =~= before_r.push(dsv));
        assert(descs_view(r@) =~= target.take(s + 1));
        s += 1;
    }
    assert(target.take(states@.len() as int) =~= target);
    r
}

/// The canonical LR(1) parser: the augmented grammar, the canonical
/// collection of LR(1) item sets with their transitions, and the ACTION and
/// GOTO tables.
pub struct LR1Parser {
    pub augmented_grammar: Grammar,
    pub states: Vec<Vec<LR1Item>>,
    pub transitions: VecMap<(usize, String), usize>,
    pub action_table: VecMap<(usize, String), LR1Action>,
    pub goto_table: VecMap<(usize, String), usize>,
    pub production_list: Vec<Production>,
}

/// Whether the LR(1) tables of `grammar` (augmented) meet a conflict
/// reported as `e`, for a canonical collection of its LR(1) item sets.
pub open spec fn lr1_refused(grammar: SpecGrammar, e: Seq<char>) -> bool {
    let g = augment(grammar).productions;
    exists|st: Seq<Seq<SpecItem1>>, tr: GotoMap| automaton1(g, sfirst(g), st, tr)
        && #[trigger] tables_spec("LR(1)"@, g, aug_start(), tr, lr1_descs(st))
            == Err::<(ActMap, GotoMap), Seq<char>>(e)
}

/// State 0 of the LR(1) parser holds the item `[S' → ·S, $]`.
pub proof fn lr1_initial_state_has_start_item(p: LR1Parser, grammar: SpecGrammar)
    requires
        p.built_from(grammar),
    ensures
        states_view1(p.states@)[0].contains(
            SpecItem1 { prod: SpecProduction { left: aug_start(), right: seq![grammar.start] }, dot: 0, la: "$"@ },
        ),
{
    let g = augment(grammar).productions;
    assert(g[0] == SpecProduction { left: aug_start(), right: seq![grammar.start] });
    assert(set![start_item1(g[0], "$"@)].contains(start_item1(g[0], "$"@)));
}

impl LR1Parser {
    pub open spec fn wf(&self) -> bool {
        self.transitions.wf() && self.action_table.wf() && self.goto_table.wf()
    }

    /// Whether this parser is what `new` builds from `grammar`: its
    /// augmented grammar, a canonical collection of its LR(1) item sets with
    /// their transitions, and the tables built from them.
    pub open spec fn built_from(&self, grammar: SpecGrammar) -> bool {
        let g = augment(grammar).productions;
        &&& self.wf()
        &&& self.augmented_grammar@ == augment(grammar)
        &&& prods_view(self.production_list@) == g
        &&& automaton1(g, sfirst(g), states_view1(self.states@), self.transitions@)
        &&& tables_spec("LR(1)"@, g, aug_start(), self.transitions@, lr1_descs(states_view1(self.states@)))
            == Ok::<(ActMap, GotoMap), Seq<char>>((self.action_table@, self.goto_table@))
    }

    /// Augments the grammar, computes FIRST, builds the canonical collection
    /// of LR(1) item sets (state 0 is the closure of `[S' → ·S, $]`) and the
    /// tables, where a complete item reduces on its lookahead; fails on a
    /// conflict in the tables.
    pub fn new(grammar: Grammar) -> (r: Result<Self, String>)
        ensures
            match r {
                Ok(p) => p.built_from(grammar@),
                Err(e) => lr1_refused(grammar@, e@),
            },
    {
        let augmented_grammar = augmented(&grammar);
        let production_list = copy_productions(&augmented_grammar.productions);
        let first = sfirst_pairs(&augmented_grammar.productions);
        let (states, transitions) = canonical1(&augmented_grammar.productions, &first);
        let descs = lookahead_descs(&states);
        let aug = Symbol::NonTerminal(String::from_str("S'"));
        match build_tables::<LR1Action>("LR(1)", &augmented_grammar.productions, &aug, &transitions, &descs) {
            Ok((action_table, goto_table)) => Ok(LR1Parser {
                augmented_grammar,
                states,
                transitions,
                action_table,
                goto_table,
                production_list,
            }),
            Err(e) => Err(e),
        }
    }

    /// The LR(1) closure of a set of items: for `[A → α · B β, a]`, adds
    /// `[B → ·γ, b]` for each `b` in FIRST(β a).
    pub fn closure(&self, items: &Vec<LR1Item>) -> (r: Vec<LR1Item>)
        ensures
            is_closure1(prods_view(self.augmented_grammar.productions@), sfirst(prods_view(self.augmented_grammar.productions@)),
                item_set1(views(items@)), views(r@)),
    {
        let first = sfirst_pairs(&self.augmented_grammar.productions);
        closure1(&self.augmented_grammar.productions, &first, items)
    }

    /// goto(I, X) for LR(1) items.
    pub fn goto(&self, items: &Vec<LR1Item>, symbol: &Symbol) -> (r: Vec<LR1Item>)
        ensures
            is_goto1(prods_view(self.augmented_grammar.productions@), sfirst(prods_view(self.augmented_grammar.productions@)),
                views(items@), symbol@, views(r@)),
    {
        let first = sfirst_pairs(&self.augmented_grammar.productions);
        goto1(&self.augmented_grammar.productions, &first, items, symbol)
    }

    /// The terminals of the grammar in increasing order, then `$`.
    pub fn get_all_terminals(&self) -> (r: Vec<String>)
        ensures
            terminal_list(prods_view(self.augmented_grammar.productions@), strs_view(r@)),
    {
        all_terminals(&self.augmented_grammar.productions)
    }

    /// The non-terminals of the grammar (but `S'`) in increasing order.
    pub fn get_all_non_terminals(&self) -> (r: Vec<String>)
        ensures
            nonterminal_list(prods_view(self.augmented_grammar.productions@), strs_view(r@)),
    {
        all_non_terminals(&self.augmented_grammar.productions)
    }

    /// Parses the tokens with the tables, one snapshot per step (see `lr_trace`).
    pub fn parse_input(&self, input: Vec<String>) -> (r: Result<Vec<LR0ParseSnapshot>, String>)
        requires
            self.wf(),
        ensures
            match r {
                Ok(v) => lr_snapshots_spec(self.action_table@, self.goto_table@, prods_view(self.production_list@), input@)
                    == Ok::<Seq<SpecLRSnapshot>, Seq<char>>(views(v@)),
                Err(e) => lr_snapshots_spec(self.action_table@, self.goto_table@, prods_view(self.production_list@), input@)
                    == Err::<Seq<SpecLRSnapshot>, Seq<char>>(e@),
            },
    {
        match lr_run(&self.action_table, &self.goto_table, &self.production_list, input) {
            Ok((v, _)) => Ok(v),
            Err(e) => Err(e),
        }
    }

    /// The parse of `parse_input`, which also builds the parse tree: a leaf
    /// for each shifted token, a node for each reduction (with an ϵ leaf
    /// for an ϵ-production), numbered in the order they are made.
    pub fn parse_input_with_tree(&self, input: Vec<String>) -> (r: Result<(Vec<LR0ParseSnapshot>, ParseTreeNode), String>)
        requires
            self.wf(),
        ensures
            match r {
                Ok((v, t)) => lr_parse_spec(self.action_table@, self.goto_table@, prods_view(self.production_list@), input@)
                    == Ok::<(Seq<SpecLRSnapshot>, crate::tree::SpecTree), Seq<char>>((views(v@), t@)),
                Err(e) => lr_parse_spec(self.action_table@, self.goto_table@, prods_view(self.production_list@), input@)
                    == Err::<(Seq<SpecLRSnapshot>, crate::tree::SpecTree), Seq<char>>(e@),
            },
    {
        lr_run(&self.action_table, &self.goto_table, &self.production_list, input)
    }
}

} // verus!
