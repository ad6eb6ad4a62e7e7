//! LR(0) items and actions, and the LR(0) parser: the canonical collection
//! of item sets, the ACTION and GOTO tables, and the table-driven parse.

use vstd::prelude::*;
use crate::collections::{Keyed, VecSet, VecMap, views};
use crate::ll1::lemma_seq_push_contains;
use crate::symbols::{Symbol, SpecSymbol, Production, SpecProduction, syms_view, prods_view, strs_view, sym_text, is_epsilon_rhs, copy_strings};
use crate::text::{concat, usize_text, join, join_push};
use crate::lr::{SpecAction, SpecDesc, ItemDesc, TableAction, ActMap, GotoMap, action_text, tables_spec, descs_view, build_tables, lr_run, lr_snapshots_spec};
use crate::symbols::{Grammar, SpecGrammar, LR0ParseSnapshot, SpecLRSnapshot};

use crate::names::{all_terminals, all_non_terminals, terminal_list, nonterminal_list};

verus! {

/// An LR(0) item: a production with a position (the dot) in its right side.
#[derive(Debug, Clone)]
pub struct LR0Item {
    pub production: Production,
    pub dot_position: usize,
}

pub struct SpecItem {
    pub prod: SpecProduction,
    pub dot: usize,
}

impl View for LR0Item {
    type V = SpecItem;

    open spec fn view(&self) -> SpecItem {
        SpecItem { prod: self.production@, dot: self.dot_position }
    }
}

/// The symbol after the dot; an ϵ-production has none.
pub open spec fn next_sym(prod: SpecProduction, dot: usize) -> Option<SpecSymbol> {
    if is_epsilon_rhs(prod.right) {
        None
    } else if dot < prod.right.len() {
        Some(prod.right[dot as int])
    } else {
        None
    }
}

/// Whether the dot is at the end (an ϵ-production is always complete).
pub open spec fn complete(prod: SpecProduction, dot: usize) -> bool {
    is_epsilon_rhs(prod.right) || dot >= prod.right.len()
}

/// The parts shown for the symbols before position `n`: `·` before the
/// symbol at the dot, then each symbol's text.
pub open spec fn dotted_parts(rhs: Seq<SpecSymbol>, dot: usize, n: int) -> Seq<Seq<char>>
    decreases n,
{
    if n <= 0 {
        Seq::empty()
    } else {
        let front = dotted_parts(rhs, dot, n - 1);
        let with_dot = if n - 1 == dot { front.push("·"@) } else { front };
        with_dot.push(sym_text(rhs[n - 1]))
    }
}

/// The right side of an item as shown: `α · β`.
pub open spec fn dotted_rhs(rhs: Seq<SpecSymbol>, dot: usize) -> Seq<char> {
    let parts = dotted_parts(rhs, dot, rhs.len() as int);
    join(if dot >= rhs.len() { parts.push("·"@) } else { parts }, " "@)
}

/// An item as shown: `A → α · β` (`A → ·` for an ϵ-production).
pub open spec fn item_text(prod: SpecProduction, dot: usize) -> Seq<char> {
    if is_epsilon_rhs(prod.right) {
        sym_text(prod.left) + " → ·"@
    } else {
        sym_text(prod.left) + " → "@ + dotted_rhs(prod.right, dot)
    }
}

/// The texts of the symbols of a right side.
pub open spec fn texts(rhs: Seq<SpecSymbol>) -> Seq<Seq<char>> {
    rhs.map_values(|s: SpecSymbol| sym_text(s))
}

/// A production as shown: `A → X Y Z`.
pub open spec fn production_text(p: SpecProduction) -> Seq<char> {
    sym_text(p.left) + " → "@ + join(texts(p.right), " "@)
}

/// The right side of an item, shown with its dot.
pub fn dotted_rhs_text(rhs: &Vec<Symbol>, dot: usize) -> (r: String)
    ensures
        r@ == dotted_rhs(syms_view(rhs@), dot),
{
    let ghost rv = syms_view(rhs@);
    let mut r = String::new();
    let mut first = true;
    let mut i: usize = 0;
    assert(r@ =~= join(Seq::<Seq<char>>::empty(), " "@));
    while i < rhs.len()
        invariant
            rv == syms_view(rhs@),
            i <= rhs@.len(),
            r@ == join(dotted_parts(rv, dot, i as int), " "@),
            first == (dotted_parts(rv, dot, i as int).len() == 0),
        decreases rhs.len() - i,
    {
        let ghost parts = dotted_parts(rv, dot, i as int);
        if i == dot {
            join_push(&mut r, "·", first, Ghost(parts));
            first = false;
            let t = rhs[i].to_text();
            join_push(&mut r, t.as_str(), first, Ghost(parts.push("·"@)));
        } else {
            let t = rhs[i].to_text();
            join_push(&mut r, t.as_str(), first, Ghost(parts));
        }
        first = false;
        i += 1;
    }
    if dot >= rhs.len() {
        join_push(&mut r, "·", first, Ghost(dotted_parts(rv, dot, rhs@.len() as int)));
    }
    r
}

/// The symbols of a right side, shown separated by spaces.
pub fn joined_texts(rhs: &Vec<Symbol>) -> (r: String)
    ensures
        r@ == join(texts(syms_view(rhs@)), " "@),
{
    let ghost tv = texts(syms_view(rhs@));
    let mut r = String::new();
    let mut i: usize = 0;
    assert(tv.take(0) =~= Seq::<Seq<char>>::empty());
    while i < rhs.len()
        invariant
            tv == texts(syms_view(rhs@)),
            tv.len() == rhs@.len(),
            i <= rhs@.len(),
            r@ == join(tv.take(i as int), " "@),
        decreases rhs.len() - i,
    {
        let t = rhs[i].to_text();
        join_push(&mut r, t.as_str(), i == 0, Ghost(tv.take(i as int)));
        assert(tv.take(i as int).push(t@) =~= tv.take(i + 1));
        i += 1;
    }
    assert(tv.take(rhs@.len() as int) =~= tv);
    r
}

/// Shows a production: `A → X Y Z`.
pub fn format_production(prod: &Production) -> (r: String)
    ensures
        r@ == production_text(prod@),
{
    let left = prod.left.to_text();
    let mut r = concat(left.as_str(), " → ");
    let right = joined_texts(&prod.right);
    r.append(right.as_str());
    r
}

impl LR0Item {
    pub fn new(production: Production, dot_position: usize) -> (r: Self)
        ensures
            r.production == production,
            r.dot_position == dot_position,
    {
        LR0Item { production, dot_position }
    }

    /// The symbol right after the dot, or `None` when the item is complete.
    pub fn next_symbol(&self) -> (r: Option<&Symbol>)
        ensures
            match r {
                Some(s) => next_sym(self@.prod, self.dot_position) == Some(s@),
                None => next_sym(self@.prod, self.dot_position) is None,
            },
    {
        if self.production.is_epsilon_production() {
            return None;
        }
        if self.dot_position < self.production.right.len() {
            Some(&self.production.right[self.dot_position])
        } else {
            None
        }
    }

    /// Whether the dot is at the end (ready to reduce).
    pub fn is_complete(&self) -> (r: bool)
        ensures
            r == complete(self@.prod, self.dot_position),
    {
        if self.production.is_epsilon_production() {
            return true;
        }
        self.dot_position >= self.production.right.len()
    }

    /// The item as text: `A → α · β`.
    pub fn to_display_string(&self) -> (r: String)
        ensures
            r@ == item_text(self@.prod, self.dot_position),
    {
        let left = self.production.left.to_text();
        if self.production.is_epsilon_production() {
            return concat(left.as_str(), " → ·");
        }
        let mut r = concat(left.as_str(), " → ");
        let rest = dotted_rhs_text(&self.production.right, self.dot_position);
        r.append(rest.as_str());
        r
    }

    pub fn copy(&self) -> (r: Self)
        ensures
            r@ == self@,
    {
        LR0Item { production: self.production.copy(), dot_position: self.dot_position }
    }
}

impl Keyed for LR0Item {
    fn same_key(&self, other: &Self) -> (r: bool) {
        self.dot_position == other.dot_position && self.production.same(&other.production)
    }

    fn copy_key(&self) -> (r: Self) {
        self.copy()
    }
}

/// An entry of the ACTION table.
#[derive(Debug, Clone)]
pub enum LR0Action {
    Shift(usize),
    /// The production's index and its text.
    Reduce(usize, String),
    Accept,
}

impl View for LR0Action {
    type V = SpecAction;

    open spec fn view(&self) -> SpecAction {
        match self {
            LR0Action::Shift(s) => SpecAction::Shift(*s),
            LR0Action::Reduce(i, t) => SpecAction::Reduce(*i, t@),
            LR0Action::Accept => SpecAction::Accept,
        }
    }
}

impl LR0Action {
    /// The compact text of the action: `s3`, `r2` or `acc`.
    pub fn to_display_string(&self) -> (r: String)
        ensures
            r@ == action_text(self@),
    {
        match self {
            LR0Action::Shift(s) => {
                let n = usize_text(*s);
                concat("s", n.as_str())
            },
            LR0Action::Reduce(i, _) => {
                let n = usize_text(*i);
                concat("r", n.as_str())
            },
            LR0Action::Accept => String::from_str("acc"),
        }
    }
}

impl TableAction for LR0Action {
    fn shift(target: usize) -> (r: Self) {
        LR0Action::Shift(target)
    }

    fn reduce(index: usize, text: String) -> (r: Self) {
        LR0Action::Reduce(index, text)
    }

    fn accept() -> (r: Self) {
        LR0Action::Accept
    }

    fn as_lr0(&self) -> (r: LR0Action) {
        match self {
            LR0Action::Shift(s) => LR0Action::Shift(*s),
            LR0Action::Reduce(i, t) => LR0Action::Reduce(*i, t.clone()),
            LR0Action::Accept => LR0Action::Accept,
        }
    }
}

/// The item `p → ·γ` for the production `p`.
pub open spec fn start_item(p: SpecProduction) -> SpecItem {
    SpecItem { prod: p, dot: 0 }
}

/// Whether the item `g[k] → ·γ` is added by the closure for the item `it`.
pub open spec fn expands(g: Seq<SpecProduction>, it: SpecItem, k: int) -> bool {
    0 <= k < g.len() && g[k].left is NonTerminal && next_sym(it.prod, it.dot) == Some(g[k].left)
}

/// A set of items closed under the closure rule.
pub open spec fn closed_set(g: Seq<SpecProduction>, s: Set<SpecItem>) -> bool {
    forall|it: SpecItem, k: int| #![trigger s.contains(it), expands(g, it, k)]
        s.contains(it) && expands(g, it, k) ==> s.contains(start_item(g[k]))
}

/// A sequence of items closed under the closure rule.
pub open spec fn closed_seq(g: Seq<SpecProduction>, q: Seq<SpecItem>) -> bool {
    forall|j: int, k: int| #![trigger q[j], expands(g, q[j], k)]
        0 <= j < q.len() && expands(g, q[j], k) ==> q.contains(start_item(g[k]))
}

pub open spec fn all_in(q: Seq<SpecItem>, s: Set<SpecItem>) -> bool {
    forall|j: int| 0 <= j < q.len() ==> s.contains(#[trigger] q[j])
}

/// `out` (without repetitions) is the closure of the items `input` under
/// the productions `g`: the least closed set that holds them.
pub open spec fn is_closure0(g: Seq<SpecProduction>, input: Set<SpecItem>, out: Seq<SpecItem>) -> bool {
    &&& out.no_duplicates()
    &&& forall|x: SpecItem| input.contains(x) ==> out.contains(x)
    &&& closed_seq(g, out)
    &&& forall|s: Set<SpecItem>| #[trigger] closed_set(g, s) && input.subset_of(s) ==> all_in(out, s)
}

/// The items of a sequence, as a set.
pub open spec fn item_set(q: Seq<SpecItem>) -> Set<SpecItem> {
    Set::new(|x: SpecItem| q.contains(x))
}

/// The closure of a set of LR(0) items under the productions `prods`.
pub fn closure0(prods: &Vec<Production>, items: &Vec<LR0Item>) -> (r: Vec<LR0Item>)
    ensures
        is_closure0(prods_view(prods@), item_set(views(items@)), views(r@)),
{
    let ghost g = prods_view(prods@);
    let ghost input = item_set(views(items@));
    let mut out: VecSet<LR0Item> = VecSet::new();
    let mut i: usize = 0;
    while i < items.len()
        invariant
            out.wf(),
            i <= items@.len(),
            input == item_set(views(items@)),
            forall|j: int| 0 <= j < i ==> out@.contains(#[trigger] items@[j]@),
            forall|j: int| 0 <= j < out@.len() ==> input.contains(#[trigger] out@[j]),
        decreases items.len() - i,
    {
        let ghost before = out@;
        let ghost x = items@[i as int]@;
        assert(views(items@)[i as int] == x);
        out.insert(items[i].copy());
        proof {
            assert forall|j: int| 0 <= j <= i implies out@.contains(#[trigger] items@[j]@) by {
                lemma_seq_push_contains(before, x, items@[j]@);
            }
            assert forall|j: int| 0 <= j < out@.len() implies input.contains(#[trigger] out@[j]) by {
                if j < before.len() {
                    assert(out@[j] == before[j]);
                }
            }
        }
        i += 1;
    }
    assert forall|x: SpecItem| input.contains(x) implies out@.contains(x) by {
        let j = choose|j: int| 0 <= j < views(items@).len() && views(items@)[j] == x;
        assert(items@[j]@ == x);
    }
    assert forall|s: Set<SpecItem>| #[trigger] closed_set(g, s) && input.subset_of(s) implies all_in(out@, s) by {
        assert forall|j: int| 0 <= j < out@.len() implies s.contains(#[trigger] out@[j]) by {
            assert(input.contains(out@[j]));
        }
    }
    let mut k: usize = 0;
    while k < out.len()
        invariant
            out.wf(),
            g == prods_view(prods@),
            k <= out@.len(),
            forall|x: SpecItem| input.contains(x) ==> out@.contains(x),
            forall|s: Set<SpecItem>| #[trigger] closed_set(g, s) && input.subset_of(s) ==> all_in(out@, s),
            forall|j: int, m: int| #![trigger out@[j], expands(g, out@[j], m)]
                0 <= j < k && expands(g, out@[j], m) ==> out@.contains(start_item(g[m])),
        decreases usize::MAX - k,
    {
        let it = out.items[k].copy();
        assert(out@[k as int] == it@);
        match it.next_symbol() {
            Some(sym) => {
                if sym.is_nonterminal() {
                    let mut m: usize = 0;
                    while m < prods.len()
                        invariant
                            out.wf(),
                            g == prods_view(prods@),
                            k < out@.len(),
                            out@[k as int] == it@,
                            next_sym(it@.prod, it@.dot) == Some(sym@),
                            sym@ is NonTerminal,
                            m <= prods@.len(),
                            forall|x: SpecItem| input.contains(x) ==> out@.contains(x),
                            forall|s: Set<SpecItem>| #[trigger] closed_set(g, s) && input.subset_of(s) ==> all_in(out@, s),
                            forall|j: int, m2: int| #![trigger out@[j], expands(g, out@[j], m2)]
                                0 <= j < k && expands(g, out@[j], m2) ==> out@.contains(start_item(g[m2])),
                            forall|m2: int| 0 <= m2 < m && #[trigger] expands(g, it@, m2) ==> out@.contains(start_item(g[m2])),
                        decreases prods.len() - m,
                    {
                        if prods[m].left.same(sym) {
                            let ghost before = out@;
                            let ghost y = start_item(g[m as int]);
                            let fresh = LR0Item::new(prods[m].copy(), 0);
                            assert(fresh@ == y);
                            out.insert(fresh);
                            proof {
                                assert forall|z: SpecItem| before.contains(z) implies out@.contains(z) by {
                                    lemma_seq_push_contains(before, y, z);
                                }
                                lemma_seq_push_contains(before, y, y);
                                assert forall|s: Set<SpecItem>| #[trigger] closed_set(g, s) && input.subset_of(s) implies all_in(out@, s) by {
                                    assert(all_in(before, s));
                                    assert(s.contains(before[k as int]));
                                    assert(expands(g, it@, m as int));
                                    assert(s.contains(y));
                                    assert forall|j: int| 0 <= j < out@.len() implies s.contains(#[trigger] out@[j]) by {
                                        if j < before.len() {
                                            assert(out@[j] == before[j]);
                                        }
                                    }
                                }
                                assert forall|j: int, m2: int| #![trigger out@[j], expands(g, out@[j], m2)]
                                    0 <= j < k && expands(g, out@[j], m2) implies out@.contains(start_item(g[m2])) by {
                                    assert(out@[j] == before[j]);
                                    assert(before.contains(start_item(g[m2])));
                                }
                                assert forall|m2: int| 0 <= m2 < m + 1 && #[trigger] expands(g, it@, m2) implies out@.contains(start_item(g[m2])) by {
                                    if m2 < m {
                                        assert(before.contains(start_item(g[m2])));
                                    }
                                }
                            }
                        }
                        m += 1;
                    }
                } else {
                    assert forall|m2: int| #[trigger] expands(g, it@, m2) implies out@.contains(start_item(g[m2])) by {}
                }
            },
            None => {},
        }
        assert forall|j: int, m2: int| #![trigger out@[j], expands(g, out@[j], m2)]
            0 <= j < k + 1 && expands(g, out@[j], m2) implies out@.contains(start_item(g[m2])) by {
            if j == k {
                assert(out@[j] == it@);
            }
        }
        k += 1;
    }
    assert(closed_seq(g, out@));
    out.items
}

/// The item with its dot moved one symbol right.
pub open spec fn advanced(it: SpecItem) -> SpecItem {
    SpecItem { prod: it.prod, dot: (it.dot + 1) as usize }
}

/// The kernel of goto(I, X): the items of `I` with `X` after the dot, with
/// the dot moved past it.
pub open spec fn kernel0(items: Seq<SpecItem>, x: SpecSymbol) -> Set<SpecItem> {
    Set::new(|y: SpecItem| exists|j: int| #![trigger items[j]]
        0 <= j < items.len() && next_sym(items[j].prod, items[j].dot) == Some(x)
            && y == advanced(items[j]))
}

/// Whether `X` is the symbol after the dot of some item.
pub open spec fn after_dot(items: Seq<SpecItem>, x: SpecSymbol) -> bool {
    exists|j: int| 0 <= j < items.len() && next_sym(items[j].prod, items[j].dot) == Some(x)
}

/// `out` is goto(I, X): the closure of the kernel, or nothing when the kernel
/// is empty.
pub open spec fn is_goto0(g: Seq<SpecProduction>, items: Seq<SpecItem>, x: SpecSymbol, out: Seq<SpecItem>) -> bool {
    if after_dot(items, x) {
        is_closure0(g, kernel0(items, x), out)
    } else {
        out.len() == 0
    }
}

/// goto(I, X) for LR(0) items.
pub fn goto0(prods: &Vec<Production>, items: &Vec<LR0Item>, sym: &Symbol) -> (r: Vec<LR0Item>)
    ensures
        is_goto0(prods_view(prods@), views(items@), sym@, views(r@)),
{
    let ghost iv = views(items@);
    let ghost ker = kernel0(iv, sym@);
    let mut moved: Vec<LR0Item> = Vec::new();
    let mut i: usize = 0;
    while i < items.len()
        invariant
            iv == views(items@),
            ker == kernel0(iv, sym@),
            i <= items@.len(),
            forall|y: SpecItem| item_set(views(moved@)).contains(y) <==> (exists|j: int| #![trigger iv[j]]
                0 <= j < i && next_sym(iv[j].prod, iv[j].dot) == Some(sym@)
                    && y == advanced(iv[j])),
            (moved@.len() == 0) <==> !(exists|j: int| 0 <= j < i && next_sym(iv[j].prod, iv[j].dot) == Some(sym@)),
        decreases items.len() - i,
    {
        let ghost before = views(moved@);
        assert(iv[i as int] == items@[i as int]@);
        match items[i].next_symbol() {
            Some(n) => {
                if n.same(sym) {
                    assert(items[i as int].dot_position < items[i as int].production.right@.len());
                    assert(items[i as int].production.right@.len() == items[i as int].production.right.len());
                    let d = items[i].dot_position + 1;
                    let y = LR0Item::new(items[i].production.copy(), d);
                    let ghost yv = y@;
                    moved.push(y);
                    assert(views(moved@) =~= before.push(yv));
                    proof {
                        assert forall|z: SpecItem| item_set(views(moved@)).contains(z) <==> (exists|j: int| #![trigger iv[j]]
                            0 <= j < i + 1 && next_sym(iv[j].prod, iv[j].dot) == Some(sym@)
                                && z == advanced(iv[j])) by {
                            lemma_seq_push_contains(before, yv, z);
                            assert(item_set(before).contains(z) == before.contains(z));
                            if z == yv {
                                assert(next_sym(iv[i as int].prod, iv[i as int].dot) == Some(sym@) && z == advanced(iv[i as int]));
                            }
                            if exists|j: int| #![trigger iv[j]] 0 <= j < i + 1 && next_sym(iv[j].prod, iv[j].dot) == Some(sym@)
                                && z == advanced(iv[j]) {
                                let j = choose|j: int| #![trigger iv[j]] 0 <= j < i + 1 && next_sym(iv[j].prod, iv[j].dot) == Some(sym@)
                                    && z == advanced(iv[j]);
                                if j < i {
                                    assert(item_set(before).contains(z));
                                }
                            }
                        }
                    }
                } else {
                    assert forall|z: SpecItem| item_set(views(moved@)).contains(z) <==> (exists|j: int| #![trigger iv[j]]
                        0 <= j < i + 1 && next_sym(iv[j].prod, iv[j].dot) == Some(sym@)
                            && z == advanced(iv[j])) by {
                        if exists|j: int| #![trigger iv[j]] 0 <= j < i + 1 && next_sym(iv[j].prod, iv[j].dot) == Some(sym@)
                            && z == advanced(iv[j]) {
                            let j = choose|j: int| #![trigger iv[j]] 0 <= j < i + 1 && next_sym(iv[j].prod, iv[j].dot) == Some(sym@)
                                && z == advanced(iv[j]);
                            assert(j < i);
                        }
                    }
                }
            },
            None => {
                assert forall|z: SpecItem| item_set(views(moved@)).contains(z) <==> (exists|j: int| #![trigger iv[j]]
                    0 <= j < i + 1 && next_sym(iv[j].prod, iv[j].dot) == Some(sym@)
                        && z == advanced(iv[j])) by {
                    if exists|j: int| #![trigger iv[j]] 0 <= j < i + 1 && next_sym(iv[j].prod, iv[j].dot) == Some(sym@)
                        && z == advanced(iv[j]) {
                        let j = choose|j: int| #![trigger iv[j]] 0 <= j < i + 1 && next_sym(iv[j].prod, iv[j].dot) == Some(sym@)
                            && z == advanced(iv[j]);
                        assert(j < i);
                    }
                }
            },
        }
        i += 1;
    }
    assert(item_set(views(moved@)) =~= ker);
    if moved.len() == 0 {
        assert(views(moved@).len() == 0);
        return moved;
    }
    closure0(prods, &moved)
}

/// Whether the item `x` is in `v`.
pub fn contains_item(v: &Vec<LR0Item>, x: &LR0Item) -> (r: bool)
    ensures
        r == views(v@).contains(x@),
{
    let mut i: usize = 0;
    while i < v.len()
        invariant
            i <= v@.len(),
            forall|j: int| 0 <= j < i ==> v@[j]@ != x@,
        decreases v.len() - i,
    {
        if v[i].same_key(x) {
            assert(views(v@)[i as int] == x@);
            return true;
        }
        i += 1;
    }
    assert(!views(v@).contains(x@)) by {
        if views(v@).contains(x@) {
            let j = choose|j: int| 0 <= j < views(v@).len() && views(v@)[j] == x@;
            assert(v@[j]@ == x@);
        }
    }
    false
}

/// Whether `a` and `b` hold the same items.
pub fn same_items(a: &Vec<LR0Item>, b: &Vec<LR0Item>) -> (r: bool)
    ensures
        r == (item_set(views(a@)) == item_set(views(b@))),
{
    let mut i: usize = 0;
    while i < a.len()
        invariant
            i <= a@.len(),
            forall|j: int| 0 <= j < i ==> views(b@).contains(#[trigger] views(a@)[j]),
        decreases a.len() - i,
    {
        if !contains_item(b, &a[i]) {
            assert(views(a@)[i as int] == a@[i as int]@);
            assert(views(a@).contains(a@[i as int]@));
            assert(item_set(views(a@)).contains(a@[i as int]@));
            assert(!item_set(views(b@)).contains(a@[i as int]@));
            return false;
        }
        i += 1;
    }
    let mut k: usize = 0;
    while k < b.len()
        invariant
            k <= b@.len(),
            forall|j: int| 0 <= j < a@.len() ==> views(b@).contains(#[trigger] views(a@)[j]),
            forall|j: int| 0 <= j < k ==> views(a@).contains(#[trigger] views(b@)[j]),
        decreases b.len() - k,
    {
        if !contains_item(a, &b[k]) {
            assert(views(b@)[k as int] == b@[k as int]@);
            assert(views(b@).contains(b@[k as int]@));
            assert(item_set(views(b@)).contains(b@[k as int]@));
            assert(!item_set(views(a@)).contains(b@[k as int]@));
            return false;
        }
        k += 1;
    }
    assert(item_set(views(a@)) =~= item_set(views(b@))) by {
        assert forall|x: SpecItem| item_set(views(a@)).contains(x) implies item_set(views(b@)).contains(x) by {
            let j = choose|j: int| 0 <= j < views(a@).len() && views(a@)[j] == x;
        }
        assert forall|x: SpecItem| item_set(views(b@)).contains(x) implies item_set(views(a@)).contains(x) by {
            let j = choose|j: int| 0 <= j < views(b@).len() && views(b@)[j] == x;
        }
    }
    true
}

/// The models of the item sets.
pub open spec fn states_view(st: Seq<Vec<LR0Item>>) -> Seq<Seq<SpecItem>> {
    st.map_values(|v: Vec<LR0Item>| views(v@))
}

/// The index of a state holding the same items as `set`.
pub fn find_state(states: &Vec<Vec<LR0Item>>, set: &Vec<LR0Item>) -> (r: Option<usize>)
    ensures
        match r {
            Some(j) => j < states@.len() && item_set(states_view(states@)[j as int]) == item_set(views(set@)),
            None => forall|j: int| 0 <= j < states@.len() ==> item_set(#[trigger] states_view(states@)[j]) != item_set(views(set@)),
        },
{
    let mut j: usize = 0;
    while j < states.len()
        invariant
            j <= states@.len(),
            forall|k: int| 0 <= k < j ==> item_set(#[trigger] states_view(states@)[k]) != item_set(views(set@)),
        decreases states.len() - j,
    {
        if same_items(&states[j], set) {
            return Some(j);
        }
        j += 1;
    }
    None
}

/// The distinct symbols (by text) found after the dot in `items`.
pub fn symbols_after_dot(items: &Vec<LR0Item>) -> (r: Vec<Symbol>)
    ensures
        forall|a: int, b: int| 0 <= a < b < r@.len() ==> sym_text(#[trigger] r@[a]@) != sym_text(#[trigger] r@[b]@),
        forall|q: int| 0 <= q < r@.len() ==> after_dot(views(items@), #[trigger] r@[q]@),
        forall|j: int| 0 <= j < items@.len() && (#[trigger] next_sym(items@[j]@.prod, items@[j]@.dot)) is Some
            ==> exists|q: int| 0 <= q < r@.len() && sym_text(#[trigger] r@[q]@) == sym_text(next_sym(items@[j]@.prod, items@[j]@.dot)->0),
{
    let ghost iv = views(items@);
    let mut r: Vec<Symbol> = Vec::new();
    let mut seen: VecSet<String> = VecSet::new();
    let mut i: usize = 0;
    while i < items.len()
        invariant
            iv == views(items@),
            seen.wf(),
            i <= items@.len(),
            seen@.len() == r@.len(),
            forall|q: int| 0 <= q < r@.len() ==> seen@[q] == sym_text(#[trigger] r@[q]@),
            forall|q: int| 0 <= q < r@.len() ==> after_dot(iv, #[trigger] r@[q]@),
            forall|j: int| 0 <= j < i && (#[trigger] next_sym(items@[j]@.prod, items@[j]@.dot)) is Some
                ==> exists|q: int| 0 <= q < r@.len() && sym_text(#[trigger] r@[q]@) == sym_text(next_sym(items@[j]@.prod, items@[j]@.dot)->0),
        decreases items.len() - i,
    {
        assert(iv[i as int] == items@[i as int]@);
        match items[i].next_symbol() {
            Some(n) => {
                let key = n.to_text();
                if !seen.contains(&key) {
                    let ghost before = r@;
                    seen.insert(key);
                    r.push(n.copy());
                    assert(r@[r@.len() - 1] == n);
                    assert forall|j: int| 0 <= j < i + 1 && (#[trigger] next_sym(items@[j]@.prod, items@[j]@.dot)) is Some
                        implies exists|q: int| 0 <= q < r@.len() && sym_text(#[trigger] r@[q]@) == sym_text(next_sym(items@[j]@.prod, items@[j]@.dot)->0) by {
                        let x = next_sym(items@[j]@.prod, items@[j]@.dot)->0;
                        if j < i {
                            let q = choose|q: int| 0 <= q < before.len() && sym_text(#[trigger] before[q]@) == sym_text(x);
                            assert(r@[q] == before[q]);
                        } else {
                            assert(r@[before.len() as int]@ == x);
                        }
                    }
                    assert forall|q: int| 0 <= q < r@.len() implies after_dot(iv, #[trigger] r@[q]@) by {
                        if q < before.len() {
                            assert(r@[q] == before[q]);
                        } else {
                            assert(next_sym(iv[i as int].prod, iv[i as int].dot) == Some(r@[q]@));
                        }
                    }
                } else {
                    proof {
                        let q0 = choose|q: int| 0 <= q < seen@.len() && seen@[q] == key@;
                        assert(sym_text(r@[q0]@) == sym_text(n@));
                    }
                }
            },
            None => {},
        }
        i += 1;
    }
    assert forall|a: int, b: int| 0 <= a < b < r@.len() implies sym_text(#[trigger] r@[a]@) != sym_text(#[trigger] r@[b]@) by {
        assert(seen@[a] != seen@[b]);
    }
    r
}

/// State `j` is entered by a transition from an earlier state.
pub open spec fn entered(tr: Map<(usize, Seq<char>), usize>, j: int) -> bool {
    exists|k: (usize, Seq<char>)| #[trigger] tr.contains_key(k) && k.0 < j && tr[k] == j
}

/// The state `dst` is goto(`src`, X) for a symbol X shown as `name` that
/// appears after a dot in `src`.
pub open spec fn goto_target0(g: Seq<SpecProduction>, src: Seq<SpecItem>, name: Seq<char>, dst: Seq<SpecItem>) -> bool {
    exists|x: SpecSymbol| #[trigger] after_dot(src, x) && sym_text(x) == name && is_goto0(g, src, x, dst)
}

/// Closing a closure again adds nothing: the closure of the items of a
/// closure holds the same items.
pub proof fn closure_is_idempotent(g: Seq<SpecProduction>, input: Set<SpecItem>, a: Seq<SpecItem>, b: Seq<SpecItem>)
    requires
        is_closure0(g, input, a),
        is_closure0(g, item_set(a), b),
    ensures
        item_set(b) == item_set(a),
{
    let sa = item_set(a);
    assert forall|it: SpecItem, k: int| #![trigger sa.contains(it), expands(g, it, k)]
        sa.contains(it) && expands(g, it, k) implies sa.contains(start_item(g[k])) by {
        let j = choose|j: int| 0 <= j < a.len() && a[j] == it;
        assert(expands(g, a[j], k));
    }
    assert(closed_set(g, sa));
    assert(sa.subset_of(sa));
    assert(all_in(b, sa));
    assert forall|x: SpecItem| item_set(b).contains(x) <==> sa.contains(x) by {
        if item_set(b).contains(x) {
            let j = choose|j: int| 0 <= j < b.len() && b[j] == x;
        }
        if sa.contains(x) {
            assert(b.contains(x));
        }
    }
    assert(item_set(b) =~= sa);
}

/// The canonical collection of LR(0) item sets of the augmented grammar
/// `g` (whose first production is `S' → S`) and its transitions, keyed by
/// state and symbol text: state 0 is the closure of `S' → ·S`; every
/// transition leads to the goto of its state on its symbol; every symbol
/// after a dot has its transition; the states are distinct and each but
/// state 0 is entered by a transition from an earlier state.
pub open spec fn automaton0(g: Seq<SpecProduction>, st: Seq<Seq<SpecItem>>, tr: Map<(usize, Seq<char>), usize>) -> bool {
    &&& st.len() >= 1
    &&& is_closure0(g, set![start_item(g[0])], st[0])
    &&& forall|i: int| 0 <= i < st.len() ==> (#[trigger] st[i]).no_duplicates()
    &&& forall|i: int, j: int| 0 <= i < j < st.len() ==> item_set(#[trigger] st[i]) != item_set(#[trigger] st[j])
    &&& forall|k: (usize, Seq<char>)| #[trigger] tr.contains_key(k) ==> k.0 < st.len() && tr[k] < st.len()
        && goto_target0(g, st[k.0 as int], k.1, st[tr[k] as int])
    &&& forall|i: int, j: int| 0 <= i < st.len() && 0 <= j < st[i].len() && (#[trigger] st[i][j]).prod == st[i][j].prod
        && next_sym(st[i][j].prod, st[i][j].dot) is Some
        ==> tr.contains_key((i as usize, sym_text(next_sym(st[i][j].prod, st[i][j].dot)->0)))
    &&& forall|j: int| 0 < j < st.len() ==> #[trigger] entered(tr, j)
}

pub proof fn lemma_closure_same_set(g: Seq<SpecProduction>, input: Set<SpecItem>, a: Seq<SpecItem>, b: Seq<SpecItem>)
    requires
        is_closure0(g, input, a),
        b.no_duplicates(),
        item_set(a) == item_set(b),
    ensures
        is_closure0(g, input, b),
{
    assert forall|x: SpecItem| a.contains(x) <==> b.contains(x) by {
        assert(item_set(a).contains(x) == a.contains(x));
        assert(item_set(b).contains(x) == b.contains(x));
    }
    assert forall|j: int, k: int| #![trigger b[j], expands(g, b[j], k)]
        0 <= j < b.len() && expands(g, b[j], k) implies b.contains(start_item(g[k])) by {
        assert(b.contains(b[j]));
        let ja = choose|ja: int| 0 <= ja < a.len() && a[ja] == b[j];
        assert(expands(g, a[ja], k));
    }
    assert forall|s: Set<SpecItem>| #[trigger] closed_set(g, s) && input.subset_of(s) implies all_in(b, s) by {
        assert(all_in(a, s));
        assert forall|j: int| 0 <= j < b.len() implies s.contains(#[trigger] b[j]) by {
            assert(b.contains(b[j]));
            let ja = choose|ja: int| 0 <= ja < a.len() && a[ja] == b[j];
        }
    }
}

/// The canonical collection of LR(0) item sets of the augmented grammar
/// `prods` and its transitions.
pub fn canonical0(prods: &Vec<Production>) -> (r: (Vec<Vec<LR0Item>>, VecMap<(usize, String), usize>))
    requires
        prods@.len() >= 1,
    ensures
        r.1.wf(),
        automaton0(prods_view(prods@), states_view(r.0@), r.1@),
{
    let ghost g = prods_view(prods@);
    let mut init: Vec<LR0Item> = Vec::new();
    init.push(LR0Item::new(prods[0].copy(), 0));
    assert(item_set(views(init@)) =~= set![start_item(g[0])]) by {
        assert(views(init@) =~= seq![start_item(g[0])]);
        assert forall|x: SpecItem| item_set(views(init@)).contains(x) <==> set![start_item(g[0])].contains(x) by {
            if x == start_item(g[0]) {
                assert(views(init@)[0] == x);
            }
        }
    }
    let i0 = closure0(prods, &init);
    let mut states: Vec<Vec<LR0Item>> = Vec::new();
    states.push(i0);
    let mut trans: VecMap<(usize, String), usize> = VecMap::new();
    let mut i: usize = 0;
    assert(states_view(states@) =~= seq![views(i0@)]);
    while i < states.len()
        invariant
            g == prods_view(prods@),
            prods@.len() >= 1,
            trans.wf(),
            i <= states@.len(),
            states@.len() >= 1,
            is_closure0(g, set![start_item(g[0])], states_view(states@)[0]),
            forall|a: int| 0 <= a < states@.len() ==> (#[trigger] states_view(states@)[a]).no_duplicates(),
            forall|a: int, b: int| 0 <= a < b < states@.len() ==> item_set(#[trigger] states_view(states@)[a]) != item_set(#[trigger] states_view(states@)[b]),
            forall|k: (usize, Seq<char>)| #[trigger] trans@.contains_key(k) ==> k.0 < i && trans@[k] < states@.len()
                && goto_target0(g, states_view(states@)[k.0 as int], k.1, states_view(states@)[trans@[k] as int]),
            forall|a: int, j: int| 0 <= a < i && 0 <= j < states_view(states@)[a].len()
                && (#[trigger] states_view(states@)[a][j]).prod == states_view(states@)[a][j].prod
                && next_sym(states_view(states@)[a][j].prod, states_view(states@)[a][j].dot) is Some
                ==> trans@.contains_key((a as usize, sym_text(next_sym(states_view(states@)[a][j].prod, states_view(states@)[a][j].dot)->0))),
            forall|j: int| 0 < j < states@.len() ==> #[trigger] entered(trans@, j),
        decreases usize::MAX - i,
    {
        let syms = symbols_after_dot(&states[i]);
        let ghost si = states_view(states@)[i as int];
        assert(views(states@[i as int]@) == si);
        let mut q: usize = 0;
        while q < syms.len()
            invariant
                g == prods_view(prods@),
                trans.wf(),
                i < states@.len(),
                si == states_view(states@)[i as int],
                forall|q2: int| 0 <= q2 < syms@.len() ==> after_dot(si, #[trigger] syms@[q2]@),
                forall|j: int| 0 <= j < si.len() && (#[trigger] next_sym(si[j].prod, si[j].dot)) is Some
                    ==> exists|q2: int| 0 <= q2 < syms@.len() && sym_text(#[trigger] syms@[q2]@) == sym_text(next_sym(si[j].prod, si[j].dot)->0),
                q <= syms@.len(),
                is_closure0(g, set![start_item(g[0])], states_view(states@)[0]),
                forall|a: int| 0 <= a < states@.len() ==> (#[trigger] states_view(states@)[a]).no_duplicates(),
                forall|a: int, b: int| 0 <= a < b < states@.len() ==> item_set(#[trigger] states_view(states@)[a]) != item_set(#[trigger] states_view(states@)[b]),
                forall|k: (usize, Seq<char>)| #[trigger] trans@.contains_key(k) ==> k.0 <= i && trans@[k] < states@.len()
                    && goto_target0(g, states_view(states@)[k.0 as int], k.1, states_view(states@)[trans@[k] as int]),
                forall|a: int, j: int| 0 <= a < i && 0 <= j < states_view(states@)[a].len()
                    && (#[trigger] states_view(states@)[a][j]).prod == states_view(states@)[a][j].prod
                    && next_sym(states_view(states@)[a][j].prod, states_view(states@)[a][j].dot) is Some
                    ==> trans@.contains_key((a as usize, sym_text(next_sym(states_view(states@)[a][j].prod, states_view(states@)[a][j].dot)->0))),
                forall|q2: int| 0 <= q2 < q ==> trans@.contains_key((i, sym_text(#[trigger] syms@[q2]@))),
                forall|a: int, b: int| 0 <= a < b < syms@.len() ==> sym_text(#[trigger] syms@[a]@) != sym_text(#[trigger] syms@[b]@),
                forall|k: (usize, Seq<char>)| #[trigger] trans@.contains_key(k) && k.0 == i ==> exists|q2: int| 0 <= q2 < q && k.1 == sym_text(#[trigger] syms@[q2]@),
                forall|j: int| 0 < j < states@.len() ==> #[trigger] entered(trans@, j),
            decreases syms.len() - q,
        {
            let ghost old_states = states_view(states@);
            let ghost old_trans = trans@;
            let x = &syms[q];
            let gv = goto0(prods, &states[i], x);
            assert(views(states@[i as int]@) == si);
            assert(after_dot(si, x@));
            let target = match find_state(&states, &gv) {
                Some(j) => {
                    proof {
                        lemma_closure_same_set(g, kernel0(si, x@), views(gv@), old_states[j as int]);
                    }
                    j
                },
                None => {
                    let n = states.len();
                    states.push(gv);
                    assert(states_view(states@) =~= old_states.push(views(gv@)));
                    n
                },
            };
            let ghost new_states = states_view(states@);
            assert(new_states.len() >= old_states.len());
            assert forall|a: int| 0 <= a < old_states.len() implies #[trigger] new_states[a] == old_states[a] by {}
            assert(is_goto0(g, si, x@, new_states[target as int]));
            let name = x.to_text();
            trans.insert((i, name), target);
            proof {
                let key = (i, sym_text(x@));
                assert(goto_target0(g, new_states[i as int], key.1, new_states[target as int]));
                assert forall|k: (usize, Seq<char>)| #[trigger] trans@.contains_key(k) implies k.0 <= i && trans@[k] < states@.len()
                    && goto_target0(g, states_view(states@)[k.0 as int], k.1, states_view(states@)[trans@[k] as int]) by {
                    if k != key {
                        assert(old_trans.contains_key(k));
                        let x2 = choose|x2: SpecSymbol| #[trigger] after_dot(old_states[k.0 as int], x2) && sym_text(x2) == k.1
                            && is_goto0(g, old_states[k.0 as int], x2, old_states[old_trans[k] as int]);
                        assert(after_dot(new_states[k.0 as int], x2));
                    }
                }
                assert forall|a: int, b: int| 0 <= a < b < states@.len() implies item_set(#[trigger] states_view(states@)[a]) != item_set(#[trigger] states_view(states@)[b]) by {
                    if b == old_states.len() {
                        assert(new_states[a] == old_states[a]);
                    } else {
                        assert(new_states[a] == old_states[a]);
                        assert(new_states[b] == old_states[b]);
                    }
                }
                assert forall|a: int| 0 <= a < states@.len() implies (#[trigger] states_view(states@)[a]).no_duplicates() by {
                    if a < old_states.len() {
                        assert(new_states[a] == old_states[a]);
                    }
                }
                assert forall|a: int, j: int| 0 <= a < i && 0 <= j < states_view(states@)[a].len()
                    && (#[trigger] states_view(states@)[a][j]).prod == states_view(states@)[a][j].prod
                    && next_sym(states_view(states@)[a][j].prod, states_view(states@)[a][j].dot) is Some
                    implies trans@.contains_key((a as usize, sym_text(next_sym(states_view(states@)[a][j].prod, states_view(states@)[a][j].dot)->0))) by {
                    assert(new_states[a] == old_states[a]);
                    assert(old_states[a][j] == new_states[a][j]);
                }
                assert forall|j: int| 0 < j < states@.len() implies #[trigger] entered(trans@, j) by {
                    if j < old_states.len() {
                        assert(entered(old_trans, j));
                        let k = choose|k: (usize, Seq<char>)| #[trigger] old_trans.contains_key(k) && k.0 < j && old_trans[k] == j;
                        if k == key {
                            let q2 = choose|q2: int| 0 <= q2 < q && k.1 == sym_text(#[trigger] syms@[q2]@);
                            assert(sym_text(syms@[q2]@) != sym_text(syms@[q as int]@));
                        } else {
                            assert(trans@.contains_key(k) && k.0 < j && trans@[k] == j);
                        }
                    } else {
                        assert(trans@.contains_key(key) && key.0 < j && trans@[key] == j);
                    }
                }
                assert(new_states[0] == old_states[0]);
                assert forall|q2: int| 0 <= q2 < q + 1 implies trans@.contains_key((i, sym_text(#[trigger] syms@[q2]@))) by {}
                assert forall|k: (usize, Seq<char>)| #[trigger] trans@.contains_key(k) && k.0 == i implies exists|q2: int| 0 <= q2 < q + 1 && k.1 == sym_text(#[trigger] syms@[q2]@) by {
                    if k == key {
                        assert(k.1 == sym_text(syms@[q as int]@));
                    } else {
                        assert(old_trans.contains_key(k));
                        let q2 = choose|q2: int| 0 <= q2 < q && k.1 == sym_text(#[trigger] syms@[q2]@);
                        assert(k.1 == sym_text(syms@[q2]@));
                    }
                }
            }
            q += 1;
        }
        proof {
            assert forall|a: int, j: int| 0 <= a < i + 1 && 0 <= j < states_view(states@)[a].len()
                && (#[trigger] states_view(states@)[a][j]).prod == states_view(states@)[a][j].prod
                && next_sym(states_view(states@)[a][j].prod, states_view(states@)[a][j].dot) is Some
                implies trans@.contains_key((a as usize, sym_text(next_sym(states_view(states@)[a][j].prod, states_view(states@)[a][j].dot)->0))) by {
                if a == i {
                    assert(states_view(states@)[a][j] == si[j]);
                    assert(next_sym(si[j].prod, si[j].dot) is Some);
                    let q2 = choose|q2: int| 0 <= q2 < syms@.len() && sym_text(#[trigger] syms@[q2]@) == sym_text(next_sym(si[j].prod, si[j].dot)->0);
                    assert(trans@.contains_key((i, sym_text(syms@[q2]@))));
                }
            }
        }
        i += 1;
    }
    (states, trans)
}

/// The augmented start symbol `S'`.
pub open spec fn aug_start() -> SpecSymbol {
    SpecSymbol::NonTerminal("S'"@)
}

/// The grammar with the production `S' → S` put first and `S'` as its start.
pub open spec fn augment(g: SpecGrammar) -> SpecGrammar {
    SpecGrammar {
        productions: seq![SpecProduction { left: aug_start(), right: seq![g.start] }] + g.productions,
        start: aug_start(),
    }
}

/// `s` with `x` added at the end unless it is already there.
pub open spec fn add_name(s: Seq<Seq<char>>, x: Seq<char>) -> Seq<Seq<char>> {
    if s.contains(x) {
        s
    } else {
        s.push(x)
    }
}

/// The terminal names of a right side added to `acc`, in order.
pub open spec fn rhs_terminals(acc: Seq<Seq<char>>, rhs: Seq<SpecSymbol>) -> Seq<Seq<char>>
    decreases rhs.len(),
{
    if rhs.len() == 0 {
        acc
    } else {
        let a = rhs_terminals(acc, rhs.drop_last());
        match rhs.last() {
            SpecSymbol::Terminal(t) => add_name(a, t),
            _ => a,
        }
    }
}

/// The distinct terminal names of the right sides, in order of appearance.
pub open spec fn grammar_terminals(prods: Seq<SpecProduction>) -> Seq<Seq<char>>
    decreases prods.len(),
{
    if prods.len() == 0 {
        Seq::empty()
    } else {
        rhs_terminals(grammar_terminals(prods.drop_last()), prods.last().right)
    }
}

/// The terminals on which LR(0) reduces: those of the grammar and `$`.
pub open spec fn lr0_lookaheads(prods: Seq<SpecProduction>) -> Seq<Seq<char>> {
    add_name(grammar_terminals(prods), "$"@)
}

/// The descriptions of the items of each state, reduced on the terminals `on`.
pub open spec fn uniform_descs(st: Seq<Seq<SpecItem>>, on: Seq<Seq<char>>) -> Seq<Seq<SpecDesc>> {
    st.map_values(|items: Seq<SpecItem>| items.map_values(|it: SpecItem| SpecDesc { prod: it.prod, dot: it.dot, on }))
}

/// The distinct terminal names of the productions' right sides, in order.
pub fn terminal_names(prods: &Vec<Production>) -> (r: VecSet<String>)
    ensures
        r.wf(),
        r@ == grammar_terminals(prods_view(prods@)),
{
    let ghost g = prods_view(prods@);
    let mut r: VecSet<String> = VecSet::new();
    let mut i: usize = 0;
    assert(g.take(0) =~= Seq::<SpecProduction>::empty());
    while i < prods.len()
        invariant
            g == prods_view(prods@),
            i <= prods@.len(),
            r.wf(),
            r@ == grammar_terminals(g.take(i as int)),
        decreases prods.len() - i,
    {
        let rhs = &prods[i].right;
        let ghost rv = syms_view(rhs@);
        let ghost base = r@;
        assert(g[i as int].right == rv);
        let mut j: usize = 0;
        assert(rv.take(0) =~= Seq::<SpecSymbol>::empty());
        while j < rhs.len()
            invariant
                rv == syms_view(rhs@),
                j <= rhs@.len(),
                r.wf(),
                r@ == rhs_terminals(base, rv.take(j as int)),
            decreases rhs.len() - j,
        {
            assert(rv.take(j + 1).drop_last() =~= rv.take(j as int));
            assert(rv.take(j + 1).last() == rhs@[j as int]@);
            match &rhs[j] {
                Symbol::Terminal(t) => {
                    r.insert(t.clone());
                },
                _ => {},
            }
            j += 1;
        }
        assert(rv.take(rhs@.len() as int) =~= rv);
        assert(g.take(i + 1).drop_last() =~= g.take(i as int));
        i += 1;
    }
    assert(g.take(prods@.len() as int) =~= g);
    r
}

/// The full LR(0) parser: the augmented grammar, its canonical collection of
/// item sets with their transitions, and the ACTION and GOTO tables.
pub struct LR0Parser {
    pub augmented_grammar: Grammar,
    pub states: Vec<Vec<LR0Item>>,
    pub transitions: VecMap<(usize, String), usize>,
    pub action_table: VecMap<(usize, String), LR0Action>,
    pub goto_table: VecMap<(usize, String), usize>,
    pub production_list: Vec<Production>,
}

/// The augmented grammar of `grammar`.
pub fn augmented(grammar: &Grammar) -> (r: Grammar)
    ensures
        r@ == augment(grammar@),
        r.productions@.len() >= 1,
{
    let mut prods: Vec<Production> = Vec::new();
    let mut right: Vec<Symbol> = Vec::new();
    right.push(grammar.start_symbol.copy());
    prods.push(Production { left: Symbol::NonTerminal(String::from_str("S'")), right });
    let mut i: usize = 0;
    let ghost first = prods@[0]@;
    assert(first == SpecProduction { left: aug_start(), right: seq![grammar.start_symbol@] }) by {
        assert(syms_view(prods@[0].right@) =~= seq![grammar.start_symbol@]);
    }
    while i < grammar.productions.len()
        invariant
            i <= grammar.productions@.len(),
            prods_view(prods@) =~= seq![first] + prods_view(grammar.productions@).take(i as int),
        decreases grammar.productions.len() - i,
    {
        let ghost before = prods_view(prods@);
        prods.push(grammar.productions[i].copy());
        assert(prods_view(prods@) =~= before.push(grammar.productions@[i as int]@));
        assert(prods_view(grammar.productions@).take(i + 1) =~= prods_view(grammar.productions@).take(i as int).push(grammar.productions@[i as int]@));
        i += 1;
    }
    assert(prods_view(grammar.productions@).take(grammar.productions@.len() as int) =~= prods_view(grammar.productions@));
    Grammar { productions: prods, start_symbol: Symbol::NonTerminal(String::from_str("S'")) }
}

/// A copy of the productions.
pub fn copy_productions(v: &Vec<Production>) -> (r: Vec<Production>)
    ensures
        prods_view(r@) == prods_view(v@),
{
    let mut r: Vec<Production> = Vec::new();
    let mut i: usize = 0;
    while i < v.len()
        invariant
            i <= v@.len(),
            prods_view(r@) =~= prods_view(v@).take(i as int),
        decreases v.len() - i,
    {
        r.push(v[i].copy());
        assert(prods_view(v@).take(i + 1) =~= prods_view(v@).take(i as int).push(v@[i as int]@));
        i += 1;
    }
    assert(prods_view(v@).take(v@.len() as int) =~= prods_view(v@));
    r
}

/// The descriptions of the items of each state, all reduced on `on`.
pub fn uniform_item_descs(states: &Vec<Vec<LR0Item>>, on: &Vec<String>) -> (r: Vec<Vec<ItemDesc>>)
    ensures
        descs_view(r@) == uniform_descs(states_view(states@), strs_view(on@)),
{
    let ghost target = uniform_descs(states_view(states@), strs_view(on@));
    let mut r: Vec<Vec<ItemDesc>> = Vec::new();
    let mut s: usize = 0;
    while s < states.len()
        invariant
            target == uniform_descs(states_view(states@), strs_view(on@)),
            s <= states@.len(),
            descs_view(r@) =~= target.take(s as int),
        decreases states.len() - s,
    {
        let items = &states[s];
        let ghost tv = target[s as int];
        assert(tv == views(items@).map_values(|it: SpecItem| SpecDesc { prod: it.prod, dot: it.dot, on: strs_view(on@) }));
        let mut ds: Vec<ItemDesc> = Vec::new();
        let mut i: usize = 0;
        while i < items.len()
            invariant
                tv == views(items@).map_values(|it: SpecItem| SpecDesc { prod: it.prod, dot: it.dot, on: strs_view(on@) }),
                i <= items@.len(),
                views(ds@) =~= tv.take(i as int),
            decreases items.len() - i,
        {
            let d = ItemDesc { production: items[i].production.copy(), dot: items[i].dot_position, reduce_on: copy_strings(on) };
            let ghost before = views(ds@);
            assert(views(items@)[i as int] == items@[i as int]@);
            assert(d@ == tv[i as int]);
            ds.push(d);
            assert(views(ds@) =~= before.push(d@));
            assert(views(ds@) =~= tv.take(i + 1));
            i += 1;
        }
        assert(tv.take(items@.len() as int) =~= tv);
        let ghost before_r = descs_view(r@);
        let ghost dsv = views(ds@);
        r.push(ds);
        assert(descs_view(r@) =~= before_r.push(dsv));
        assert(states_view(states@)[s as int] == views(items@));
        assert(descs_view(r@) =~= target.take(s + 1));
        s += 1;
    }
    assert(target.take(states@.len() as int) =~= target);
    r
}

/// Whether the LR(0) tables of `grammar` (augmented) meet a conflict
/// reported as `e`, for a canonical collection of its item sets.
pub open spec fn lr0_refused(grammar: SpecGrammar, e: Seq<char>) -> bool {
    let g = augment(grammar).productions;
    exists|st: Seq<Seq<SpecItem>>, tr: GotoMap| automaton0(g, st, tr)
        && #[trigger] tables_spec("LR(0)"@, g, aug_start(), tr, uniform_descs(st, lr0_lookaheads(g)))
            == Err::<(ActMap, GotoMap), Seq<char>>(e)
}

impl LR0Parser {
    pub open spec fn wf(&self) -> bool {
        self.transitions.wf() && self.action_table.wf() && self.goto_table.wf()
    }

    /// Whether this parser is what `new` builds from `grammar`: its
    /// augmented grammar, a canonical collection of its LR(0) item sets
    /// with their transitions, and the tables built from them.
    pub open spec fn built_from(&self, grammar: SpecGrammar) -> bool {
        let g = augment(grammar).productions;
        &&& self.wf()
        &&& self.augmented_grammar@ == augment(grammar)
        &&& prods_view(self.production_list@) == g
        &&& automaton0(g, states_view(self.states@), self.transitions@)
        &&& tables_spec("LR(0)"@, g, aug_start(), self.transitions@, uniform_descs(states_view(self.states@), lr0_lookaheads(g)))
            == Ok::<(ActMap, GotoMap), Seq<char>>((self.action_table@, self.goto_table@))
    }

    /// Augments the grammar with `S' → S`, builds the canonical collection of
    /// LR(0) item sets and the tables; fails on a conflict in the tables.
    pub fn new(grammar: Grammar) -> (r: Result<Self, String>)
        ensures
            match r {
                Ok(p) => p.built_from(grammar@),
                Err(e) => lr0_refused(grammar@, e@),
            },
    {
        let augmented_grammar = augmented(&grammar);
        let production_list = copy_productions(&augmented_grammar.productions);
        let (states, transitions) = canonical0(&augmented_grammar.productions);
        let mut on = terminal_names(&augmented_grammar.productions);
        on.insert(String::from_str("$"));
        let descs = uniform_item_descs(&states, &on.items);
        let aug = Symbol::NonTerminal(String::from_str("S'"));
        match build_tables::<LR0Action>("LR(0)", &augmented_grammar.productions, &aug, &transitions, &descs) {
            Ok((action_table, goto_table)) => Ok(LR0Parser {
                augmented_grammar,
                states,
                transitions,
                action_table,
                goto_table,
                production_list,
            }),
            Err(e) => Err(e),
        }
    }

    /// The closure of a set of items under the augmented grammar.
    pub fn closure(&self, items: &Vec<LR0Item>) -> (r: Vec<LR0Item>)
        ensures
            is_closure0(prods_view(self.augmented_grammar.productions@), item_set(views(items@)), views(r@)),
    {
        closure0(&self.augmented_grammar.productions, items)
    }

    /// goto(I, X) under the augmented grammar.
    pub fn goto(&self, items: &Vec<LR0Item>, symbol: &Symbol) -> (r: Vec<LR0Item>)
        ensures
            is_goto0(prods_view(self.augmented_grammar.productions@), views(items@), symbol@, views(r@)),
    {
        goto0(&self.augmented_grammar.productions, items, symbol)
    }

    /// The terminals of the grammar in increasing order, then `$`.
    pub fn get_all_terminals(&self) -> (r: Vec<String>)
        ensures
            terminal_list(prods_view(self.augmented_grammar.productions@), strs_view(r@)),
    {
        all_terminals(&self.augmented_grammar.productions)
    }

    /// The non-terminals of the grammar (but `S'`) in increasing order.
    pub fn get_all_non_terminals(&self) -> (r: Vec<String>)
        ensures
            nonterminal_list(prods_view(self.augmented_grammar.productions@), strs_view(r@)),
    {
        all_non_terminals(&self.augmented_grammar.productions)
    }

    /// Parses the tokens with the tables, one snapshot per step (see `lr_trace`).
    pub fn parse_input(&self, input: Vec<String>) -> (r: Result<Vec<LR0ParseSnapshot>, String>)
        requires
            self.wf(),
        ensures
            match r {
                Ok(v) => lr_snapshots_spec(self.action_table@, self.goto_table@, prods_view(self.production_list@), input@)
                    == Ok::<Seq<SpecLRSnapshot>, Seq<char>>(views(v@)),
                Err(e) => lr_snapshots_spec(self.action_table@, self.goto_table@, prods_view(self.production_list@), input@)
                    == Err::<Seq<SpecLRSnapshot>, Seq<char>>(e@),
            },
    {
        match lr_run(&self.action_table, &self.goto_table, &self.production_list, input) {
            Ok((v, _)) => Ok(v),
            Err(e) => Err(e),
        }
    }
}

} // verus!
