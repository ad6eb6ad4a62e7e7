//! Grammar symbols, productions and grammars, with their mathematical models.

use vstd::prelude::*;

verus! {

/// A grammar symbol: a terminal, a non-terminal, or the empty string.
#[derive(Debug, Clone, PartialEq, Eq, Hash)]
pub enum Symbol {
    Terminal(String),
    NonTerminal(String),
    Epsilon,
}

/// The model of a [`Symbol`]: names are sequences of characters.
pub enum SpecSymbol {
    Terminal(Seq<char>),
    NonTerminal(Seq<char>),
    Epsilon,
}

impl View for Symbol {
    type V = SpecSymbol;

    open spec fn view(&self) -> SpecSymbol {
        match self {
            Symbol::Terminal(s) => SpecSymbol::Terminal(s@),
            Symbol::NonTerminal(s) => SpecSymbol::NonTerminal(s@),
            Symbol::Epsilon => SpecSymbol::Epsilon,
        }
    }
}

/// The models of a sequence of symbols.
pub open spec fn syms_view(s: Seq<Symbol>) -> Seq<SpecSymbol> {
    s.map_values(|x: Symbol| x@)
}

/// The text by which a symbol is shown: its name, or `ϵ` for the empty string.
pub open spec fn sym_text(s: SpecSymbol) -> Seq<char> {
    match s {
        SpecSymbol::Terminal(n) => n,
        SpecSymbol::NonTerminal(n) => n,
        SpecSymbol::Epsilon => "ϵ"@,
    }
}

pub open spec fn is_terminal(s: SpecSymbol) -> bool {
    s is Terminal
}

pub open spec fn is_nonterminal(s: SpecSymbol) -> bool {
    s is NonTerminal
}

/// A production rule `left -> right`.
#[derive(Debug, Clone, PartialEq, Eq, Hash)]
pub struct Production {
    pub left: Symbol,
    pub right: Vec<Symbol>,
}

pub struct SpecProduction {
    pub left: SpecSymbol,
    pub right: Seq<SpecSymbol>,
}

impl View for Production {
    type V = SpecProduction;

    open spec fn view(&self) -> SpecProduction {
        SpecProduction { left: self.left@, right: syms_view(self.right@) }
    }
}

pub open spec fn prods_view(s: Seq<Production>) -> Seq<SpecProduction> {
    s.map_values(|p: Production| p@)
}

/// A context-free grammar: its productions and its start symbol.
#[derive(Debug, Clone)]
pub struct Grammar {
    pub productions: Vec<Production>,
    pub start_symbol: Symbol,
}

pub struct SpecGrammar {
    pub productions: Seq<SpecProduction>,
    pub start: SpecSymbol,
}

impl View for Grammar {
    type V = SpecGrammar;

    open spec fn view(&self) -> SpecGrammar {
        SpecGrammar { productions: prods_view(self.productions@), start: self.start_symbol@ }
    }
}

/// Whether the right side of a production is exactly the single symbol ϵ.
pub open spec fn is_epsilon_rhs(r: Seq<SpecSymbol>) -> bool {
    r.len() == 1 && r[0] == SpecSymbol::Epsilon
}

impl Symbol {
    /// A copy of this symbol.
    pub fn copy(&self) -> (r: Symbol)
        ensures
            r == *self,
            r@ == self@,
    {
        match self {
            Symbol::Terminal(s) => Symbol::Terminal(s.clone()),
            Symbol::NonTerminal(s) => Symbol::NonTerminal(s.clone()),
            Symbol::Epsilon => Symbol::Epsilon,
        }
    }

    /// Whether two symbols are equal.
    pub fn same(&self, other: &Symbol) -> (r: bool)
        ensures
            r == (self@ == other@),
    {
        match (self, other) {
            (Symbol::Terminal(a), Symbol::Terminal(b)) => *a == *b,
            (Symbol::NonTerminal(a), Symbol::NonTerminal(b)) => *a == *b,
            (Symbol::Epsilon, Symbol::Epsilon) => true,
            _ => false,
        }
    }

    pub fn is_terminal(&self) -> (r: bool)
        ensures
            r == (self@ is Terminal),
    {
        matches!(self, Symbol::Terminal(_))
    }

    pub fn is_nonterminal(&self) -> (r: bool)
        ensures
            r == (self@ is NonTerminal),
    {
        matches!(self, Symbol::NonTerminal(_))
    }

    pub fn is_epsilon(&self) -> (r: bool)
        ensures
            r == (self@ is Epsilon),
    {
        matches!(self, Symbol::Epsilon)
    }

    /// The text by which the symbol is shown.
    pub fn to_text(&self) -> (r: String)
        ensures
            r@ == sym_text(self@),
    {
        match self {
            Symbol::Terminal(s) => s.clone(),
            Symbol::NonTerminal(s) => s.clone(),
            Symbol::Epsilon => String::from_str("ϵ"),
        }
    }
}

/// A copy of a sequence of symbols.
pub fn copy_symbols(v: &Vec<Symbol>) -> (r: Vec<Symbol>)
    ensures
        r@ == v@,
{
    let mut r: Vec<Symbol> = Vec::new();
    let mut i: usize = 0;
    while i < v.len()
        invariant
            i <= v.len(),
            r@ == v@.subrange(0, i as int),
        decreases v.len() - i,
    {
        r.push(v[i].copy());
        i += 1;
    }
    assert(r@ =~= v@);
    r
}

/// Whether two sequences of symbols are equal.
pub fn same_symbols(a: &Vec<Symbol>, b: &Vec<Symbol>) -> (r: bool)
    ensures
        r == (syms_view(a@) == syms_view(b@)),
{
    if a.len() != b.len() {
        assert(syms_view(a@).len() != syms_view(b@).len());
        return false;
    }
    let mut i: usize = 0;
    while i < a.len()
        invariant
            a.len() == b.len(),
            i <= a.len(),
            forall|j: int| 0 <= j < i ==> a@[j]@ == b@[j]@,
        decreases a.len() - i,
    {
        if !a[i].same(&b[i]) {
            assert(syms_view(a@)[i as int] != syms_view(b@)[i as int]);
            return false;
        }
        i += 1;
    }
    assert(syms_view(a@) =~= syms_view(b@));
    true
}

impl Production {
    pub fn copy(&self) -> (r: Production)
        ensures
            r@ == self@,
            r.left == self.left,
            r.right@ == self.right@,
    {
        Production { left: self.left.copy(), right: copy_symbols(&self.right) }
    }

    pub fn same(&self, other: &Production) -> (r: bool)
        ensures
            r == (self@ == other@),
    {
        self.left.same(&other.left) && same_symbols(&self.right, &other.right)
    }

    /// Whether the right side is exactly `ϵ`.
    pub fn is_epsilon_production(&self) -> (r: bool)
        ensures
            r == is_epsilon_rhs(self@.right),
    {
        self.right.len() == 1 && self.right[0].is_epsilon()
    }
}


/// The models of a sequence of strings.
pub open spec fn strs_view(s: Seq<String>) -> Seq<Seq<char>> {
    s.map_values(|x: String| x@)
}

/// The state of a stack-based parser at one step: its stack, the input
/// not yet consumed, and what it did.
#[derive(Debug, Clone)]
pub struct ParseSnapshot {
    pub step: usize,
    pub stack: Vec<Symbol>,
    pub input_remaining: Vec<String>,
    pub action: String,
}

pub struct SpecSnapshot {
    pub step: usize,
    pub stack: Seq<SpecSymbol>,
    pub input_remaining: Seq<Seq<char>>,
    pub action: Seq<char>,
}

impl View for ParseSnapshot {
    type V = SpecSnapshot;

    open spec fn view(&self) -> SpecSnapshot {
        SpecSnapshot {
            step: self.step,
            stack: syms_view(self.stack@),
            input_remaining: strs_view(self.input_remaining@),
            action: self.action@,
        }
    }
}

/// The state of a shift-reduce parser at one step: its state and symbol
/// stacks, the input not yet consumed, and what it did.
#[derive(Debug, Clone)]
pub struct LR0ParseSnapshot {
    pub step: usize,
    pub state_stack: Vec<usize>,
    pub symbol_stack: Vec<String>,
    pub input_remaining: Vec<String>,
    pub action: String,
}

pub struct SpecLRSnapshot {
    pub step: usize,
    pub state_stack: Seq<usize>,
    pub symbol_stack: Seq<Seq<char>>,
    pub input_remaining: Seq<Seq<char>>,
    pub action: Seq<char>,
}

impl View for LR0ParseSnapshot {
    type V = SpecLRSnapshot;

    open spec fn view(&self) -> SpecLRSnapshot {
        SpecLRSnapshot {
            step: self.step,
            state_stack: self.state_stack@,
            symbol_stack: strs_view(self.symbol_stack@),
            input_remaining: strs_view(self.input_remaining@),
            action: self.action@,
        }
    }
}

/// A copy of a sequence of strings.
pub fn copy_strings(v: &Vec<String>) -> (r: Vec<String>)
    ensures
        r@ == v@,
{
    let mut r: Vec<String> = Vec::new();
    let mut i: usize = 0;
    while i < v.len()
        invariant
            i <= v.len(),
            r@ == v@.subrange(0, i as int),
        decreases v.len() - i,
    {
        r.push(v[i].clone());
        i += 1;
    }
    assert(r@ =~= v@);
    r
}

/// A copy of the strings `v[from..]`.
pub fn copy_strings_from(v: &Vec<String>, from: usize) -> (r: Vec<String>)
    requires
        from <= v@.len(),
    ensures
        r@ == v@.skip(from as int),
{
    let mut r: Vec<String> = Vec::new();
    let mut i: usize = from;
    while i < v.len()
        invariant
            from <= i <= v.len(),
            r@ == v@.subrange(from as int, i as int),
        decreases v.len() - i,
    {
        r.push(v[i].clone());
        i += 1;
    }
    assert(r@ =~= v@.skip(from as int));
    r
}

} // verus!
