//! The SLR(1) parser: the LR(0) automaton with reductions only on the
//! FOLLOW set of the production's left side.

use vstd::prelude::*;
use crate::collections::{VecSet, VecMap, views};
use crate::symbols::{Symbol, Production, Grammar, SpecGrammar, LR0ParseSnapshot, SpecLRSnapshot, prods_view, strs_view, copy_strings};
use crate::lr::{SpecDesc, ItemDesc, ActMap, GotoMap, tables_spec, descs_view, build_tables, lr_run, lr_snapshots_spec};
use crate::lr0::{LR0Item, LR0Action, SpecItem, augment, aug_start, augmented, copy_productions, canonical0, automaton0, states_view, closure0, goto0, is_closure0, is_goto0, item_set};
use crate::lr_sets::{
    sfirst, sfollow, sfirst_pairs, sfollow_pairs, sfollow_keys, sfollow_key, token_map, nt_name, eps_token, str_first, sfollow_ok_at,
    lemma_sfollow_exists,
};

use crate::names::{all_terminals, all_non_terminals, terminal_list, nonterminal_list};

verus! {

/// The follow map holds, for each name with a FOLLOW set, the tokens of
/// that set without repetitions.
pub open spec fn follow_map_is(g: Seq<crate::symbols::SpecProduction>, m: Map<Seq<char>, Seq<Seq<char>>>) -> bool {
    let fo = sfollow(g, sfirst(g), "S'"@);
    &&& forall|x: Seq<char>| #[trigger] m.contains_key(x) <==> sfollow_key(g, "S'"@, x)
    &&& forall|x: Seq<char>, y: Seq<char>| #![trigger m[x].contains(y)] m.contains_key(x) ==> (m[x].contains(y) <==> fo.contains((x, y)))
    &&& forall|x: Seq<char>| #[trigger] m.contains_key(x) ==> m[x].no_duplicates()
}

/// The terminals on which the complete items of `A` reduce: FOLLOW(A).
pub open spec fn follow_of(p: crate::symbols::SpecProduction, fol: Map<Seq<char>, Seq<Seq<char>>>) -> Seq<Seq<char>> {
    if p.left is NonTerminal && fol.contains_key(nt_name(p.left)) {
        fol[nt_name(p.left)]
    } else {
        Seq::empty()
    }
}

/// The descriptions of the items of each state, reduced on FOLLOW of their
/// left side.
pub open spec fn slr_descs(st: Seq<Seq<SpecItem>>, fol: Map<Seq<char>, Seq<Seq<char>>>) -> Seq<Seq<SpecDesc>> {
    st.map_values(|items: Seq<SpecItem>| items.map_values(|it: SpecItem| SpecDesc { prod: it.prod, dot: it.dot, on: follow_of(it.prod, fol) }))
}

/// The SLR(1) parser: the augmented grammar, the LR(0) automaton, the
/// FOLLOW sets by name, and the ACTION and GOTO tables.
pub struct SLR1Parser {
    pub augmented_grammar: Grammar,
    pub states: Vec<Vec<LR0Item>>,
    pub transitions: VecMap<(usize, String), usize>,
    pub action_table: VecMap<(usize, String), LR0Action>,
    pub goto_table: VecMap<(usize, String), usize>,
    pub production_list: Vec<Production>,
    pub follow: VecMap<String, VecSet<String>>,
}

/// The descriptions of the items of each state, reduced on FOLLOW.
fn follow_descs(states: &Vec<Vec<LR0Item>>, follow: &VecMap<String, VecSet<String>>) -> (r: Vec<Vec<ItemDesc>>)
    requires
        follow.wf(),
    ensures
        descs_view(r@) == slr_descs(states_view(states@), follow@),
{
    let ghost target = slr_descs(states_view(states@), follow@);
    let mut r: Vec<Vec<ItemDesc>> = Vec::new();
    let mut s: usize = 0;
    while s < states.len()
        invariant
            follow.wf(),
            target == slr_descs(states_view(states@), follow@),
            s <= states@.len(),
            descs_view(r@) =~= target.take(s as int),
        decreases states.len() - s,
    {
        let items = &states[s];
        let ghost tv = target[s as int];
        assert(states_view(states@)[s as int] == views(items@));
        let mut ds: Vec<ItemDesc> = Vec::new();
        let mut i: usize = 0;
        while i < items.len()
            invariant
                follow.wf(),
                tv == views(items@).map_values(|it: SpecItem| SpecDesc { prod: it.prod, dot: it.dot, on: follow_of(it.prod, follow@) }),
                i <= items@.len(),
                views(ds@) =~= tv.take(i as int),
            decreases items.len() - i,
        {
            let it = &items[i];
            let on = match &it.production.left {
                Symbol::NonTerminal(a) => match follow.get(a) {
                    Some(set) => copy_strings(&set.items),
                    None => Vec::new(),
                },
                _ => Vec::new(),
            };
            let d = ItemDesc { production: it.production.copy(), dot: it.dot_position, reduce_on: on };
            let ghost before = views(ds@);
            assert(views(items@)[i as int] == it@);
            assert(strs_view(d.reduce_on@) =~= follow_of(it@.prod, follow@));
            assert(d@ == tv[i as int]);
            ds.push(d);
            assert(views(ds@) =~= before.push(d@));
            assert(views(ds@) =~= tv.take(i + 1));
            i += 1;
        }
        assert(tv.take(items@.len() as int) =~= tv);
        let ghost before_r = descs_view(r@);
        let ghost dsv = views(ds@);
        r.push(ds);
        assert(descs_view(r@) =~= before_r.push(dsv));
        assert(descs_view(r@) =~= target.take(s + 1));
        s += 1;
    }
    assert(target.take(states@.len() as int) =~= target);
    r
}

/// Whether the SLR(1) tables of `grammar` (augmented) meet a conflict
/// reported as `e`, for a canonical collection of its LR(0) item sets.
pub open spec fn slr1_refused(grammar: SpecGrammar, e: Seq<char>) -> bool {
    let g = augment(grammar).productions;
    exists|st: Seq<Seq<SpecItem>>, tr: GotoMap, fol: Map<Seq<char>, Seq<Seq<char>>>|
        automaton0(g, st, tr) && follow_map_is(g, fol)
        && #[trigger] tables_spec("SLR(1)"@, g, aug_start(), tr, slr_descs(st, fol))
            == Err::<(ActMap, GotoMap), Seq<char>>(e)
}

/// `$` is in FOLLOW of the grammar's start symbol, as the SLR(1) parser
/// holds it (through `S' → S`).
pub proof fn slr1_follow_of_start_has_end_marker(p: SLR1Parser, grammar: SpecGrammar)
    requires
        p.built_from(grammar),
        grammar.start is NonTerminal,
    ensures
        p.follow@.contains_key(nt_name(grammar.start)),
        p.follow@[nt_name(grammar.start)].contains("$"@),
{
    let g = augment(grammar).productions;
    let f = sfirst(g);
    let fo = sfollow(g, f, "S'"@);
    let x = nt_name(grammar.start);
    lemma_sfollow_exists(g, f, "S'"@);
    assert(g[0].right[0] == grammar.start);
    assert(sfollow_key(g, "S'"@, x));
    assert(fo.contains(("S'"@, "$"@)));
    assert(sfollow_ok_at(g, f, fo, 0, 0));
    assert(g[0].right.skip(1) =~= Seq::<crate::symbols::SpecSymbol>::empty());
    assert(str_first(g[0].right.skip(1), f, eps_token()));
    assert(fo.contains((x, "$"@)));
}

impl SLR1Parser {
    pub open spec fn wf(&self) -> bool {
        self.transitions.wf() && self.action_table.wf() && self.goto_table.wf() && self.follow.wf()
    }

    /// Whether this parser is what `new` builds from `grammar`: its
    /// augmented grammar, a canonical collection of LR(0) item sets, the
    /// FOLLOW sets, and the tables built from them.
    pub open spec fn built_from(&self, grammar: SpecGrammar) -> bool {
        let g = augment(grammar).productions;
        &&& self.wf()
        &&& self.augmented_grammar@ == augment(grammar)
        &&& prods_view(self.production_list@) == g
        &&& automaton0(g, states_view(self.states@), self.transitions@)
        &&& follow_map_is(g, self.follow@)
        &&& tables_spec("SLR(1)"@, g, aug_start(), self.transitions@, slr_descs(states_view(self.states@), self.follow@))
            == Ok::<(ActMap, GotoMap), Seq<char>>((self.action_table@, self.goto_table@))
    }

    /// Augments the grammar, builds the LR(0) automaton, the FIRST and FOLLOW
    /// sets, and the tables, where a complete item `A → α·` reduces on the
    /// terminals of FOLLOW(A); fails on a conflict in the tables.
    pub fn new(grammar: Grammar) -> (r: Result<Self, String>)
        ensures
            match r {
                Ok(p) => p.built_from(grammar@),
                Err(e) => slr1_refused(grammar@, e@),
            },
    {
        let augmented_grammar = augmented(&grammar);
        let production_list = copy_productions(&augmented_grammar.productions);
        let (states, transitions) = canonical0(&augmented_grammar.productions);
        let first = sfirst_pairs(&augmented_grammar.productions);
        let start_name = String::from_str("S'");
        let fol = sfollow_pairs(&augmented_grammar.productions, &first, &start_name);
        let keys = sfollow_keys(&augmented_grammar.productions, &start_name);
        let follow = token_map(&fol, &keys);
        let descs = follow_descs(&states, &follow);
        let aug = Symbol::NonTerminal(String::from_str("S'"));
        match build_tables::<LR0Action>("SLR(1)", &augmented_grammar.productions, &aug, &transitions, &descs) {
            Ok((action_table, goto_table)) => Ok(SLR1Parser {
                augmented_grammar,
                states,
                transitions,
                action_table,
                goto_table,
                production_list,
                follow,
            }),
            Err(e) => Err(e),
        }
    }

    /// The closure of a set of items under the augmented grammar.
    pub fn closure(&self, items: &Vec<LR0Item>) -> (r: Vec<LR0Item>)
        ensures
            is_closure0(prods_view(self.augmented_grammar.productions@), item_set(views(items@)), views(r@)),
    {
        closure0(&self.augmented_grammar.productions, items)
    }

    /// goto(I, X) under the augmented grammar.
    pub fn goto(&self, items: &Vec<LR0Item>, symbol: &Symbol) -> (r: Vec<LR0Item>)
        ensures
            is_goto0(prods_view(self.augmented_grammar.productions@), views(items@), symbol@, views(r@)),
    {
        goto0(&self.augmented_grammar.productions, items, symbol)
    }

    /// The terminals of the grammar in increasing order, then `$`.
    pub fn get_all_terminals(&self) -> (r: Vec<String>)
        ensures
            terminal_list(prods_view(self.augmented_grammar.productions@), strs_view(r@)),
    {
        all_terminals(&self.augmented_grammar.productions)
    }

    /// The non-terminals of the grammar (but `S'`) in increasing order.
    pub fn get_all_non_terminals(&self) -> (r: Vec<String>)
        ensures
            nonterminal_list(prods_view(self.augmented_grammar.productions@), strs_view(r@)),
    {
        all_non_terminals(&self.augmented_grammar.productions)
    }

    /// Parses the tokens with the tables, one snapshot per step (see `lr_trace`).
    pub fn parse_input(&self, input: Vec<String>) -> (r: Result<Vec<LR0ParseSnapshot>, String>)
        requires
            self.wf(),
        ensures
            match r {
                Ok(v) => lr_snapshots_spec(self.action_table@, self.goto_table@, prods_view(self.production_list@), input@)
                    == Ok::<Seq<SpecLRSnapshot>, Seq<char>>(views(v@)),
                Err(e) => lr_snapshots_spec(self.action_table@, self.goto_table@, prods_view(self.production_list@), input@)
                    == Err::<Seq<SpecLRSnapshot>, Seq<char>>(e@),
            },
    {
        match lr_run(&self.action_table, &self.goto_table, &self.production_list, input) {
            Ok((v, _)) => Ok(v),
            Err(e) => Err(e),
        }
    }
}

} // verus!
