use ultimate_parser::ai::{ai_failure, ai_reply, build_prompt, extract_section, parse_ai_response, AiAssistRequest};
use ultimate_parser::api::{
    analyze_grammar, parse_ll1, parse_lr0, parse_slr1, tokenize_input, AnalyzeRequest, ParseRequest,
};
use ultimate_parser::grammar::{symbol_of_word, word_starts_uppercase};
use ultimate_parser::ll1::LL1Parser;
use ultimate_parser::parser::Parser;
use ultimate_parser::lr0::{LR0Action, LR0Item, LR0Parser};
use ultimate_parser::lr1::LR1Parser;
use ultimate_parser::recursive_descent::RecursiveDescentParser;
use ultimate_parser::slr1::SLR1Parser;
use ultimate_parser::symbols::{Grammar, Production, Symbol};
use ultimate_parser::tree::ParseTreeNode;

fn strings(v: &[&str]) -> Vec<String> {
    v.iter().map(|s| s.to_string()).collect()
}

fn leaf(id: usize, label: &str, kind: &str) -> ParseTreeNode {
    ParseTreeNode { id, label: label.to_string(), node_type: kind.to_string(), children: vec![] }
}

fn node(id: usize, label: &str, kind: &str, children: Vec<ParseTreeNode>) -> ParseTreeNode {
    ParseTreeNode { id, label: label.to_string(), node_type: kind.to_string(), children }
}

fn request(grammar: &str, input: &str) -> ParseRequest {
    ParseRequest { raw_grammar: grammar.to_string(), input_string: input.to_string() }
}

// ───────────── reading grammars ─────────────

#[test]
fn grammar_errors_have_their_messages() {
    assert_eq!(Grammar::from_string("S a b").unwrap_err(), "Invalid production format: S a b");
    assert_eq!(Grammar::from_string("a -> b").unwrap_err(), "Left side must be a Non-Terminal: a");
    assert_eq!(Grammar::from_string("").unwrap_err(), "Grammar must have at least one production");
    assert_eq!(Grammar::from_string("S -> a -> b").unwrap_err(), "Invalid production format: S -> a -> b");
}

#[test]
fn grammar_non_ascii_uppercase_left_side() {
    let g = Grammar::from_string("Ä -> a").unwrap();
    assert_eq!(g.start_symbol, Symbol::NonTerminal("Ä".to_string()));
    assert!(Grammar::from_string("ä -> a").is_err());
    let g = Grammar::from_string("S -> Ñ b").unwrap();
    assert_eq!(g.productions[0].right, vec![Symbol::NonTerminal("Ñ".to_string()), Symbol::Terminal("b".to_string())]);
}

#[test]
fn grammar_start_is_left_of_first_production() {
    let g = Grammar::from_string("\n  \nB -> b | \nA -> a").unwrap();
    assert_eq!(g.start_symbol, Symbol::NonTerminal("B".to_string()));
    assert_eq!(g.productions[0].left, g.start_symbol);
    assert_eq!(g.productions.len(), 3);
    assert_eq!(g.productions[1].right, vec![Symbol::Epsilon]);
    for p in &g.productions {
        assert!(!p.right.is_empty());
    }
}

#[test]
fn word_classification_given_case() {
    assert_eq!(symbol_of_word("x".to_string(), true), Symbol::NonTerminal("x".to_string()));
    assert_eq!(symbol_of_word("X".to_string(), false), Symbol::Terminal("X".to_string()));
    assert_eq!(symbol_of_word("ε".to_string(), true), Symbol::Epsilon);
    assert_eq!(symbol_of_word("epsilon".to_string(), false), Symbol::Epsilon);
    assert_eq!(symbol_of_word("ϵx".to_string(), false), Symbol::Terminal("ϵx".to_string()));
}

// ───────────── tokenizing ─────────────

#[test]
fn tokenize_greedy_longest_first() {
    let g = Grammar::from_string("E -> E + T | T\nT -> id | i").unwrap();
    assert_eq!(tokenize_input("id+i", &g), strings(&["id", "+", "i"]));
    assert_eq!(tokenize_input("id?", &g), strings(&["id", "?"]));
}

#[test]
fn tokenize_with_spaces_splits_words() {
    let g = Grammar::from_string("S -> a b").unwrap();
    assert_eq!(tokenize_input("  a \t b  ", &g), strings(&["a", "b"]));
}

#[test]
fn tokenize_rejoins_input() {
    let g = Grammar::from_string("S -> ab c | abc").unwrap();
    let input = "abcabxc";
    let toks = tokenize_input(input, &g);
    assert_eq!(toks, strings(&["abc", "ab", "x", "c"]));
    assert_eq!(toks.concat(), input);
    assert!(toks.iter().all(|t| !t.is_empty()));
}

#[test]
fn tokenize_multibyte_terminals() {
    let g = Grammar::from_string("S -> ñ é").unwrap();
    assert_eq!(tokenize_input("ñéñ", &g), strings(&["ñ", "é", "ñ"]));
}

// ───────────── LL(1) ─────────────

#[test]
fn ll1_snapshots_of_a_parse() {
    let p = LL1Parser::new(Grammar::from_string("S -> a B\nB -> b").unwrap()).unwrap();
    let snaps = p.parse(strings(&["a", "b"])).unwrap();
    let actions: Vec<&str> = snaps.iter().map(|s| s.action.as_str()).collect();
    assert_eq!(actions, vec!["S -> a B", "Match terminal: a", "B -> b", "Match terminal: b", "Success!"]);
    assert_eq!(snaps[0].stack, vec![Symbol::Terminal("$".to_string()), Symbol::NonTerminal("S".to_string())]);
    assert_eq!(snaps[0].input_remaining, strings(&["a", "b", "$"]));
    assert_eq!(snaps[1].stack, vec![
        Symbol::Terminal("$".to_string()),
        Symbol::NonTerminal("B".to_string()),
        Symbol::Terminal("a".to_string()),
    ]);
    for (i, s) in snaps.iter().enumerate() {
        assert_eq!(s.step, i);
    }
}

#[test]
fn ll1_syntax_errors() {
    let p = LL1Parser::new(Grammar::from_string("S -> a B\nB -> b").unwrap()).unwrap();
    assert_eq!(p.parse(strings(&["x"])).unwrap_err(), "Syntax Error: No rule for [S, x]");
    assert_eq!(p.parse(strings(&["b"])).unwrap_err(), "Syntax Error: No rule for [S, b]");
    assert_eq!(p.parse(strings(&["a", "b", "c"])).unwrap_err(), "Syntax Error: Unexpected terminal c");
}

#[test]
fn ll1_conflict_message() {
    let r = LL1Parser::new(Grammar::from_string("S -> a A | a B\nA -> x\nB -> y").unwrap());
    assert_eq!(r.err().unwrap(), "Grammar is not LL(1): Multiple entries for [S, a]");
}

#[test]
fn ll1_epsilon_action_text() {
    let p = LL1Parser::new(Grammar::from_string("S -> a A\nA -> b | ϵ").unwrap()).unwrap();
    let snaps = p.parse(strings(&["a"])).unwrap();
    assert!(snaps.iter().any(|s| s.action == "A -> ϵ"));
}

#[test]
fn ll1_tree_of_a_parse() {
    let p = LL1Parser::new(Grammar::from_string("S -> a B\nB -> b").unwrap()).unwrap();
    let (snaps, tree) = p.parse_with_tree(strings(&["a", "b"])).unwrap();
    assert_eq!(snaps.len(), 5);
    assert_eq!(tree.label, "S");
    assert_eq!(tree.node_type, "non_terminal");
    let labels: Vec<&str> = tree.children.iter().map(|c| c.label.as_str()).collect();
    assert_eq!(labels, vec!["a", "B"]);
    assert_eq!(tree.children[1].children[0].label, "b");
    assert_eq!(tree.children[1].children[0].node_type, "terminal");
}

#[test]
fn ll1_follow_of_start_holds_end_marker() {
    let p = LL1Parser::new(Grammar::from_string("E -> T E'\nE' -> + T E' | ε\nT -> id").unwrap()).unwrap();
    let e = Symbol::NonTerminal("E".to_string());
    assert!(p.follow.get(&e).unwrap().contains(&Symbol::Terminal("$".to_string())));
    let ep = Symbol::NonTerminal("E'".to_string());
    let cell = p.table.get(&(ep, Symbol::Terminal("$".to_string()))).unwrap();
    assert_eq!(*cell, vec![Symbol::Epsilon]);
}

// ───────────── LR(0), SLR(1), LR(1) ─────────────

#[test]
fn lr0_item_and_action_texts() {
    let prod = Production {
        left: Symbol::NonTerminal("S".to_string()),
        right: vec![Symbol::Terminal("a".to_string()), Symbol::NonTerminal("B".to_string())],
    };
    assert_eq!(LR0Item::new(prod.clone(), 0).to_display_string(), "S → · a B");
    assert_eq!(LR0Item::new(prod.clone(), 1).to_display_string(), "S → a · B");
    assert_eq!(LR0Item::new(prod.clone(), 2).to_display_string(), "S → a B ·");
    assert!(LR0Item::new(prod.clone(), 2).is_complete());
    assert_eq!(LR0Item::new(prod.clone(), 1).next_symbol(), Some(&Symbol::NonTerminal("B".to_string())));
    let eps = Production { left: Symbol::NonTerminal("A".to_string()), right: vec![Symbol::Epsilon] };
    assert_eq!(LR0Item::new(eps.clone(), 0).to_display_string(), "A → ·");
    assert!(LR0Item::new(eps, 0).is_complete());
    assert_eq!(LR0Action::Shift(3).to_display_string(), "s3");
    assert_eq!(LR0Action::Reduce(12, "S → a".to_string()).to_display_string(), "r12");
    assert_eq!(LR0Action::Accept.to_display_string(), "acc");
}

#[test]
fn lr0_snapshots_and_lists() {
    let p = LR0Parser::new(Grammar::from_string("S -> b a").unwrap()).unwrap();
    assert_eq!(p.get_all_terminals(), strings(&["a", "b", "$"]));
    assert_eq!(p.get_all_non_terminals(), strings(&["S"]));
    let snaps = p.parse_input(strings(&["b", "a"])).unwrap();
    for (i, s) in snaps.iter().enumerate() {
        assert_eq!(s.step, i);
    }
    assert_eq!(snaps[0].state_stack, vec![0]);
    assert_eq!(snaps[0].input_remaining, strings(&["b", "a", "$"]));
    assert!(snaps[0].action.starts_with("Shift 'b' → push state "));
    assert_eq!(snaps[2].action, "Reduce by S → b a");
    assert_eq!(snaps.last().unwrap().action, "Accept! ✓");
}

#[test]
fn lr0_syntax_error_message() {
    let p = LR0Parser::new(Grammar::from_string("S -> a").unwrap()).unwrap();
    assert_eq!(p.parse_input(strings(&["b"])).unwrap_err(), "Syntax Error: No action for state 0 on input 'b'");
}

#[test]
fn lr0_conflict_message() {
    let e = LR0Parser::new(Grammar::from_string("S -> A | B\nA -> a\nB -> a").unwrap()).err().unwrap();
    assert!(e.starts_with("Grammar is not LR(0): Reduce-Reduce conflict in state "), "{}", e);
}

#[test]
fn lr0_closure_of_closure_is_the_same() {
    let p = LR0Parser::new(Grammar::from_string("S -> A b\nA -> a A | c").unwrap()).unwrap();
    let start = vec![LR0Item::new(p.augmented_grammar.productions[0].clone(), 0)];
    let once = p.closure(&start);
    let twice = p.closure(&once);
    let texts = |v: &Vec<LR0Item>| {
        let mut t: Vec<String> = v.iter().map(|i| i.to_display_string()).collect();
        t.sort();
        t
    };
    assert_eq!(texts(&once), texts(&twice));
    assert_eq!(once.len(), 4);
    let g = p.goto(&once, &Symbol::Terminal("a".to_string()));
    assert_eq!(texts(&g), vec!["A → a · A".to_string(), "A → · a A".to_string(), "A → · c".to_string()]);
    assert!(p.goto(&once, &Symbol::Terminal("b".to_string())).is_empty());
}

#[test]
fn slr1_conflict_message() {
    let e = SLR1Parser::new(Grammar::from_string("S -> A B | C D\nA -> a\nB -> b\nC -> a\nD -> b").unwrap())
        .err()
        .unwrap();
    assert!(e.starts_with("Grammar is not SLR(1): Reduce-Reduce conflict in state "), "{}", e);
}

#[test]
fn lr1_tree_of_a_parse() {
    let p = LR1Parser::new(Grammar::from_string("S -> a B\nB -> b").unwrap()).unwrap();
    let (snaps, tree) = p.parse_input_with_tree(strings(&["a", "b"])).unwrap();
    assert_eq!(snaps.last().unwrap().action, "Accept! ✓");
    assert_eq!(tree.label, "S");
    assert_eq!(tree.node_type, "non_terminal");
    let labels: Vec<&str> = tree.children.iter().map(|c| c.label.as_str()).collect();
    assert_eq!(labels, vec!["a", "B"]);
    assert_eq!(tree.children[1].children[0].label, "b");
    let plain = p.parse_input(strings(&["a", "b"])).unwrap();
    assert_eq!(plain.len(), snaps.len());
}

#[test]
fn lr1_epsilon_reduction_makes_epsilon_leaf() {
    let p = LR1Parser::new(Grammar::from_string("S -> A b\nA -> a | ϵ").unwrap()).unwrap();
    let (_, tree) = p.parse_input_with_tree(strings(&["b"])).unwrap();
    assert_eq!(tree.children[0].label, "A");
    assert_eq!(tree.children[0].children[0].label, "ϵ");
    assert_eq!(tree.children[0].children[0].node_type, "epsilon");
}

// ───────────── recursive descent ─────────────

#[test]
fn rd_tree_and_refusal() {
    let p = RecursiveDescentParser::new(Grammar::from_string("S -> a B\nB -> b").unwrap()).unwrap();
    let (snaps, tree) = p.parse_input_with_tree(strings(&["a", "b"])).unwrap();
    assert_eq!(snaps.last().unwrap().action, "Accept! ✓");
    assert_eq!(tree.label, "S");
    assert_eq!(tree.children.len(), 2);
    for (i, s) in snaps.iter().enumerate() {
        assert_eq!(s.step, i);
    }
    let left = Grammar::from_string("S -> S a | a").unwrap();
    assert!(left.is_left_recursive());
    assert!(RecursiveDescentParser::new(left).is_err());
}

#[test]
fn rd_input_not_consumed() {
    let p = RecursiveDescentParser::new(Grammar::from_string("S -> a").unwrap()).unwrap();
    assert_eq!(
        p.parse_input(strings(&["a", "b"])).unwrap_err(),
        "Syntax Error: Unexpected 'b' — input not fully consumed"
    );
    assert_eq!(p.parse_input(strings(&["b"])).unwrap_err(), "Syntax Error: Input does not match grammar.");
}

// ───────────── trees ─────────────

#[test]
fn ast_prunes_epsilon_and_chains() {
    let t = node(0, "S", "non_terminal", vec![
        node(1, "A", "non_terminal", vec![leaf(2, "a", "terminal")]),
        leaf(3, "ϵ", "epsilon"),
        leaf(4, "b", "terminal"),
    ]);
    let a = t.to_ast();
    assert_eq!(a.id, 0);
    let ids: Vec<usize> = a.children.iter().map(|c| c.id).collect();
    assert_eq!(ids, vec![2, 4]);
    let again = a.to_ast();
    assert_eq!(again.id, a.id);
    let ids2: Vec<usize> = again.children.iter().map(|c| c.id).collect();
    assert_eq!(ids2, ids);
}

#[test]
fn ast_collapses_single_child_root() {
    let t = node(0, "S", "non_terminal", vec![node(1, "A", "non_terminal", vec![leaf(2, "x", "terminal"), leaf(3, "ϵ", "epsilon")])]);
    let a = t.to_ast();
    assert_eq!(a.id, 2);
    assert_eq!(a.label, "x");
    assert!(a.children.is_empty());
}

const DOT_HEAD: &str = "digraph G {\n\trankdir=TB;\n\tbgcolor=\"transparent\";\n\tnode [fontname=\"Courier,monospace\" fontsize=13 margin=\"0.12,0.06\" penwidth=1.5];\n\tedge [color=\"#64748b\" arrowsize=0.75 penwidth=1.2];\n";

#[test]
fn dot_of_a_tree() {
    let t = node(0, "S", "non_terminal", vec![leaf(1, "a", "terminal"), leaf(2, "ϵ", "epsilon")]);
    let expected = format!(
        "{}{}{}{}{}",
        DOT_HEAD,
        "\tn0 [label=\"S\" shape=ellipse style=\"filled,rounded\" fillcolor=\"#f59e0b\" fontcolor=\"#0f172a\" color=\"#d97706\"];\n",
        "\tn1 [label=\"a\" shape=box style=\"filled,rounded\" fillcolor=\"#10b981\" fontcolor=\"#ffffff\" color=\"#059669\"];\n",
        "\tn2 [label=\"ϵ\" shape=ellipse style=\"filled,rounded\" fillcolor=\"#1e293b\" fontcolor=\"#64748b\" color=\"#334155\"];\n",
        "\tn0 -> n1;\n\tn0 -> n2;\n}",
    );
    assert_eq!(t.to_dot("G"), expected);
}

#[test]
fn dot_edges_follow_the_layout_order() {
    let t = node(7, "S", "non_terminal", vec![
        node(8, "A", "non_terminal", vec![leaf(9, "a\"b\\c", "terminal")]),
        leaf(10, "b", "terminal"),
    ]);
    let dot = t.to_dot("G");
    assert!(dot.starts_with(DOT_HEAD));
    assert!(dot.contains("\tn9 [label=\"a\\\"b\\\\c\" shape=box"));
    assert!(dot.ends_with("\tn8 -> n9;\n\tn7 -> n8;\n\tn7 -> n10;\n}"));
    let n7 = dot.find("\tn7 [").unwrap();
    let n8 = dot.find("\tn8 [").unwrap();
    let n9 = dot.find("\tn9 [").unwrap();
    let n10 = dot.find("\tn10 [").unwrap();
    assert!(n7 < n8 && n8 < n9 && n9 < n10);
}

// ───────────── endpoints ─────────────

#[test]
fn analyze_reports_grammar() {
    let (status, r) = analyze_grammar(AnalyzeRequest { raw_grammar: "S -> S a | b".to_string() });
    assert_eq!(status, 200);
    assert_eq!(r.status, "success");
    assert_eq!(r.has_left_recursion, Some(true));
    assert_eq!(r.start_symbol, Some(Symbol::NonTerminal("S".to_string())));
    assert_eq!(r.production_count, Some(2));
    assert_eq!(r.productions.unwrap().len(), 2);
    assert!(r.message.is_none());
}

#[test]
fn analyze_reports_error() {
    let (status, r) = analyze_grammar(AnalyzeRequest { raw_grammar: "a -> b".to_string() });
    assert_eq!(status, 400);
    assert_eq!(r.status, "error");
    assert_eq!(r.message, Some("Left side must be a Non-Terminal: a".to_string()));
    assert!(r.has_left_recursion.is_none() && r.start_symbol.is_none() && r.productions.is_none());
}

#[test]
fn parse_ll1_endpoint() {
    let (status, r) = parse_ll1(request("S -> a B\nB -> b", "ab"));
    assert_eq!(status, 200);
    assert_eq!(r.status, "success");
    assert_eq!(r.snapshots.unwrap().len(), 5);
    let table = r.parsing_table.unwrap();
    assert_eq!(table.len(), 2);
    assert_eq!(table.get(&("S".to_string(), "a".to_string())), Some(&"a B".to_string()));
    assert_eq!(table.get(&("B".to_string(), "b".to_string())), Some(&"b".to_string()));

    let (status, r) = parse_ll1(request("S -> a B\nB -> b", "x"));
    assert_eq!(status, 200);
    assert_eq!(r.status, "error");
    assert_eq!(r.message, Some("Syntax Error: No rule for [S, x]".to_string()));
    assert!(r.parsing_table.is_none());

    let (status, r) = parse_ll1(request("", "x"));
    assert_eq!(status, 400);
    assert_eq!(r.message, Some("Grammar Error: Grammar must have at least one production".to_string()));

    let (status, r) = parse_ll1(request("S -> a A | a B\nA -> x\nB -> y", "a x"));
    assert_eq!(status, 400);
    assert_eq!(r.message, Some("Grammar is not LL(1): Multiple entries for [S, a]".to_string()));
}

#[test]
fn parse_lr0_endpoint() {
    let (status, r) = parse_lr0(request("S -> a", "a"));
    assert_eq!(status, 200);
    assert_eq!(r.status, "success");
    let a = r.automaton.unwrap();
    assert_eq!(a.states.len(), 3);
    assert_eq!(a.states.iter().filter(|s| s.is_accept).count(), 1);
    for (i, s) in a.states.iter().enumerate() {
        assert_eq!(s.id, i);
    }
    assert_eq!(a.states[0].items, strings(&["S' → · S", "S → · a"]));
    assert_eq!(a.transitions.len(), 2);
    assert_eq!(r.action_table.unwrap().len(), 4);
    assert_eq!(r.goto_table.unwrap().len(), 1);
    assert_eq!(r.terminals, Some(strings(&["a", "$"])));
    assert_eq!(r.non_terminals, Some(strings(&["S"])));
    let snaps = r.snapshots.unwrap();
    assert_eq!(snaps.len(), 3);
    assert_eq!(snaps[2].action, "Accept! ✓");

    let (status, r) = parse_lr0(request("S -> A | B\nA -> a\nB -> a", "a"));
    assert_eq!(status, 400);
    assert!(r.message.unwrap().starts_with("LR(0) Table Error: Grammar is not LR(0): Reduce-Reduce conflict"));
    assert!(r.automaton.is_none());

    let (status, r) = parse_lr0(request("S -> a", "b"));
    assert_eq!(status, 200);
    assert_eq!(r.status, "error");
    assert!(r.automaton.is_some() && r.snapshots.is_none());
    assert_eq!(r.message, Some("Syntax Error: No action for state 0 on input 'b'".to_string()));
}

#[test]
fn parse_slr1_endpoint() {
    let (status, r) = parse_slr1(request("S -> a", "a"));
    assert_eq!(status, 200);
    assert_eq!(r.action_table.unwrap().len(), 3);
    assert_eq!(r.snapshots.unwrap().last().unwrap().action, "Accept! ✓");

    let (status, r) = parse_slr1(request("S -> a B c | a C d\nB -> b\nC -> b", "a b d"));
    assert_eq!(status, 200);
    assert_eq!(r.status, "success");

    let (status, r) = parse_slr1(request("S -> A B | C D\nA -> a\nB -> b\nC -> a\nD -> b", "ab"));
    assert_eq!(status, 400);
    assert!(r.message.unwrap().starts_with("SLR(1) Table Error: Grammar is not SLR(1)"));
}

// ───────────── assistant ─────────────

fn ai_request(kind: &str, error: Option<&str>, input: Option<&str>, parser: Option<&str>) -> AiAssistRequest {
    AiAssistRequest {
        grammar: "S -> a".to_string(),
        request_type: kind.to_string(),
        error_message: error.map(|s| s.to_string()),
        input_string: input.map(|s| s.to_string()),
        parser_type: parser.map(|s| s.to_string()),
    }
}

#[test]
fn prompt_for_an_error() {
    let p = build_prompt(&ai_request("explain_error", Some("boom"), None, Some("LL(1)")));
    assert_eq!(
        p,
        "Eres un experto en compiladores y teoría de lenguajes formales. Explica en español, de forma clara y educativa (máximo 3 párrafos), por qué falló el siguiente análisis sintáctico:\n\nGramática:\nS -> a\n\nCadena de entrada: \"\"\nAlgoritmo de parsing: LL(1)\nMensaje de error del parser: \"boom\"\n\nExplica: (1) qué significa el error, (2) por qué ocurre con esta gramática/entrada, (3) qué token o producción causó el problema."
    );
    let p = build_prompt(&ai_request("explain_error", None, Some("a a"), None));
    assert!(p.contains("Cadena de entrada: \"a a\"\nAlgoritmo de parsing: desconocido\nMensaje de error del parser: \"error desconocido\""));
}

#[test]
fn prompts_for_other_requests() {
    let p = build_prompt(&ai_request("fix_ambiguity", None, None, None));
    assert!(p.starts_with("Eres un experto en compiladores. Analiza esta gramática libre de contexto"));
    assert!(p.ends_with("Gramática a analizar:\nS -> a"));
    let p = build_prompt(&ai_request("suggest_ll1_transform", None, None, None));
    assert!(p.starts_with("Eres un experto en compiladores. Transforma esta gramática para que sea LL(1)."));
    assert!(p.ends_with("Gramática original:\nS -> a"));
    let p = build_prompt(&ai_request("other", None, None, None));
    assert_eq!(p, "Analiza esta gramática libre de contexto y da recomendaciones en español:\nS -> a");
}

const REPLY: &str = "DIAGNÓSTICO: x\n\nPROBLEMAS:\n- uno\n-- dos\n  - tres\n-\n\nGRAMÁTICA CORREGIDA:\nS -> a\n\nEXPLICACIÓN: y";

#[test]
fn sections_of_a_reply() {
    assert_eq!(extract_section(REPLY, "PROBLEMAS:"), "- uno\n-- dos\n  - tres\n-");
    assert_eq!(extract_section(REPLY, "GRAMÁTICA CORREGIDA:"), "S -> a");
    assert_eq!(extract_section(REPLY, "EXPLICACIÓN:"), "y");
    assert_eq!(extract_section(REPLY, "PASOS:"), "");
    assert_eq!(extract_section("PASOS:PASOS: a", "PASOS:"), "PASOS: a");
}

#[test]
fn reply_cut_by_request_kind() {
    let r = parse_ai_response("fix_ambiguity", REPLY.to_string());
    assert_eq!(r.status, "success");
    assert_eq!(r.explanation, Some(REPLY.to_string()));
    assert_eq!(r.suggestions, Some(strings(&["uno", "dos", "- tres"])));
    assert_eq!(r.transformed_grammar, Some("S -> a".to_string()));

    let r = parse_ai_response("suggest_ll1_transform", "GRAMÁTICA LL(1):\nS -> a\nVERIFICACIÓN: ok".to_string());
    assert_eq!(r.transformed_grammar, Some("S -> a".to_string()));
    assert!(r.suggestions.is_none());

    let r = parse_ai_response("suggest_ll1_transform", "nada".to_string());
    assert!(r.transformed_grammar.is_none());

    let r = parse_ai_response("explain_error", REPLY.to_string());
    assert!(r.suggestions.is_none() && r.transformed_grammar.is_none());
    assert_eq!(r.explanation, Some(REPLY.to_string()));
}

#[test]
fn reply_without_text_is_an_error() {
    let (status, r) = ai_reply("explain_error", None, Some("bad key".to_string()));
    assert_eq!(status, 200);
    assert_eq!(r.status, "error");
    assert_eq!(r.message, Some("bad key".to_string()));
    let (_, r) = ai_reply("explain_error", None, None);
    assert_eq!(r.message, Some("Empty response from Groq".to_string()));
    let (status, r) = ai_reply("fix_ambiguity", Some(REPLY.to_string()), None);
    assert_eq!(status, 200);
    assert_eq!(r.transformed_grammar, Some("S -> a".to_string()));
    let (status, r) = ai_failure("down".to_string());
    assert_eq!(status, 500);
    assert_eq!(r.status, "error");
    assert_eq!(r.message, Some("down".to_string()));
}

#[test]
fn lr0_grammar_has_slr1_tables_within_lr0_tables() {
    let raw = "S -> ( S ) | a";
    let lr0 = LR0Parser::new(Grammar::from_string(raw).unwrap()).unwrap();
    let slr1 = SLR1Parser::new(Grammar::from_string(raw).unwrap()).unwrap();
    assert_eq!(lr0.states.len(), slr1.states.len());
    for ((state, symbol), action) in slr1.action_table.entries() {
        let kept = lr0.action_table.get(&(*state, symbol.clone())).unwrap();
        assert_eq!(kept.to_display_string(), action.to_display_string());
    }
    assert!(slr1.action_table.entries().len() < lr0.action_table.entries().len());
    assert_eq!(lr0.goto_table.entries().len(), slr1.goto_table.entries().len());
    for ((state, symbol), to_state) in slr1.goto_table.entries() {
        assert_eq!(lr0.goto_table.get(&(*state, symbol.clone())), Some(to_state));
    }
}

#[test]
fn direct_left_recursion_conflicts_at_first_of_alternative() {
    let g = Grammar::from_string("A -> A b | c").unwrap();
    match LL1Parser::new(g) {
        Ok(_) => panic!("left-recursive grammar accepted"),
        Err(e) => assert_eq!(e, "Grammar is not LL(1): Multiple entries for [A, c]"),
    }
}

#[test]
fn first_of_terminal_holds_only_itself() {
    let g = Grammar::from_string("S -> a B | b\nB -> b | ϵ").unwrap();
    let p = LL1Parser::new(g).unwrap();
    let a = Symbol::Terminal("a".to_string());
    let b = Symbol::Terminal("b".to_string());
    let fa = p.first.get(&a).unwrap();
    assert!(fa.contains(&a));
    assert_eq!(fa.len(), 1);
    let fb = p.first.get(&b).unwrap();
    assert!(fb.contains(&b));
    assert_eq!(fb.len(), 1);
}

#[test]
fn ll1_accepts_each_derived_input_of_a_nested_grammar() {
    let g = Grammar::from_string("S -> a S b | ϵ").unwrap();
    let p = LL1Parser::new(g).unwrap();
    for n in 0..4 {
        let mut input: Vec<String> = Vec::new();
        for _ in 0..n {
            input.push("a".to_string());
        }
        for _ in 0..n {
            input.push("b".to_string());
        }
        let r = p.parse(input).unwrap();
        assert_eq!(r.last().unwrap().action, "Success!");
    }
}

#[test]
fn left_recursion_through_nullable_prefix() {
    let g = Grammar::from_string("S -> A S b | c\nA -> ε").unwrap();
    assert!(g.is_left_recursive());
    assert!(RecursiveDescentParser::new(Grammar::from_string("S -> A S b | c\nA -> ε").unwrap()).is_err());
    let h = Grammar::from_string("S -> A S b | c\nA -> a").unwrap();
    assert!(!h.is_left_recursive());
}

#[test]
fn tree_parse_leaves_epsilon_out_of_step_text() {
    let p = LL1Parser::new(Grammar::from_string("S -> a ϵ").unwrap()).unwrap();
    let plain = p.parse(strings(&["a"])).unwrap();
    assert_eq!(plain[0].action, "S -> a ϵ");
    let (snaps, _) = p.parse_with_tree(strings(&["a"])).unwrap();
    assert_eq!(snaps[0].action, "S -> a");
    assert_eq!(snaps.last().unwrap().action, "Success!");
}

#[test]
fn word_case_decides_symbol_kind() {
    assert!(word_starts_uppercase("Expr"));
    assert!(!word_starts_uppercase("id"));
    assert!(!word_starts_uppercase("+"));
}

#[test]
fn ast_of_ast_is_the_same() {
    let p = LL1Parser::new(Grammar::from_string("E -> T E'\nE' -> + T E' | ϵ\nT -> id").unwrap()).unwrap();
    let (_, tree) = p.parse_with_tree(strings(&["id", "+", "id"])).unwrap();
    let once = tree.to_ast();
    let twice = once.to_ast();
    assert_eq!(format!("{:?}", once), format!("{:?}", twice));
}

fn terminal_leaves(t: &ParseTreeNode, out: &mut Vec<String>) {
    if t.node_type == "terminal" {
        out.push(t.label.clone());
    } else {
        for c in &t.children {
            terminal_leaves(c, out);
        }
    }
}

fn all_ids(t: &ParseTreeNode, out: &mut Vec<usize>) {
    out.push(t.id);
    for c in &t.children {
        assert!(c.id < t.id);
        all_ids(c, out);
    }
}

#[test]
fn lr1_tree_leaves_spell_the_input() {
    let p = LR1Parser::new(Grammar::from_string("E -> E + T | T\nT -> id | ( E )").unwrap()).unwrap();
    let input = strings(&["id", "+", "(", "id", ")"]);
    let (_, tree) = p.parse_input_with_tree(input.clone()).unwrap();
    assert_eq!(tree.label, "E");
    let mut leaves = Vec::new();
    terminal_leaves(&tree, &mut leaves);
    assert_eq!(leaves, input);
    let mut ids = Vec::new();
    all_ids(&tree, &mut ids);
    ids.sort();
    assert_eq!(ids, (0..ids.len()).collect::<Vec<usize>>());
}

#[test]
fn rd_tree_leaves_spell_the_input() {
    let p = RecursiveDescentParser::new(Grammar::from_string("S -> a S b | c").unwrap()).unwrap();
    let input = strings(&["a", "a", "c", "b", "b"]);
    let (_, tree) = p.parse_input_with_tree(input.clone()).unwrap();
    assert_eq!(tree.label, "S");
    let mut leaves = Vec::new();
    terminal_leaves(&tree, &mut leaves);
    assert_eq!(leaves, input);
    let labels: Vec<&str> = tree.children.iter().map(|c| c.label.as_str()).collect();
    assert_eq!(labels, vec!["a", "S", "b"]);
    let mut ids = Vec::new();
    all_ids(&tree, &mut ids);
    let n = ids.len();
    ids.sort();
    ids.dedup();
    assert_eq!(ids.len(), n);
}

#[test]
fn shift_preference_can_miss_a_derived_input() {
    let raw = "S -> a b | A b b\nA -> a";
    let input = strings(&["a", "b", "b"]);
    let lr0 = LR0Parser::new(Grammar::from_string(raw).unwrap()).unwrap();
    assert!(lr0.parse_input(input.clone()).is_err());
    let slr1 = SLR1Parser::new(Grammar::from_string(raw).unwrap()).unwrap();
    assert!(slr1.parse_input(input.clone()).is_err());
    let lr1 = LR1Parser::new(Grammar::from_string(raw).unwrap()).unwrap();
    assert!(lr1.parse_input(input.clone()).is_err());
    assert!(lr1.parse_input(strings(&["a", "b"])).is_ok());
}

#[test]
fn reduce_reduce_conflict_is_found_past_a_shift() {
    let raw = "S -> A x | B x | c x y\nA -> c\nB -> c";
    let slr = SLR1Parser::new(Grammar::from_string(raw).unwrap());
    assert!(slr.err().unwrap().starts_with("Grammar is not SLR(1)"));
    let lr1 = LR1Parser::new(Grammar::from_string(raw).unwrap());
    assert!(lr1.err().unwrap().starts_with("Grammar is not LR(1)"));
    let lr0 = LR0Parser::new(Grammar::from_string(raw).unwrap());
    assert!(lr0.is_err());
}
