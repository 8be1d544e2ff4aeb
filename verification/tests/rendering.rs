use hulk_compiler::regex::parser::parse_regex;
use hulk_compiler::regex::node::RegexChar;
use hulk_compiler::nfa::nfa::NFA;
use hulk_compiler::nfa::state::{State, StateId};
use hulk_compiler::nfa::join_nfa::AcceptInfo;
use hulk_compiler::dfa::dfa::{DFA, DFAState};
use hulk_compiler::parser::cst::DerivationNode;
use hulk_compiler::parser::token::{make_token, TokenType};

fn small_nfa() -> NFA {
    let s0 = State {
        id: StateId(0),
        transitions: vec![(None, StateId(1)), (Some(RegexChar::Literal('a')), StateId(2)), (None, StateId(3))],
        is_final: false,
    };
    let s1 = State { id: StateId(1), transitions: vec![], is_final: false };
    NFA { states: vec![s0, s1], start: StateId(0), accepts: vec![StateId(2)] }
}

#[test]
fn regex_children_of_binary_node() {
    let ast = parse_regex("ab").unwrap();
    let kids: Vec<String> = ast.children().iter().map(|k| k.to_repr()).collect();
    assert_eq!(kids, vec!["Literal('a')".to_string(), "Literal('b')".to_string()]);
}

#[test]
fn regex_children_of_group_are_those_inside() {
    let ast = parse_regex("(ab)").unwrap();
    assert_eq!(ast.children().len(), 2);
    assert!(parse_regex("a").unwrap().children().is_empty());
}

#[test]
fn derivation_tree_text() {
    let mut root = DerivationNode::new("S");
    root.add_child(DerivationNode::with_token("A", make_token(TokenType::IDENT, "x", 1, 1)));
    root.add_child(DerivationNode::new("B"));
    assert_eq!(root.to_string(), "S\n  A -> 'x'\n  B\n");
}

#[test]
fn dfa_description() {
    let dfa = DFA {
        states: vec![
            ("{0}".to_string(), DFAState { nfa_subset: vec![StateId(0)], accept: None }),
            ("{1}".to_string(), DFAState {
                nfa_subset: vec![StateId(1)],
                accept: Some(AcceptInfo { token_type: "A".to_string(), priority: 0 }),
            }),
        ],
        transitions: vec![(("{0}".to_string(), RegexChar::Literal('a')), "{1}".to_string())],
        start: "{0}".to_string(),
    };
    assert_eq!(
        dfa.imprimir_text(),
        "\nDFA resultante:\nEstado inicial: {0}\nEstados DFA:\n  {0}\n  {1} (aceptación: A, prioridad: 0)\nTransiciones DFA:\n  {0} --Literal('a')--> {1}\n"
    );
}

#[test]
fn nfa_visualization_groups_targets_by_label() {
    assert_eq!(
        small_nfa().visualize_text(),
        "NFA Visualization:\n  Estado inicial: StateId(0)\n  Estados de aceptación: [StateId(2)]\n  Transiciones:\n    StateId(0) --ε--> [StateId(1), StateId(3)]\n    StateId(0) --Literal('a')--> [StateId(2)]\n"
    );
}

#[test]
fn nfa_transition_table() {
    let mut want = String::new();
    want.push_str("  Estado inicial: StateId(0)\n");
    want.push_str("  Estados de aceptación: [StateId(2)]\n");
    want.push_str(&format!("{:>8}", "  Estado  "));
    want.push_str(&format!(" | {:>12}", "Literal('a')"));
    want.push_str(&format!(" | {:>12}", "ε"));
    want.push('\n');
    want.push_str(&format!("{:>8}", "StateId(0)"));
    want.push_str(&format!(" | {:>12}", "StateId(2)"));
    want.push_str(&format!(" | {:>12}", "StateId(1),StateId(3)"));
    want.push('\n');
    want.push_str(&format!("{:>8}", "StateId(1)"));
    want.push_str(&format!(" | {:>12}", "-"));
    want.push_str(&format!(" | {:>12}", "-"));
    want.push('\n');
    assert_eq!(small_nfa().transition_table_text(), want);
}

#[test]
fn nfa_table_columns_are_sorted() {
    let s0 = State {
        id: StateId(0),
        transitions: vec![(Some(RegexChar::Literal('b')), StateId(1)), (Some(RegexChar::Any), StateId(1)), (Some(RegexChar::Literal('a')), StateId(1))],
        is_final: false,
    };
    let nfa = NFA { states: vec![s0], start: StateId(0), accepts: vec![] };
    let text = nfa.transition_table_text();
    let header = text.lines().nth(2).unwrap();
    let a = header.find("Literal('a')").unwrap();
    let b = header.find("Literal('b')").unwrap();
    let any = header.find("Any").unwrap();
    assert!(a < b && b < any);
}

#[test]
fn nfa_description_groups_transitions_by_label() {
    let text = small_nfa().to_string();
    assert_eq!(
        text,
        "Inicio: StateId(0)\nFinales: [StateId(2)]\n  StateId(0) --ε--> StateId(1)\n  StateId(0) --ε--> StateId(3)\n  StateId(0) --Literal('a')--> StateId(2)\n"
    );
}
