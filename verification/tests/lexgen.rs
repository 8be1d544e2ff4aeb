use hulk_compiler::regex::parser::parse_regex;
use hulk_compiler::regex::node::{AstNodeImpl, AstNodeKind, RegexClass};
use hulk_compiler::nfa::nfa::NFA;
use hulk_compiler::nfa::join_nfa::JoinedNFA;
use hulk_compiler::nfa::state::StateId;
use hulk_compiler::dfa::dfa::DFA;
use hulk_compiler::dfa::utils::{subset_to_string, vec_to_subset};
use hulk_compiler::lexemes::extractor::extract_lexemes;
use hulk_compiler::lexer::build_nfas;
use hulk_compiler::generator::TokenSpec;
use hulk_compiler::token_spec::{parse_token_spec, token_spec_of_line};

fn spec(name: &str, regex: &str) -> TokenSpec {
    TokenSpec { name: name.to_string(), regex: regex.to_string() }
}

fn dfa_of(specs: &Vec<TokenSpec>) -> DFA {
    let nfas = build_nfas(specs);
    let joined = JoinedNFA::join(nfas);
    DFA::from_joined_nfa(&joined)
}

#[test]
fn subset_name_lists_sorted_ids() {
    assert_eq!(subset_to_string(&vec![StateId(0), StateId(3), StateId(4)]), "{0,3,4}");
}

#[test]
fn subset_name_of_empty_set() {
    assert_eq!(subset_to_string(&vec![]), "{}");
}

#[test]
fn vec_to_subset_sorts_and_drops_repeats() {
    let r = vec_to_subset(vec![StateId(4), StateId(0), StateId(4), StateId(3)]);
    assert_eq!(r, vec![StateId(0), StateId(3), StateId(4)]);
}

#[test]
fn regex_single_literal_repr() {
    assert_eq!(parse_regex("a").unwrap().to_repr(), "Literal('a')");
}

#[test]
fn regex_concat_repr() {
    assert_eq!(parse_regex("ab").unwrap().to_repr(), "(BinOp Concat Literal('a') Literal('b'))");
}

#[test]
fn regex_alternation_repr() {
    assert_eq!(parse_regex("a|b").unwrap().to_repr(), "(BinOp Or Literal('a') Literal('b'))");
}

#[test]
fn regex_star_repr() {
    assert_eq!(parse_regex("a*").unwrap().to_repr(), "(UnOp Star Literal('a'))");
}

#[test]
fn regex_group_repr() {
    assert_eq!(parse_regex("(a)").unwrap().to_repr(), "(Group Literal('a'))");
}

#[test]
fn regex_empty_input_has_no_tree() {
    assert!(parse_regex("   ").is_none());
}

#[test]
fn regex_unbalanced_paren_has_no_tree() {
    assert!(parse_regex("(a").is_none());
}

#[test]
fn nfa_accepts_exactly_its_language() {
    let ast = parse_regex("ab*").unwrap();
    let nfa = NFA::from_ast(&ast);
    assert!(nfa.accepts("a"));
    assert!(nfa.accepts("abbb"));
    assert!(!nfa.accepts(""));
    assert!(!nfa.accepts("ba"));
}

#[test]
fn nfa_alternation_accepts_both_sides() {
    let nfa = NFA::from_ast(&parse_regex("x|yz").unwrap());
    assert!(nfa.accepts("x"));
    assert!(nfa.accepts("yz"));
    assert!(!nfa.accepts("xy"));
}

#[test]
fn nfa_anchored_both_ends_matches_exactly() {
    let nfa = NFA::from_ast(&parse_regex("^(ab)$").unwrap());
    assert!(nfa.accepts("ab"));
    assert!(!nfa.accepts("abc"));
    assert!(!nfa.accepts("xab"));
    assert!(!nfa.accepts(""));
}

#[test]
fn nfa_leading_anchor_allows_any_rest() {
    let nfa = NFA::from_ast(&parse_regex("^ab").unwrap());
    assert!(nfa.accepts("ab"));
    assert!(nfa.accepts("abzz"));
    assert!(!nfa.accepts("zab"));
    assert!(!nfa.accepts("a"));
}

#[test]
fn nfa_trailing_anchor_allows_any_prefix() {
    let nfa = NFA::from_ast(&parse_regex("(ab)$").unwrap());
    assert!(nfa.accepts("ab"));
    assert!(nfa.accepts("zzab"));
    assert!(nfa.accepts("abab"));
    assert!(!nfa.accepts("abz"));
}

#[test]
fn nfa_trailing_anchor_binds_to_last_factor() {
    let nfa = NFA::from_ast(&parse_regex("ab$").unwrap());
    assert!(nfa.accepts("ab"));
    assert!(nfa.accepts("azzb"));
    assert!(!nfa.accepts("zab"));
}

#[test]
fn nfa_leading_anchor_before_tail_reads_the_tail() {
    let nfa = NFA::from_ast(&parse_regex("^ab$").unwrap());
    assert!(nfa.accepts("ab"));
    assert!(nfa.accepts("azb"));
    assert!(!nfa.accepts("zab"));
    assert!(!nfa.accepts("abz"));
}

#[test]
fn nfa_dot_matches_one_character_but_a_line_feed() {
    let dot = AstNodeImpl { kind: AstNodeKind::Class(RegexClass::Dot) };
    let nfa = NFA::from_ast(&dot);
    assert!(nfa.accepts("a"));
    assert!(nfa.accepts("7"));
    assert!(!nfa.accepts("\n"));
    assert!(!nfa.accepts(""));
    assert!(!nfa.accepts("ab"));
}

#[test]
fn nfa_anchor_runs_stop_at_a_line_feed() {
    let lead = NFA::from_ast(&parse_regex("^ab").unwrap());
    assert!(!lead.accepts("ab\nz"));
    let trail = NFA::from_ast(&parse_regex("(ab)$").unwrap());
    assert!(!trail.accepts("z\nab"));
    assert!(trail.accepts("zab"));
}

#[test]
fn token_spec_line_is_split_at_colon() {
    let ts = token_spec_of_line("  NUM : [0-9]+  ").unwrap();
    assert_eq!(ts.name, "NUM");
    assert_eq!(ts.regex, "[0-9]+");
}

#[test]
fn token_spec_comments_and_blank_lines_are_skipped() {
    assert!(token_spec_of_line("# comment").is_none());
    assert!(token_spec_of_line("   ").is_none());
    assert!(token_spec_of_line("no colon here").is_none());
}

#[test]
fn token_spec_lines_in_order() {
    let lines = vec!["ID: [a-z]+".to_string(), "".to_string(), "# x".to_string(), "NUM:[0-9]+".to_string()];
    let specs = parse_token_spec(&lines);
    assert_eq!(specs.len(), 2);
    assert_eq!(specs[0].name, "ID");
    assert_eq!(specs[1].name, "NUM");
    assert_eq!(specs[1].regex, "[0-9]+");
}

#[test]
fn build_nfas_keeps_names_and_priorities() {
    let specs = vec![spec("NUM", "[0-9]+"), spec("ID", "[a-z]+")];
    let nfas = build_nfas(&specs);
    assert_eq!(nfas.len(), 2);
    assert_eq!(nfas[0].1, "NUM");
    assert_eq!(nfas[0].2, 0);
    assert_eq!(nfas[1].1, "ID");
    assert_eq!(nfas[1].2, 1);
}

#[test]
fn lexemes_of_numbers_and_words() {
    let dfa = dfa_of(&vec![spec("NUM", "[0-9]+"), spec("ID", "[a-z]+")]);
    let lexemes = extract_lexemes("12 ab", &dfa).unwrap();
    assert_eq!(lexemes.len(), 2);
    assert_eq!(lexemes[0].token_type, "NUM");
    assert_eq!(lexemes[0].value, "12");
    assert_eq!((lexemes[0].line, lexemes[0].column_start, lexemes[0].column_end), (1, 1, 3));
    assert_eq!(lexemes[1].token_type, "ID");
    assert_eq!(lexemes[1].value, "ab");
    assert_eq!((lexemes[1].line, lexemes[1].column_start, lexemes[1].column_end), (1, 4, 6));
}

#[test]
fn lexemes_track_lines() {
    let dfa = dfa_of(&vec![spec("ID", "[a-z]+")]);
    let lexemes = extract_lexemes("a\nbc", &dfa).unwrap();
    assert_eq!(lexemes.len(), 2);
    assert_eq!((lexemes[1].value.as_str(), lexemes[1].line, lexemes[1].column_start), ("bc", 2, 1));
}

#[test]
fn earlier_specification_wins_a_tie() {
    let dfa = dfa_of(&vec![spec("IF", "if"), spec("ID", "[a-z]+")]);
    let lexemes = extract_lexemes("if iff", &dfa).unwrap();
    assert_eq!(lexemes[0].token_type, "IF");
    assert_eq!(lexemes[1].token_type, "ID");
    assert_eq!(lexemes[1].value, "iff");
}

#[test]
fn unexpected_character_is_a_lexical_error() {
    let dfa = dfa_of(&vec![spec("NUM", "[0-9]+")]);
    let errors = extract_lexemes("1 x", &dfa).unwrap_err();
    assert_eq!(errors.len(), 1);
    assert_eq!(errors[0].message, "Error léxico: carácter inesperado 'x'.");
    assert_eq!((errors[0].line, errors[0].column), (1, 3));
}

#[test]
fn dot_pattern_reads_no_lexeme() {
    let dfa = dfa_of(&vec![spec("ANY", ".")]);
    let errors = extract_lexemes("x", &dfa).unwrap_err();
    assert_eq!(errors.len(), 1);
    assert_eq!((errors[0].line, errors[0].column), (1, 1));
}

#[test]
fn dfa_has_distinct_state_names() {
    let dfa = dfa_of(&vec![spec("NUM", "[0-9]+"), spec("ID", "[a-z]+")]);
    for i in 0..dfa.states.len() {
        for j in (i + 1)..dfa.states.len() {
            assert_ne!(dfa.states[i].0, dfa.states[j].0);
        }
    }
}

#[test]
fn dfa_walk_ends_in_accepting_state() {
    let dfa = dfa_of(&vec![spec("AB", "ab")]);
    let mut state = dfa.start.clone();
    for c in "ab".chars() {
        let next = dfa.transitions.iter()
            .find(|((from, sym), _)| *from == state && *sym == hulk_compiler::regex::node::RegexChar::Literal(c))
            .map(|(_, to)| to.clone())
            .unwrap();
        state = next;
    }
    let accepting = dfa.states.iter().find(|(name, _)| *name == state).unwrap();
    assert_eq!(accepting.1.accept.as_ref().unwrap().token_type, "AB");
    let missing = dfa.transitions.iter().any(|((from, sym), _)| *from == dfa.start && *sym == hulk_compiler::regex::node::RegexChar::Literal('b'));
    assert!(!missing);
}

#[test]
fn nfa_of_a_literal_marks_only_its_accepting_state() {
    let nfa = NFA::from_ast(&parse_regex("a").unwrap());
    assert_eq!(nfa.start, StateId(0));
    assert_eq!(nfa.accepts, vec![StateId(1)]);
    assert_eq!(nfa.states.len(), 2);
    assert!(!nfa.states[0].is_final);
    assert!(nfa.states[1].is_final);
}

#[test]
fn nfa_of_a_star_has_accepting_states_all_final() {
    let nfa = NFA::from_ast(&parse_regex("(ab)*c").unwrap());
    assert!(!nfa.accepts.is_empty());
    for (i, st) in nfa.states.iter().enumerate() {
        assert_eq!(st.is_final, nfa.accepts.contains(&StateId(i)));
    }
}
