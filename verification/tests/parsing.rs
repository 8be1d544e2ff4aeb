use hulk_compiler::parser::grammar::{Production, parse_grammar};
use hulk_compiler::parser::ll1::{compute_first, compute_follow, build_ll1_table, compute_first_of_sequence,
    find_key, find_row, LL1Table};
use hulk_compiler::parser::parser::Parser;
use hulk_compiler::parser::token::{make_token, mock_tokens, token_type_text, TokenType};
use hulk_compiler::parser::utils::is_terminal;
use hulk_compiler::parser::cst::DerivationNode;

fn prod(lhs: &str, rhs: &[&str]) -> Production {
    Production { lhs: lhs.to_string(), rhs: rhs.iter().map(|s| s.to_string()).collect() }
}

fn function_table() -> LL1Table {
    let rhs: Vec<String> = ["FUNCTION", "IDENT", "LPAREN", "RPAREN", "LBRACE", "RBRACE"]
        .iter().map(|s| s.to_string()).collect();
    vec![("S".to_string(), vec![("FUNCTION".to_string(), rhs)])]
}

fn function_grammar() -> Vec<Production> {
    vec![prod("S", &["FUNCTION", "IDENT", "LPAREN", "RPAREN", "LBRACE", "RBRACE"])]
}

fn set_of(sets: &Vec<(String, Vec<String>)>, key: &str) -> Vec<String> {
    let i = find_key(sets, &key.to_string()).unwrap();
    let mut v = sets[i].1.clone();
    v.sort();
    v
}

#[test]
fn token_type_names() {
    assert_eq!(token_type_text(TokenType::LPAREN), "LPAREN");
    assert_eq!(token_type_text(TokenType::EOF), "EOF");
}

#[test]
fn mock_token_stream() {
    let toks = mock_tokens();
    assert_eq!(toks.len(), 8);
    assert_eq!(toks[1].lexeme, "main");
    assert_eq!((toks[1].line, toks[1].column), (1, 10));
    assert_eq!(toks[6].token_type, TokenType::EOF);
    assert_eq!(toks[7].token_type, TokenType::SEMICOLON);
}

#[test]
fn terminals_are_symbols_without_productions() {
    let g = vec![prod("S", &["A", "b"]), prod("A", &[])];
    assert!(is_terminal("b", &g));
    assert!(is_terminal("ε", &g));
    assert!(!is_terminal("A", &g));
}

#[test]
fn first_sets_of_small_grammar() {
    let g = vec![prod("S", &["A", "b"]), prod("A", &[])];
    let first = compute_first(&g);
    assert_eq!(set_of(&first, "A"), vec!["ε".to_string()]);
    assert_eq!(set_of(&first, "S"), vec!["b".to_string()]);
    assert_eq!(set_of(&first, "b"), vec!["b".to_string()]);
}

#[test]
fn first_of_terminal_is_itself_and_drives_table() {
    let g = vec![prod("S", &["a", "S"]), prod("S", &[])];
    let first = compute_first(&g);
    assert_eq!(set_of(&first, "a"), vec!["a".to_string()]);
    assert_eq!(set_of(&first, "S"), vec!["a".to_string(), "ε".to_string()]);
    let follow = compute_follow(&g, &first, "S");
    assert_eq!(set_of(&follow, "S"), vec!["EOF".to_string()]);
    let table = build_ll1_table(&g, &first, &follow);
    let s = find_row(&table, &"S".to_string()).unwrap();
    let mut row = table[s].1.clone();
    row.sort();
    assert_eq!(row, vec![
        ("EOF".to_string(), Vec::<String>::new()),
        ("a".to_string(), vec!["a".to_string(), "S".to_string()]),
    ]);
}

#[test]
fn first_of_empty_sequence_is_epsilon() {
    let g = vec![prod("S", &[])];
    let first = compute_first(&g);
    assert_eq!(compute_first_of_sequence(&[], &first, &g), vec!["ε".to_string()]);
}

#[test]
fn follow_of_start_holds_eof() {
    let g = vec![prod("S", &["A"]), prod("A", &[])];
    let first = compute_first(&g);
    let follow = compute_follow(&g, &first, "S");
    assert_eq!(set_of(&follow, "S"), vec!["EOF".to_string()]);
    assert_eq!(set_of(&follow, "A"), vec!["EOF".to_string()]);
}

#[test]
fn table_and_parse_of_nullable_grammar() {
    let g = vec![prod("S", &["A"]), prod("A", &[])];
    let first = compute_first(&g);
    let follow = compute_follow(&g, &first, "S");
    let table = build_ll1_table(&g, &first, &follow);
    let s = find_row(&table, &"S".to_string()).unwrap();
    assert_eq!(table[s].1, vec![("EOF".to_string(), vec!["A".to_string()])]);
    let a = find_row(&table, &"A".to_string()).unwrap();
    assert_eq!(table[a].1, vec![("EOF".to_string(), Vec::<String>::new())]);
    let mut p = Parser::new(vec![make_token(TokenType::EOF, "", 1, 1)], table, g.clone(), "S");
    let tree: DerivationNode = p.parse().unwrap();
    assert_eq!(tree.symbol, "S");
    assert_eq!(tree.children.len(), 1);
    assert_eq!(tree.children[0].symbol, "A");
    assert!(tree.children[0].children.is_empty());
}

#[test]
fn parse_mock_function_header() {
    let mut p = Parser::new(mock_tokens(), function_table(), function_grammar(), "S");
    let tree = p.parse().unwrap();
    assert_eq!(tree.symbol, "S");
    assert_eq!(tree.children.len(), 6);
    assert_eq!(tree.children[0].symbol, "FUNCTION");
    assert_eq!(tree.children[0].token.as_ref().unwrap().lexeme, "function");
    assert_eq!(tree.children[5].token.as_ref().unwrap().lexeme, "}");
}

#[test]
fn parse_reports_terminal_mismatch() {
    let table = vec![("S".to_string(), vec![("FUNCTION".to_string(), vec!["FUNCTION".to_string(), "LPAREN".to_string()])])];
    let g = vec![prod("S", &["FUNCTION", "LPAREN"])];
    let mut p = Parser::new(mock_tokens(), table, g, "S");
    assert_eq!(
        p.parse().unwrap_err(),
        "Syntax Error: Expected 'LPAREN', but found 'IDENT' (lexeme: 'main') at line 1, column 10"
    );
}

#[test]
fn parse_reports_missing_table_entry() {
    let table = vec![("S".to_string(), vec![("IDENT".to_string(), vec!["IDENT".to_string()])])];
    let g = vec![prod("S", &["IDENT"])];
    let mut p = Parser::new(mock_tokens(), table, g, "S");
    assert_eq!(
        p.parse().unwrap_err(),
        "Syntax Error at line 1, column 1: Unexpected token 'FUNCTION'. Expected one of: [\"IDENT\"]"
    );
}

#[test]
fn parse_reports_end_of_input() {
    let mut p = Parser::new(vec![], function_table(), function_grammar(), "S");
    assert_eq!(p.parse().unwrap_err(), "Unexpected end of input at position 0");
}

#[test]
fn parse_without_row_for_nonterminal() {
    let g = vec![prod("S", &["T"]), prod("T", &["IDENT"])];
    let table = vec![("S".to_string(), vec![("FUNCTION".to_string(), vec!["T".to_string()])])];
    let mut p = Parser::new(mock_tokens(), table, g, "S");
    assert_eq!(p.parse().unwrap_err(), "No production found for non-terminal: T");
}

#[test]
fn grammar_lines_give_productions() {
    let lines: Vec<String> = ["// comment", "S -> A b | c", "  | d e", "", "A -> ", "junk"]
        .iter().map(|s| s.to_string()).collect();
    let ps = parse_grammar(&lines);
    let got: Vec<(String, Vec<String>)> = ps.iter().map(|p| (p.lhs.clone(), p.rhs.clone())).collect();
    let want: Vec<(String, Vec<String>)> = vec![
        ("S".to_string(), vec!["A".to_string(), "b".to_string()]),
        ("S".to_string(), vec!["c".to_string()]),
        ("S".to_string(), vec!["d".to_string(), "e".to_string()]),
        ("A".to_string(), vec![]),
    ];
    assert_eq!(got, want);
}

#[test]
fn grammar_bar_line_before_any_rule_uses_empty_lhs() {
    let lines = vec!["| x".to_string()];
    let ps = parse_grammar(&lines);
    assert_eq!(ps.len(), 1);
    assert_eq!(ps[0].lhs, "");
    assert_eq!(ps[0].rhs, vec!["x".to_string()]);
}

#[test]
fn csv_of_nullable_grammar_table() {
    let g = vec![prod("S", &["A"]), prod("A", &[])];
    let first = compute_first(&g);
    let follow = compute_follow(&g, &first, "S");
    let table = build_ll1_table(&g, &first, &follow);
    assert_eq!(hulk_compiler::parser::csv::ll1_table_csv(&table), "Non-Terminal,EOF\nA,ε\nS,\"A\"\n");
}

#[test]
fn csv_sorts_rows_and_columns() {
    let s = |x: &str| x.to_string();
    let table: LL1Table = vec![
        (s("S"), vec![(s("b"), vec![s("b"), s("c")]), (s("a"), vec![s("a")])]),
        (s("A"), vec![(s("a"), vec![])]),
    ];
    assert_eq!(hulk_compiler::parser::csv::ll1_table_csv(&table), "Non-Terminal,a,b\nA,ε,\nS,\"a\",\"b c\"\n");
}

fn leaves(n: &DerivationNode, out: &mut Vec<String>) {
    if let Some(t) = &n.token {
        out.push(t.lexeme.clone());
    }
    for c in &n.children {
        leaves(c, out);
    }
}

#[test]
fn parse_tree_leaves_are_the_tokens_read() {
    let mut p = Parser::new(mock_tokens(), function_table(), function_grammar(), "S");
    let tree = p.parse().unwrap();
    let mut got = Vec::new();
    leaves(&tree, &mut got);
    assert_eq!(got, vec!["function", "main", "(", ")", "{", "}"]);
}

#[test]
fn parser_test_cases_are_listed() {
    let cases = hulk_compiler::parser::test_cases::test_cases();
    assert_eq!(cases.len(), 14);
    assert_eq!(cases[0].grammar_path, "grammar.ll1");
    assert_eq!(cases[0].start_symbol, "Program");
    assert_eq!(cases[0].tokens[0].token_type, TokenType::FUNCTION);
    assert_eq!(cases[0].tokens[0].lexeme, "function");
    let last = &cases[cases.len() - 1];
    assert_eq!(last.start_symbol, "S");
    assert_eq!(last.tokens.len(), 7);
}
