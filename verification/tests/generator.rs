use hulk_compiler::generator::{read_token_spec, generate_lexer, TokenSpec};

#[test]
fn test_read_token_spec() {
    assert!(read_token_spec("test_spec.txt").is_empty());
}

#[test]
fn generate_lexer_accepts_specs() {
    let specs = vec![TokenSpec { name: "NUM".to_string(), regex: "[0-9]+".to_string() }];
    generate_lexer(&specs);
    assert_eq!(specs.len(), 1);
}
