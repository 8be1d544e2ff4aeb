use hulk_compiler::semantic::error::{SemanticError, TokenPos};
use hulk_compiler::typings::types_ast::TypeAST;

fn at(start: usize) -> TokenPos {
    TokenPos { start, end: start + 1 }
}

#[test]
fn message_of_undefined_identifier() {
    assert_eq!(SemanticError::UndefinedIdentifier("x".to_string(), at(0)).message(), "Undefined identifier: x");
}

#[test]
fn message_of_argument_count() {
    let e = SemanticError::InvalidArgumentsCount(1, 2, "f".to_string(), at(0));
    assert_eq!(e.message(), "Function 'f' expects 2 arguments, found 1");
}

#[test]
fn message_of_argument_type_counts_from_one() {
    let e = SemanticError::InvalidTypeArgument("function".to_string(), "String".to_string(), "Number".to_string(), 0, "f".to_string(), at(0));
    assert_eq!(e.message(), "f: Argument 1 should be Number, found String");
}

#[test]
fn message_of_iterable() {
    let e = SemanticError::InvalidIterable("foo".to_string(), 3, at(0));
    assert_eq!(e.message(), "For loops require range() function, found 'foo(3 arguments)'");
}

#[test]
fn message_of_binary_operation() {
    let t = TypeAST::new();
    let e = SemanticError::InvalidBinaryOperation(t.get_type("Number").unwrap(), t.get_type("String").unwrap(), "+".to_string(), at(0));
    assert_eq!(e.message(), "Invalid binary operation between types Number and String with operator +");
}

#[test]
fn message_of_duplicate_parameter() {
    let e = SemanticError::ParamNameAlreadyExist("x".to_string(), "f".to_string(), "function".to_string(), at(0));
    assert_eq!(e.message(), "Duplicate parameter 'x' in function 'f'");
}

#[test]
fn message_of_division_and_unknown() {
    assert_eq!(SemanticError::DivisionByZero(at(0)).message(), "Division by zero is not allowed");
    assert_eq!(SemanticError::UnknownError("boom".to_string(), at(0)).message(), "boom");
    assert_eq!(SemanticError::CycleDetected("A".to_string(), at(0)).message(), "Type dependency cycle detected: A");
}

#[test]
fn report_points_at_line_and_column() {
    let input = "let x = 1;\nprint(y);";
    let e = SemanticError::UndefinedIdentifier("y".to_string(), at(17));
    assert_eq!(
        e.report(input),
        "\x1b[31mError (line 2, column 7): Undefined identifier: y\n  print(y);\n        ^\x1b[0m"
    );
}

#[test]
fn report_on_empty_input() {
    let e = SemanticError::DivisionByZero(at(0));
    assert_eq!(e.report(""), "\x1b[31mError (line 1, column 1): Division by zero is not allowed\n  \n  ^\x1b[0m");
}

#[test]
fn report_counts_characters_not_bytes() {
    let e = SemanticError::UndefinedIdentifier("x".to_string(), at(3));
    assert_eq!(e.report("é x"), "\x1b[31mError (line 1, column 3): Undefined identifier: x\n  é x\n    ^\x1b[0m");
}

#[test]
fn report_at_a_line_break_is_column_one() {
    let e = SemanticError::UndefinedType("T".to_string(), at(2));
    assert_eq!(e.report("ab\ncd"), "\x1b[31mError (line 2, column 1): Type 'T' is not defined\n  cd\n  ^\x1b[0m");
}
