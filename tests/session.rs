use rlox::interpreter::Output;
use rlox::lox::Lox;
use rlox::parser::ParseError;
use rlox::token::{Literal, Token, TokenType};

#[test]
fn run_prints_and_keeps_globals() {
    let mut lox = Lox::new();
    lox.run("var a = 1;".to_string());
    lox.run("print a + 1;".to_string());
    assert!(!lox.had_error);
    assert_eq!(lox.interpreter.output.len(), 1);
    match &lox.interpreter.output[0] {
        Output::Printed(Literal::Number(n)) => assert_eq!((n.numerator(), n.denominator()), (2, 1)),
        other => panic!("unexpected {:?}", other),
    }
}

#[test]
fn run_reports_lexical_and_syntax_errors_without_running() {
    let mut lox = Lox::new();
    lox.run("print 1; @ print ;".to_string());
    assert!(lox.had_error);
    assert!(lox.interpreter.output.is_empty());
    assert_eq!(lox.diagnostics.len(), 2);
    assert_eq!(lox.diagnostics[0].line, 1);
    assert_eq!(lox.diagnostics[0].location, "");
    assert_eq!(lox.diagnostics[0].message, "Unexpected character.");
    assert_eq!(lox.diagnostics[1].location, "at, ;");
    assert_eq!(lox.diagnostics[1].message, "Expect expression.");
}

#[test]
fn run_reports_error_at_end() {
    let mut lox = Lox::new();
    lox.run("print 1".to_string());
    assert_eq!(lox.diagnostics[0].location, "at end");
    assert_eq!(lox.diagnostics[0].message, "Expect ';' after value.");
}

#[test]
fn runtime_errors_stay_with_interpreter() {
    let mut lox = Lox::new();
    lox.run("print -true;".to_string());
    assert!(!lox.had_error);
    assert!(lox.diagnostics.is_empty());
    assert_eq!(lox.interpreter.output.len(), 1);
    match &lox.interpreter.output[0] {
        Output::Failed(e) => {
            assert_eq!(e.1, "Operand must be a number");
            assert_eq!(e.0.line, 1);
        }
        other => panic!("unexpected {:?}", other),
    }
}

#[test]
fn error_report_has_no_location() {
    let d = Lox::error(7, "Unexpected character.".to_string());
    assert_eq!(d.line, 7);
    assert_eq!(d.location, "");
    assert_eq!(d.message, "Unexpected character.");
}

#[test]
fn parse_error_report_names_lexeme() {
    let token = Token::new(TokenType::Identifier, "foo".to_string(), Some(Literal::Nil), 3);
    let d = Lox::parse_error(ParseError(token, "Expect expression.".to_string()));
    assert_eq!(d.line, 3);
    assert_eq!(d.location, "at, foo");
}
