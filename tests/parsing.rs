use rlox::parser::{Expr, ParseError, Parser, Stmt};
use rlox::scanner::Scanner;
use rlox::token::{Literal, Token, TokenType};

fn parse(source: &str) -> (Vec<Box<Stmt>>, Vec<ParseError>) {
    let mut scanner = Scanner::new(source.to_string());
    let tokens = scanner.scan_tokens();
    let mut parser = Parser::new(tokens);
    let stmts = parser.parse();
    (stmts, parser.errors)
}

fn messages(errors: &[ParseError]) -> Vec<String> {
    errors.iter().map(|e| e.1.clone()).collect()
}

#[test]
fn factor_binds_tighter_than_term() {
    let (stmts, errors) = parse("1 + 2 * 3;");
    assert!(errors.is_empty());
    match &*stmts[0] {
        Stmt::Expr(e) => match &**e {
            Expr::Binary(l, op, r) => {
                assert_eq!(op.token_type, TokenType::Plus);
                assert!(matches!(**l, Expr::Literal(Literal::Number(_))));
                assert!(matches!(**r, Expr::Binary(_, _, _)));
            }
            other => panic!("unexpected {:?}", other),
        },
        other => panic!("unexpected {:?}", other),
    }
}

#[test]
fn subtraction_is_left_associative() {
    let (stmts, _) = parse("1 - 2 - 3;");
    match &*stmts[0] {
        Stmt::Expr(e) => match &**e {
            Expr::Binary(l, _, r) => {
                assert!(matches!(**l, Expr::Binary(_, _, _)));
                assert!(matches!(**r, Expr::Literal(_)));
            }
            other => panic!("unexpected {:?}", other),
        },
        other => panic!("unexpected {:?}", other),
    }
}

#[test]
fn or_and_make_logical_nodes() {
    let (stmts, errors) = parse("a or b and c;");
    assert!(errors.is_empty());
    match &*stmts[0] {
        Stmt::Expr(e) => match &**e {
            Expr::Logical(_, op, r) => {
                assert_eq!(op.token_type, TokenType::Or);
                assert!(matches!(**r, Expr::Logical(_, _, _)));
            }
            other => panic!("unexpected {:?}", other),
        },
        other => panic!("unexpected {:?}", other),
    }
}

#[test]
fn assignment_nests_to_the_right() {
    let (stmts, errors) = parse("a = b = 1;");
    assert!(errors.is_empty());
    match &*stmts[0] {
        Stmt::Expr(e) => match &**e {
            Expr::Assignment(name, value) => {
                assert_eq!(name.lexeme, "a");
                assert!(matches!(**value, Expr::Assignment(_, _)));
            }
            other => panic!("unexpected {:?}", other),
        },
        other => panic!("unexpected {:?}", other),
    }
}

#[test]
fn invalid_assignment_target() {
    let (stmts, errors) = parse("1 = 2; print 3;");
    assert_eq!(messages(&errors), vec!["Invalid assignment target."]);
    assert_eq!(errors[0].0.token_type, TokenType::Equal);
    assert_eq!(stmts.len(), 1);
    assert!(matches!(*stmts[0], Stmt::Print(_)));
}

#[test]
fn missing_expression() {
    let (stmts, errors) = parse("print ; print 2;");
    assert_eq!(messages(&errors), vec!["Expect expression."]);
    assert_eq!(errors[0].0.token_type, TokenType::SemiColon);
    assert_eq!(stmts.len(), 1);
}

#[test]
fn missing_semicolons() {
    let (_, errors) = parse("print 1");
    assert_eq!(messages(&errors), vec!["Expect ';' after value."]);
    assert_eq!(errors[0].0.token_type, TokenType::Eof);
    let (_, errors) = parse("1 + 2");
    assert_eq!(messages(&errors), vec!["Expect ';' after expression."]);
    let (_, errors) = parse("var a = 1");
    assert_eq!(messages(&errors), vec!["Expect ';' after variable declaration"]);
}

#[test]
fn missing_variable_name() {
    let (stmts, errors) = parse("var 1; print 2;");
    assert_eq!(messages(&errors), vec!["Expect variable name"]);
    assert_eq!(stmts.len(), 1);
}

#[test]
fn missing_closing_paren() {
    let (_, errors) = parse("print (1 + 2;");
    assert_eq!(messages(&errors), vec!["Expect ')' after expression."]);
}

#[test]
fn unclosed_block() {
    let (stmts, errors) = parse("{ print 1;");
    assert_eq!(messages(&errors), vec!["Expect '}' after block"]);
    assert!(stmts.is_empty());
}

#[test]
fn if_needs_parentheses() {
    let (_, errors) = parse("if true print 1;");
    assert_eq!(messages(&errors), vec!["Expect '(' after if"]);
    let (_, errors) = parse("if (true print 1;");
    assert_eq!(messages(&errors), vec!["Expect ')' after if condition"]);
}

#[test]
fn else_binds_to_nearest_if() {
    let (stmts, errors) = parse("if (a) if (b) print 1; else print 2;");
    assert!(errors.is_empty());
    match &*stmts[0] {
        Stmt::If(_, then_branch, else_branch) => {
            assert!(else_branch.is_none());
            assert!(matches!(**then_branch, Stmt::If(_, _, Some(_))));
        }
        _ => panic!("expected an if statement"),
    }
}

#[test]
fn errors_inside_block_recover() {
    let (stmts, errors) = parse("{ print ; print 1; } print 2;");
    assert_eq!(messages(&errors), vec!["Expect expression."]);
    assert_eq!(stmts.len(), 2);
    match &*stmts[0] {
        Stmt::Block(inner) => assert_eq!(inner.len(), 1),
        _ => panic!("expected a block"),
    }
}

#[test]
fn recovery_stops_at_statement_keyword() {
    let (stmts, errors) = parse("1 + + 2 var x = 1; print x;");
    assert_eq!(errors.len(), 1);
    assert_eq!(stmts.len(), 2);
    assert!(matches!(*stmts[0], Stmt::Var(_, _)));
}

#[test]
fn var_declaration_shapes() {
    let (stmts, _) = parse("var a; var b = 1;");
    match (&*stmts[0], &*stmts[1]) {
        (Stmt::Var(a, init_a), Stmt::Var(b, init_b)) => {
            assert_eq!(a.lexeme, "a");
            assert!(init_a.is_none());
            assert_eq!(b.lexeme, "b");
            assert!(init_b.is_some());
        }
        _ => panic!("expected declarations"),
    }
}

#[test]
fn parser_over_hand_made_tokens() {
    let tokens = vec![
        Token::new(TokenType::Print, "print".to_string(), Some(Literal::Nil), 1),
        Token::new(TokenType::True, "true".to_string(), Some(Literal::Nil), 1),
        Token::new(TokenType::SemiColon, ";".to_string(), Some(Literal::Nil), 1),
        Token::new(TokenType::Eof, String::new(), None, 1),
    ];
    let mut parser = Parser::new(tokens);
    let stmts = parser.parse();
    assert_eq!(stmts.len(), 1);
    match &*stmts[0] {
        Stmt::Print(e) => assert!(matches!(**e, Expr::Literal(Literal::Bool(true)))),
        _ => panic!("expected a print statement"),
    }
}
