use rlox::interpreter::{Interpreter, Output, RuntimeError};
use rlox::parser::Parser;
use rlox::scanner::Scanner;
use rlox::token::Literal;

/// What a program output, split by kind, and the kinds in order.
struct Ran {
    output: Vec<Literal>,
    errors: Vec<RuntimeError>,
    order: Vec<&'static str>,
}

fn run(source: &str) -> Ran {
    let mut scanner = Scanner::new(source.to_string());
    let tokens = scanner.scan_tokens();
    assert!(scanner.errors.is_empty());
    let mut parser = Parser::new(tokens);
    let stmts = parser.parse();
    assert!(parser.errors.is_empty());
    let mut interpreter = Interpreter::new();
    interpreter.interpret(stmts);
    let mut ran = Ran { output: Vec::new(), errors: Vec::new(), order: Vec::new() };
    for o in interpreter.output {
        match o {
            Output::Printed(v) => {
                ran.output.push(v);
                ran.order.push("printed");
            }
            Output::Failed(e) => {
                ran.errors.push(e);
                ran.order.push("failed");
            }
        }
    }
    ran
}

fn number(l: &Literal) -> (i64, i64) {
    match l {
        Literal::Number(n) => (n.numerator(), n.denominator()),
        other => panic!("expected a number, found {:?}", other),
    }
}

fn string(l: &Literal) -> String {
    match l {
        Literal::String(s) => s.clone(),
        other => panic!("expected a string, found {:?}", other),
    }
}

fn boolean(l: &Literal) -> bool {
    match l {
        Literal::Bool(b) => *b,
        other => panic!("expected a boolean, found {:?}", other),
    }
}

fn message(e: &RuntimeError) -> String {
    e.1.clone()
}

#[test]
fn block_scoping_shadows_and_restores() {
    let i = run("var x = 1; { var x = 2; print x; } print x;");
    assert_eq!(i.output.len(), 2);
    assert_eq!(number(&i.output[0]), (2, 1));
    assert_eq!(number(&i.output[1]), (1, 1));
    assert!(i.errors.is_empty());
}

#[test]
fn assignment_changes_binding() {
    let i = run("var x = 1; x = 2; print x;");
    assert_eq!(i.output.len(), 1);
    assert_eq!(number(&i.output[0]), (2, 1));
}

#[test]
fn undeclared_variable_is_runtime_error() {
    let i = run("print y;");
    assert!(i.output.is_empty());
    assert_eq!(i.errors.len(), 1);
    assert_eq!(i.errors[0].0.lexeme, "y");
    assert_eq!(message(&i.errors[0]), "Undefined variable y");
}

#[test]
fn assignment_to_undeclared_is_runtime_error() {
    let i = run("z = 3; print 1;");
    assert_eq!(i.errors.len(), 1);
    assert_eq!(message(&i.errors[0]), "Undefined variable z");
    assert_eq!(number(&i.output[0]), (1, 1));
}

#[test]
fn string_concatenation() {
    let i = run("print \"a\" + \"b\";");
    assert_eq!(string(&i.output[0]), "ab");
}

#[test]
fn adding_number_and_string_fails() {
    let i = run("print 1 + \"a\";");
    assert!(i.output.is_empty());
    assert_eq!(i.errors.len(), 1);
    assert_eq!(message(&i.errors[0]), "Operands must be numbers");
    assert_eq!(i.errors[0].0.lexeme, "+");
}

#[test]
fn cross_kind_equality_is_false() {
    let i = run("print 1 == \"1\"; print nil == nil; print nil != false; print 2 == 2.0;");
    assert!(i.errors.is_empty());
    assert!(!boolean(&i.output[0]));
    assert!(boolean(&i.output[1]));
    assert!(boolean(&i.output[2]));
    assert!(boolean(&i.output[3]));
}

#[test]
fn if_false_takes_else() {
    let i = run("if (false) print 1; else print 2;");
    assert_eq!(i.output.len(), 1);
    assert_eq!(number(&i.output[0]), (2, 1));
}

#[test]
fn zero_is_truthy() {
    let i = run("if (0) print \"truthy\";");
    assert_eq!(string(&i.output[0]), "truthy");
}

#[test]
fn if_without_else_on_false_does_nothing() {
    let i = run("if (nil) print 1; print 3;");
    assert_eq!(i.output.len(), 1);
    assert_eq!(number(&i.output[0]), (3, 1));
}

#[test]
fn fractional_literal_keeps_its_value() {
    let i = run("print 1.5; print 12.25;");
    assert_eq!(number(&i.output[0]), (15, 10));
    assert_eq!(number(&i.output[1]), (1225, 100));
}

#[test]
fn arithmetic_and_precedence() {
    let i = run("print 1 + 2 * 3; print (1 + 2) * 3; print 10 - 4 - 3; print 7 / 2; print -3 + 1;");
    assert_eq!(number(&i.output[0]), (7, 1));
    assert_eq!(number(&i.output[1]), (9, 1));
    assert_eq!(number(&i.output[2]), (3, 1));
    assert_eq!(number(&i.output[3]), (7, 2));
    assert_eq!(number(&i.output[4]), (-2, 1));
}

#[test]
fn comparisons() {
    let i = run("print 1 < 2; print 2 <= 2; print 3 > 4; print 4 >= 5; print 0.5 < 0.25;");
    let got: Vec<bool> = i.output.iter().map(boolean).collect();
    assert_eq!(got, vec![true, true, false, false, false]);
}

#[test]
fn comparing_strings_fails() {
    let i = run("print \"a\" < \"b\";");
    assert_eq!(message(&i.errors[0]), "Operands must be numbers");
}

#[test]
fn negating_a_string_fails() {
    let i = run("print -\"a\";");
    assert_eq!(message(&i.errors[0]), "Operand must be a number");
}

#[test]
fn not_negates_truthiness() {
    let i = run("print !nil; print !0; print !!false;");
    let got: Vec<bool> = i.output.iter().map(boolean).collect();
    assert_eq!(got, vec![true, false, false]);
}

fn special(l: &Literal) -> &'static str {
    match l {
        Literal::Number(n) if n.is_nan() => "nan",
        Literal::Number(n) if n.is_infinite() && n.numerator() > 0 => "inf",
        Literal::Number(n) if n.is_infinite() => "-inf",
        other => panic!("expected a special number, found {:?}", other),
    }
}

#[test]
fn division_by_zero_is_infinite() {
    let i = run("print 1 / 0; print -1 / 0; print 0 / 0; print 2;");
    assert!(i.errors.is_empty());
    assert_eq!(special(&i.output[0]), "inf");
    assert_eq!(special(&i.output[1]), "-inf");
    assert_eq!(special(&i.output[2]), "nan");
    assert_eq!(number(&i.output[3]), (2, 1));
}

#[test]
fn overflow_becomes_infinite() {
    let i = run("print 9223372036854775807 + 1; print -9223372036854775807 - 2; print -(-9223372036854775807 - 1);");
    assert!(i.errors.is_empty());
    assert_eq!(special(&i.output[0]), "inf");
    assert_eq!(special(&i.output[1]), "-inf");
    assert_eq!(special(&i.output[2]), "inf");
}

#[test]
fn infinities_and_nan_follow_float_rules() {
    let i = run("var inf = 1 / 0; var nan = 0 / 0; print inf - inf; print inf * 0; print 5 / inf; print inf > 1000; print nan == nan; print nan < 1; print inf == inf; print -inf < 0;");
    assert_eq!(special(&i.output[0]), "nan");
    assert_eq!(special(&i.output[1]), "nan");
    assert_eq!(number(&i.output[2]), (0, 1));
    assert!(boolean(&i.output[3]));
    assert!(!boolean(&i.output[4]));
    assert!(!boolean(&i.output[5]));
    assert!(boolean(&i.output[6]));
    assert!(boolean(&i.output[7]));
}

#[test]
fn tiny_fractions_are_approximated() {
    let i = run("print 1 / 3000000000 / 3000000000 / 3000000000;");
    assert!(i.errors.is_empty());
    let (n, d) = number(&i.output[0]);
    assert!(d > 0);
    let exact = 1.0 / 2.7e28;
    let got = n as f64 / d as f64;
    assert!((got - exact).abs() <= 1e-18);
}

#[test]
fn output_keeps_errors_and_prints_in_order() {
    let i = run("var x = 1; print y; print x;");
    assert_eq!(i.order, vec!["failed", "printed"]);
    assert_eq!(message(&i.errors[0]), "Undefined variable y");
    assert_eq!(number(&i.output[0]), (1, 1));
}

#[test]
fn logical_operators_evaluate_both_sides() {
    let i = run("var a = 1; print false and (a = 2); print a; print 1 or nil; print nil or false;");
    assert!(!boolean(&i.output[0]));
    assert_eq!(number(&i.output[1]), (2, 1));
    assert!(boolean(&i.output[2]));
    assert!(!boolean(&i.output[3]));
}

#[test]
fn assignment_is_right_associative_and_yields_value() {
    let i = run("var a; var b; a = b = 4; print a; print b;");
    assert_eq!(number(&i.output[0]), (4, 1));
    assert_eq!(number(&i.output[1]), (4, 1));
}

#[test]
fn uninitialized_variable_is_nil() {
    let i = run("var a; print a;");
    assert!(matches!(i.output[0], Literal::Nil));
}

#[test]
fn redeclaration_replaces_binding() {
    let i = run("var x = 1; var x = 2; print x;");
    assert_eq!(number(&i.output[0]), (2, 1));
}

#[test]
fn assignment_in_block_reaches_outer_scope() {
    let i = run("var x = 1; { x = 5; var y = 1; } print x;");
    assert_eq!(number(&i.output[0]), (5, 1));
}

#[test]
fn runtime_error_ends_only_its_statement() {
    let i = run("print 1; print -nil; print 3;");
    assert_eq!(i.output.len(), 2);
    assert_eq!(i.errors.len(), 1);
}

#[test]
fn error_inside_block_discards_block_scope() {
    let i = run("var x = 1; { var x = 2; print y; } print x;");
    assert_eq!(i.errors.len(), 1);
    assert_eq!(number(&i.output[0]), (1, 1));
}

#[test]
fn expression_statement_yields_its_value() {
    let mut scanner = Scanner::new("1 + 2;".to_string());
    let tokens = scanner.scan_tokens();
    let mut parser = Parser::new(tokens);
    let stmts = parser.parse();
    let mut interpreter = Interpreter::new();
    let value = interpreter.interpret_stmt(&stmts[0]);
    assert_eq!(number(value.as_ref().unwrap()), (3, 1));
    assert!(matches!(interpreter.output.as_slice(), []));
    assert!(interpreter.output.is_empty());
}

#[test]
fn same_source_gives_same_output() {
    let source = "var a = 2; { var b = a * 3; print b; } print a + 0.5;";
    let first = run(source);
    let second = run(source);
    let a: Vec<(i64, i64)> = first.output.iter().map(number).collect();
    let b: Vec<(i64, i64)> = second.output.iter().map(number).collect();
    assert_eq!(a, b);
    assert_eq!(a, vec![(6, 1), (5, 2)]);
}

#[test]
fn arithmetic_results_are_in_lowest_terms() {
    let i = run("print 0.5 + 0.5; print 0.1 + 0.2; print 6 / 4; print 0.5 - 1.5;");
    assert_eq!(number(&i.output[0]), (1, 1));
    assert_eq!(number(&i.output[1]), (3, 10));
    assert_eq!(number(&i.output[2]), (3, 2));
    assert_eq!(number(&i.output[3]), (-1, 1));
}

#[test]
fn repeated_fraction_sums_stay_small() {
    let mut source = String::from("var x = 0;");
    for _ in 0..40 {
        source.push_str(" x = x + 0.5;");
    }
    source.push_str(" print x;");
    let i = run(&source);
    assert!(i.errors.is_empty());
    assert_eq!(number(&i.output[0]), (20, 1));
}

#[test]
fn fractions_compare_by_value() {
    let i = run("print 0.1 + 0.2 == 0.3; print 1 / 3 < 0.34;");
    assert!(boolean(&i.output[0]));
    assert!(boolean(&i.output[1]));
}
