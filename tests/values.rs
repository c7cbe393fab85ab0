use rlox::chunk::{Chunk, OpCode};
use rlox::environment::Environment;
use rlox::number::Number;
use rlox::token::{Literal, Token, TokenType};

fn name(s: &str) -> Token {
    Token::new(TokenType::Identifier, s.to_string(), Some(Literal::Nil), 1)
}

fn parts(n: Number) -> Option<(i64, i64)> {
    if n.denominator() > 0 {
        Some((n.numerator(), n.denominator()))
    } else {
        None
    }
}

#[test]
fn number_arithmetic() {
    let a = Number::new(1, 2).unwrap();
    let b = Number::new(1, 3).unwrap();
    assert_eq!(parts(a.add(&b)), Some((5, 6)));
    assert_eq!(parts(a.sub(&b)), Some((1, 6)));
    assert_eq!(parts(a.mul(&b)), Some((1, 6)));
    assert_eq!(parts(a.div(&b)), Some((3, 2)));
    assert_eq!(parts(a.neg()), Some((-1, 2)));
    let m = Number::new(-3, 1).unwrap();
    assert_eq!(parts(a.div(&m)), Some((-1, 6)));
}

#[test]
fn number_comparison() {
    let a = Number::new(2, 4).unwrap();
    let b = Number::new(1, 2).unwrap();
    let c = Number::new(3, 4).unwrap();
    assert!(a.equals(&b));
    assert!(!a.equals(&c));
    assert!(a.less(&c));
    assert!(!c.less(&a));
    assert!(!a.less(&b));
}

#[test]
fn number_bounds() {
    assert!(Number::new(1, 0).is_none());
    assert!(Number::new(1, -2).is_none());
    let big = Number::from_int(i64::MAX);
    assert!(big.add(&Number::from_int(1)).is_infinite());
    assert!(Number::from_int(i64::MIN).neg().is_infinite());
    assert!(Number::from_int(0).div(&Number::from_int(0)).is_nan());
    assert!(Number::infinity().add(&Number::neg_infinity()).is_nan());
    assert!(Number::nan().less_equal(&Number::nan()) == false);
    assert!(Number::neg_infinity().less(&Number::from_int(i64::MIN)));
}

#[test]
fn environment_define_get_assign() {
    let mut global = Environment::new(None);
    global.define("x".to_string(), Literal::Bool(true));
    assert!(matches!(global.get(name("x")), Ok(Literal::Bool(true))));
    global.define("x".to_string(), Literal::Nil);
    assert!(matches!(global.get(name("x")), Ok(Literal::Nil)));
    assert_eq!(global.values.len(), 1);
    assert!(global.assign(name("x"), Literal::Bool(false)).is_ok());
    assert!(matches!(global.get(name("x")), Ok(Literal::Bool(false))));
}

#[test]
fn environment_lookup_goes_outward() {
    let mut global = Environment::new(None);
    global.define("a".to_string(), Literal::Bool(true));
    let mut inner = Environment::new(Some(Box::new(global)));
    assert!(matches!(inner.get(name("a")), Ok(Literal::Bool(true))));
    assert!(inner.assign(name("a"), Literal::Nil).is_ok());
    inner.define("a".to_string(), Literal::Bool(false));
    assert!(matches!(inner.get(name("a")), Ok(Literal::Bool(false))));
    let outer = inner.enclosing.unwrap();
    assert!(matches!(outer.get(name("a")), Ok(Literal::Nil)));
}

#[test]
fn environment_undefined_name() {
    let mut global = Environment::new(None);
    let err = global.get(name("nope")).unwrap_err();
    assert_eq!(err.1, "Undefined variable nope");
    assert_eq!(err.0.lexeme, "nope");
    let err = global.assign(name("nope"), Literal::Nil).unwrap_err();
    assert_eq!(err.1, "Undefined variable nope");
    assert!(global.values.is_empty());
}

#[test]
fn literal_copies_keep_value() {
    let s = Literal::String("abc".to_string());
    match s.duplicate() {
        Literal::String(t) => assert_eq!(t, "abc"),
        _ => panic!("expected a string"),
    }
    let t = name("v");
    let u = t.duplicate();
    assert_eq!(u.lexeme, "v");
    assert_eq!(u.token_type, TokenType::Identifier);
}

#[test]
fn new_chunk_is_empty() {
    let mut c = Chunk::new();
    assert!(c.code.is_empty());
    c.code.push(OpCode::OpReturn);
    assert_eq!(c.code, vec![OpCode::OpReturn]);
}
