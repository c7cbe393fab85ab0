use rlox::scanner::Scanner;
use rlox::token::{Literal, Token, TokenType};

fn scan(source: &str) -> (Vec<Token>, Scanner) {
    let mut scanner = Scanner::new(source.to_string());
    let tokens = scanner.scan_tokens();
    (tokens, scanner)
}

fn kinds(tokens: &[Token]) -> Vec<TokenType> {
    tokens.iter().map(|t| t.token_type).collect()
}

#[test]
fn comment_adds_no_tokens() {
    let (with_comment, _) = scan("// comment\nprint 1;");
    let (plain, _) = scan("print 1;");
    assert_eq!(with_comment.len(), plain.len());
    for (a, b) in with_comment.iter().zip(plain.iter()) {
        assert_eq!(a.token_type, b.token_type);
        assert_eq!(a.lexeme, b.lexeme);
        assert_eq!(a.line, b.line + 1);
    }
    assert_eq!(kinds(&plain), vec![TokenType::Print, TokenType::Number, TokenType::SemiColon, TokenType::Eof]);
}

#[test]
fn unterminated_string_is_one_error() {
    let (tokens, scanner) = scan("\"abc\ndef");
    assert_eq!(kinds(&tokens), vec![TokenType::Eof]);
    assert_eq!(scanner.errors.len(), 1);
    assert_eq!(scanner.errors[0].message, "Unterminated string.");
    assert_eq!(scanner.errors[0].line, 2);
}

#[test]
fn unterminated_string_after_tokens() {
    let (tokens, scanner) = scan("print \"abc");
    assert_eq!(kinds(&tokens), vec![TokenType::Print, TokenType::Eof]);
    assert_eq!(scanner.errors.len(), 1);
}

#[test]
fn string_literal_holds_its_interior() {
    let (tokens, _) = scan("\"hi\nthere\" x");
    assert_eq!(tokens[0].token_type, TokenType::String);
    assert_eq!(tokens[0].lexeme, "\"hi\nthere\"");
    match &tokens[0].literal {
        Some(Literal::String(s)) => assert_eq!(s, "hi\nthere"),
        other => panic!("unexpected literal {:?}", other),
    }
    assert_eq!(tokens[0].line, 2);
    assert_eq!(tokens[1].line, 2);
}

#[test]
fn two_character_operators() {
    let (tokens, _) = scan("! != = == < <= > >= / *");
    assert_eq!(
        kinds(&tokens),
        vec![
            TokenType::Bang,
            TokenType::BangEqual,
            TokenType::Equal,
            TokenType::EqualEqual,
            TokenType::Less,
            TokenType::LessEqual,
            TokenType::Greater,
            TokenType::GreaterEqual,
            TokenType::Slash,
            TokenType::Star,
            TokenType::Eof,
        ]
    );
}

#[test]
fn single_character_tokens() {
    let (tokens, _) = scan("(){},.-+;");
    assert_eq!(
        kinds(&tokens),
        vec![
            TokenType::LeftParen,
            TokenType::RightParen,
            TokenType::LeftBrace,
            TokenType::RightBrace,
            TokenType::Comma,
            TokenType::Dot,
            TokenType::Minus,
            TokenType::Plus,
            TokenType::SemiColon,
            TokenType::Eof,
        ]
    );
}

#[test]
fn keywords_and_identifiers() {
    let (tokens, _) = scan("and class else false for fun if nil or print return super this true var while orchid");
    assert_eq!(
        kinds(&tokens),
        vec![
            TokenType::And,
            TokenType::Class,
            TokenType::Else,
            TokenType::False,
            TokenType::For,
            TokenType::Fun,
            TokenType::If,
            TokenType::Nil,
            TokenType::Or,
            TokenType::Print,
            TokenType::Return,
            TokenType::Super,
            TokenType::This,
            TokenType::True,
            TokenType::Var,
            TokenType::While,
            TokenType::Identifier,
            TokenType::Eof,
        ]
    );
    assert_eq!(tokens[16].lexeme, "orchid");
}

#[test]
fn identifiers_take_letters_and_digits() {
    let (tokens, _) = scan("abc123 élan");
    assert_eq!(kinds(&tokens), vec![TokenType::Identifier, TokenType::Identifier, TokenType::Eof]);
    assert_eq!(tokens[0].lexeme, "abc123");
    assert_eq!(tokens[1].lexeme, "élan");
}

#[test]
fn number_literals() {
    let (tokens, _) = scan("123 4.5 6. 7");
    assert_eq!(
        kinds(&tokens),
        vec![TokenType::Number, TokenType::Number, TokenType::Number, TokenType::Dot, TokenType::Number, TokenType::Eof]
    );
    let value = |t: &Token| match &t.literal {
        Some(Literal::Number(n)) => (n.numerator(), n.denominator()),
        other => panic!("unexpected literal {:?}", other),
    };
    assert_eq!(value(&tokens[0]), (123, 1));
    assert_eq!(value(&tokens[1]), (45, 10));
    assert_eq!(value(&tokens[2]), (6, 1));
    assert_eq!(tokens[1].lexeme, "4.5");
}

#[test]
fn number_literal_too_large_is_infinite() {
    let (tokens, scanner) = scan("99999999999999999999 1");
    assert_eq!(kinds(&tokens), vec![TokenType::Number, TokenType::Number, TokenType::Eof]);
    assert!(scanner.errors.is_empty());
    match &tokens[0].literal {
        Some(Literal::Number(n)) => assert!(n.is_infinite() && n.numerator() > 0),
        other => panic!("unexpected literal {:?}", other),
    }
}

#[test]
fn long_fraction_keeps_the_digits_that_fit() {
    let (tokens, scanner) = scan("0.12345678901234567890123");
    assert_eq!(kinds(&tokens), vec![TokenType::Number, TokenType::Eof]);
    assert!(scanner.errors.is_empty());
    assert_eq!(tokens[0].lexeme, "0.12345678901234567890123");
    match &tokens[0].literal {
        Some(Literal::Number(n)) => {
            assert_eq!((n.numerator(), n.denominator()), (123456789012345678, 1000000000000000000))
        }
        other => panic!("unexpected literal {:?}", other),
    }
}

#[test]
fn unexpected_character_is_skipped() {
    let (tokens, scanner) = scan("1 @ # 2");
    assert_eq!(kinds(&tokens), vec![TokenType::Number, TokenType::Number, TokenType::Eof]);
    assert_eq!(scanner.errors.len(), 2);
    assert_eq!(scanner.errors[0].message, "Unexpected character.");
    assert_eq!(scanner.errors[0].line, 1);
}

#[test]
fn newlines_count_lines() {
    let (tokens, _) = scan("a\n\nb\r\tc");
    assert_eq!(tokens[0].line, 1);
    assert_eq!(tokens[1].line, 3);
    assert_eq!(tokens[2].line, 3);
    assert_eq!(tokens[3].token_type, TokenType::Eof);
    assert_eq!(tokens[3].line, 3);
}

#[test]
fn empty_source_is_only_end() {
    let (tokens, scanner) = scan("");
    assert_eq!(kinds(&tokens), vec![TokenType::Eof]);
    assert_eq!(tokens[0].lexeme, "");
    assert!(tokens[0].literal.is_none());
    assert!(scanner.errors.is_empty());
}

#[test]
fn non_literal_tokens_carry_nil() {
    let (tokens, _) = scan("x +");
    assert!(matches!(tokens[0].literal, Some(Literal::Nil)));
    assert!(matches!(tokens[1].literal, Some(Literal::Nil)));
}

#[test]
fn non_alphabetic_symbol_is_unexpected() {
    let (tokens, scanner) = scan("€ x");
    assert_eq!(kinds(&tokens), vec![TokenType::Identifier, TokenType::Eof]);
    assert_eq!(scanner.errors.len(), 1);
    assert_eq!(scanner.errors[0].message, "Unexpected character.");
}
