use codegen_c::compiler::lex as small;
use codegen_c::lex::{tokenize, Constant, Error, Identifier, Keyword, Token};

#[test]
fn lexes_a_small_function() {
    let tokens = tokenize(b"int main(void) { return 42; }\n").unwrap();
    assert_eq!(
        tokens,
        vec![
            Token::Keyword(Keyword::Int),
            Token::Identifier(Identifier::new(b"main")),
            Token::OpenParen,
            Token::Keyword(Keyword::Void),
            Token::CloseParen,
            Token::OpenBrace,
            Token::Keyword(Keyword::Return),
            Token::Constant(Constant::Integer(42)),
            Token::Semicolon,
            Token::CloseBrace,
        ]
    );
}

#[test]
fn longest_operator_wins() {
    let tokens = tokenize(b"a <<= b >> c-- && d != e ").unwrap();
    assert_eq!(
        tokens,
        vec![
            Token::Identifier(Identifier::new(b"a")),
            Token::LeftShiftEqual,
            Token::Identifier(Identifier::new(b"b")),
            Token::RightShift,
            Token::Identifier(Identifier::new(b"c")),
            Token::Decrement,
            Token::LogicalAnd,
            Token::Identifier(Identifier::new(b"d")),
            Token::NotEqual,
            Token::Identifier(Identifier::new(b"e")),
        ]
    );
}

#[test]
fn constant_followed_by_letter_is_rejected() {
    assert!(matches!(tokenize(b"12ab;"), Err(Error::InvalidConstant)));
}

#[test]
fn word_at_end_of_input_is_rejected() {
    assert!(matches!(tokenize(b"return"), Err(Error::InvalidLiteral)));
}

#[test]
fn stray_byte_is_not_an_identifier() {
    assert!(matches!(tokenize(b"@x "), Err(Error::InvalidIdentifier)));
}

#[test]
fn non_ascii_is_rejected() {
    assert!(matches!(tokenize("é ".as_bytes()), Err(Error::Other(_))));
}

#[test]
fn empty_input_has_no_tokens() {
    assert_eq!(tokenize(b"  \n\t").unwrap(), vec![]);
}

#[test]
fn constant_too_large_is_rejected() {
    assert!(matches!(tokenize(b"99999999999999999999;"), Err(Error::InvalidConstant)));
    let ok = tokenize(b"18446744073709551615;").unwrap();
    assert_eq!(ok[0], Token::Constant(Constant::Integer(u64::MAX)));
}

#[test]
fn token_kind_queries() {
    let t = tokenize(b"x 1 while;").unwrap();
    assert!(t[0].identifier() && !t[0].constant() && !t[0].keyword());
    assert!(t[1].constant());
    assert!(t[2].keyword());
    assert_eq!(Keyword::While.as_bytes(), b"while".to_vec());
    assert_eq!(*Identifier::new_rc(b"abc"), Identifier::new(b"abc"));
}

#[test]
fn small_lexer_reads_a_return() {
    let tokens = small::tokenize(b"int main(void){return --2;}\n").unwrap();
    assert_eq!(
        tokens,
        vec![
            small::Token::Keyword(small::Keyword::Int),
            small::Token::Identifier(small::Identifier(b"main".to_vec())),
            small::Token::OpenParen,
            small::Token::Keyword(small::Keyword::Void),
            small::Token::CloseParen,
            small::Token::OpenBrace,
            small::Token::Keyword(small::Keyword::Return),
            small::Token::Decrement,
            small::Token::Constant(small::Constant::Integer(2)),
            small::Token::Semicolon,
            small::Token::CloseBrace,
        ]
    );
}

#[test]
fn small_lexer_errors() {
    assert!(matches!(small::tokenize("ü".as_bytes()), Err(small::Error::NotAscii)));
    assert!(matches!(small::tokenize(b"_x;"), Err(small::Error::InvalidIdentifier)));
    assert!(matches!(small::tokenize(b"3x;"), Err(small::Error::InvalidConstant)));
    assert!(matches!(small::tokenize(b"+"), Err(small::Error::InvalidLiteral)));
    assert_eq!(small::Keyword::Return.as_bytes(), b"return".to_vec());
}

#[test]
fn values_compare_with_tokens() {
    let t = tokenize(b"int x 7;").unwrap();
    assert!(Keyword::Int == t[0]);
    assert!(Keyword::Void != t[0]);
    assert!(Identifier::new(b"x") == t[1]);
    assert!(Identifier::new(b"y") != t[1]);
    assert!(Constant::Integer(7) == t[2]);
    assert!(Constant::Integer(7) != t[3]);
}
