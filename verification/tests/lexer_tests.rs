use regex_ast::lexer::{Lexer, Token};

#[test]
fn is_empty_string() {
    let mut l: Lexer = Lexer::new(r#"$"#);
    let ts = l.scan();
    assert_eq!(ts, [Token::EmptyString]);
}

#[test]
fn is_escaped_empty_string() {
    let mut l: Lexer = Lexer::new(r#"\$"#);
    let ts = l.scan();
    assert_eq!(ts, [Token::Literal('$')]);
}

#[test]
fn is_empty_set() {
    let mut l: Lexer = Lexer::new(r#"\0"#);
    let ts = l.scan();
    assert_eq!(ts, [Token::EmptySet]);
}

#[test]
fn is_escaped_empty_set() {
    let mut l: Lexer = Lexer::new(r#"\\0"#);
    let ts = l.scan();
    assert_eq!(ts, [Token::Literal('\\'), Token::Literal('0')]);
}

#[test]
fn is_open_paren() {
    let mut l: Lexer = Lexer::new(r#"("#);
    let ts = l.scan();
    assert_eq!(ts, [Token::OpenParen]);
}

#[test]
fn is_escaped_open_paren() {
    let mut l: Lexer = Lexer::new(r#"\("#);
    let ts = l.scan();
    assert_eq!(ts, [Token::Literal('(')]);
}

#[test]
fn is_close_paren() {
    let mut l: Lexer = Lexer::new(r#")"#);
    let ts = l.scan();
    assert_eq!(ts, [Token::CloseParen]);
}

#[test]
fn is_escaped_close_paren() {
    let mut l: Lexer = Lexer::new(r#"\)"#);
    let ts = l.scan();
    assert_eq!(ts, [Token::Literal(')')]);
}

#[test]
fn is_alternation() {
    let mut l: Lexer = Lexer::new(r#"|"#);
    let ts = l.scan();
    assert_eq!(ts, [Token::Alternation]);
}

#[test]
fn is_escaped_alternation() {
    let mut l: Lexer = Lexer::new(r#"\|"#);
    let ts = l.scan();
    assert_eq!(ts, [Token::Literal('|')]);
}

#[test]
fn is_kleene() {
    let mut l: Lexer = Lexer::new(r#"*"#);
    let ts = l.scan();
    assert_eq!(ts, [Token::Kleene]);
}

#[test]
fn is_escaped_kleene() {
    let mut l: Lexer = Lexer::new(r#"\*"#);
    let ts = l.scan();
    assert_eq!(ts, [Token::Literal('*')]);
}

#[test]
fn regex_with_trailing_backslash() {
    let mut l: Lexer = Lexer::new(r#"a*b|cd0\"#);
    let ts = l.scan();
    assert_eq!(
        ts,
        [
            Token::Literal('a'),
            Token::Kleene,
            Token::Literal('b'),
            Token::Alternation,
            Token::Literal('c'),
            Token::Literal('d'),
            Token::Literal('0'),
            Token::Literal('\\')
        ]
    );
}

#[test]
fn regex_empty_set_or_empty_string() {
    let mut l: Lexer = Lexer::new(r#"\0|$"#);
    let ts = l.scan();
    assert_eq!(ts, [Token::EmptySet, Token::Alternation, Token::EmptyString]);
}

#[test]
fn empty_regex() {
    let mut l: Lexer = Lexer::new(r#""#);
    let ts = l.scan();
    assert_eq!(ts, []);
}

#[test]
fn scan_is_deterministic() {
    let ts1 = Lexer::new(r#"(james)*|(jake)"#).scan();
    let ts2 = Lexer::new(r#"(james)*|(jake)"#).scan();
    assert_eq!(ts1, ts2);
}

#[test]
fn whitespace_is_skipped() {
    assert_eq!(Lexer::new("a b").scan(), Lexer::new("ab").scan());
    assert_eq!(Lexer::new(" a\tb\nc ").scan(), Lexer::new("abc").scan());
}

#[test]
fn whitespace_after_backslash_keeps_backslash_literal() {
    let ts = Lexer::new("\\ *").scan();
    assert_eq!(ts, [Token::Literal('\\'), Token::Kleene]);
}

#[test]
fn trailing_backslash_after_literals() {
    let ts = Lexer::new("cd\\").scan();
    assert_eq!(
        ts,
        [Token::Literal('c'), Token::Literal('d'), Token::Literal('\\')]
    );
}

#[test]
fn unrecognized_escape_keeps_both_characters() {
    let ts = Lexer::new(r#"\a"#).scan();
    assert_eq!(ts, [Token::Literal('\\'), Token::Literal('a')]);
}
