use regex_ast::lexer::{Lexer, Token};
use regex_ast::parser::{Ast, ParseError, Parser};

fn parse_text(text: &str) -> Result<Ast, ParseError> {
    let tokens = Lexer::new(text).scan();
    Parser::new(tokens).parse()
}

fn lit(c: char) -> Ast {
    Ast::Literal(c)
}

fn concat(l: Ast, r: Ast) -> Ast {
    Ast::Concat(Box::new(l), Box::new(r))
}

fn alt(l: Ast, r: Ast) -> Ast {
    Ast::Alternation(Box::new(l), Box::new(r))
}

fn star(inner: Ast) -> Ast {
    Ast::Star(Box::new(inner))
}

#[test]
fn parse_single_literal() {
    assert_eq!(parse_text("a"), Ok(lit('a')));
}

#[test]
fn parse_leaves() {
    assert_eq!(parse_text("$"), Ok(Ast::EmptyString));
    assert_eq!(parse_text(r#"\0"#), Ok(Ast::EmptySet));
}

#[test]
fn parse_empty_input_is_empty_string() {
    assert_eq!(parse_text(""), Ok(Ast::EmptyString));
    assert_eq!(Parser::new(Vec::new()).parse(), Ok(Ast::EmptyString));
}

#[test]
fn alternation_is_left_associative() {
    assert_eq!(
        parse_text("a|b|c"),
        Ok(alt(alt(lit('a'), lit('b')), lit('c')))
    );
}

#[test]
fn concatenation_is_left_associative() {
    assert_eq!(
        parse_text("abc"),
        Ok(concat(concat(lit('a'), lit('b')), lit('c')))
    );
}

#[test]
fn kleene_binds_tighter_than_concatenation() {
    assert_eq!(
        parse_text("ab*c"),
        Ok(concat(concat(lit('a'), star(lit('b'))), lit('c')))
    );
}

#[test]
fn concatenation_binds_tighter_than_alternation() {
    assert_eq!(
        parse_text("ab|c"),
        Ok(alt(concat(lit('a'), lit('b')), lit('c')))
    );
}

#[test]
fn double_star_wraps_twice() {
    assert_eq!(parse_text("a**"), Ok(star(star(lit('a')))));
}

#[test]
fn grouping_leaves_no_node() {
    assert_eq!(parse_text("(a)"), Ok(lit('a')));
    assert_eq!(parse_text("(a|b)"), parse_text("a|b"));
    assert_eq!(parse_text("((ab)*|c)"), parse_text("(ab)*|c"));
}

#[test]
fn grouping_changes_precedence() {
    assert_eq!(
        parse_text("(a|b)c"),
        Ok(concat(alt(lit('a'), lit('b')), lit('c')))
    );
    assert_eq!(parse_text("(ab)*"), Ok(star(concat(lit('a'), lit('b')))));
}

#[test]
fn unclosed_paren_is_unbalanced() {
    assert_eq!(parse_text("(a"), Err(ParseError::UnbalancedParens(2)));
}

#[test]
fn stray_close_paren_is_unexpected_token() {
    assert_eq!(parse_text("a)"), Err(ParseError::UnexpectedToken(1)));
}

#[test]
fn leading_star_is_unexpected_token() {
    assert_eq!(parse_text("*a"), Err(ParseError::UnexpectedToken(0)));
}

#[test]
fn trailing_alternation_is_unexpected_end() {
    assert_eq!(parse_text("a|"), Err(ParseError::UnexpectedEnd(2)));
}

#[test]
fn empty_group_is_an_error() {
    assert_eq!(parse_text("()"), Err(ParseError::UnexpectedToken(1)));
}

#[test]
fn parser_reports_first_error() {
    let tokens = vec![Token::Alternation, Token::Literal('a')];
    assert_eq!(
        Parser::new(tokens).parse(),
        Err(ParseError::UnexpectedToken(0))
    );
}

#[test]
fn whitespace_does_not_change_the_tree() {
    assert_eq!(parse_text("a b|c"), parse_text("ab|c"));
}

#[test]
fn sample_pattern_parses() {
    let expected = alt(
        star(concat(
            concat(concat(concat(lit('j'), lit('a')), lit('m')), lit('e')),
            lit('s'),
        )),
        concat(concat(concat(lit('j'), lit('a')), lit('k')), lit('e')),
    );
    assert_eq!(parse_text("(james)*|(jake)"), Ok(expected));
}
