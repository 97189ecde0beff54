//! Parser: a recursive descent over the token sequence, one procedure per
//! precedence level, from loosest to tightest binding:
//! alternation, concatenation, Kleene star, atom. Grouping steers which tree
//! is built but leaves no node of its own.

use vstd::prelude::*;
use crate::lexer::Token;

verus! {

/// A node of the abstract syntax tree. Precedence is resolved by shape:
/// the tree carries no grouping node.
#[derive(Debug, PartialEq, Eq)]
pub enum Ast {
    EmptySet,
    EmptyString,
    Literal(char),
    Concat(Box<Ast>, Box<Ast>),
    Alternation(Box<Ast>, Box<Ast>),
    Star(Box<Ast>),
}

/// A syntax error; each variant carries the token index where it was
/// detected.
#[derive(Debug, PartialEq, Eq, Clone, Copy, Structural)]
pub enum ParseError {
    /// The tokens ran out while an operand was still required.
    UnexpectedEnd(usize),
    /// A token appeared where no valid continuation exists.
    UnexpectedToken(usize),
    /// An opening parenthesis was never matched by a closing one.
    UnbalancedParens(usize),
}

/// Clamps `p` into `[lo, hi]`. The recursive parse functions below clamp
/// the position a subparse returned only so that their termination measure
/// visibly shrinks and stays non-negative; a successful subparse in fact
/// always lands inside the interval, so the clamp changes nothing.
pub open spec fn clamp_pos(p: int, lo: int, hi: int) -> int {
    if p < lo {
        lo
    } else if p > hi {
        hi
    } else {
        p
    }
}

/// Whether a token may begin an operand, so that concatenation continues.
pub open spec fn spec_starts_operand(t: Token) -> bool {
    !(t matches Token::Alternation) && !(t matches Token::CloseParen)
}

/// Wraps `ast` in one `Star` node per `Kleene` token standing at `pos` and
/// after it; returns the wrapped tree and the position past the stars.
pub open spec fn wrap_stars_spec(ts: Seq<Token>, pos: int, ast: Ast) -> (Ast, int)
    decreases ts.len() - pos,
{
    if 0 <= pos < ts.len() && (ts[pos] matches Token::Kleene) {
        wrap_stars_spec(ts, pos + 1, Ast::Star(Box::new(ast)))
    } else {
        (ast, pos)
    }
}

/// Parses one atom at `pos`: a grouped expression or a single leaf token.
pub open spec fn parse_atom_spec(ts: Seq<Token>, pos: int) -> Result<(Ast, int), ParseError>
    decreases ts.len() - pos, 0int,
{
    if pos < 0 || pos >= ts.len() {
        Err(ParseError::UnexpectedEnd(pos as usize))
    } else {
        match ts[pos] {
            Token::OpenParen => match parse_alternation_spec(ts, pos + 1) {
                Ok((ast, p)) => {
                    if p < ts.len() && (ts[p] matches Token::CloseParen) {
                        Ok((ast, p + 1))
                    } else {
                        Err(ParseError::UnbalancedParens(p as usize))
                    }
                },
                Err(e) => Err(e),
            },
            Token::EmptySet => Ok((Ast::EmptySet, pos + 1)),
            Token::EmptyString => Ok((Ast::EmptyString, pos + 1)),
            Token::Literal(c) => Ok((Ast::Literal(c), pos + 1)),
            _ => Err(ParseError::UnexpectedToken(pos as usize)),
        }
    }
}

/// Parses one atom and wraps it in a `Star` per following `Kleene` token.
pub open spec fn parse_kleene_spec(ts: Seq<Token>, pos: int) -> Result<(Ast, int), ParseError>
    decreases ts.len() - pos, 1int,
{
    match parse_atom_spec(ts, pos) {
        Ok((ast, p)) => Ok(wrap_stars_spec(ts, p, ast)),
        Err(e) => Err(e),
    }
}

/// After a first operand `acc`, folds each further operand into a `Concat`
/// node on the left, while the next token begins an operand.
pub open spec fn concat_tail_spec(ts: Seq<Token>, pos: int, acc: Ast) -> Result<
    (Ast, int),
    ParseError,
>
    decreases ts.len() - pos, 3int,
{
    if 0 <= pos < ts.len() && spec_starts_operand(ts[pos]) {
        match parse_kleene_spec(ts, pos) {
            Ok((rhs, p)) => concat_tail_spec(
                ts,
                clamp_pos(p, pos + 1, ts.len() as int),
                Ast::Concat(Box::new(acc), Box::new(rhs)),
            ),
            Err(e) => Err(e),
        }
    } else {
        Ok((acc, pos))
    }
}

/// Parses a concatenation: one starred atom, then the left fold of
/// `concat_tail_spec`.
pub open spec fn parse_concatenation_spec(ts: Seq<Token>, pos: int) -> Result<
    (Ast, int),
    ParseError,
>
    decreases ts.len() - pos, 4int,
{
    if pos < 0 || pos > ts.len() {
        Err(ParseError::UnexpectedEnd(pos as usize))
    } else {
        match parse_kleene_spec(ts, pos) {
            Ok((ast, p)) => concat_tail_spec(ts, clamp_pos(p, pos, ts.len() as int), ast),
            Err(e) => Err(e),
        }
    }
}

/// After a first alternative `acc`, folds each further alternative into an
/// `Alternation` node on the left, while the next token is `Alternation`.
pub open spec fn alt_tail_spec(ts: Seq<Token>, pos: int, acc: Ast) -> Result<
    (Ast, int),
    ParseError,
>
    decreases ts.len() - pos, 5int,
{
    if 0 <= pos < ts.len() && (ts[pos] matches Token::Alternation) {
        match parse_concatenation_spec(ts, pos + 1) {
            Ok((rhs, p)) => alt_tail_spec(
                ts,
                clamp_pos(p, pos + 1, ts.len() as int),
                Ast::Alternation(Box::new(acc), Box::new(rhs)),
            ),
            Err(e) => Err(e),
        }
    } else {
        Ok((acc, pos))
    }
}

/// Parses an alternation: one concatenation, then the left fold of
/// `alt_tail_spec`.
pub open spec fn parse_alternation_spec(ts: Seq<Token>, pos: int) -> Result<
    (Ast, int),
    ParseError,
>
    decreases ts.len() - pos, 6int,
{
    if pos < 0 || pos > ts.len() {
        Err(ParseError::UnexpectedEnd(pos as usize))
    } else {
        match parse_concatenation_spec(ts, pos) {
            Ok((ast, p)) => alt_tail_spec(ts, clamp_pos(p, pos, ts.len() as int), ast),
            Err(e) => Err(e),
        }
    }
}

/// The tree (or error) that parsing a whole token sequence yields. An empty
/// sequence denotes the empty-string expression; tokens left over after the
/// top-level alternation are a syntax error.
pub open spec fn parse_spec(ts: Seq<Token>) -> Result<Ast, ParseError> {
    if ts.len() == 0 {
        Ok(Ast::EmptyString)
    } else {
        match parse_alternation_spec(ts, 0) {
            Ok((ast, p)) => {
                if p == ts.len() {
                    Ok(ast)
                } else {
                    Err(ParseError::UnexpectedToken(p as usize))
                }
            },
            Err(e) => Err(e),
        }
    }
}

/// The position `wrap_stars_spec` returns never runs backwards or past the
/// end of the tokens.
pub proof fn lemma_wrap_bounds(ts: Seq<Token>, pos: int, ast: Ast)
    requires
        0 <= pos <= ts.len(),
    ensures
        pos <= wrap_stars_spec(ts, pos, ast).1 <= ts.len(),
    decreases ts.len() - pos,
{
    if pos < ts.len() && (ts[pos] matches Token::Kleene) {
        lemma_wrap_bounds(ts, pos + 1, Ast::Star(Box::new(ast)));
    }
}

/// A successful atom consumes at least one token and never runs past the
/// end of the tokens.
pub proof fn lemma_atom_bounds(ts: Seq<Token>, pos: int)
    requires
        0 <= pos <= ts.len(),
    ensures
        parse_atom_spec(ts, pos) matches Ok(ok) ==> pos < ok.1 <= ts.len(),
    decreases ts.len() - pos, 2int,
{
    if pos < ts.len() && (ts[pos] matches Token::OpenParen) {
        lemma_alternation_bounds(ts, pos + 1);
    }
}

/// A successful starred atom consumes at least one token and never runs
/// past the end of the tokens.
pub proof fn lemma_kleene_bounds(ts: Seq<Token>, pos: int)
    requires
        0 <= pos <= ts.len(),
    ensures
        parse_kleene_spec(ts, pos) matches Ok(ok) ==> pos < ok.1 <= ts.len(),
    decreases ts.len() - pos, 3int,
{
    lemma_atom_bounds(ts, pos);
    match parse_atom_spec(ts, pos) {
        Ok((a, pa)) => lemma_wrap_bounds(ts, pa, a),
        Err(_) => {},
    }
}

/// A successful concatenation fold never runs backwards or past the end of
/// the tokens.
pub proof fn lemma_concat_tail_bounds(ts: Seq<Token>, pos: int, acc: Ast)
    requires
        0 <= pos <= ts.len(),
    ensures
        concat_tail_spec(ts, pos, acc) matches Ok(ok) ==> pos <= ok.1 <= ts.len(),
    decreases ts.len() - pos, 4int,
{
    if pos < ts.len() && spec_starts_operand(ts[pos]) {
        lemma_kleene_bounds(ts, pos);
        match parse_kleene_spec(ts, pos) {
            Ok((rhs, p)) => {
                assert(clamp_pos(p, pos + 1, ts.len() as int) == p);
                lemma_concat_tail_bounds(ts, p, Ast::Concat(Box::new(acc), Box::new(rhs)));
            },
            Err(_) => {},
        }
    }
}

/// A successful concatenation consumes at least one token and never runs
/// past the end of the tokens.
pub proof fn lemma_concatenation_bounds(ts: Seq<Token>, pos: int)
    requires
        0 <= pos <= ts.len(),
    ensures
        parse_concatenation_spec(ts, pos) matches Ok(ok) ==> pos < ok.1 <= ts.len(),
    decreases ts.len() - pos, 5int,
{
    lemma_kleene_bounds(ts, pos);
    match parse_kleene_spec(ts, pos) {
        Ok((a, p)) => {
            assert(clamp_pos(p, pos, ts.len() as int) == p);
            lemma_concat_tail_bounds(ts, p, a);
        },
        Err(_) => {},
    }
}

/// A successful alternation fold never runs backwards or past the end of
/// the tokens.
pub proof fn lemma_alt_tail_bounds(ts: Seq<Token>, pos: int, acc: Ast)
    requires
        0 <= pos <= ts.len(),
    ensures
        alt_tail_spec(ts, pos, acc) matches Ok(ok) ==> pos <= ok.1 <= ts.len(),
    decreases ts.len() - pos, 6int,
{
    if pos < ts.len() && (ts[pos] matches Token::Alternation) {
        lemma_concatenation_bounds(ts, pos + 1);
        match parse_concatenation_spec(ts, pos + 1) {
            Ok((rhs, p)) => {
                assert(clamp_pos(p, pos + 1, ts.len() as int) == p);
                lemma_alt_tail_bounds(ts, p, Ast::Alternation(Box::new(acc), Box::new(rhs)));
            },
            Err(_) => {},
        }
    }
}

/// A successful alternation consumes at least one token and never runs past
/// the end of the tokens.
pub proof fn lemma_alternation_bounds(ts: Seq<Token>, pos: int)
    requires
        0 <= pos <= ts.len(),
    ensures
        parse_alternation_spec(ts, pos) matches Ok(ok) ==> pos < ok.1 <= ts.len(),
    decreases ts.len() - pos, 7int,
{
    lemma_concatenation_bounds(ts, pos);
    match parse_concatenation_spec(ts, pos) {
        Ok((a, p)) => {
            assert(clamp_pos(p, pos, ts.len() as int) == p);
            lemma_alt_tail_bounds(ts, p, a);
        },
        Err(_) => {},
    }
}

/// Two positions in two token sequences with the same suffix see the same
/// remaining length, the same tokens, and the same deeper suffixes.
proof fn lemma_skip_shift(ts1: Seq<Token>, pos1: int, ts2: Seq<Token>, pos2: int, k: int)
    requires
        0 <= pos1 <= ts1.len(),
        0 <= pos2 <= ts2.len(),
        ts1.skip(pos1) == ts2.skip(pos2),
        0 <= k <= ts1.len() - pos1,
    ensures
        ts1.len() - pos1 == ts2.len() - pos2,
        ts1.skip(pos1 + k) == ts2.skip(pos2 + k),
        k < ts1.len() - pos1 ==> ts1[pos1 + k] == ts2[pos2 + k],
{
    assert(ts1.skip(pos1).len() == ts1.len() - pos1);
    assert(ts2.skip(pos2).len() == ts2.len() - pos2);
    assert(ts1.skip(pos1 + k) =~= ts1.skip(pos1).skip(k));
    assert(ts2.skip(pos2 + k) =~= ts2.skip(pos2).skip(k));
    if k < ts1.len() - pos1 {
        assert(ts1.skip(pos1)[k] == ts1[pos1 + k]);
        assert(ts2.skip(pos2)[k] == ts2[pos2 + k]);
    }
}

/// Star wrapping behaves the same at two positions that see the same token
/// suffix; only the returned position is shifted.
proof fn lemma_wrap_shift(ts1: Seq<Token>, pos1: int, ts2: Seq<Token>, pos2: int, ast: Ast)
    requires
        0 <= pos1 <= ts1.len(),
        0 <= pos2 <= ts2.len(),
        ts1.skip(pos1) == ts2.skip(pos2),
    ensures
        wrap_stars_spec(ts2, pos2, ast) == (
            wrap_stars_spec(ts1, pos1, ast).0,
            wrap_stars_spec(ts1, pos1, ast).1 - pos1 + pos2,
        ),
    decreases ts1.len() - pos1,
{
    lemma_skip_shift(ts1, pos1, ts2, pos2, 0);
    if pos1 < ts1.len() {
        lemma_skip_shift(ts1, pos1, ts2, pos2, 1);
        if (ts1[pos1] matches Token::Kleene) {
            lemma_wrap_shift(ts1, pos1 + 1, ts2, pos2 + 1, Ast::Star(Box::new(ast)));
        }
    }
}

/// An atom parsed successfully at one position parses the same at another
/// position that sees the same token suffix; only positions are shifted.
proof fn lemma_atom_shift(ts1: Seq<Token>, pos1: int, ts2: Seq<Token>, pos2: int)
    requires
        0 <= pos1 <= ts1.len(),
        0 <= pos2 <= ts2.len(),
        ts1.skip(pos1) == ts2.skip(pos2),
    ensures
        parse_atom_spec(ts1, pos1) matches Ok(ok) ==> parse_atom_spec(ts2, pos2) == Ok::<
            (Ast, int),
            ParseError,
        >((ok.0, ok.1 - pos1 + pos2)),
    decreases ts1.len() - pos1, 2int,
{
    lemma_skip_shift(ts1, pos1, ts2, pos2, 0);
    if pos1 < ts1.len() {
        lemma_skip_shift(ts1, pos1, ts2, pos2, 1);
        if (ts1[pos1] matches Token::OpenParen) {
            lemma_alternation_shift(ts1, pos1 + 1, ts2, pos2 + 1);
            lemma_alternation_bounds(ts1, pos1 + 1);
            match parse_alternation_spec(ts1, pos1 + 1) {
                Ok((a, q)) => {
                    lemma_skip_shift(ts1, pos1, ts2, pos2, q - pos1);
                },
                Err(_) => {},
            }
        }
    }
}

/// A starred atom parsed successfully at one position parses the same at
/// another position that sees the same token suffix.
proof fn lemma_kleene_shift(ts1: Seq<Token>, pos1: int, ts2: Seq<Token>, pos2: int)
    requires
        0 <= pos1 <= ts1.len(),
        0 <= pos2 <= ts2.len(),
        ts1.skip(pos1) == ts2.skip(pos2),
    ensures
        parse_kleene_spec(ts1, pos1) matches Ok(ok) ==> parse_kleene_spec(ts2, pos2) == Ok::<
            (Ast, int),
            ParseError,
        >((ok.0, ok.1 - pos1 + pos2)),
    decreases ts1.len() - pos1, 3int,
{
    lemma_skip_shift(ts1, pos1, ts2, pos2, 0);
    lemma_atom_shift(ts1, pos1, ts2, pos2);
    lemma_atom_bounds(ts1, pos1);
    match parse_atom_spec(ts1, pos1) {
        Ok((a, pa)) => {
            lemma_skip_shift(ts1, pos1, ts2, pos2, pa - pos1);
            lemma_wrap_shift(ts1, pa, ts2, pa - pos1 + pos2, a);
        },
        Err(_) => {},
    }
}

/// A concatenation fold that succeeds at one position succeeds identically
/// at another position that sees the same token suffix.
proof fn lemma_concat_tail_shift(
    ts1: Seq<Token>,
    pos1: int,
    ts2: Seq<Token>,
    pos2: int,
    acc: Ast,
)
    requires
        0 <= pos1 <= ts1.len(),
        0 <= pos2 <= ts2.len(),
        ts1.skip(pos1) == ts2.skip(pos2),
    ensures
        concat_tail_spec(ts1, pos1, acc) matches Ok(ok) ==> concat_tail_spec(ts2, pos2, acc)
            == Ok::<(Ast, int), ParseError>((ok.0, ok.1 - pos1 + pos2)),
    decreases ts1.len() - pos1, 4int,
{
    lemma_skip_shift(ts1, pos1, ts2, pos2, 0);
    if pos1 < ts1.len() {
        lemma_skip_shift(ts1, pos1, ts2, pos2, 1);
        if spec_starts_operand(ts1[pos1]) {
            lemma_kleene_shift(ts1, pos1, ts2, pos2);
            lemma_kleene_bounds(ts1, pos1);
            match parse_kleene_spec(ts1, pos1) {
                Ok((rhs, p)) => {
                    assert(clamp_pos(p, pos1 + 1, ts1.len() as int) == p);
                    assert(clamp_pos(p - pos1 + pos2, pos2 + 1, ts2.len() as int) == p - pos1
                        + pos2);
                    lemma_skip_shift(ts1, pos1, ts2, pos2, p - pos1);
                    lemma_concat_tail_shift(
                        ts1,
                        p,
                        ts2,
                        p - pos1 + pos2,
                        Ast::Concat(Box::new(acc), Box::new(rhs)),
                    );
                },
                Err(_) => {},
            }
        }
    }
}

/// A concatenation that succeeds at one position succeeds identically at
/// another position that sees the same token suffix.
proof fn lemma_concatenation_shift(ts1: Seq<Token>, pos1: int, ts2: Seq<Token>, pos2: int)
    requires
        0 <= pos1 <= ts1.len(),
        0 <= pos2 <= ts2.len(),
        ts1.skip(pos1) == ts2.skip(pos2),
    ensures
        parse_concatenation_spec(ts1, pos1) matches Ok(ok) ==> parse_concatenation_spec(
            ts2,
            pos2,
        ) == Ok::<(Ast, int), ParseError>((ok.0, ok.1 - pos1 + pos2)),
    decreases ts1.len() - pos1, 5int,
{
    lemma_skip_shift(ts1, pos1, ts2, pos2, 0);
    lemma_kleene_shift(ts1, pos1, ts2, pos2);
    lemma_kleene_bounds(ts1, pos1);
    match parse_kleene_spec(ts1, pos1) {
        Ok((a, p)) => {
            assert(clamp_pos(p, pos1, ts1.len() as int) == p);
            assert(clamp_pos(p - pos1 + pos2, pos2, ts2.len() as int) == p - pos1 + pos2);
            lemma_skip_shift(ts1, pos1, ts2, pos2, p - pos1);
            lemma_concat_tail_shift(ts1, p, ts2, p - pos1 + pos2, a);
        },
        Err(_) => {},
    }
}

/// An alternation fold that succeeds at one position succeeds identically
/// at another position that sees the same token suffix.
proof fn lemma_alt_tail_shift(ts1: Seq<Token>, pos1: int, ts2: Seq<Token>, pos2: int, acc: Ast)
    requires
        0 <= pos1 <= ts1.len(),
        0 <= pos2 <= ts2.len(),
        ts1.skip(pos1) == ts2.skip(pos2),
    ensures
        alt_tail_spec(ts1, pos1, acc) matches Ok(ok) ==> alt_tail_spec(ts2, pos2, acc) == Ok::<
            (Ast, int),
            ParseError,
        >((ok.0, ok.1 - pos1 + pos2)),
    decreases ts1.len() - pos1, 6int,
{
    lemma_skip_shift(ts1, pos1, ts2, pos2, 0);
    if pos1 < ts1.len() {
        lemma_skip_shift(ts1, pos1, ts2, pos2, 1);
        if (ts1[pos1] matches Token::Alternation) {
            lemma_concatenation_shift(ts1, pos1 + 1, ts2, pos2 + 1);
            lemma_concatenation_bounds(ts1, pos1 + 1);
            match parse_concatenation_spec(ts1, pos1 + 1) {
                Ok((rhs, p)) => {
                    assert(clamp_pos(p, pos1 + 1, ts1.len() as int) == p);
                    assert(clamp_pos(p - pos1 + pos2, pos2 + 1, ts2.len() as int) == p - pos1
                        + pos2);
                    lemma_skip_shift(ts1, pos1, ts2, pos2, p - pos1);
                    lemma_alt_tail_shift(
                        ts1,
                        p,
                        ts2,
                        p - pos1 + pos2,
                        Ast::Alternation(Box::new(acc), Box::new(rhs)),
                    );
                },
                Err(_) => {},
            }
        }
    }
}

/// An alternation that succeeds at one position succeeds identically at
/// another position that sees the same token suffix.
proof fn lemma_alternation_shift(ts1: Seq<Token>, pos1: int, ts2: Seq<Token>, pos2: int)
    requires
        0 <= pos1 <= ts1.len(),
        0 <= pos2 <= ts2.len(),
        ts1.skip(pos1) == ts2.skip(pos2),
    ensures
        parse_alternation_spec(ts1, pos1) matches Ok(ok) ==> parse_alternation_spec(ts2, pos2)
            == Ok::<(Ast, int), ParseError>((ok.0, ok.1 - pos1 + pos2)),
    decreases ts1.len() - pos1, 7int,
{
    lemma_skip_shift(ts1, pos1, ts2, pos2, 0);
    lemma_concatenation_shift(ts1, pos1, ts2, pos2);
    lemma_concatenation_bounds(ts1, pos1);
    match parse_concatenation_spec(ts1, pos1) {
        Ok((a, p)) => {
            assert(clamp_pos(p, pos1, ts1.len() as int) == p);
            assert(clamp_pos(p - pos1 + pos2, pos2, ts2.len() as int) == p - pos1 + pos2);
            lemma_skip_shift(ts1, pos1, ts2, pos2, p - pos1);
            lemma_alt_tail_shift(ts1, p, ts2, p - pos1 + pos2, a);
        },
        Err(_) => {},
    }
}

/// Star wrapping is unchanged by appending tokens that start with a closing
/// parenthesis: the wrap stops at the old end just as it stopped at the
/// end of the input.
proof fn lemma_wrap_extend(ts: Seq<Token>, pos: int, ext: Seq<Token>, ast: Ast)
    requires
        0 <= pos <= ts.len(),
        ext.len() > 0,
        ext[0] matches Token::CloseParen,
    ensures
        wrap_stars_spec(ts + ext, pos, ast) == wrap_stars_spec(ts, pos, ast),
    decreases ts.len() - pos,
{
    assert((ts + ext)[pos] == if pos < ts.len() {
        ts[pos]
    } else {
        ext[pos - ts.len()]
    });
    if pos < ts.len() && (ts[pos] matches Token::Kleene) {
        lemma_wrap_extend(ts, pos + 1, ext, Ast::Star(Box::new(ast)));
    }
}

/// A successful atom parse is unchanged by appending tokens that start
/// with a closing parenthesis.
proof fn lemma_atom_extend(ts: Seq<Token>, pos: int, ext: Seq<Token>)
    requires
        0 <= pos <= ts.len(),
        ext.len() > 0,
        ext[0] matches Token::CloseParen,
    ensures
        parse_atom_spec(ts, pos) matches Ok(ok) ==> parse_atom_spec(ts + ext, pos)
            == parse_atom_spec(ts, pos),
    decreases ts.len() - pos, 2int,
{
    if pos < ts.len() {
        assert((ts + ext)[pos] == ts[pos]);
        if (ts[pos] matches Token::OpenParen) {
            lemma_alternation_extend(ts, pos + 1, ext);
            lemma_alternation_bounds(ts, pos + 1);
            match parse_alternation_spec(ts, pos + 1) {
                Ok((a, q)) => {
                    if q < ts.len() {
                        assert((ts + ext)[q] == ts[q]);
                    }
                },
                Err(_) => {},
            }
        }
    }
}

/// A successful starred-atom parse is unchanged by appending tokens that
/// start with a closing parenthesis.
proof fn lemma_kleene_extend(ts: Seq<Token>, pos: int, ext: Seq<Token>)
    requires
        0 <= pos <= ts.len(),
        ext.len() > 0,
        ext[0] matches Token::CloseParen,
    ensures
        parse_kleene_spec(ts, pos) matches Ok(ok) ==> parse_kleene_spec(ts + ext, pos)
            == parse_kleene_spec(ts, pos),
    decreases ts.len() - pos, 3int,
{
    lemma_atom_extend(ts, pos, ext);
    lemma_atom_bounds(ts, pos);
    match parse_atom_spec(ts, pos) {
        Ok((a, pa)) => lemma_wrap_extend(ts, pa, ext, a),
        Err(_) => {},
    }
}

/// A successful concatenation fold is unchanged by appending tokens that
/// start with a closing parenthesis: the fold stops on the appended closing
/// parenthesis just as it stopped at the end of the input.
proof fn lemma_concat_tail_extend(ts: Seq<Token>, pos: int, ext: Seq<Token>, acc: Ast)
    requires
        0 <= pos <= ts.len(),
        ext.len() > 0,
        ext[0] matches Token::CloseParen,
    ensures
        concat_tail_spec(ts, pos, acc) matches Ok(ok) ==> concat_tail_spec(ts + ext, pos, acc)
            == concat_tail_spec(ts, pos, acc),
    decreases ts.len() - pos, 4int,
{
    assert((ts + ext)[pos] == if pos < ts.len() {
        ts[pos]
    } else {
        ext[pos - ts.len()]
    });
    if pos < ts.len() && spec_starts_operand(ts[pos]) {
        lemma_kleene_extend(ts, pos, ext);
        lemma_kleene_bounds(ts, pos);
        match parse_kleene_spec(ts, pos) {
            Ok((rhs, p)) => {
                assert(clamp_pos(p, pos + 1, ts.len() as int) == p);
                assert(clamp_pos(p, pos + 1, (ts + ext).len() as int) == p);
                lemma_concat_tail_extend(ts, p, ext, Ast::Concat(Box::new(acc), Box::new(rhs)));
            },
            Err(_) => {},
        }
    }
}

/// A successful concatenation parse is unchanged by appending tokens that
/// start with a closing parenthesis.
proof fn lemma_concatenation_extend(ts: Seq<Token>, pos: int, ext: Seq<Token>)
    requires
        0 <= pos <= ts.len(),
        ext.len() > 0,
        ext[0] matches Token::CloseParen,
    ensures
        parse_concatenation_spec(ts, pos) matches Ok(ok) ==> parse_concatenation_spec(
            ts + ext,
            pos,
        ) == parse_concatenation_spec(ts, pos),
    decreases ts.len() - pos, 5int,
{
    lemma_kleene_extend(ts, pos, ext);
    lemma_kleene_bounds(ts, pos);
    match parse_kleene_spec(ts, pos) {
        Ok((a, p)) => {
            assert(clamp_pos(p, pos, ts.len() as int) == p);
            assert(clamp_pos(p, pos, (ts + ext).len() as int) == p);
            lemma_concat_tail_extend(ts, p, ext, a);
        },
        Err(_) => {},
    }
}

/// A successful alternation fold is unchanged by appending tokens that
/// start with a closing parenthesis: the fold stops on the appended closing
/// parenthesis just as it stopped at the end of the input.
proof fn lemma_alt_tail_extend(ts: Seq<Token>, pos: int, ext: Seq<Token>, acc: Ast)
    requires
        0 <= pos <= ts.len(),
        ext.len() > 0,
        ext[0] matches Token::CloseParen,
    ensures
        alt_tail_spec(ts, pos, acc) matches Ok(ok) ==> alt_tail_spec(ts + ext, pos, acc)
            == alt_tail_spec(ts, pos, acc),
    decreases ts.len() - pos, 6int,
{
    assert((ts + ext)[pos] == if pos < ts.len() {
        ts[pos]
    } else {
        ext[pos - ts.len()]
    });
    if pos < ts.len() && (ts[pos] matches Token::Alternation) {
        lemma_concatenation_extend(ts, pos + 1, ext);
        lemma_concatenation_bounds(ts, pos + 1);
        match parse_concatenation_spec(ts, pos + 1) {
            Ok((rhs, p)) => {
                assert(clamp_pos(p, pos + 1, ts.len() as int) == p);
                assert(clamp_pos(p, pos + 1, (ts + ext).len() as int) == p);
                lemma_alt_tail_extend(ts, p, ext, Ast::Alternation(Box::new(acc), Box::new(rhs)));
            },
            Err(_) => {},
        }
    }
}

/// A successful alternation parse is unchanged by appending tokens that
/// start with a closing parenthesis.
proof fn lemma_alternation_extend(ts: Seq<Token>, pos: int, ext: Seq<Token>)
    requires
        0 <= pos <= ts.len(),
        ext.len() > 0,
        ext[0] matches Token::CloseParen,
    ensures
        parse_alternation_spec(ts, pos) matches Ok(ok) ==> parse_alternation_spec(ts + ext, pos)
            == parse_alternation_spec(ts, pos),
    decreases ts.len() - pos, 7int,
{
    lemma_concatenation_extend(ts, pos, ext);
    lemma_concatenation_bounds(ts, pos);
    match parse_concatenation_spec(ts, pos) {
        Ok((a, p)) => {
            assert(clamp_pos(p, pos, ts.len() as int) == p);
            assert(clamp_pos(p, pos, (ts + ext).len() as int) == p);
            lemma_alt_tail_extend(ts, p, ext, a);
        },
        Err(_) => {},
    }
}

/// Grouping irrelevance: wrapping a whole well-formed token sequence in one
/// pair of parentheses parses to the very same tree. (An empty sequence is
/// the one exception: it parses to the empty-string leaf, while a bare
/// `()` is a syntax error.)
pub proof fn lemma_grouping_irrelevance(ts: Seq<Token>, ast: Ast)
    requires
        ts.len() > 0,
        parse_spec(ts) == Ok::<Ast, ParseError>(ast),
    ensures
        parse_spec(seq![Token::OpenParen] + ts + seq![Token::CloseParen]) == Ok::<
            Ast,
            ParseError,
        >(ast),
{
    let close = seq![Token::CloseParen];
    let tsc = ts + close;
    let ts2 = seq![Token::OpenParen] + ts + close;
    let n = ts.len() as int;
    assert(parse_alternation_spec(ts, 0) == Ok::<(Ast, int), ParseError>((ast, n)));
    lemma_alternation_extend(ts, 0, close);
    assert(parse_alternation_spec(tsc, 0) == Ok::<(Ast, int), ParseError>((ast, n)));
    assert(ts2 =~= seq![Token::OpenParen] + tsc);
    assert(ts2.skip(1) =~= tsc.skip(0));
    lemma_alternation_shift(tsc, 0, ts2, 1);
    assert(parse_alternation_spec(ts2, 1) == Ok::<(Ast, int), ParseError>((ast, n + 1)));
    assert(ts2.len() == n + 2);
    assert(ts2[0] == Token::OpenParen);
    assert(ts2[n + 1] == Token::CloseParen);
    assert(parse_atom_spec(ts2, 0) == Ok::<(Ast, int), ParseError>((ast, n + 2)));
    assert(wrap_stars_spec(ts2, n + 2, ast) == (ast, n + 2));
    assert(parse_kleene_spec(ts2, 0) == Ok::<(Ast, int), ParseError>((ast, n + 2)));
    assert(clamp_pos(n + 2, 0, n + 2) == n + 2);
    assert(concat_tail_spec(ts2, n + 2, ast) == Ok::<(Ast, int), ParseError>((ast, n + 2)));
    assert(parse_concatenation_spec(ts2, 0) == Ok::<(Ast, int), ParseError>((ast, n + 2)));
    assert(alt_tail_spec(ts2, n + 2, ast) == Ok::<(Ast, int), ParseError>((ast, n + 2)));
    assert(parse_alternation_spec(ts2, 0) == Ok::<(Ast, int), ParseError>((ast, n + 2)));
    assert(parse_spec(ts2) == Ok::<Ast, ParseError>(ast));
}

/// Whether an executable parse step returned exactly what the spec-level
/// parse returns: the same tree and position on success, the same error
/// otherwise.
pub open spec fn result_matches_spec(
    r: Result<(Ast, usize), ParseError>,
    s: Result<(Ast, int), ParseError>,
) -> bool {
    match (r, s) {
        (Ok((a, p)), Ok((sa, sp))) => a == sa && p as int == sp,
        (Err(e), Err(se)) => e == se,
        _ => false,
    }
}

fn parse_atom(ts: &Vec<Token>, pos: usize) -> (r: Result<(Ast, usize), ParseError>)
    requires
        pos <= ts@.len(),
    ensures
        result_matches_spec(r, parse_atom_spec(ts@, pos as int)),
        r matches Ok(ok) ==> pos < ok.1 <= ts@.len(),
    decreases ts@.len() - pos, 0int,
{
    if pos >= ts.len() {
        return Err(ParseError::UnexpectedEnd(pos));
    }
    match ts[pos] {
        Token::OpenParen => match parse_alternation(ts, pos + 1) {
            Ok((ast, p)) => {
                if p < ts.len() && ts[p] == Token::CloseParen {
                    Ok((ast, p + 1))
                } else {
                    Err(ParseError::UnbalancedParens(p))
                }
            },
            Err(e) => Err(e),
        },
        Token::EmptySet => Ok((Ast::EmptySet, pos + 1)),
        Token::EmptyString => Ok((Ast::EmptyString, pos + 1)),
        Token::Literal(c) => Ok((Ast::Literal(c), pos + 1)),
        _ => Err(ParseError::UnexpectedToken(pos)),
    }
}

fn parse_kleene(ts: &Vec<Token>, pos: usize) -> (r: Result<(Ast, usize), ParseError>)
    requires
        pos <= ts@.len(),
    ensures
        result_matches_spec(r, parse_kleene_spec(ts@, pos as int)),
        r matches Ok(ok) ==> pos < ok.1 <= ts@.len(),
    decreases ts@.len() - pos, 1int,
{
    match parse_atom(ts, pos) {
        Ok((mut ast, mut p)) => {
            let ghost whole = wrap_stars_spec(ts@, p as int, ast);
            while p < ts.len() && ts[p] == Token::Kleene
                invariant
                    pos < p <= ts@.len(),
                    wrap_stars_spec(ts@, p as int, ast) == whole,
                decreases ts@.len() - p,
            {
                ast = Ast::Star(Box::new(ast));
                p = p + 1;
            }
            Ok((ast, p))
        },
        Err(e) => Err(e),
    }
}

fn concat_tail(ts: &Vec<Token>, pos: usize, acc: Ast) -> (r: Result<(Ast, usize), ParseError>)
    requires
        pos <= ts@.len(),
    ensures
        result_matches_spec(r, concat_tail_spec(ts@, pos as int, acc)),
        r matches Ok(ok) ==> pos <= ok.1 <= ts@.len(),
    decreases ts@.len() - pos, 3int,
{
    if pos < ts.len() && !(ts[pos] == Token::Alternation) && !(ts[pos] == Token::CloseParen) {
        match parse_kleene(ts, pos) {
            Ok((rhs, p)) => concat_tail(ts, p, Ast::Concat(Box::new(acc), Box::new(rhs))),
            Err(e) => Err(e),
        }
    } else {
        Ok((acc, pos))
    }
}

fn parse_concatenation(ts: &Vec<Token>, pos: usize) -> (r: Result<(Ast, usize), ParseError>)
    requires
        pos <= ts@.len(),
    ensures
        result_matches_spec(r, parse_concatenation_spec(ts@, pos as int)),
        r matches Ok(ok) ==> pos < ok.1 <= ts@.len(),
    decreases ts@.len() - pos, 4int,
{
    match parse_kleene(ts, pos) {
        Ok((ast, p)) => concat_tail(ts, p, ast),
        Err(e) => Err(e),
    }
}

fn alt_tail(ts: &Vec<Token>, pos: usize, acc: Ast) -> (r: Result<(Ast, usize), ParseError>)
    requires
        pos <= ts@.len(),
    ensures
        result_matches_spec(r, alt_tail_spec(ts@, pos as int, acc)),
        r matches Ok(ok) ==> pos <= ok.1 <= ts@.len(),
    decreases ts@.len() - pos, 5int,
{
    if pos < ts.len() && ts[pos] == Token::Alternation {
        match parse_concatenation(ts, pos + 1) {
            Ok((rhs, p)) => alt_tail(ts, p, Ast::Alternation(Box::new(acc), Box::new(rhs))),
            Err(e) => Err(e),
        }
    } else {
        Ok((acc, pos))
    }
}

fn parse_alternation(ts: &Vec<Token>, pos: usize) -> (r: Result<(Ast, usize), ParseError>)
    requires
        pos <= ts@.len(),
    ensures
        result_matches_spec(r, parse_alternation_spec(ts@, pos as int)),
        r matches Ok(ok) ==> pos < ok.1 <= ts@.len(),
    decreases ts@.len() - pos, 6int,
{
    match parse_concatenation(ts, pos) {
        Ok((ast, p)) => alt_tail(ts, p, ast),
        Err(e) => Err(e),
    }
}

/// Holds the token sequence to be parsed.
pub struct Parser {
    pub tokens: Vec<Token>,
}

impl Parser {
    /// The tokens the parser was built over.
    pub open spec fn toks(&self) -> Seq<Token> {
        self.tokens@
    }

    pub fn new(tokens: Vec<Token>) -> (p: Parser)
        ensures
            p.toks() == tokens@,
    {
        Parser { tokens }
    }

    /// Parses the whole token sequence into a tree, or reports the first
    /// syntax error; exactly `parse_spec` on the tokens.
    pub fn parse(&mut self) -> (r: Result<Ast, ParseError>)
        ensures
            r == parse_spec(old(self).toks()),
            final(self).toks() == old(self).toks(),
    {
        if self.tokens.len() == 0 {
            return Ok(Ast::EmptyString);
        }
        match parse_alternation(&self.tokens, 0) {
            Ok((ast, p)) => {
                if p == self.tokens.len() {
                    Ok(ast)
                } else {
                    Err(ParseError::UnexpectedToken(p))
                }
            },
            Err(e) => Err(e),
        }
    }
}

} // verus!
