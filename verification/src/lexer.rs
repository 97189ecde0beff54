//! Lexer: one left-to-right pass over the pattern bytes, resolving escape
//! sequences and discarding whitespace. Lexing never fails: an escape that
//! names no escapable character degrades to a literal backslash.

use vstd::prelude::*;
use vstd::string::StrSliceExecFns;
use vstd::string::StringSliceAdditionalSpecFns;

verus! {

/// One lexical unit of the pattern language.
#[derive(Debug, PartialEq, Eq, Clone, Copy, Structural)]
pub enum Token {
    /// The language with no strings; source spelling `\0`.
    EmptySet,
    /// The language with only the empty string; source spelling `$`.
    EmptyString,
    /// Any non-operator character, or an escaped operator character.
    Literal(char),
    OpenParen,
    CloseParen,
    Alternation,
    Kleene,
}

/// The characters that may follow a backslash to form an escape sequence.
pub open spec fn spec_is_escapable_char(c: char) -> bool {
    c == '\\' || c == '*' || c == '(' || c == ')' || c == '|' || c == '0' || c == '$'
}

fn is_escapable_char(c: char) -> (r: bool)
    ensures
        r == spec_is_escapable_char(c),
{
    match c {
        '\\' | '*' | '(' | ')' | '|' | '0' | '$' => true,
        _ => false,
    }
}

/// Whether a byte, read as one character, is whitespace: the
/// code points below 0x100 with the White_Space property.
pub open spec fn spec_is_whitespace_byte(b: u8) -> bool {
    b == 0x09 || b == 0x0a || b == 0x0b || b == 0x0c || b == 0x0d || b == 0x20 || b == 0x85
        || b == 0xa0
}

fn is_whitespace_byte(b: u8) -> (r: bool)
    ensures
        r == spec_is_whitespace_byte(b),
{
    b == 0x09 || b == 0x0a || b == 0x0b || b == 0x0c || b == 0x0d || b == 0x20 || b == 0x85
        || b == 0xa0
}

/// The token sequence that scanning a byte sequence produces.
pub open spec fn scan_spec(text: Seq<u8>) -> Seq<Token>
    decreases text.len(),
{
    if text.len() == 0 {
        Seq::empty()
    } else {
        let c = text[0] as char;
        if c == '\\' {
            if text.len() >= 2 && spec_is_escapable_char(text[1] as char) {
                let n = text[1] as char;
                let t = if n == '0' {
                    Token::EmptySet
                } else {
                    Token::Literal(n)
                };
                seq![t] + scan_spec(text.skip(2))
            } else {
                seq![Token::Literal('\\')] + scan_spec(text.skip(1))
            }
        } else if c == '(' {
            seq![Token::OpenParen] + scan_spec(text.skip(1))
        } else if c == ')' {
            seq![Token::CloseParen] + scan_spec(text.skip(1))
        } else if c == '|' {
            seq![Token::Alternation] + scan_spec(text.skip(1))
        } else if c == '*' {
            seq![Token::Kleene] + scan_spec(text.skip(1))
        } else if c == '$' {
            seq![Token::EmptyString] + scan_spec(text.skip(1))
        } else if spec_is_whitespace_byte(text[0]) {
            scan_spec(text.skip(1))
        } else {
            seq![Token::Literal(c)] + scan_spec(text.skip(1))
        }
    }
}

/// Scanning is a pure function of the input text: two runs over the same
/// bytes yield the very same token sequence.
pub proof fn lemma_scan_deterministic(a: Seq<u8>, b: Seq<u8>)
    requires
        a == b,
    ensures
        scan_spec(a) == scan_spec(b),
{
}

/// The text with every whitespace byte removed.
pub open spec fn strip_ws(text: Seq<u8>) -> Seq<u8>
    decreases text.len(),
{
    if text.len() == 0 {
        Seq::empty()
    } else if spec_is_whitespace_byte(text[0]) {
        strip_ws(text.skip(1))
    } else {
        seq![text[0]] + strip_ws(text.skip(1))
    }
}

/// Whitespace insignificance: removing the whitespace from the text leaves
/// the token sequence unchanged, provided no whitespace byte stands right
/// after a backslash (there the whitespace keeps the backslash from
/// forming an escape pair, so removing it would change the tokens).
pub proof fn lemma_whitespace_insignificance(text: Seq<u8>)
    requires
        forall|i: int|
            0 <= i < text.len() - 1 && text[i] as char == '\\' ==> !spec_is_whitespace_byte(
                #[trigger] text[i + 1],
            ),
    ensures
        scan_spec(text) == scan_spec(strip_ws(text)),
    decreases text.len(), 1int,
{
    if text.len() == 0 {
        assert(scan_spec(text) == scan_spec(strip_ws(text)));
    } else {
        lemma_whitespace_step(text);
    }
}

/// The inductive step of `lemma_whitespace_insignificance`, for a
/// non-empty text.
proof fn lemma_whitespace_step(text: Seq<u8>)
    requires
        text.len() > 0,
        forall|i: int|
            0 <= i < text.len() - 1 && text[i] as char == '\\' ==> !spec_is_whitespace_byte(
                #[trigger] text[i + 1],
            ),
    ensures
        scan_spec(text) == scan_spec(strip_ws(text)),
    decreases text.len(), 0int,
{
    let c = text[0] as char;
    let rest = text.skip(1);
    assert forall|i: int|
        0 <= i < rest.len() - 1 && rest[i] as char == '\\' implies !spec_is_whitespace_byte(
        #[trigger] rest[i + 1],
    ) by {
        let j = i + 1;
        assert(rest[i] == text[j]);
        assert(0 <= j < text.len() - 1 && text[j] as char == '\\');
        assert(!spec_is_whitespace_byte(text[j + 1]));
        assert(rest[i + 1] == text[j + 1]);
    }
    if c == '\\' {
        if text.len() >= 2 && spec_is_escapable_char(text[1] as char) {
            let rest2 = text.skip(2);
            assert forall|i: int|
                0 <= i < rest2.len() - 1 && rest2[i] as char == '\\'
                    implies !spec_is_whitespace_byte(#[trigger] rest2[i + 1]) by {
                let j = i + 2;
                assert(rest2[i] == text[j]);
                assert(0 <= j < text.len() - 1 && text[j] as char == '\\');
                assert(!spec_is_whitespace_byte(text[j + 1]));
                assert(rest2[i + 1] == text[j + 1]);
            }
            lemma_whitespace_insignificance(rest2);
            assert(!spec_is_whitespace_byte(text[1]));
            assert(rest[0] == text[1]);
            assert(strip_ws(rest) == seq![text[1]] + strip_ws(rest.skip(1)));
            assert(rest.skip(1) =~= rest2);
            assert(strip_ws(text) == seq![text[0], text[1]] + strip_ws(rest2));
            let s = strip_ws(text);
            assert(s[0] == text[0] && s[1] == text[1] && s.len() >= 2);
            assert(s.skip(2) =~= strip_ws(rest2));
            assert(scan_spec(s) == scan_spec(text));
        } else if text.len() == 1 {
            assert(strip_ws(text) == seq![text[0]] + strip_ws(rest));
            assert(strip_ws(text) =~= text);
        } else {
            lemma_whitespace_insignificance(rest);
            assert(!spec_is_whitespace_byte(text[1]));
            assert(rest[0] == text[1]);
            assert(strip_ws(rest) == seq![text[1]] + strip_ws(rest.skip(1)));
            assert(strip_ws(text) == seq![text[0]] + strip_ws(rest));
            let s = strip_ws(text);
            assert(s[0] == text[0] && s[1] == text[1] && s.len() >= 2);
            assert(!spec_is_escapable_char(s[1] as char));
            assert(s.skip(1) =~= strip_ws(rest));
            assert(scan_spec(s) == seq![Token::Literal('\\')] + scan_spec(strip_ws(rest)));
            assert(scan_spec(s) == scan_spec(text));
        }
    } else if spec_is_whitespace_byte(text[0]) {
        lemma_whitespace_insignificance(rest);
        assert(strip_ws(text) == strip_ws(rest));
        assert(scan_spec(text) == scan_spec(rest));
    } else {
        lemma_whitespace_insignificance(rest);
        assert(strip_ws(text) == seq![text[0]] + strip_ws(rest));
        let s = strip_ws(text);
        assert(s[0] == text[0]);
        assert(s.skip(1) =~= strip_ws(rest));
        assert(scan_spec(s) == scan_spec(text));
    }
}

/// Holds the pattern bytes and a cursor; `scan` consumes from the cursor
/// to the end of the text.
pub struct Lexer {
    pub text: Vec<u8>,
    pub position: usize,
}

impl Lexer {
    /// The bytes the lexer was built over.
    pub open spec fn bytes(&self) -> Seq<u8> {
        self.text@
    }

    /// The cursor: how many bytes have been consumed.
    pub open spec fn pos(&self) -> int {
        self.position as int
    }

    /// The cursor never passes the end of the text.
    pub open spec fn wf(&self) -> bool {
        self.position <= self.text@.len()
    }

    pub fn new(text: &str) -> (l: Lexer)
        ensures
            l.wf(),
            l.bytes() == text.spec_bytes(),
            l.pos() == 0,
    {
        Lexer { text: text.as_bytes_vec(), position: 0 }
    }

    fn peek_next_byte(&self) -> (r: Option<char>)
        requires
            self.position < self.text@.len(),
        ensures
            r == (if self.position + 1 < self.text@.len() {
                Some(self.text@[self.position + 1] as char)
            } else {
                None::<char>
            }),
    {
        let num_bytes = self.text.len();
        if self.position + 1 >= num_bytes {
            return None;
        }
        Some(self.text[self.position + 1] as char)
    }

    /// Scans from the cursor to the end of the text and returns the tokens,
    /// exactly those of `scan_spec` on the remaining bytes.
    pub fn scan(&mut self) -> (tokens: Vec<Token>)
        requires
            old(self).wf(),
        ensures
            tokens@ == scan_spec(old(self).bytes().skip(old(self).pos())),
            final(self).bytes() == old(self).bytes(),
            final(self).pos() == old(self).bytes().len(),
    {
        let mut tokens: Vec<Token> = Vec::new();
        let num_bytes = self.text.len();

        while self.position < num_bytes
            invariant
                self.wf(),
                num_bytes == self.text@.len(),
                self.text@ == old(self).text@,
                scan_spec(old(self).bytes().skip(old(self).pos())) == tokens@ + scan_spec(
                    self.bytes().skip(self.pos()),
                ),
            decreases self.text@.len() - self.position,
        {
            let ghost pre_tokens = tokens@;
            let ghost pre_pos = self.pos();
            let ghost rem = self.bytes().skip(pre_pos);
            proof {
                assert(rem.len() == self.bytes().len() - pre_pos);
                assert(rem[0] == self.bytes()[pre_pos]);
            }
            let curr_byte = self.text[self.position];
            let c = curr_byte as char;
            let t: Token;
            if c == '\\' {
                match self.peek_next_byte() {
                    None => {
                        t = Token::Literal(c);
                        proof {
                            assert(rem.len() == 1);
                            assert(scan_spec(rem) == seq![t] + scan_spec(rem.skip(1)));
                            assert(rem.skip(1) =~= self.bytes().skip(pre_pos + 1));
                        }
                    },
                    Some(new_literal) => {
                        if is_escapable_char(new_literal) {
                            self.position += 1;
                            if new_literal == '0' {
                                t = Token::EmptySet;
                            } else {
                                t = Token::Literal(new_literal);
                            }
                            proof {
                                assert(rem.len() >= 2);
                                assert(rem[1] == self.bytes()[pre_pos + 1]);
                                assert(rem[1] as char == new_literal);
                                assert(scan_spec(rem) == seq![t] + scan_spec(rem.skip(2)));
                                assert(rem.skip(2) =~= self.bytes().skip(pre_pos + 2));
                            }
                        } else {
                            t = Token::Literal(c);
                            proof {
                                assert(rem.len() >= 2);
                                assert(rem[1] == self.bytes()[pre_pos + 1]);
                                assert(rem[1] as char == new_literal);
                                assert(scan_spec(rem) == seq![t] + scan_spec(rem.skip(1)));
                                assert(rem.skip(1) =~= self.bytes().skip(pre_pos + 1));
                            }
                        }
                    },
                }
            } else if c == '(' {
                t = Token::OpenParen;
                proof {
                    assert(scan_spec(rem) == seq![t] + scan_spec(rem.skip(1)));
                    assert(rem.skip(1) =~= self.bytes().skip(pre_pos + 1));
                }
            } else if c == ')' {
                t = Token::CloseParen;
                proof {
                    assert(scan_spec(rem) == seq![t] + scan_spec(rem.skip(1)));
                    assert(rem.skip(1) =~= self.bytes().skip(pre_pos + 1));
                }
            } else if c == '|' {
                t = Token::Alternation;
                proof {
                    assert(scan_spec(rem) == seq![t] + scan_spec(rem.skip(1)));
                    assert(rem.skip(1) =~= self.bytes().skip(pre_pos + 1));
                }
            } else if c == '*' {
                t = Token::Kleene;
                proof {
                    assert(scan_spec(rem) == seq![t] + scan_spec(rem.skip(1)));
                    assert(rem.skip(1) =~= self.bytes().skip(pre_pos + 1));
                }
            } else if c == '$' {
                t = Token::EmptyString;
                proof {
                    assert(scan_spec(rem) == seq![t] + scan_spec(rem.skip(1)));
                    assert(rem.skip(1) =~= self.bytes().skip(pre_pos + 1));
                }
            } else if is_whitespace_byte(curr_byte) {
                self.position += 1;
                proof {
                    assert(scan_spec(rem) == scan_spec(rem.skip(1)));
                    assert(rem.skip(1) =~= self.bytes().skip(self.pos()));
                }
                continue;
            } else {
                t = Token::Literal(c);
                proof {
                    assert(scan_spec(rem) == seq![t] + scan_spec(rem.skip(1)));
                    assert(rem.skip(1) =~= self.bytes().skip(pre_pos + 1));
                }
            }

            tokens.push(t);
            self.position += 1;
            proof {
                assert(tokens@ == pre_tokens + seq![t]);
                assert(scan_spec(rem) == seq![t] + scan_spec(self.bytes().skip(self.pos())));
                assert((pre_tokens + seq![t]) + scan_spec(self.bytes().skip(self.pos()))
                    =~= pre_tokens + (seq![t] + scan_spec(self.bytes().skip(self.pos()))));
            }
        }
        proof {
            assert(self.bytes().skip(self.pos()) =~= Seq::<u8>::empty());
            assert(tokens@ + scan_spec(Seq::<u8>::empty()) =~= tokens@);
        }
        tokens
    }
}

} // verus!
