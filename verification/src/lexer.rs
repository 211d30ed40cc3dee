//! The lexer: an immutable character buffer, a cursor over it, and the
//! classification step that turns the buffer into tokens.

use vstd::prelude::*;

use crate::scan::{
    digit_run_end, ident_run_end, is_digit_char, is_ident_char, is_whitespace_char, normalize,
    normalize_from, step_pos, step_token, tokens_from, whitespace_end, wrapped_value,
};
use crate::scan::{lemma_digit_run_end_is, lemma_ident_run_end_is, lemma_step_bounds};
use crate::token::{spec_keyword, SpecToken, Token};

verus! {

/// The abstract state of a lexer: the buffer it scans, the cursor
/// position, and whether the terminal `EOF` token has been handed out.
pub struct LexerModel {
    pub buffer: Seq<char>,
    pub position: int,
    pub done: bool,
}

/// A one-pass lexer over UTF-8 source text.
pub struct Lexer {
    /// the source code, with newlines normalized to spaces
    input: Vec<char>,
    /// index of the current character in `input`
    position: usize,
    /// the current character, or the `'\0'` sentinel past the end
    chr: char,
    /// whether the terminal `EOF` token has been produced
    done: bool,
}

impl View for Lexer {
    type V = LexerModel;

    closed spec fn view(&self) -> LexerModel {
        LexerModel {
            buffer: self.input@,
            position: self.position as int,
            done: self.done,
        }
    }
}

/// Relies on `<String as FromIterator<char>>::from_iter` through
/// `Iterator::collect`: the collected string holds exactly the
/// characters of the vector, in order.
#[verifier::external_body]
fn chars_to_string(v: &Vec<char>) -> (r: String)
    ensures
        r@ == v@,
{
    v.iter().collect()
}

impl Lexer {
    /// The cursor invariant: the position never passes the end of the
    /// buffer, the cached character mirrors the buffer at the position
    /// (the sentinel once past the end), and the sequence finishes only
    /// at exhaustion.
    pub closed spec fn wf(&self) -> bool {
        &&& self.position <= self.input.len()
        &&& self.position < self.input.len() ==> self.chr == self.input[self.position as int]
        &&& self.position >= self.input.len() ==> self.chr == '\0'
        &&& self.done ==> self.position == self.input.len()
    }

    /// Build a lexer over `source`, normalizing newline sequences to
    /// single spaces first. An input without any character cannot be
    /// scanned and is refused at construction.
    pub fn new(source: String) -> (r: Option<Lexer>)
        ensures
            match r {
                Some(l) => {
                    &&& l.wf()
                    &&& l@.buffer == normalize(source@)
                    &&& l@.buffer.len() > 0
                    &&& l@.position == 0
                    &&& !l@.done
                    &&& source@.len() > 0
                },
                None => source@.len() == 0,
            },
    {
        let text: &str = source.as_str();
        let n: usize = text.unicode_len();
        let mut input: Vec<char> = Vec::new();
        let mut i: usize = 0;
        while i < n
            invariant
                n == text@.len(),
                text@ == source@,
                i <= n,
                normalize(source@) == input@ + normalize_from(source@, i as int),
            decreases n - i,
        {
            let ghost prefix = input@;
            let ghost i0 = i as int;
            let c = text.get_char(i);
            if c == '\r' && i + 1 < n && text.get_char(i + 1) == '\n' {
                input.push(' ');
                i = i + 2;
                proof {
                    assert(normalize_from(source@, i0) == seq![' '] + normalize_from(
                        source@,
                        i0 + 2,
                    ));
                    assert(input@ =~= prefix + seq![' ']);
                    assert((prefix + seq![' ']) + normalize_from(source@, i0 + 2) =~= prefix + (
                    seq![' '] + normalize_from(source@, i0 + 2)));
                }
            } else if c == '\n' || c == '\r' {
                input.push(' ');
                i = i + 1;
                proof {
                    assert(normalize_from(source@, i0) == seq![' '] + normalize_from(
                        source@,
                        i0 + 1,
                    ));
                    assert(input@ =~= prefix + seq![' ']);
                    assert((prefix + seq![' ']) + normalize_from(source@, i0 + 1) =~= prefix + (
                    seq![' '] + normalize_from(source@, i0 + 1)));
                }
            } else {
                input.push(c);
                i = i + 1;
                proof {
                    assert(normalize_from(source@, i0) == seq![c] + normalize_from(
                        source@,
                        i0 + 1,
                    ));
                    assert(input@ =~= prefix + seq![c]);
                    assert((prefix + seq![c]) + normalize_from(source@, i0 + 1) =~= prefix + (
                    seq![c] + normalize_from(source@, i0 + 1)));
                }
            }
        }
        proof {
            assert(normalize_from(source@, n as int) == Seq::<char>::empty());
            assert(input@ + Seq::<char>::empty() =~= input@);
        }
        if input.len() == 0 {
            proof {
                if source@.len() > 0 {
                    assert(normalize(source@).len() >= 1);
                }
            }
            None
        } else {
            proof {
                if source@.len() == 0 {
                    assert(normalize(source@).len() == 0);
                }
            }
            let c0 = input[0];
            Some(Lexer { input, position: 0, chr: c0, done: false })
        }
    }

    /// Move the cursor one character forward; at exhaustion the cursor
    /// stays put, the current character becomes the sentinel, and the
    /// exhausted signal `None` is returned.
    fn advance(&mut self) -> (r: Option<()>)
        requires
            old(self).wf(),
        ensures
            final(self).wf(),
            final(self)@.buffer == old(self)@.buffer,
            final(self)@.done == old(self)@.done,
            old(self)@.position < old(self)@.buffer.len() ==> final(self)@.position == old(
                self,
            )@.position + 1,
            old(self)@.position == old(self)@.buffer.len() ==> final(self)@.position == old(
                self,
            )@.position,
            r is Some <==> final(self)@.position < final(self)@.buffer.len(),
    {
        if self.position < self.input.len() {
            self.position = self.position + 1;
            if self.position < self.input.len() {
                self.chr = self.input[self.position];
                Some(())
            } else {
                self.chr = '\0';
                None
            }
        } else {
            None
        }
    }

    /// The keyword table lookup: the reserved-word token an identifier
    /// spelling resolves to, if any. Exact, case-sensitive match only.
    pub fn determine_keyword(input: &str) -> (r: Option<Token>)
        ensures
            match r {
                Some(t) => spec_keyword(input@) == Some(t@),
                None => spec_keyword(input@) is None,
            },
    {
        proof {
            reveal_strlit("fn");
            reveal_strlit("let");
            reveal_strlit("if");
            reveal_strlit("else");
            reveal_strlit("return");
            reveal_strlit("true");
            reveal_strlit("false");
        }
        let n = input.unicode_len();
        if n == 2 {
            let c0 = input.get_char(0);
            let c1 = input.get_char(1);
            if c0 == 'f' && c1 == 'n' {
                proof {
                    assert(input@ =~= "fn"@);
                }
                Some(Token::Function)
            } else if c0 == 'i' && c1 == 'f' {
                proof {
                    assert(input@ =~= "if"@);
                }
                Some(Token::If)
            } else {
                None
            }
        } else if n == 3 {
            let c0 = input.get_char(0);
            let c1 = input.get_char(1);
            let c2 = input.get_char(2);
            if c0 == 'l' && c1 == 'e' && c2 == 't' {
                proof {
                    assert(input@ =~= "let"@);
                }
                Some(Token::Let)
            } else {
                None
            }
        } else if n == 4 {
            let c0 = input.get_char(0);
            let c1 = input.get_char(1);
            let c2 = input.get_char(2);
            let c3 = input.get_char(3);
            if c0 == 'e' && c1 == 'l' && c2 == 's' && c3 == 'e' {
                proof {
                    assert(input@ =~= "else"@);
                }
                Some(Token::Else)
            } else if c0 == 't' && c1 == 'r' && c2 == 'u' && c3 == 'e' {
                proof {
                    assert(input@ =~= "true"@);
                }
                Some(Token::Boolean(true))
            } else {
                None
            }
        } else if n == 5 {
            let c0 = input.get_char(0);
            let c1 = input.get_char(1);
            let c2 = input.get_char(2);
            let c3 = input.get_char(3);
            let c4 = input.get_char(4);
            if c0 == 'f' && c1 == 'a' && c2 == 'l' && c3 == 's' && c4 == 'e' {
                proof {
                    assert(input@ =~= "false"@);
                }
                Some(Token::Boolean(false))
            } else {
                None
            }
        } else if n == 6 {
            let c0 = input.get_char(0);
            let c1 = input.get_char(1);
            let c2 = input.get_char(2);
            let c3 = input.get_char(3);
            let c4 = input.get_char(4);
            let c5 = input.get_char(5);
            if c0 == 'r' && c1 == 'e' && c2 == 't' && c3 == 'u' && c4 == 'r' && c5 == 'n' {
                proof {
                    assert(input@ =~= "return"@);
                }
                Some(Token::Return)
            } else {
                None
            }
        } else {
            None
        }
    }

    /// The character one position ahead of the current one, without
    /// moving the cursor; `None` when no such character exists.
    pub fn peek(&mut self) -> (r: Option<char>)
        requires
            old(self).wf(),
        ensures
            final(self).wf(),
            *final(self) == *old(self),
            r == (if old(self)@.position + 1 < old(self)@.buffer.len() {
                Some(old(self)@.buffer[old(self)@.position + 1])
            } else {
                Option::<char>::None
            }),
    {
        if self.position < self.input.len() {
            let next = self.position + 1;
            if next < self.input.len() {
                Some(self.input[next])
            } else {
                None
            }
        } else {
            None
        }
    }

    /// Whether the given character is valid in an identifier name.
    pub fn is_valid(chr: char) -> (r: bool)
        ensures
            r == is_ident_char(chr),
    {
        ('A' <= chr && chr <= 'Z') || ('a' <= chr && chr <= 'z') || ('0' <= chr && chr <= '9')
            || chr == '_'
    }

    /// Whether the given character is whitespace the scanner skips.
    pub fn is_ascii_whitespace(chr: char) -> (r: bool)
        ensures
            r == is_whitespace_char(chr),
    {
        chr == '\t' || chr == ' ' || chr == '\n'
    }

    /// Move the cursor to the first non-whitespace character at or
    /// after the current position.
    fn skip_whitespace(&mut self)
        requires
            old(self).wf(),
        ensures
            final(self).wf(),
            final(self)@.buffer == old(self)@.buffer,
            final(self)@.done == old(self)@.done,
            final(self)@.position == whitespace_end(old(self)@.buffer, old(self)@.position),
    {
        while Self::is_ascii_whitespace(self.chr)
            invariant
                self.wf(),
                self@.buffer == old(self)@.buffer,
                self@.done == old(self)@.done,
                whitespace_end(self@.buffer, self@.position) == whitespace_end(
                    old(self)@.buffer,
                    old(self)@.position,
                ),
            decreases self@.buffer.len() - self@.position,
        {
            let _ = self.advance();
        }
    }

    /// Scan the maximal identifier run starting at the current
    /// character and return its spelling; the first character past the
    /// run is left unconsumed. The entry condition puts the cursor on
    /// an identifier character, so the spelling can never be empty.
    fn parse_identifier(&mut self) -> (r: String)
        requires
            old(self).wf(),
            old(self)@.position < old(self)@.buffer.len(),
            is_ident_char(old(self)@.buffer[old(self)@.position]),
        ensures
            final(self).wf(),
            final(self)@.buffer == old(self)@.buffer,
            final(self)@.done == old(self)@.done,
            final(self)@.position == ident_run_end(old(self)@.buffer, old(self)@.position),
            r@ == old(self)@.buffer.subrange(
                old(self)@.position,
                ident_run_end(old(self)@.buffer, old(self)@.position),
            ),
    {
        let ghost b = self@.buffer;
        let ghost start = self@.position;
        let mut chars: Vec<char> = Vec::new();
        while self.position < self.input.len() && Self::is_valid(self.chr)
            invariant
                self.wf(),
                self@.buffer == b,
                self@.done == old(self)@.done,
                0 <= start <= self@.position <= b.len(),
                forall|k: int| start <= k < self@.position ==> is_ident_char(b[k]),
                chars@ =~= b.subrange(start, self@.position),
            decreases b.len() - self@.position,
        {
            let ghost p = self@.position;
            let ghost prev = chars@;
            chars.push(self.chr);
            let _ = self.advance();
            proof {
                assert(chars@ == prev.push(b[p]));
                assert(chars@ =~= b.subrange(start, p + 1));
            }
        }
        proof {
            lemma_ident_run_end_is(b, start, self@.position);
        }
        chars_to_string(&chars)
    }

    /// Scan the maximal digit run starting at the current character and
    /// accumulate its value, most significant digit first, each step
    /// taken modulo 2^32; the first non-digit is left unconsumed.
    fn parse_integer(&mut self) -> (r: u32)
        requires
            old(self).wf(),
            old(self)@.position < old(self)@.buffer.len(),
            is_digit_char(old(self)@.buffer[old(self)@.position]),
        ensures
            final(self).wf(),
            final(self)@.buffer == old(self)@.buffer,
            final(self)@.done == old(self)@.done,
            final(self)@.position == digit_run_end(old(self)@.buffer, old(self)@.position),
            r as int == wrapped_value(
                old(self)@.buffer,
                old(self)@.position,
                digit_run_end(old(self)@.buffer, old(self)@.position),
            ),
    {
        let ghost b = self@.buffer;
        let ghost start = self@.position;
        let mut value: u32 = 0;
        while self.position < self.input.len() && '0' <= self.chr && self.chr <= '9'
            invariant
                self.wf(),
                self@.buffer == b,
                self@.done == old(self)@.done,
                0 <= start <= self@.position <= b.len(),
                forall|k: int| start <= k < self@.position ==> is_digit_char(b[k]),
                value as int == wrapped_value(b, start, self@.position),
            decreases b.len() - self@.position,
        {
            let d: u32 = (self.chr as u32) - ('0' as u32);
            let wide: u64 = (value as u64) * 10 + (d as u64);
            value = (wide % 0x1_0000_0000) as u32;
            let _ = self.advance();
        }
        proof {
            lemma_digit_run_end_is(b, start, self@.position);
        }
        value
    }

    /// Advance by `amount` characters in one step and return the number
    /// actually skipped: `amount` itself, or, when fewer characters
    /// remain, how many there were before the end of the buffer.
    pub fn skip_chars(&mut self, amount: usize) -> (r: usize)
        requires
            old(self).wf(),
        ensures
            final(self).wf(),
            final(self)@.buffer == old(self)@.buffer,
            final(self)@.done == old(self)@.done,
            old(self)@.position + amount <= old(self)@.buffer.len() ==> {
                &&& r == amount
                &&& final(self)@.position == old(self)@.position + amount
            },
            old(self)@.position + amount > old(self)@.buffer.len() ==> {
                &&& r == old(self)@.buffer.len() - old(self)@.position
                &&& final(self)@.position == old(self)@.buffer.len()
            },
    {
        if amount <= self.input.len() - self.position {
            self.position = self.position + amount;
            if self.position < self.input.len() {
                self.chr = self.input[self.position];
            } else {
                self.chr = '\0';
            }
            amount
        } else {
            let skipped = self.input.len() - self.position;
            self.position = self.input.len();
            self.chr = '\0';
            skipped
        }
    }

    /// One classification step: skip whitespace, then produce the token
    /// the current character opens, consuming exactly its characters.
    /// At exhaustion the step yields `EOF` once; afterwards the
    /// sequence is over and every further call returns `None`.
    pub fn next_token(&mut self) -> (r: Option<Token>)
        requires
            old(self).wf(),
        ensures
            final(self).wf(),
            final(self)@.buffer == old(self)@.buffer,
            old(self)@.done ==> r is None && *final(self) == *old(self),
            !old(self)@.done ==> {
                &&& r is Some
                &&& r.unwrap()@ == step_token(old(self)@.buffer, old(self)@.position)
                &&& final(self)@.position == step_pos(old(self)@.buffer, old(self)@.position)
                &&& (final(self)@.done <==> step_token(old(self)@.buffer, old(self)@.position)
                    == SpecToken::EOF)
            },
    {
        if self.done {
            return None;
        }
        let ghost b = self@.buffer;
        self.skip_whitespace();
        let ghost s = self@.position;
        if self.position == self.input.len() {
            self.done = true;
            return Some(Token::EOF);
        }
        let c = self.chr;
        let tok: Token;
        if '0' <= c && c <= '9' {
            let v = self.parse_integer();
            proof {
                assert(0 <= wrapped_value(b, s, digit_run_end(b, s)) < 0x1_0000_0000);
            }
            tok = Token::Int(v);
        } else if c == '(' {
            let _ = self.advance();
            tok = Token::LParen;
        } else if c == ')' {
            let _ = self.advance();
            tok = Token::RParen;
        } else if c == '{' {
            let _ = self.advance();
            tok = Token::LBrace;
        } else if c == '}' {
            let _ = self.advance();
            tok = Token::RBrace;
        } else if c == '[' {
            let _ = self.advance();
            tok = Token::LBracket;
        } else if c == ']' {
            let _ = self.advance();
            tok = Token::RBracket;
        } else if c == ',' {
            let _ = self.advance();
            tok = Token::Comma;
        } else if c == ';' {
            let _ = self.advance();
            tok = Token::Semicolon;
        } else if c == '.' {
            let _ = self.advance();
            tok = Token::Dot;
        } else if c == '+' {
            let _ = self.advance();
            tok = Token::Plus;
        } else if c == '-' {
            let _ = self.advance();
            tok = Token::Minus;
        } else if c == '*' {
            let _ = self.advance();
            tok = Token::Mul;
        } else if c == '/' {
            let _ = self.advance();
            tok = Token::Div;
        } else if c == '<' {
            let _ = self.advance();
            tok = Token::LessThan;
        } else if c == '>' {
            let _ = self.advance();
            tok = Token::MoreThan;
        } else if c == '=' {
            let ahead = self.peek();
            let two = match ahead {
                Some(a) => a == '=',
                None => false,
            };
            if two {
                let _ = self.skip_chars(1);
                let _ = self.advance();
                tok = Token::Equals;
            } else {
                let _ = self.advance();
                tok = Token::Assign;
            }
        } else if c == '!' {
            let ahead = self.peek();
            let two = match ahead {
                Some(a) => a == '=',
                None => false,
            };
            if two {
                let _ = self.skip_chars(1);
                let _ = self.advance();
                tok = Token::DoesntEqual;
            } else {
                let _ = self.advance();
                tok = Token::Bang;
            }
        } else if Self::is_valid(c) {
            let ident = self.parse_identifier();
            match Self::determine_keyword(ident.as_str()) {
                Some(kw) => {
                    tok = kw;
                },
                None => {
                    tok = Token::Ident(ident);
                },
            }
        } else {
            let _ = self.advance();
            tok = Token::Illegal;
        }
        Some(tok)
    }

    /// Pull tokens until the sequence is exhausted and collect them
    /// all, the terminal `EOF` included.
    pub fn tokenize(&mut self) -> (r: Vec<Token>)
        requires
            old(self).wf(),
            !old(self)@.done,
        ensures
            final(self).wf(),
            final(self)@.done,
            r@.map_values(|t: Token| t@) == tokens_from(old(self)@.buffer, old(self)@.position),
    {
        let ghost b = self@.buffer;
        let ghost p0 = self@.position;
        let mut out: Vec<Token> = Vec::new();
        loop
            invariant_except_break
                !self@.done,
                tokens_from(b, p0) =~= out@.map_values(|t: Token| t@) + tokens_from(
                    b,
                    self@.position,
                ),
            invariant
                self.wf(),
                self@.buffer == b,
                0 <= p0 <= b.len(),
                0 <= self@.position <= b.len(),
            ensures
                self@.done,
                out@.map_values(|t: Token| t@) =~= tokens_from(b, p0),
            decreases b.len() - self@.position,
        {
            let ghost p = self@.position;
            let ghost prev = out@;
            proof {
                lemma_step_bounds(b, p);
            }
            let stepped = self.next_token();
            let t = stepped.unwrap();
            let is_eof = match t {
                Token::EOF => true,
                _ => false,
            };
            out.push(t);
            proof {
                assert(out@.map_values(|t: Token| t@) =~= prev.map_values(|t: Token| t@)
                    + seq![t@]);
            }
            if is_eof {
                proof {
                    assert(tokens_from(b, p) =~= seq![SpecToken::EOF]);
                    assert(out@.map_values(|t: Token| t@) =~= tokens_from(b, p0));
                }
                break;
            }
            proof {
                assert(t@ != SpecToken::EOF);
                assert(tokens_from(b, p) =~= seq![t@] + tokens_from(b, step_pos(b, p)));
                assert(prev.map_values(|t: Token| t@) + (seq![t@] + tokens_from(
                    b,
                    step_pos(b, p),
                )) =~= (prev.map_values(|t: Token| t@) + seq![t@]) + tokens_from(
                    b,
                    step_pos(b, p),
                ));
            }
        }
        out
    }
}

} // verus!
