//! The mathematical model of the scan: character classes, maximal runs,
//! integer accumulation, and the token sequence a buffer denotes.

use vstd::prelude::*;

use crate::token::{spec_keyword, SpecToken};

verus! {

/// Characters the scanner skips between tokens: space, tab, and the
/// (already normalized) newline.
pub open spec fn is_whitespace_char(c: char) -> bool {
    c == ' ' || c == '\t' || c == '\n'
}

/// Decimal digits.
pub open spec fn is_digit_char(c: char) -> bool {
    '0' <= c && c <= '9'
}

/// Characters valid inside an identifier.
pub open spec fn is_ident_char(c: char) -> bool {
    ('A' <= c && c <= 'Z') || ('a' <= c && c <= 'z') || ('0' <= c && c <= '9') || c == '_'
}

/// The numeric value of a digit character.
pub open spec fn digit_of(c: char) -> int {
    c as u32 - '0' as u32
}

/// The source text with newline sequences replaced by single spaces,
/// read from position `i` on: `\r\n` collapses to one space, and a bare
/// `\n` or `\r` becomes a space.
pub open spec fn normalize_from(s: Seq<char>, i: int) -> Seq<char>
    decreases s.len() - i when 0 <= i <= s.len()
{
    if i >= s.len() {
        Seq::empty()
    } else if s[i] == '\r' && i + 1 < s.len() && s[i + 1] == '\n' {
        seq![' '] + normalize_from(s, i + 2)
    } else if s[i] == '\n' || s[i] == '\r' {
        seq![' '] + normalize_from(s, i + 1)
    } else {
        seq![s[i]] + normalize_from(s, i + 1)
    }
}

/// The buffer the lexer scans for a given source text.
pub open spec fn normalize(s: Seq<char>) -> Seq<char> {
    normalize_from(s, 0)
}

/// The index of the first non-whitespace character at or after `i`, or
/// the buffer length if only whitespace remains.
pub open spec fn whitespace_end(b: Seq<char>, i: int) -> int
    decreases b.len() - i when 0 <= i <= b.len()
{
    if i == b.len() {
        i
    } else if is_whitespace_char(b[i]) {
        whitespace_end(b, i + 1)
    } else {
        i
    }
}

/// The index just past the maximal digit run starting at `i`.
pub open spec fn digit_run_end(b: Seq<char>, i: int) -> int
    decreases b.len() - i when 0 <= i <= b.len()
{
    if i == b.len() {
        i
    } else if is_digit_char(b[i]) {
        digit_run_end(b, i + 1)
    } else {
        i
    }
}

/// The index just past the maximal identifier run starting at `i`.
pub open spec fn ident_run_end(b: Seq<char>, i: int) -> int
    decreases b.len() - i when 0 <= i <= b.len()
{
    if i == b.len() {
        i
    } else if is_ident_char(b[i]) {
        ident_run_end(b, i + 1)
    } else {
        i
    }
}

/// The decimal number the digits `b[i..j)` spell, most significant
/// digit first.
pub open spec fn decimal_value(b: Seq<char>, i: int, j: int) -> int
    decreases j - i when i <= j
{
    if j <= i {
        0
    } else {
        decimal_value(b, i, j - 1) * 10 + digit_of(b[j - 1])
    }
}

/// The same accumulation as the lexer performs it: each step reduced
/// modulo 2^32, so that the result always fits the token's payload.
pub open spec fn wrapped_value(b: Seq<char>, i: int, j: int) -> int
    decreases j - i when i <= j
{
    if j <= i {
        0
    } else {
        (wrapped_value(b, i, j - 1) * 10 + digit_of(b[j - 1])) % 0x1_0000_0000
    }
}

/// The token produced when the scanner stands at position `i` of `b`,
/// on a non-whitespace character.
pub open spec fn token_at(b: Seq<char>, i: int) -> SpecToken {
    let c = b[i];
    if is_digit_char(c) {
        SpecToken::Int(wrapped_value(b, i, digit_run_end(b, i)) as u32)
    } else if c == '(' {
        SpecToken::LParen
    } else if c == ')' {
        SpecToken::RParen
    } else if c == '{' {
        SpecToken::LBrace
    } else if c == '}' {
        SpecToken::RBrace
    } else if c == '[' {
        SpecToken::LBracket
    } else if c == ']' {
        SpecToken::RBracket
    } else if c == ',' {
        SpecToken::Comma
    } else if c == ';' {
        SpecToken::Semicolon
    } else if c == '.' {
        SpecToken::Dot
    } else if c == '+' {
        SpecToken::Plus
    } else if c == '-' {
        SpecToken::Minus
    } else if c == '*' {
        SpecToken::Mul
    } else if c == '/' {
        SpecToken::Div
    } else if c == '<' {
        SpecToken::LessThan
    } else if c == '>' {
        SpecToken::MoreThan
    } else if c == '=' {
        if i + 1 < b.len() && b[i + 1] == '=' {
            SpecToken::Equals
        } else {
            SpecToken::Assign
        }
    } else if c == '!' {
        if i + 1 < b.len() && b[i + 1] == '=' {
            SpecToken::DoesntEqual
        } else {
            SpecToken::Bang
        }
    } else if is_ident_char(c) {
        let s = b.subrange(i, ident_run_end(b, i));
        match spec_keyword(s) {
            Some(k) => k,
            None => SpecToken::Ident(s),
        }
    } else {
        SpecToken::Illegal
    }
}

/// The index of the first character after the token at `i`: exactly the
/// characters that form the token are consumed, no more.
pub open spec fn token_end(b: Seq<char>, i: int) -> int {
    let c = b[i];
    if is_digit_char(c) {
        digit_run_end(b, i)
    } else if c == '=' || c == '!' {
        if i + 1 < b.len() && b[i + 1] == '=' {
            i + 2
        } else {
            i + 1
        }
    } else if is_ident_char(c) {
        ident_run_end(b, i)
    } else {
        i + 1
    }
}

/// The token one classification step yields from position `p`: skip
/// whitespace, then classify, or `EOF` at exhaustion.
pub open spec fn step_token(b: Seq<char>, p: int) -> SpecToken {
    let s = whitespace_end(b, p);
    if s == b.len() {
        SpecToken::EOF
    } else {
        token_at(b, s)
    }
}

/// The cursor position after that step.
pub open spec fn step_pos(b: Seq<char>, p: int) -> int {
    let s = whitespace_end(b, p);
    if s == b.len() {
        s
    } else {
        token_end(b, s)
    }
}

/// Every position between `i` and the end of its whitespace run is
/// whitespace, and the run stops at the first other character.
pub proof fn lemma_whitespace_end(b: Seq<char>, i: int)
    requires
        0 <= i <= b.len(),
    ensures
        i <= whitespace_end(b, i) <= b.len(),
        forall|k: int| i <= k < whitespace_end(b, i) ==> is_whitespace_char(b[k]),
        whitespace_end(b, i) < b.len() ==> !is_whitespace_char(b[whitespace_end(b, i)]),
    decreases b.len() - i,
{
    if i < b.len() && is_whitespace_char(b[i]) {
        lemma_whitespace_end(b, i + 1);
    }
}

/// The whitespace run from `i` ends at `j` exactly when everything
/// before `j` is whitespace and `j` is the length or a non-whitespace
/// position.
pub proof fn lemma_whitespace_end_is(b: Seq<char>, i: int, j: int)
    requires
        0 <= i <= j <= b.len(),
        forall|k: int| i <= k < j ==> is_whitespace_char(b[k]),
        j < b.len() ==> !is_whitespace_char(b[j]),
    ensures
        whitespace_end(b, i) == j,
    decreases j - i,
{
    if i < j {
        lemma_whitespace_end_is(b, i + 1, j);
    }
}

/// Every position in a digit run is a digit, and the run stops at the
/// first non-digit.
pub proof fn lemma_digit_run_end(b: Seq<char>, i: int)
    requires
        0 <= i <= b.len(),
    ensures
        i <= digit_run_end(b, i) <= b.len(),
        forall|k: int| i <= k < digit_run_end(b, i) ==> is_digit_char(b[k]),
        digit_run_end(b, i) < b.len() ==> !is_digit_char(b[digit_run_end(b, i)]),
    decreases b.len() - i,
{
    if i < b.len() && is_digit_char(b[i]) {
        lemma_digit_run_end(b, i + 1);
    }
}

/// The digit run from `i` ends at `j` exactly when everything before
/// `j` is a digit and `j` is the length or a non-digit position.
pub proof fn lemma_digit_run_end_is(b: Seq<char>, i: int, j: int)
    requires
        0 <= i <= j <= b.len(),
        forall|k: int| i <= k < j ==> is_digit_char(b[k]),
        j < b.len() ==> !is_digit_char(b[j]),
    ensures
        digit_run_end(b, i) == j,
    decreases j - i,
{
    if i < j {
        lemma_digit_run_end_is(b, i + 1, j);
    }
}

/// Every position in an identifier run is an identifier character, and
/// the run stops at the first other character.
pub proof fn lemma_ident_run_end(b: Seq<char>, i: int)
    requires
        0 <= i <= b.len(),
    ensures
        i <= ident_run_end(b, i) <= b.len(),
        forall|k: int| i <= k < ident_run_end(b, i) ==> is_ident_char(b[k]),
        ident_run_end(b, i) < b.len() ==> !is_ident_char(b[ident_run_end(b, i)]),
    decreases b.len() - i,
{
    if i < b.len() && is_ident_char(b[i]) {
        lemma_ident_run_end(b, i + 1);
    }
}

/// The identifier run from `i` ends at `j` exactly when everything
/// before `j` is an identifier character and `j` is the length or
/// another character's position.
pub proof fn lemma_ident_run_end_is(b: Seq<char>, i: int, j: int)
    requires
        0 <= i <= j <= b.len(),
        forall|k: int| i <= k < j ==> is_ident_char(b[k]),
        j < b.len() ==> !is_ident_char(b[j]),
    ensures
        ident_run_end(b, i) == j,
    decreases j - i,
{
    if i < j {
        lemma_ident_run_end_is(b, i + 1, j);
    }
}

/// A classification step on a character in bounds consumes at least
/// that character and stays within the buffer.
pub proof fn lemma_token_end_bounds(b: Seq<char>, i: int)
    requires
        0 <= i < b.len(),
        !is_whitespace_char(b[i]),
    ensures
        i < token_end(b, i) <= b.len(),
{
    lemma_digit_run_end(b, i);
    lemma_ident_run_end(b, i);
    if is_digit_char(b[i]) {
        assert(digit_run_end(b, i) != i);
    } else if is_ident_char(b[i]) {
        assert(ident_run_end(b, i) != i);
    }
}

/// A step never moves the cursor backwards, stays within the buffer,
/// and makes strict progress whenever it yields a real token.
pub proof fn lemma_step_bounds(b: Seq<char>, p: int)
    requires
        0 <= p <= b.len(),
    ensures
        p <= step_pos(b, p) <= b.len(),
        step_token(b, p) != SpecToken::EOF ==> step_pos(b, p) > p,
        step_token(b, p) == SpecToken::EOF ==> step_pos(b, p) == b.len(),
{
    let s = whitespace_end(b, p);
    lemma_whitespace_end(b, p);
    if s < b.len() {
        lemma_token_end_bounds(b, s);
        assert(step_token(b, p) != SpecToken::EOF);
    }
}

/// The whole remaining token sequence from position `p`: each step's
/// token in order, ending with the single `EOF`.
pub open spec fn tokens_from(b: Seq<char>, p: int) -> Seq<SpecToken>
    decreases b.len() - p when 0 <= p <= b.len() via tokens_from_decreases
{
    if step_token(b, p) == SpecToken::EOF {
        seq![SpecToken::EOF]
    } else {
        seq![step_token(b, p)] + tokens_from(b, step_pos(b, p))
    }
}

#[via_fn]
proof fn tokens_from_decreases(b: Seq<char>, p: int) {
    lemma_step_bounds(b, p);
}

/// The token sequence of a whole buffer.
pub open spec fn tokens(b: Seq<char>) -> Seq<SpecToken> {
    tokens_from(b, 0)
}

} // verus!
