//! Laws of the scan, stated and proved over its mathematical model:
//! integer literals carry the decimal value of their digits, the
//! two-character operators consume exactly the characters that form
//! them, every token sequence terminates in a single `EOF`, and
//! inserting extra whitespace between tokens changes nothing.

use vstd::prelude::*;

use crate::scan::{
    decimal_value, digit_of, digit_run_end, ident_run_end, is_digit_char, is_ident_char,
    is_whitespace_char, lemma_digit_run_end, lemma_digit_run_end_is, lemma_ident_run_end,
    lemma_ident_run_end_is, lemma_step_bounds, lemma_token_end_bounds, lemma_whitespace_end,
    lemma_whitespace_end_is, step_pos, step_token, token_at, token_end, tokens, tokens_from,
    whitespace_end, wrapped_value,
};
use crate::token::SpecToken;

verus! {

/// The decimal value of a digit run is never negative.
proof fn lemma_decimal_value_nonneg(b: Seq<char>, i: int, j: int)
    requires
        0 <= i <= j <= b.len(),
        forall|k: int| i <= k < j ==> is_digit_char(b[k]),
    ensures
        decimal_value(b, i, j) >= 0,
    decreases j - i,
{
    if j > i {
        lemma_decimal_value_nonneg(b, i, j - 1);
    }
}

/// Wherever the decimal value of a digit run fits in 32 bits, the
/// step-wise accumulation modulo 2^32 computes exactly that value.
pub proof fn lemma_wrapped_value_exact(b: Seq<char>, i: int, j: int)
    requires
        0 <= i <= j <= b.len(),
        forall|k: int| i <= k < j ==> is_digit_char(b[k]),
        decimal_value(b, i, j) < 0x1_0000_0000,
    ensures
        wrapped_value(b, i, j) == decimal_value(b, i, j),
    decreases j - i,
{
    if j > i {
        lemma_decimal_value_nonneg(b, i, j - 1);
        assert(decimal_value(b, i, j) == decimal_value(b, i, j - 1) * 10 + digit_of(b[j - 1]));
        assert(decimal_value(b, i, j - 1) <= decimal_value(b, i, j - 1) * 10);
        lemma_wrapped_value_exact(b, i, j - 1);
        lemma_decimal_value_nonneg(b, i, j);
    }
}

/// A digit run is emitted as the integer token whose value is the
/// decimal number its digits spell, most significant digit first —
/// provided that number fits the token's 32-bit payload.
pub proof fn lemma_integer_token(b: Seq<char>, i: int)
    requires
        0 <= i < b.len(),
        is_digit_char(b[i]),
        decimal_value(b, i, digit_run_end(b, i)) < 0x1_0000_0000,
    ensures
        token_at(b, i) == SpecToken::Int(decimal_value(b, i, digit_run_end(b, i)) as u32),
{
    lemma_digit_run_end(b, i);
    lemma_wrapped_value_exact(b, i, digit_run_end(b, i));
}

/// An `=` followed by a second `=` forms the single two-character
/// equality token, consuming exactly both characters; an `=` followed
/// by anything else (or by nothing) forms the assignment token,
/// consuming exactly one.
pub proof fn lemma_equals_lookahead(b: Seq<char>, i: int)
    requires
        0 <= i < b.len(),
        b[i] == '=',
    ensures
        i + 1 < b.len() && b[i + 1] == '=' ==> token_at(b, i) == SpecToken::Equals && token_end(
            b,
            i,
        ) == i + 2,
        !(i + 1 < b.len() && b[i + 1] == '=') ==> token_at(b, i) == SpecToken::Assign && token_end(
            b,
            i,
        ) == i + 1,
{
}

/// A `!` followed by `=` forms the single two-character inequality
/// token, consuming exactly both characters; a `!` followed by
/// anything else (or by nothing) forms the bang token, consuming
/// exactly one.
pub proof fn lemma_bang_lookahead(b: Seq<char>, i: int)
    requires
        0 <= i < b.len(),
        b[i] == '!',
    ensures
        i + 1 < b.len() && b[i + 1] == '=' ==> token_at(b, i) == SpecToken::DoesntEqual
            && token_end(b, i) == i + 2,
        !(i + 1 < b.len() && b[i + 1] == '=') ==> token_at(b, i) == SpecToken::Bang && token_end(
            b,
            i,
        ) == i + 1,
{
}

/// Every token sequence ends with `EOF`, exactly once: it is the final
/// element and appears nowhere earlier.
pub proof fn lemma_eof_terminal(b: Seq<char>, p: int)
    requires
        0 <= p <= b.len(),
    ensures
        tokens_from(b, p).len() >= 1,
        tokens_from(b, p).last() == SpecToken::EOF,
        forall|k: int|
            0 <= k < tokens_from(b, p).len() - 1 ==> tokens_from(b, p)[k] != SpecToken::EOF,
    decreases b.len() - p,
{
    lemma_step_bounds(b, p);
    if step_token(b, p) != SpecToken::EOF {
        lemma_eof_terminal(b, step_pos(b, p));
        let t = tokens_from(b, p);
        let rest = tokens_from(b, step_pos(b, p));
        assert(t == seq![step_token(b, p)] + rest);
        assert(t.last() == rest.last());
        assert forall|k: int| 0 <= k < t.len() - 1 implies t[k] != SpecToken::EOF by {
            if k == 0 {
                assert(t[0] == step_token(b, p));
            } else {
                assert(t[k] == rest[k - 1]);
            }
        }
    }
}

/// Two suffixes that read the same have the same length difference.
proof fn lemma_skip_len(b1: Seq<char>, i1: int, b2: Seq<char>, i2: int)
    requires
        0 <= i1 <= b1.len(),
        0 <= i2 <= b2.len(),
        b1.skip(i1) == b2.skip(i2),
    ensures
        b1.len() - i1 == b2.len() - i2,
{
    assert(b1.skip(i1).len() == b1.len() - i1);
    assert(b2.skip(i2).len() == b2.len() - i2);
}

/// Two suffixes that read the same agree character by character.
proof fn lemma_skip_index(b1: Seq<char>, i1: int, b2: Seq<char>, i2: int, e: int)
    requires
        0 <= i1 <= b1.len(),
        0 <= i2 <= b2.len(),
        b1.skip(i1) == b2.skip(i2),
        0 <= e < b1.len() - i1,
    ensures
        b1[i1 + e] == b2[i2 + e],
{
    lemma_skip_len(b1, i1, b2, i2);
    assert(b1.skip(i1)[e] == b1[i1 + e]);
    assert(b2.skip(i2)[e] == b2[i2 + e]);
}

/// Two suffixes that read the same keep doing so after both starts
/// move forward by the same amount.
proof fn lemma_skip_shift(b1: Seq<char>, i1: int, b2: Seq<char>, i2: int, d: int)
    requires
        0 <= i1 <= b1.len(),
        0 <= i2 <= b2.len(),
        b1.skip(i1) == b2.skip(i2),
        0 <= d <= b1.len() - i1,
    ensures
        b1.skip(i1 + d) == b2.skip(i2 + d),
{
    lemma_skip_len(b1, i1, b2, i2);
    let j1 = i1 + d;
    let j2 = i2 + d;
    assert forall|e: int| 0 <= e < b1.len() - j1 implies b1.skip(j1)[e] == b2.skip(j2)[e] by {
        assert(b1.skip(j1)[e] == b1[j1 + e]);
        assert(b1.skip(i1)[d + e] == b1[i1 + (d + e)]);
        assert(b2.skip(i2)[d + e] == b2[i2 + (d + e)]);
        assert(b2.skip(j2)[e] == b2[j2 + e]);
    }
    assert(b1.skip(j1) =~= b2.skip(j2));
}

/// Equal digit windows accumulate to equal values.
proof fn lemma_wrapped_value_congruent(b1: Seq<char>, s1: int, b2: Seq<char>, s2: int, n: int)
    requires
        0 <= n,
        0 <= s1,
        s1 + n <= b1.len(),
        0 <= s2,
        s2 + n <= b2.len(),
        b1.subrange(s1, s1 + n) == b2.subrange(s2, s2 + n),
    ensures
        wrapped_value(b1, s1, s1 + n) == wrapped_value(b2, s2, s2 + n),
    decreases n,
{
    if n > 0 {
        let t1 = s1 + n;
        let t2 = s2 + n;
        let u1 = s1 + n - 1;
        let u2 = s2 + n - 1;
        assert(b1.subrange(s1, t1)[n - 1] == b1[s1 + (n - 1)]);
        assert(b2.subrange(s2, t2)[n - 1] == b2[s2 + (n - 1)]);
        assert forall|e: int| 0 <= e < n - 1 implies b1.subrange(s1, u1)[e] == b2.subrange(
            s2,
            u2,
        )[e] by {
            assert(b1.subrange(s1, u1)[e] == b1[s1 + e]);
            assert(b1.subrange(s1, t1)[e] == b1[s1 + e]);
            assert(b2.subrange(s2, t2)[e] == b2[s2 + e]);
            assert(b2.subrange(s2, u2)[e] == b2[s2 + e]);
        }
        assert(b1.subrange(s1, u1) =~= b2.subrange(s2, u2));
        lemma_wrapped_value_congruent(b1, s1, b2, s2, n - 1);
    }
}

/// One classification step reads only the remaining input: from two
/// positions whose suffixes are the same characters, it yields the
/// same token and consumes the same number of characters.
proof fn lemma_step_corresponds(b1: Seq<char>, i1: int, b2: Seq<char>, i2: int)
    requires
        0 <= i1 <= b1.len(),
        0 <= i2 <= b2.len(),
        b1.skip(i1) == b2.skip(i2),
    ensures
        step_token(b1, i1) == step_token(b2, i2),
        step_pos(b1, i1) - i1 == step_pos(b2, i2) - i2,
{
    lemma_skip_len(b1, i1, b2, i2);
    lemma_whitespace_end(b1, i1);
    let s1 = whitespace_end(b1, i1);
    let d = s1 - i1;
    let s2 = i2 + d;
    assert forall|k: int| i2 <= k < s2 implies is_whitespace_char(b2[k]) by {
        lemma_skip_index(b1, i1, b2, i2, k - i2);
    }
    if s1 < b1.len() {
        lemma_skip_index(b1, i1, b2, i2, d);
    }
    lemma_whitespace_end_is(b2, i2, s2);
    if s1 < b1.len() {
        let c = b1[s1];
        assert(b2[s2] == c);
        lemma_skip_shift(b1, i1, b2, i2, d);
        if is_digit_char(c) {
            lemma_digit_run_end(b1, s1);
            let e1 = digit_run_end(b1, s1);
            let m = e1 - s1;
            assert forall|k: int| s2 <= k < s2 + m implies is_digit_char(b2[k]) by {
                lemma_skip_index(b1, s1, b2, s2, k - s2);
            }
            if s2 + m < b2.len() {
                lemma_skip_index(b1, s1, b2, s2, m);
            }
            lemma_digit_run_end_is(b2, s2, s2 + m);
            let t2 = s2 + m;
            assert forall|e: int| 0 <= e < m implies b1.subrange(s1, e1)[e] == b2.subrange(
                s2,
                t2,
            )[e] by {
                lemma_skip_index(b1, s1, b2, s2, e);
                assert(b1.subrange(s1, e1)[e] == b1[s1 + e]);
                assert(b2.subrange(s2, t2)[e] == b2[s2 + e]);
            }
            assert(b1.subrange(s1, e1) =~= b2.subrange(s2, t2));
            lemma_wrapped_value_congruent(b1, s1, b2, s2, m);
        } else if c == '=' || c == '!' {
            if s1 + 1 < b1.len() {
                lemma_skip_index(b1, s1, b2, s2, 1);
            }
        } else if is_ident_char(c) {
            lemma_ident_run_end(b1, s1);
            let e1 = ident_run_end(b1, s1);
            let m = e1 - s1;
            assert forall|k: int| s2 <= k < s2 + m implies is_ident_char(b2[k]) by {
                lemma_skip_index(b1, s1, b2, s2, k - s2);
            }
            if s2 + m < b2.len() {
                lemma_skip_index(b1, s1, b2, s2, m);
            }
            lemma_ident_run_end_is(b2, s2, s2 + m);
            let t2 = s2 + m;
            assert forall|e: int| 0 <= e < m implies b1.subrange(s1, e1)[e] == b2.subrange(
                s2,
                t2,
            )[e] by {
                lemma_skip_index(b1, s1, b2, s2, e);
                assert(b1.subrange(s1, e1)[e] == b1[s1 + e]);
                assert(b2.subrange(s2, t2)[e] == b2[s2 + e]);
            }
            assert(b1.subrange(s1, e1) =~= b2.subrange(s2, t2));
        }
    }
}

/// The whole token sequence reads only the remaining input: from two
/// positions whose suffixes are the same characters, the same tokens
/// follow.
proof fn lemma_tokens_correspond(b1: Seq<char>, i1: int, b2: Seq<char>, i2: int)
    requires
        0 <= i1 <= b1.len(),
        0 <= i2 <= b2.len(),
        b1.skip(i1) == b2.skip(i2),
    ensures
        tokens_from(b1, i1) == tokens_from(b2, i2),
    decreases b1.len() - i1,
{
    lemma_skip_len(b1, i1, b2, i2);
    lemma_step_corresponds(b1, i1, b2, i2);
    lemma_step_bounds(b1, i1);
    lemma_step_bounds(b2, i2);
    if step_token(b1, i1) != SpecToken::EOF {
        lemma_skip_shift(b1, i1, b2, i2, step_pos(b1, i1) - i1);
        lemma_tokens_correspond(b1, step_pos(b1, i1), b2, step_pos(b2, i2));
    }
}

/// Anywhere inside the whitespace run ahead of a token, the scan sees
/// the same tokens as from the run's start.
proof fn lemma_tokens_within_gap(b: Seq<char>, i: int, g: int)
    requires
        0 <= i <= b.len(),
        i <= g <= whitespace_end(b, i),
    ensures
        tokens_from(b, g) == tokens_from(b, i),
{
    lemma_whitespace_end(b, i);
    let s = whitespace_end(b, i);
    assert forall|k: int| g <= k < s implies is_whitespace_char(b[k]) by {}
    lemma_whitespace_end_is(b, g, s);
}

/// The buffer `b` with the characters `w` inserted at position `g`.
pub open spec fn insert_at(b: Seq<char>, g: int, w: Seq<char>) -> Seq<char> {
    b.take(g) + w + b.skip(g)
}

/// How the inserted buffer reads: the old characters below `g`, then
/// `w`, then the old characters from `g` on.
proof fn lemma_insert_at_facts(b: Seq<char>, g: int, w: Seq<char>)
    requires
        0 <= g <= b.len(),
    ensures
        insert_at(b, g, w).len() == b.len() + w.len(),
        forall|k: int| 0 <= k < g ==> #[trigger] insert_at(b, g, w)[k] == b[k],
        forall|k: int| g <= k < g + w.len() ==> #[trigger] insert_at(b, g, w)[k] == w[k - g],
        forall|k: int|
            g + w.len() <= k < b.len() + w.len() ==> #[trigger] insert_at(b, g, w)[k] == b[k
                - w.len()],
{
    assert(b.take(g).len() == g);
    assert(b.skip(g).len() == b.len() - g);
    assert forall|k: int| 0 <= k < g implies #[trigger] insert_at(b, g, w)[k] == b[k] by {
        assert(insert_at(b, g, w)[k] == (b.take(g) + w)[k]);
        assert((b.take(g) + w)[k] == b.take(g)[k]);
        assert(b.take(g)[k] == b[k]);
    }
    assert forall|k: int| g <= k < g + w.len() implies #[trigger] insert_at(b, g, w)[k] == w[k
        - g] by {
        assert(insert_at(b, g, w)[k] == (b.take(g) + w)[k]);
        assert((b.take(g) + w)[k] == w[k - g]);
    }
    assert forall|k: int| g + w.len() <= k < b.len() + w.len() implies #[trigger] insert_at(
        b,
        g,
        w,
    )[k] == b[k - w.len()] by {
        assert(insert_at(b, g, w)[k] == b.skip(g)[k - g - w.len()]);
        assert(b.skip(g)[k - g - w.len()] == b[k - w.len()]);
    }
}

/// `g` lies in a gap of the scan that starts at `p`: in the whitespace
/// ahead of some later token, or anywhere after the last token.
pub open spec fn is_gap(b: Seq<char>, p: int, g: int) -> bool
    decreases b.len() - p when 0 <= p <= b.len() via is_gap_decreases
{
    let s = whitespace_end(b, p);
    if s == b.len() {
        p <= g <= b.len()
    } else {
        (p <= g <= s) || (token_end(b, s) <= g && is_gap(b, token_end(b, s), g))
    }
}

#[via_fn]
proof fn is_gap_decreases(b: Seq<char>, p: int, g: int) {
    lemma_whitespace_end(b, p);
    if whitespace_end(b, p) < b.len() {
        lemma_token_end_bounds(b, whitespace_end(b, p));
    }
}

/// A gap position lies between the scan's start and the buffer's end.
proof fn lemma_gap_bounds(b: Seq<char>, p: int, g: int)
    requires
        0 <= p <= b.len(),
        is_gap(b, p, g),
    ensures
        p <= g <= b.len(),
    decreases b.len() - p,
{
    lemma_whitespace_end(b, p);
    let s = whitespace_end(b, p);
    if s < b.len() && !(p <= g <= s) {
        lemma_token_end_bounds(b, s);
        lemma_gap_bounds(b, token_end(b, s), g);
    }
}

/// The end of the buffer is always a gap.
proof fn lemma_end_is_gap(b: Seq<char>, p: int)
    requires
        0 <= p <= b.len(),
    ensures
        is_gap(b, p, b.len() as int),
    decreases b.len() - p,
{
    lemma_whitespace_end(b, p);
    let s = whitespace_end(b, p);
    if s < b.len() {
        lemma_token_end_bounds(b, s);
        lemma_end_is_gap(b, token_end(b, s));
    }
}

/// Inserting whitespace just past a token changes neither that token
/// nor where it ends: the scan's first step reads the same.
proof fn lemma_step_insert_beyond(b: Seq<char>, p: int, g: int, w: Seq<char>)
    requires
        0 <= p <= b.len(),
        whitespace_end(b, p) < b.len(),
        token_end(b, whitespace_end(b, p)) <= g <= b.len(),
        w.len() > 0,
        forall|k: int| 0 <= k < w.len() ==> is_whitespace_char(w[k]),
    ensures
        whitespace_end(insert_at(b, g, w), p) == whitespace_end(b, p),
        token_at(insert_at(b, g, w), whitespace_end(b, p)) == token_at(b, whitespace_end(b, p)),
        token_end(insert_at(b, g, w), whitespace_end(b, p)) == token_end(b, whitespace_end(b, p)),
{
    let s = whitespace_end(b, p);
    let e = token_end(b, s);
    let b2 = insert_at(b, g, w);
    lemma_whitespace_end(b, p);
    lemma_token_end_bounds(b, s);
    lemma_insert_at_facts(b, g, w);
    assert(b2[s] == b[s]);
    assert forall|k: int| p <= k < s implies is_whitespace_char(b2[k]) by {
        assert(b2[k] == b[k]);
    }
    lemma_whitespace_end_is(b2, p, s);
    let c = b[s];
    if is_digit_char(c) {
        lemma_digit_run_end(b, s);
        assert forall|k: int| s <= k < e implies is_digit_char(b2[k]) by {
            assert(b2[k] == b[k]);
        }
        if e == g {
            assert(b2[e] == w[0]);
        } else {
            assert(b2[e] == b[e]);
        }
        lemma_digit_run_end_is(b2, s, e);
        assert forall|t: int| 0 <= t < e - s implies b2.subrange(s, e)[t] == b.subrange(s, e)[t] by {
            assert(b2.subrange(s, e)[t] == b2[s + t]);
            assert(b.subrange(s, e)[t] == b[s + t]);
            assert(b2[s + t] == b[s + t]);
        }
        assert(b2.subrange(s, e) =~= b.subrange(s, e));
        lemma_wrapped_value_congruent(b2, s, b, s, e - s);
    } else if c == '=' || c == '!' {
        if s + 1 < b.len() && b[s + 1] == '=' {
            assert(b2[s + 1] == b[s + 1]);
        } else {
            assert(s + 1 < b2.len());
            if s + 1 == g {
                assert(b2[s + 1] == w[0]);
            } else {
                assert(b2[s + 1] == b[s + 1]);
            }
            assert(b2[s + 1] != '=');
        }
    } else if is_ident_char(c) {
        lemma_ident_run_end(b, s);
        assert forall|k: int| s <= k < e implies is_ident_char(b2[k]) by {
            assert(b2[k] == b[k]);
        }
        if e == g {
            assert(b2[e] == w[0]);
        } else {
            assert(b2[e] == b[e]);
        }
        lemma_ident_run_end_is(b2, s, e);
        assert forall|t: int| 0 <= t < e - s implies b2.subrange(s, e)[t] == b.subrange(s, e)[t] by {
            assert(b2.subrange(s, e)[t] == b2[s + t]);
            assert(b.subrange(s, e)[t] == b[s + t]);
            assert(b2[s + t] == b[s + t]);
        }
        assert(b2.subrange(s, e) =~= b.subrange(s, e));
    }
}

/// Inserting extra whitespace at any gap of the scan — ahead of a
/// token, between two tokens, or after the last one — leaves the token
/// sequence unchanged.
pub proof fn lemma_whitespace_insertion(b: Seq<char>, p: int, g: int, w: Seq<char>)
    requires
        0 <= p <= b.len(),
        is_gap(b, p, g),
        forall|k: int| 0 <= k < w.len() ==> is_whitespace_char(w[k]),
    ensures
        tokens_from(insert_at(b, g, w), p) == tokens_from(b, p),
    decreases b.len() - p,
{
    let b2 = insert_at(b, g, w);
    lemma_whitespace_end(b, p);
    let s = whitespace_end(b, p);
    lemma_gap_bounds(b, p, g);
    lemma_insert_at_facts(b, g, w);
    if w.len() == 0 {
        assert(b2 =~= b);
    } else if g <= s {
        assert forall|k: int| p <= k < g implies is_whitespace_char(b2[k]) by {
            assert(b2[k] == b[k]);
        }
        assert forall|k: int| g <= k < g + w.len() implies is_whitespace_char(b2[k]) by {
            assert(b2[k] == w[k - g]);
        }
        lemma_whitespace_end(b2, p);
        if whitespace_end(b2, p) < g + w.len() {
            assert(is_whitespace_char(b2[whitespace_end(b2, p)]));
            assert(false);
        }
        lemma_tokens_within_gap(b2, p, g + w.len());
        let gw = g + w.len();
        assert forall|t: int| 0 <= t < b.len() - g implies b2.skip(gw)[t] == b.skip(g)[t] by {
            assert(b2.skip(gw)[t] == b2[gw + t]);
            assert(b2[gw + t] == b[g + t]);
            assert(b.skip(g)[t] == b[g + t]);
        }
        assert(b2.skip(gw) =~= b.skip(g));
        lemma_tokens_correspond(b2, gw, b, g);
        lemma_tokens_within_gap(b, p, g);
    } else {
        let e = token_end(b, s);
        lemma_token_end_bounds(b, s);
        lemma_step_insert_beyond(b, p, g, w);
        lemma_step_bounds(b, p);
        assert(step_token(b2, p) == step_token(b, p));
        assert(step_pos(b2, p) == e);
        assert(step_token(b, p) != SpecToken::EOF);
        lemma_whitespace_insertion(b, e, g, w);
        assert(tokens_from(b, p) == seq![step_token(b, p)] + tokens_from(b, e));
        assert(tokens_from(b2, p) == seq![step_token(b2, p)] + tokens_from(b2, e));
    }
}

/// Leading whitespace never changes the token sequence.
pub proof fn lemma_leading_whitespace(w: Seq<char>, b: Seq<char>)
    requires
        forall|k: int| 0 <= k < w.len() ==> is_whitespace_char(w[k]),
    ensures
        tokens(w + b) == tokens(b),
{
    lemma_whitespace_end(b, 0);
    assert(is_gap(b, 0, 0));
    lemma_whitespace_insertion(b, 0, 0, w);
    lemma_insert_at_facts(b, 0, w);
    assert forall|k: int| 0 <= k < b.len() + w.len() implies insert_at(b, 0, w)[k] == (w + b)[k] by {
        if k < w.len() {
            assert(insert_at(b, 0, w)[k] == w[k]);
            assert((w + b)[k] == w[k]);
        } else {
            assert(insert_at(b, 0, w)[k] == b[k - w.len()]);
            assert((w + b)[k] == b[k - w.len()]);
        }
    }
    assert(insert_at(b, 0, w) =~= w + b);
}

/// Trailing whitespace never changes the token sequence.
pub proof fn lemma_trailing_whitespace(b: Seq<char>, w: Seq<char>)
    requires
        forall|k: int| 0 <= k < w.len() ==> is_whitespace_char(w[k]),
    ensures
        tokens(b + w) == tokens(b),
{
    let g = b.len() as int;
    lemma_end_is_gap(b, 0);
    lemma_whitespace_insertion(b, 0, g, w);
    lemma_insert_at_facts(b, g, w);
    assert forall|k: int| 0 <= k < b.len() + w.len() implies insert_at(b, g, w)[k] == (b + w)[k] by {
        if k < b.len() {
            assert(insert_at(b, g, w)[k] == b[k]);
            assert((b + w)[k] == b[k]);
        } else {
            assert(insert_at(b, g, w)[k] == w[k - b.len()]);
            assert((b + w)[k] == w[k - b.len()]);
        }
    }
    assert(insert_at(b, g, w) =~= b + w);
}

} // verus!
