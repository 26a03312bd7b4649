//! The lexer: raw text to an ordered sequence of tokens.
//!
//! `(` and `)` are tokens of their own; every other maximal run of
//! non-delimiter characters is one word, classified as an integer literal,
//! a float literal, or a bare symbol. Classification never fails: a word
//! that is no number is a symbol.

use std::collections::vec_deque::VecDeque;

use vstd::prelude::*;

use crate::float::{
    F64_INF_BITS, F64_QNAN_BITS, F64_SIGN_MASK, first_exp_marker, float_from_decimal,
    float_literal_bits, is_ascii_digit, is_exp_marker_at, is_exponent,
    is_float_literal, is_inf_body, is_infinity_body, is_mantissa, is_nan_body, is_plain_number,
    is_signed_number, is_special_body, all_ascii_digits, dot_count, has_ascii_digit,
    lemma_first_exp_marker_at, matches_ci,
};

verus! {

/// One lexical unit of the source text. `True` and `False` are reserved for
/// a boolean literal syntax that no current spelling produces.
#[derive(Debug)]
pub enum Token {
    OParen,
    CParen,
    Symbol(String),
    Float(u64),
    Int(i64),
    True,
    False,
}

/// Mathematical model of a token.
pub enum SpecToken {
    OParen,
    CParen,
    Symbol(Seq<char>),
    Float(u64),
    Int(int),
    True,
    False,
}

impl View for Token {
    type V = SpecToken;

    open spec fn view(&self) -> SpecToken {
        match self {
            Token::OParen => SpecToken::OParen,
            Token::CParen => SpecToken::CParen,
            Token::Symbol(s) => SpecToken::Symbol(s@),
            Token::Float(b) => SpecToken::Float(*b),
            Token::Int(i) => SpecToken::Int(*i as int),
            Token::True => SpecToken::True,
            Token::False => SpecToken::False,
        }
    }
}

pub open spec fn view_tokens(s: Seq<Token>) -> Seq<SpecToken> {
    s.map_values(|t: Token| t@)
}

/// The whitespace that separates words: the ASCII whitespace characters.
pub open spec fn is_lisp_ws(c: char) -> bool {
    c == ' ' || c == '\t' || c == '\n' || c == '\r' || c == '\x0b' || c == '\x0c'
}

/// A character that ends a word: whitespace or a parenthesis.
pub open spec fn is_delim(c: char) -> bool {
    is_lisp_ws(c) || c == '(' || c == ')'
}

fn char_is_ws(c: char) -> (r: bool)
    ensures
        r == is_lisp_ws(c),
{
    c == ' ' || c == '\t' || c == '\n' || c == '\r' || c == '\x0b' || c == '\x0c'
}

fn char_is_delim(c: char) -> (r: bool)
    ensures
        r == is_delim(c),
{
    char_is_ws(c) || c == '(' || c == ')'
}

/// Length of the word at the front of the text: the longest prefix without
/// a delimiter.
pub open spec fn word_len(s: Seq<char>) -> nat
    decreases s.len(),
{
    if s.len() == 0 || is_delim(s[0]) {
        0
    } else {
        (1 + word_len(s.drop_first())) as nat
    }
}

pub proof fn lemma_word_len_le(s: Seq<char>)
    ensures
        word_len(s) <= s.len(),
        s.len() > 0 && !is_delim(s[0]) ==> word_len(s) >= 1,
    decreases s.len(),
{
    if s.len() > 0 && !is_delim(s[0]) {
        lemma_word_len_le(s.drop_first());
    }
}

/// A run of non-delimiters up to a boundary pins the word length down.
pub proof fn lemma_word_len_at(s: Seq<char>, j: int)
    requires
        0 <= j <= s.len(),
        forall|i: int| 0 <= i < j ==> !is_delim(#[trigger] s[i]),
        j < s.len() ==> is_delim(s[j]),
    ensures
        word_len(s) == j,
    decreases j,
{
    if j > 0 {
        assert(!is_delim(s[0]));
        lemma_word_len_at(s.drop_first(), j - 1);
    }
}

pub open spec fn digit_of(c: char) -> int {
    (c as int) - ('0' as int)
}

/// Value of a run of decimal digits, most significant first.
pub open spec fn digits_val(s: Seq<char>) -> int
    decreases s.len(),
{
    if s.len() == 0 {
        0
    } else {
        digits_val(s.drop_last()) * 10 + digit_of(s.last())
    }
}

pub proof fn lemma_digits_val_nonneg(s: Seq<char>)
    requires
        all_ascii_digits(s),
    ensures
        digits_val(s) >= 0,
    decreases s.len(),
{
    if s.len() > 0 {
        lemma_digits_val_nonneg(s.drop_last());
    }
}

/// Extending a digit run can only grow its value.
pub proof fn lemma_digits_val_prefix_le(s: Seq<char>, k: int)
    requires
        all_ascii_digits(s),
        0 <= k <= s.len(),
    ensures
        digits_val(s.subrange(0, k)) <= digits_val(s),
    decreases s.len(),
{
    if k == s.len() {
        assert(s.subrange(0, k) =~= s);
    } else {
        assert(s.drop_last() =~= s.subrange(0, s.len() - 1));
        lemma_digits_val_prefix_le(s.drop_last(), k);
        assert(s.drop_last().subrange(0, k) =~= s.subrange(0, k));
        lemma_digits_val_nonneg(s.drop_last());
    }
}

/// An integer literal: an optional sign, then at least one digit and
/// nothing else.
pub open spec fn is_int_literal(w: Seq<char>) -> bool {
    let d = if w.len() > 0 && (w[0] == '+' || w[0] == '-') {
        w.drop_first()
    } else {
        w
    };
    d.len() > 0 && all_ascii_digits(d)
}

pub open spec fn int_literal_val(w: Seq<char>) -> int {
    let d = if w.len() > 0 && (w[0] == '+' || w[0] == '-') {
        w.drop_first()
    } else {
        w
    };
    if w.len() > 0 && w[0] == '-' {
        -digits_val(d)
    } else {
        digits_val(d)
    }
}

/// The value of a word read as an `i64`, if it is an integer literal whose
/// value fits; a literal out of range reads as no integer at all, so that
/// it can still be read as a float.
pub open spec fn spec_parse_int(w: Seq<char>) -> Option<i64> {
    if is_int_literal(w) && i64::MIN <= int_literal_val(w) <= i64::MAX {
        Some(int_literal_val(w) as i64)
    } else {
        None
    }
}

fn char_is_digit(c: char) -> (r: bool)
    ensures
        r == is_ascii_digit(c),
{
    '0' <= c && c <= '9'
}

/// Read a word as an `i64`, negative accumulation so that the most negative
/// value is reachable.
fn parse_int_word(w: &str) -> (r: Option<i64>)
    ensures
        r == spec_parse_int(w@),
{
    let n = w.unicode_len();
    if n == 0 {
        return None;
    }
    let c0 = w.get_char(0);
    let neg = c0 == '-';
    let has_sign = c0 == '-' || c0 == '+';
    let start: usize = if has_sign {
        1
    } else {
        0
    };
    if n == start {
        return None;
    }
    let ghost d = w@.subrange(start as int, n as int);
    let mut acc: i64 = 0;
    let mut i: usize = start;
    while i < n
        invariant
            n == w@.len(),
            start <= i <= n,
            start < n,
            d == w@.subrange(start as int, n as int),
            start == if has_sign { 1int } else { 0int },
            has_sign == (w@[0] == '-' || w@[0] == '+'),
            neg == (n > 0 && w@[0] == '-'),
            forall|j: int| start <= j < i ==> is_ascii_digit(#[trigger] w@[j]),
            acc == -digits_val(w@.subrange(start as int, i as int)),
            i64::MIN <= acc <= 0,
        decreases n - i,
    {
        let c = w.get_char(i);
        if !char_is_digit(c) {
            proof {
                assert(d[i - start as int] == w@[i as int]);
                assert(!all_ascii_digits(d));
            }
            return None;
        }
        let dig: i64 = (c as u32) as i64 - ('0' as u32) as i64;
        let ghost p = w@.subrange(start as int, i as int);
        let ghost q = w@.subrange(start as int, i + 1 as int);
        proof {
            assert(q.drop_last() =~= p);
            assert(q.last() == w@[i as int]);
        }
        let step = match acc.checked_mul(10) {
            Some(m) => m.checked_sub(dig),
            None => None,
        };
        match step {
            Some(next) => {
                acc = next;
            },
            None => {
                // The magnitude already exceeds the `i64` range, and more
                // digits can only grow it.
                proof {
                    assert(digit_of(w@[i as int]) == dig);
                    assert(0 <= dig <= 9);
                    assert(digits_val(q) == digits_val(p) * 10 + dig);
                    assert(digits_val(q) > 0x8000_0000_0000_0000);
                    if is_int_literal(w@) {
                        if has_sign {
                            assert(w@.drop_first() =~= d);
                        } else {
                            assert(w@ =~= d);
                        }
                        assert(all_ascii_digits(d));
                        assert(q =~= d.subrange(0, i + 1 - start as int));
                        lemma_digits_val_prefix_le(d, i + 1 - start as int);
                        assert(int_literal_val(w@) == if neg {
                            -digits_val(d)
                        } else {
                            digits_val(d)
                        });
                    }
                }
                return None;
            },
        }
        i = i + 1;
    }
    proof {
        assert(w@.subrange(start as int, n as int) == d);
        assert(all_ascii_digits(d)) by {
            assert(forall|j: int|
                0 <= j < d.len() ==> #[trigger] d[j] == w@[start as int + j]
                    && is_ascii_digit(w@[start as int + j]));
        }
        if has_sign {
            assert(w@.drop_first() =~= d);
        } else {
            assert(w@ =~= d);
        }
        assert(is_int_literal(w@));
        lemma_digits_val_nonneg(d);
        assert(acc == -digits_val(d));
        assert(int_literal_val(w@) == if neg {
            -digits_val(d)
        } else {
            digits_val(d)
        });
    }
    if neg {
        Some(acc)
    } else {
        if acc == i64::MIN {
            // The positive magnitude 2^63 does not fit.
            None
        } else {
            Some(-acc)
        }
    }
}

fn char_ci(c: char, l: char) -> (r: bool)
    ensures
        r == matches_ci(c, l),
{
    c == l || (c as u32) + 32 == (l as u32)
}

fn char_is_marker(c: char) -> (r: bool)
    ensures
        r == (c == 'e' || c == 'E'),
{
    c == 'e' || c == 'E'
}

fn body_is_inf(w: &str, start: usize) -> (r: bool)
    requires
        start as int <= w@.len(),
    ensures
        r == (is_inf_body(w@.skip(start as int)) || is_infinity_body(w@.skip(start as int))),
{
    let ghost b = w@.skip(start as int);
    let n = w.unicode_len();
    let m = n - start;
    if m == 3 {
        proof {
            assert(b[0] == w@[start as int]);
            assert(b[1] == w@[start + 1]);
            assert(b[2] == w@[start + 2]);
        }
        char_ci(w.get_char(start), 'i') && char_ci(w.get_char(start + 1), 'n') && char_ci(
            w.get_char(start + 2),
            'f',
        )
    } else if m == 8 {
        proof {
            assert forall|j: int| 0 <= j < 8 implies #[trigger] b[j] == w@[start + j] by {}
        }
        char_ci(w.get_char(start), 'i') && char_ci(w.get_char(start + 1), 'n') && char_ci(
            w.get_char(start + 2),
            'f',
        ) && char_ci(w.get_char(start + 3), 'i') && char_ci(w.get_char(start + 4), 'n') && char_ci(
            w.get_char(start + 5),
            'i',
        ) && char_ci(w.get_char(start + 6), 't') && char_ci(w.get_char(start + 7), 'y')
    } else {
        false
    }
}

fn body_is_nan(w: &str, start: usize) -> (r: bool)
    requires
        start as int <= w@.len(),
    ensures
        r == is_nan_body(w@.skip(start as int)),
{
    let ghost b = w@.skip(start as int);
    let n = w.unicode_len();
    let m = n - start;
    if m == 3 {
        proof {
            assert(b[0] == w@[start as int]);
            assert(b[1] == w@[start + 1]);
            assert(b[2] == w@[start + 2]);
        }
        char_ci(w.get_char(start), 'n') && char_ci(w.get_char(start + 1), 'a') && char_ci(
            w.get_char(start + 2),
            'n',
        )
    } else {
        false
    }
}

fn scan_digits(w: &str, from: usize, to: usize) -> (r: bool)
    requires
        from <= to,
        to as int <= w@.len(),
    ensures
        r == all_ascii_digits(w@.subrange(from as int, to as int)),
{
    let ghost d = w@.subrange(from as int, to as int);
    let mut i: usize = from;
    while i < to
        invariant
            from <= i <= to,
            to as int <= w@.len(),
            d == w@.subrange(from as int, to as int),
            forall|j: int| from <= j < i ==> is_ascii_digit(#[trigger] w@[j]),
        decreases to - i,
    {
        let c = w.get_char(i);
        if !char_is_digit(c) {
            proof {
                assert(d[i - from as int] == w@[i as int]);
            }
            return false;
        }
        i = i + 1;
    }
    proof {
        assert forall|j: int| 0 <= j < d.len() implies is_ascii_digit(#[trigger] d[j]) by {
            assert(d[j] == w@[from as int + j]);
        }
    }
    true
}

/// Read a word as a float literal: its bit pattern if it is one, nothing
/// otherwise.
fn parse_float_word(w: &str) -> (r: Option<u64>)
    ensures
        (r is Some) == is_float_literal(w@),
        (r matches Some(bits) ==> bits == float_literal_bits(w@)),
{
    let n = w.unicode_len();
    if n == 0 {
        return None;
    }
    let c0 = w.get_char(0);
    let neg = c0 == '-';
    let has_sign = c0 == '-' || c0 == '+';
    let start: usize = if has_sign {
        1
    } else {
        0
    };
    let ghost b = w@.skip(start as int);
    proof {
        if has_sign {
            assert(w@.drop_first() =~= b);
        } else {
            assert(w@ =~= b);
        }
    }
    let sign_bits: u64 = if neg {
        F64_SIGN_MASK
    } else {
        0
    };
    if body_is_inf(w, start) {
        return Some(F64_INF_BITS | sign_bits);
    }
    if body_is_nan(w, start) {
        return Some(F64_QNAN_BITS | sign_bits);
    }
    // Not a special spelling; the word must be a decimal number. Find the
    // first exponent marker.
    let mut k: usize = start;
    while k < n && !char_is_marker(w.get_char(k))
        invariant
            start <= k <= n,
            n == w@.len(),
            b == w@.skip(start as int),
            start as int <= w@.len(),
            forall|j: int| 0 <= j < k - start ==> !#[trigger] is_exp_marker_at(b, j),
        decreases n - k,
    {
        proof {
            assert(b[k - start as int] == w@[k as int]);
        }
        k = k + 1;
    }
    proof {
        if k < n {
            assert(b[k - start as int] == w@[k as int]);
            assert(is_exp_marker_at(b, k - start as int));
        }
        lemma_first_exp_marker_at(b, k - start as int);
    }
    let ghost mant = b.take(k - start as int);
    proof {
        assert(mant =~= w@.subrange(start as int, k as int));
    }
    // Check the mantissa: digits with at most one dot, at least one digit.
    let mut dots: usize = 0;
    let mut seen_digit = false;
    let mut p: usize = start;
    while p < k
        invariant
            start <= p <= k <= n,
            n == w@.len(),
            mant == w@.subrange(start as int, k as int),
            mant == b.take(k - start as int),
            b == w@.skip(start as int),
            first_exp_marker(b) == k - start,
            is_float_literal(w@) == (is_special_body(b) || is_plain_number(b)),
            !is_special_body(b),
            dots <= p,
            dots == dot_count(w@.subrange(start as int, p as int)),
            seen_digit == has_ascii_digit(w@.subrange(start as int, p as int)),
            forall|j: int| start <= j < p ==> (is_ascii_digit(#[trigger] w@[j]) || w@[j] == '.'),
        decreases k - p,
    {
        let c = w.get_char(p);
        let ghost pre = w@.subrange(start as int, p as int);
        let ghost post = w@.subrange(start as int, p + 1 as int);
        proof {
            assert(post.drop_last() =~= pre);
            assert(post.last() == w@[p as int]);
        }
        if char_is_digit(c) {
            seen_digit = true;
            proof {
                assert(is_ascii_digit(post[post.len() - 1]));
                assert(has_ascii_digit(post));
            }
        } else if c == '.' {
            dots = dots + 1;
            proof {
                if has_ascii_digit(pre) {
                    let j = choose|j: int| 0 <= j < pre.len() && is_ascii_digit(pre[j]);
                    assert(is_ascii_digit(post[j]));
                    assert(has_ascii_digit(post));
                }
                if has_ascii_digit(post) {
                    let j = choose|j: int| 0 <= j < post.len() && is_ascii_digit(post[j]);
                    assert(j < pre.len() ==> is_ascii_digit(pre[j]) && has_ascii_digit(pre));
                }
            }
        } else {
            proof {
                assert(mant[p - start as int] == w@[p as int]);
                assert(!is_mantissa(mant));
            }
            return None;
        }
        p = p + 1;
    }
    if dots > 1 || !seen_digit {
        proof {
            assert(mant == w@.subrange(start as int, k as int));
            assert(!is_mantissa(mant));
        }
        return None;
    }
    proof {
        assert(is_mantissa(mant)) by {
            assert forall|j: int| 0 <= j < mant.len() implies (is_ascii_digit(#[trigger] mant[j])
                || mant[j] == '.') by {
                assert(mant[j] == w@[start as int + j]);
            }
        }
    }
    // Check the exponent, if a marker was found.
    if k < n {
        let ghost x = b.skip(k - start as int + 1);
        proof {
            assert(x =~= w@.subrange(k + 1, n as int));
        }
        if k + 1 == n {
            return None;
        }
        let e0 = w.get_char(k + 1);
        let e_sign = e0 == '+' || e0 == '-';
        let ds: usize = if e_sign {
            k + 2
        } else {
            k + 1
        };
        proof {
            assert(x[0] == w@[k + 1]);
            if e_sign {
                assert(x.drop_first() =~= w@.subrange(ds as int, n as int));
            } else {
                assert(x =~= w@.subrange(ds as int, n as int));
            }
        }
        if ds == n {
            return None;
        }
        if !scan_digits(w, ds, n) {
            return None;
        }
        proof {
            assert(is_exponent(x));
        }
    }
    proof {
        assert(is_plain_number(b));
        assert(is_signed_number(w@));
        assert(is_float_literal(w@));
    }
    let bits = float_from_decimal(w);
    Some(bits)
}

/// How one word is read: an integer literal if its value fits `i64`, else a
/// float literal, else a bare symbol. Classification never fails.
pub open spec fn spec_classify(w: Seq<char>) -> SpecToken {
    match spec_parse_int(w) {
        Some(i) => SpecToken::Int(i as int),
        None => if is_float_literal(w) {
            SpecToken::Float(float_literal_bits(w))
        } else {
            SpecToken::Symbol(w)
        },
    }
}

fn classify_word(w: &str) -> (t: Token)
    ensures
        t@ == spec_classify(w@),
{
    match parse_int_word(w) {
        Some(i) => Token::Int(i),
        None => match parse_float_word(w) {
            Some(bits) => Token::Float(bits),
            None => Token::Symbol(w.to_owned()),
        },
    }
}

/// The token sequence of a text: skip whitespace, read each parenthesis as
/// a token of its own, and classify every other maximal word.
pub open spec fn spec_tokenize(s: Seq<char>) -> Seq<SpecToken>
    decreases s.len(),
    via spec_tokenize_decreases
{
    if s.len() == 0 {
        Seq::empty()
    } else if is_lisp_ws(s[0]) {
        spec_tokenize(s.drop_first())
    } else if s[0] == '(' {
        seq![SpecToken::OParen] + spec_tokenize(s.drop_first())
    } else if s[0] == ')' {
        seq![SpecToken::CParen] + spec_tokenize(s.drop_first())
    } else {
        seq![spec_classify(s.take(word_len(s) as int))] + spec_tokenize(s.skip(word_len(s) as int))
    }
}

#[via_fn]
proof fn spec_tokenize_decreases(s: Seq<char>) {
    if s.len() > 0 && !is_lisp_ws(s[0]) && s[0] != '(' && s[0] != ')' {
        lemma_word_len_le(s);
    }
}

/// Turn a line of text into its token sequence. Never fails: every word
/// that is no number is a symbol.
pub fn tokenize(s: &str) -> (r: VecDeque<Token>)
    ensures
        view_tokens(r@) == spec_tokenize(s@),
{
    let n = s.unicode_len();
    let mut out: VecDeque<Token> = VecDeque::new();
    let mut i: usize = 0;
    proof {
        assert(s@.skip(0) =~= s@);
        assert(view_tokens(out@) + spec_tokenize(s@.skip(0)) =~= spec_tokenize(s@));
    }
    while i < n
        invariant
            i <= n,
            n == s@.len(),
            spec_tokenize(s@) == view_tokens(out@) + spec_tokenize(s@.skip(i as int)),
        decreases n - i,
    {
        let ghost rest = s@.skip(i as int);
        proof {
            assert(rest[0] == s@[i as int]);
            assert(rest.drop_first() =~= s@.skip(i + 1));
        }
        let c = s.get_char(i);
        if char_is_ws(c) {
            i = i + 1;
        } else if c == '(' {
            out.push_back(Token::OParen);
            proof {
                assert(view_tokens(out@) =~= view_tokens(out@.drop_last()).push(
                    SpecToken::OParen,
                ));
                assert(view_tokens(out@) + spec_tokenize(s@.skip(i + 1)) =~= view_tokens(
                    out@.drop_last(),
                ) + spec_tokenize(rest));
            }
            i = i + 1;
        } else if c == ')' {
            out.push_back(Token::CParen);
            proof {
                assert(view_tokens(out@) =~= view_tokens(out@.drop_last()).push(
                    SpecToken::CParen,
                ));
                assert(view_tokens(out@) + spec_tokenize(s@.skip(i + 1)) =~= view_tokens(
                    out@.drop_last(),
                ) + spec_tokenize(rest));
            }
            i = i + 1;
        } else {
            let mut j: usize = i + 1;
            while j < n && !char_is_delim(s.get_char(j))
                invariant
                    i < j <= n,
                    n == s@.len(),
                    forall|t: int| i < t < j ==> !is_delim(#[trigger] s@[t]),
                decreases n - j,
            {
                j = j + 1;
            }
            proof {
                assert(!is_delim(s@[i as int]));
                assert forall|t: int| 0 <= t < j - i implies !is_delim(#[trigger] rest[t]) by {
                    assert(rest[t] == s@[i + t]);
                }
                if j < n {
                    assert(rest[j - i as int] == s@[j as int]);
                }
                lemma_word_len_at(rest, j - i as int);
                assert(rest.take(j - i as int) =~= s@.subrange(i as int, j as int));
                assert(rest.skip(j - i as int) =~= s@.skip(j as int));
            }
            let w = s.substring_char(i, j);
            let t = classify_word(w);
            proof {
                assert(t@ == spec_classify(rest.take(j - i as int)));
            }
            out.push_back(t);
            proof {
                assert(view_tokens(out@) =~= view_tokens(out@.drop_last()).push(t@));
                assert(view_tokens(out@) + spec_tokenize(s@.skip(j as int)) =~= view_tokens(
                    out@.drop_last(),
                ) + spec_tokenize(rest));
            }
            i = j;
        }
    }
    proof {
        assert(s@.skip(n as int) =~= Seq::<char>::empty());
        assert(view_tokens(out@) + spec_tokenize(s@.skip(n as int)) =~= view_tokens(out@));
    }
    out
}

} // verus!
