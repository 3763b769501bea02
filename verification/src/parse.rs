//! The coefficient parser.
//!
//! A raw input line is normalized (every comma becomes a period, so both
//! decimal separators are accepted), split on whitespace into tokens, and
//! matched against the fixed token grammar
//! `ax^2 +/- bx +/- c = 0` (seven tokens) or `ax^2 +/- t = 0` (five tokens,
//! where `t` is a linear term if it contains `x`, else a constant term).
//!
//! Every step is specified over `Seq<u8>` by the spec functions below;
//! `parse_equation` is proved to return exactly `spec_parse` of its input.
//!
//! Model limit: a coefficient is written in plain decimal notation — an
//! optional sign, digits, at most one decimal point — with at most nine
//! significant digits and nine digits after the point, the precision the
//! exact integer arithmetic of the solver carries. Exponent notation
//! (`1e2`), `inf` and `NaN` are not part of the grammar: such a token draws
//! the invalid-coefficient error for its position. Whitespace is the ASCII
//! set.

use crate::equation::Equation;
use crate::num::{Dec, MANT_LIMIT, SCALE_LIMIT};
use vstd::prelude::*;

verus! {

/// `+` as a byte.
pub const B_PLUS: u8 = 43;

/// `,` as a byte.
pub const B_COMMA: u8 = 44;

/// `-` as a byte.
pub const B_MINUS: u8 = 45;

/// `.` as a byte.
pub const B_DOT: u8 = 46;

/// `2` as a byte.
pub const B_TWO: u8 = 50;

/// `^` as a byte.
pub const B_CARET: u8 = 94;

/// `x` as a byte.
pub const B_X: u8 = 120;

/// ASCII whitespace: what the line is split on.
pub open spec fn is_ws(b: u8) -> bool {
    b == 32 || b == 9 || b == 10 || b == 11 || b == 12 || b == 13
}

/// ASCII decimal digit.
pub open spec fn is_digit(b: u8) -> bool {
    48 <= b <= 57
}

/// Decimal-separator normalization: every comma becomes a period.
pub open spec fn normalize(s: Seq<u8>) -> Seq<u8> {
    s.map_values(|b: u8| if b == B_COMMA { B_DOT } else { b })
}

/// Length of the leading run of non-whitespace bytes.
pub open spec fn token_len(s: Seq<u8>) -> nat
    decreases s.len(),
{
    if s.len() == 0 || is_ws(s[0]) {
        0
    } else {
        1 + token_len(s.skip(1))
    }
}

pub proof fn lemma_token_len_le(s: Seq<u8>)
    ensures
        token_len(s) <= s.len(),
    decreases s.len(),
{
    if s.len() != 0 && !is_ws(s[0]) {
        lemma_token_len_le(s.skip(1));
    }
}

/// `token_len` is pinned by its first-run characterization: if the first `k`
/// bytes are non-whitespace and byte `k` (if any) is whitespace, the leading
/// run has length `k`.
pub proof fn lemma_token_len_is(s: Seq<u8>, k: int)
    requires
        0 <= k <= s.len(),
        forall|m: int| 0 <= m < k ==> !is_ws(#[trigger] s[m]),
        k == s.len() || is_ws(s[k]),
    ensures
        token_len(s) == k,
    decreases k,
{
    if k == 0 {
    } else {
        assert(!is_ws(s[0]));
        lemma_token_len_is(s.skip(1), k - 1);
    }
}

/// The whitespace-separated tokens of `s`, in order.
pub open spec fn tokenize(s: Seq<u8>) -> Seq<Seq<u8>>
    decreases s.len(),
    via tokenize_dec
{
    if s.len() == 0 {
        Seq::empty()
    } else if is_ws(s[0]) {
        tokenize(s.skip(1))
    } else {
        seq![s.take(token_len(s) as int)] + tokenize(s.skip(token_len(s) as int))
    }
}

#[via_fn]
proof fn tokenize_dec(s: Seq<u8>) {
    if s.len() != 0 && !is_ws(s[0]) {
        lemma_token_len_le(s);
    }
}

/// Comma-to-period normalization of the line.
fn normalize_line(s: &[u8]) -> (r: Vec<u8>)
    ensures
        r@ == normalize(s@),
{
    let mut r: Vec<u8> = Vec::new();
    let mut i: usize = 0;
    while i < s.len()
        invariant
            0 <= i <= s@.len(),
            r@ == normalize(s@.take(i as int)),
        decreases s@.len() - i,
    {
        let b = s[i];
        r.push(if b == B_COMMA {
            B_DOT
        } else {
            b
        });
        proof {
            assert(s@.take(i + 1).map_values(|b: u8| if b == B_COMMA {
                B_DOT
            } else {
                b
            }) =~= s@.take(i as int).map_values(|b: u8| if b == B_COMMA {
                B_DOT
            } else {
                b
            }).push(if s@[i as int] == B_COMMA {
                B_DOT
            } else {
                s@[i as int]
            }));
        }
        i = i + 1;
    }
    proof {
        assert(s@.take(s@.len() as int) =~= s@);
    }
    r
}

/// The views of a list of tokens.
pub open spec fn views(ts: Seq<Vec<u8>>) -> Seq<Seq<u8>> {
    ts.map_values(|t: Vec<u8>| t@)
}

/// Split on whitespace.
fn tokenize_line(s: &[u8]) -> (r: Vec<Vec<u8>>)
    ensures
        views(r@) == tokenize(s@),
{
    let mut r: Vec<Vec<u8>> = Vec::new();
    let mut i: usize = 0;
    proof {
        assert(s@.skip(0) =~= s@);
        assert(views(r@) + tokenize(s@) =~= tokenize(s@));
    }
    while i < s.len()
        invariant
            0 <= i <= s@.len(),
            tokenize(s@) == views(r@) + tokenize(s@.skip(i as int)),
        decreases s@.len() - i,
    {
        if is_ws_exec(s[i]) {
            proof {
                assert(s@.skip(i as int).skip(1) =~= s@.skip(i + 1));
            }
            i = i + 1;
        } else {
            let start = i;
            let mut tok: Vec<u8> = Vec::new();
            let mut j = i;
            while j < s.len() && !is_ws_exec(s[j])
                invariant
                    0 <= start <= j <= s@.len(),
                    start < s@.len(),
                    !is_ws(s@[start as int]),
                    tok@ == s@.subrange(start as int, j as int),
                    forall|m: int| start <= m < j ==> !is_ws(#[trigger] s@[m]),
                decreases s@.len() - j,
            {
                tok.push(s[j]);
                proof {
                    assert(s@.subrange(start as int, j + 1) =~= s@.subrange(
                        start as int,
                        j as int,
                    ).push(s@[j as int]));
                }
                j = j + 1;
            }
            proof {
                let rest = s@.skip(start as int);
                assert forall|m: int| 0 <= m < j - start implies !is_ws(#[trigger] rest[m]) by {
                    assert(rest[m] == s@[start + m]);
                }
                if j < s@.len() {
                    assert(is_ws(rest[j - start]));
                }
                lemma_token_len_is(rest, j - start);
                assert(rest.take(j - start) =~= s@.subrange(start as int, j as int));
                assert(rest.skip(j - start) =~= s@.skip(j as int));
                assert(tokenize(rest) == seq![tok@] + tokenize(s@.skip(j as int)));
                assert(views(r@.push(tok)) =~= views(r@) + seq![tok@]);
                assert(views(r@) + (seq![tok@] + tokenize(s@.skip(j as int))) =~= (views(r@)
                    + seq![tok@]) + tokenize(s@.skip(j as int)));
            }
            r.push(tok);
            i = j;
        }
    }
    proof {
        assert(tokenize(s@.skip(s@.len() as int)) =~= Seq::<Seq<u8>>::empty());
        assert(views(r@) + Seq::<Seq<u8>>::empty() =~= views(r@));
    }
    r
}

/// Index where an optional leading `+` or `-` sign ends.
pub open spec fn sign_skip(s: Seq<u8>) -> int {
    if s.len() > 0 && (s[0] == B_PLUS || s[0] == B_MINUS) {
        1
    } else {
        0
    }
}

/// The digits-and-point part of a numeric token, after the optional sign.
pub open spec fn body_of(s: Seq<u8>) -> Seq<u8> {
    s.skip(sign_skip(s))
}

/// Whether the token carries its own leading minus sign.
pub open spec fn num_neg(s: Seq<u8>) -> bool {
    s.len() > 0 && s[0] == B_MINUS
}

/// Number of decimal digits in `s`.
pub open spec fn digit_count(s: Seq<u8>) -> nat
    decreases s.len(),
{
    if s.len() == 0 {
        0
    } else {
        digit_count(s.drop_last()) + if is_digit(s.last()) {
            1nat
        } else {
            0nat
        }
    }
}

/// Number of periods in `s`.
pub open spec fn dot_count(s: Seq<u8>) -> nat
    decreases s.len(),
{
    if s.len() == 0 {
        0
    } else {
        dot_count(s.drop_last()) + if s.last() == B_DOT {
            1nat
        } else {
            0nat
        }
    }
}

/// The integer made of all the digits of `s` read left to right, ignoring a
/// decimal point: the mantissa of the number `s` spells.
pub open spec fn mant_of(s: Seq<u8>) -> nat
    decreases s.len(),
{
    if s.len() == 0 {
        0
    } else if is_digit(s.last()) {
        (mant_of(s.drop_last()) * 10 + (s.last() - 48)) as nat
    } else {
        mant_of(s.drop_last())
    }
}

/// Index of the first occurrence of `b` in `s`, or `-1`.
pub open spec fn first_byte(s: Seq<u8>, b: u8) -> int
    decreases s.len(),
{
    if s.len() == 0 {
        -1
    } else if s[0] == b {
        0
    } else if first_byte(s.skip(1), b) < 0 {
        -1
    } else {
        first_byte(s.skip(1), b) + 1
    }
}

pub proof fn lemma_first_byte_found(s: Seq<u8>, b: u8, k: int)
    requires
        0 <= k < s.len(),
        s[k] == b,
        forall|m: int| 0 <= m < k ==> s[m] != b,
    ensures
        first_byte(s, b) == k,
    decreases k,
{
    if k > 0 {
        lemma_first_byte_found(s.skip(1), b, k - 1);
    }
}

pub proof fn lemma_first_byte_none(s: Seq<u8>, b: u8)
    requires
        forall|m: int| 0 <= m < s.len() ==> s[m] != b,
    ensures
        first_byte(s, b) == -1,
    decreases s.len(),
{
    if s.len() > 0 {
        lemma_first_byte_none(s.skip(1), b);
    }
}

/// Number of digits after the decimal point: the scale of the number `s`
/// spells. Zero when there is no point.
pub open spec fn scale_of(s: Seq<u8>) -> nat {
    if first_byte(s, B_DOT) < 0 {
        0
    } else {
        (s.len() - 1 - first_byte(s, B_DOT)) as nat
    }
}

/// Whether a token is a numeric coefficient the parser accepts: an optional
/// sign, then at least one digit and at most one decimal point and nothing
/// else, with at most nine significant digits and at most nine digits after
/// the point (the precision the exact arithmetic carries). This is plain
/// decimal notation only — no exponent forms, no infinities, no `NaN`.
pub open spec fn num_ok(s: Seq<u8>) -> bool {
    let d = body_of(s);
    &&& d.len() > 0
    &&& (forall|m: int| 0 <= m < d.len() ==> is_digit(#[trigger] d[m]) || d[m] == B_DOT)
    &&& dot_count(d) <= 1
    &&& digit_count(d) >= 1
    &&& mant_of(d) < MANT_LIMIT as nat
    &&& scale_of(d) <= SCALE_LIMIT as nat
}

/// The exact decimal a numeric token spells.
pub open spec fn num_dec(s: Seq<u8>) -> Dec {
    let d = body_of(s);
    Dec { neg: num_neg(s), mant: mant_of(d) as u64, scale: scale_of(d) as u32 }
}

/// A numeric token combined with the separate sign token before it: a `-`
/// sign token flips the sign the token itself carries.
pub open spec fn folded(sign_neg: bool, s: Seq<u8>) -> Dec {
    let d = num_dec(s);
    Dec { neg: sign_neg != d.neg, mant: d.mant, scale: d.scale }
}

/// Parse one numeric token into the exact decimal it spells; `None` exactly
/// on the tokens `num_ok` refuses.
fn parse_num(t: &[u8]) -> (r: Option<Dec>)
    ensures
        r == if num_ok(t@) {
            Some(num_dec(t@))
        } else {
            None::<Dec>
        },
{
    let n = t.len();
    let mut i: usize = 0;
    let mut neg = false;
    if n > 0 && (t[0] == B_PLUS || t[0] == B_MINUS) {
        neg = t[0] == B_MINUS;
        i = 1;
    }
    proof {
        assert(i == sign_skip(t@));
        assert(neg == num_neg(t@));
    }
    if i == n {
        return None;
    }
    let ghost d = body_of(t@);
    let mut bad = false;
    let mut dots: usize = 0;
    let mut dot_pos: usize = 0;
    let mut digits: usize = 0;
    let mut mant: u64 = 0;
    let mut j = i;
    proof {
        assert(d.take(0) =~= Seq::<u8>::empty());
    }
    while j < n
        invariant
            i <= j <= n == t@.len(),
            i == sign_skip(t@),
            d == body_of(t@),
            d.len() == n - i,
            forall|m: int| 0 <= m < d.len() ==> d[m] == t@[i + m],
            dots <= j - i,
            digits <= j - i,
            (!bad) <==> (forall|m: int|
                0 <= m < j - i ==> is_digit(#[trigger] d[m]) || d[m] == B_DOT),
            dots == dot_count(d.take(j - i)),
            digits == digit_count(d.take(j - i)),
            dots > 0 ==> i <= dot_pos < j && d[dot_pos - i] == B_DOT && (forall|m: int|
                0 <= m < dot_pos - i ==> d[m] != B_DOT),
            dots == 0 ==> (forall|m: int| 0 <= m < j - i ==> d[m] != B_DOT),
            mant <= MANT_LIMIT,
            mant == if mant_of(d.take(j - i)) >= MANT_LIMIT as nat {
                MANT_LIMIT as nat
            } else {
                mant_of(d.take(j - i))
            },
        decreases n - j,
    {
        let b = t[j];
        proof {
            assert(d.take(j + 1 - i).drop_last() =~= d.take(j - i));
            assert(d.take(j + 1 - i).last() == b);
        }
        if 48 <= b && b <= 57 {
            digits = digits + 1;
            let dv = (b - 48) as u64;
            let new = mant * 10 + dv;
            mant = if new > MANT_LIMIT - 1 {
                MANT_LIMIT
            } else {
                new
            };
        } else if b == B_DOT {
            if dots == 0 {
                dot_pos = j;
            }
            dots = dots + 1;
        } else {
            bad = true;
        }
        j = j + 1;
    }
    proof {
        assert(d.take(j - i) =~= d);
    }
    if bad {
        return None;
    }
    if digits == 0 {
        return None;
    }
    if dots > 1 {
        return None;
    }
    if mant >= MANT_LIMIT {
        return None;
    }
    proof {
        if dots == 0 {
            lemma_first_byte_none(d, B_DOT);
        } else {
            lemma_first_byte_found(d, B_DOT, dot_pos - i);
        }
    }
    let scale_abs: usize = if dots == 0 {
        0
    } else {
        n - 1 - dot_pos
    };
    if scale_abs > 9 {
        return None;
    }
    Some(Dec { neg, mant, scale: scale_abs as u32 })
}

/// Whether the three bytes `x^2` stand at index `i` of `s`.
pub open spec fn x2_at(s: Seq<u8>, i: int) -> bool {
    0 <= i && i + 3 <= s.len() && s[i] == B_X && s[i + 1] == B_CARET && s[i + 2] == B_TWO
}

/// Index of the first occurrence of `x^2` in `s`, or `-1`.
pub open spec fn first_x2(s: Seq<u8>) -> int
    decreases s.len(),
{
    if s.len() < 3 {
        -1
    } else if x2_at(s, 0) {
        0
    } else if first_x2(s.skip(1)) < 0 {
        -1
    } else {
        first_x2(s.skip(1)) + 1
    }
}

pub proof fn lemma_first_x2_found(s: Seq<u8>, k: int)
    requires
        x2_at(s, k),
        forall|m: int| 0 <= m < k ==> !x2_at(s, m),
    ensures
        first_x2(s) == k,
    decreases k,
{
    if k > 0 {
        assert forall|m: int| 0 <= m < k - 1 implies !x2_at(s.skip(1), m) by {
            if x2_at(s.skip(1), m) {
                assert(x2_at(s, m + 1));
            }
        }
        assert(x2_at(s.skip(1), k - 1));
        lemma_first_x2_found(s.skip(1), k - 1);
    }
}

pub proof fn lemma_first_x2_none(s: Seq<u8>)
    requires
        forall|m: int| !x2_at(s, m),
    ensures
        first_x2(s) == -1,
    decreases s.len(),
{
    if s.len() >= 3 {
        assert forall|m: int| !x2_at(s.skip(1), m) by {
            if x2_at(s.skip(1), m) {
                assert(x2_at(s, m + 1));
            }
        }
        lemma_first_x2_none(s.skip(1));
    }
}

/// Position of the first `x^2` in the token, if any.
fn find_x2(t: &[u8]) -> (r: Option<usize>)
    ensures
        match r {
            Some(k) => first_x2(t@) == k && k + 3 <= t@.len(),
            None => first_x2(t@) < 0,
        },
{
    let n = t.len();
    if n >= 3 {
        let mut i: usize = 0;
        while i <= n - 3
            invariant
                3 <= n == t@.len(),
                0 <= i <= n - 2,
                forall|m: int| 0 <= m < i ==> !x2_at(t@, m),
            decreases n - i,
        {
            if t[i] == B_X && t[i + 1] == B_CARET && t[i + 2] == B_TWO {
                proof {
                    lemma_first_x2_found(t@, i as int);
                }
                return Some(i);
            }
            proof {
                assert(!x2_at(t@, i as int));
            }
            i = i + 1;
        }
    }
    proof {
        assert forall|m: int| !x2_at(t@, m) by {
            if x2_at(t@, m) {
                assert(0 <= m && m + 3 <= t@.len());
            }
        }
        lemma_first_x2_none(t@);
    }
    None
}

/// Position of the first occurrence of `b` in the token, if any.
fn find_byte(t: &[u8], b: u8) -> (r: Option<usize>)
    ensures
        match r {
            Some(k) => first_byte(t@, b) == k && k < t@.len(),
            None => first_byte(t@, b) < 0,
        },
{
    let n = t.len();
    let mut i: usize = 0;
    while i < n
        invariant
            0 <= i <= n == t@.len(),
            forall|m: int| 0 <= m < i ==> t@[m] != b,
        decreases n - i,
    {
        if t[i] == b {
            proof {
                lemma_first_byte_found(t@, b, i as int);
            }
            return Some(i);
        }
        i = i + 1;
    }
    proof {
        lemma_first_byte_none(t@, b);
    }
    None
}

/// Copy of the first `k` bytes of the token.
fn prefix_of(t: &[u8], k: usize) -> (r: Vec<u8>)
    requires
        k <= t@.len(),
    ensures
        r@ == t@.take(k as int),
{
    let mut r: Vec<u8> = Vec::new();
    let mut i: usize = 0;
    while i < k
        invariant
            0 <= i <= k <= t@.len(),
            r@ == t@.take(i as int),
        decreases k - i,
    {
        r.push(t[i]);
        proof {
            assert(t@.take(i + 1) =~= t@.take(i as int).push(t@[i as int]));
        }
        i = i + 1;
    }
    r
}

/// Which coefficient a parse error names.
#[derive(Clone, Copy, Debug, PartialEq, Eq, Structural)]
pub enum Coef {
    A,
    B,
    C,
}

/// The closed set of parse failures.
///
/// `WrongTokenCount`: the line does not split into exactly five or seven
/// tokens. `MissingQuadraticMarker`: the first token holds no `x^2`.
/// `InvalidCoefficient`: the named coefficient is not an accepted number.
/// `MissingLinearMarker`: in the seven-token form the linear term holds no
/// `x`.
#[derive(Clone, Copy, Debug, PartialEq, Eq, Structural)]
pub enum ParseError {
    WrongTokenCount,
    MissingQuadraticMarker,
    InvalidCoefficient(Coef),
    MissingLinearMarker,
}

/// The zero coefficient: what `b` or `c` defaults to in the five-token form.
pub open spec fn dec_zero() -> Dec {
    Dec { neg: false, mant: 0, scale: 0 }
}

/// The `a` coefficient read from the first token: the part before `x^2`,
/// with `-` and the empty prefix special-cased to minus one and one.
pub open spec fn spec_coef_a(t0: Seq<u8>) -> Result<Dec, ParseError> {
    let k = first_x2(t0);
    if k < 0 {
        Err(ParseError::MissingQuadraticMarker)
    } else {
        let pre = t0.take(k);
        if pre == seq![B_MINUS] {
            Ok(Dec { neg: true, mant: 1, scale: 0 })
        } else if pre.len() == 0 {
            Ok(Dec { neg: false, mant: 1, scale: 0 })
        } else if num_ok(pre) {
            Ok(num_dec(pre))
        } else {
            Err(ParseError::InvalidCoefficient(Coef::A))
        }
    }
}

/// The `b` coefficient: the part of the term token before its first `x`,
/// with the sign token before it folded in.
pub open spec fn spec_coef_b(sign: Seq<u8>, tv: Seq<u8>) -> Result<Dec, ParseError> {
    let pre = tv.take(first_byte(tv, B_X));
    if num_ok(pre) {
        Ok(folded(sign == seq![B_MINUS], pre))
    } else {
        Err(ParseError::InvalidCoefficient(Coef::B))
    }
}

/// The `c` coefficient: the whole term token, with the sign token before it
/// folded in.
pub open spec fn spec_coef_c(sign: Seq<u8>, tv: Seq<u8>) -> Result<Dec, ParseError> {
    if num_ok(tv) {
        Ok(folded(sign == seq![B_MINUS], tv))
    } else {
        Err(ParseError::InvalidCoefficient(Coef::C))
    }
}

/// The whole grammar over the token list.
///
/// Seven tokens: `ax^2 SIGN bx SIGN c = 0` — positions 0 to 4 carry the
/// coefficients and signs, the trailing two tokens are ignored. Five tokens:
/// `ax^2 SIGN t = 0`, where `t` is the `b` term if it contains `x`, else the
/// `c` term. Errors are discovered in token order: count, then `a`, then the
/// middle term, then `c`.
pub open spec fn spec_parse_tokens(ts: Seq<Seq<u8>>) -> Result<Equation, ParseError> {
    if ts.len() != 7 && ts.len() != 5 {
        Err(ParseError::WrongTokenCount)
    } else {
        match spec_coef_a(ts[0]) {
            Err(e) => Err(e),
            Ok(a) => if ts.len() == 7 {
                if first_byte(ts[2], B_X) < 0 {
                    Err(ParseError::MissingLinearMarker)
                } else {
                    match spec_coef_b(ts[1], ts[2]) {
                        Err(e) => Err(e),
                        Ok(b) => match spec_coef_c(ts[3], ts[4]) {
                            Err(e) => Err(e),
                            Ok(c) => Ok(Equation { a, b, c }),
                        },
                    }
                }
            } else {
                if first_byte(ts[2], B_X) >= 0 {
                    match spec_coef_b(ts[1], ts[2]) {
                        Err(e) => Err(e),
                        Ok(b) => Ok(Equation { a, b, c: dec_zero() }),
                    }
                } else {
                    match spec_coef_c(ts[1], ts[2]) {
                        Err(e) => Err(e),
                        Ok(c) => Ok(Equation { a, b: dec_zero(), c }),
                    }
                }
            },
        }
    }
}

/// What parsing a raw line means: normalize the decimal separators, split on
/// whitespace, match the token grammar.
pub open spec fn spec_parse(line: Seq<u8>) -> Result<Equation, ParseError> {
    spec_parse_tokens(tokenize(normalize(line)))
}

/// Every byte of an accepted numeric token is a digit, a period, or a sign.
pub proof fn lemma_num_bytes(s: Seq<u8>)
    requires
        num_ok(s),
    ensures
        forall|m: int|
            0 <= m < s.len() ==> (is_digit(#[trigger] s[m]) || s[m] == B_DOT || s[m] == B_PLUS
                || s[m] == B_MINUS),
{
    let d = body_of(s);
    assert forall|m: int|
        0 <= m < s.len() implies (is_digit(#[trigger] s[m]) || s[m] == B_DOT || s[m] == B_PLUS
        || s[m] == B_MINUS) by {
        if m >= sign_skip(s) {
            assert(s[m] == d[m - sign_skip(s)]);
        }
    }
}

/// Comma and period decimal separators are interchangeable: a line parses
/// exactly as its normalized form does, whichever separators it wrote.
pub proof fn lemma_separator_insensitive(line: Seq<u8>)
    ensures
        spec_parse(line) == spec_parse(normalize(line)),
{
    assert(normalize(normalize(line)) =~= normalize(line));
}

/// A token of the shape `<numeric prefix>x^2` yields exactly that prefix as
/// the `a` coefficient.
proof fn lemma_coef_a_from_token(t0: Seq<u8>, apre: Seq<u8>)
    requires
        t0 == apre + seq![B_X, B_CARET, B_TWO],
        num_ok(apre),
    ensures
        spec_coef_a(t0) == Ok::<Dec, ParseError>(num_dec(apre)),
{
    lemma_num_bytes(apre);
    assert(x2_at(t0, apre.len() as int));
    assert forall|m: int| 0 <= m < apre.len() implies !x2_at(t0, m) by {
        if x2_at(t0, m) {
            assert(t0[m] == apre[m]);
        }
    }
    lemma_first_x2_found(t0, apre.len() as int);
    assert(t0.take(apre.len() as int) =~= apre);
    if apre == seq![B_MINUS] {
        assert(body_of(apre).len() == 0);
    }
}

/// A term token of the shape `<numeric prefix>x` carries its `x` right after
/// the prefix, and yields the prefix with the sign token folded in.
proof fn lemma_coef_b_from_token(sign: Seq<u8>, t2: Seq<u8>, bpre: Seq<u8>)
    requires
        t2 == bpre + seq![B_X],
        num_ok(bpre),
    ensures
        first_byte(t2, B_X) >= 0,
        spec_coef_b(sign, t2) == Ok::<Dec, ParseError>(folded(sign == seq![B_MINUS], bpre)),
{
    lemma_num_bytes(bpre);
    assert(t2[bpre.len() as int] == B_X);
    assert forall|m: int| 0 <= m < bpre.len() implies t2[m] != B_X by {
        assert(t2[m] == bpre[m]);
    }
    lemma_first_byte_found(t2, B_X, bpre.len() as int);
    assert(t2.take(bpre.len() as int) =~= bpre);
}

/// A sign token that is either `-` or `+` compares equal to `-` exactly when
/// it was the minus token.
proof fn lemma_sign_token(s: Seq<u8>, neg: bool)
    requires
        s == if neg {
            seq![B_MINUS]
        } else {
            seq![B_PLUS]
        },
    ensures
        (s == seq![B_MINUS]) == neg,
{
    if !neg && s == seq![B_MINUS] {
        assert(seq![B_PLUS][0] == seq![B_MINUS][0]);
    }
}

/// Parsing the full seven-token form `ax^2 SIGN bx SIGN c = 0` with numeric
/// coefficient tokens succeeds, and the parsed triple is exactly the written
/// coefficients with each sign token folded into the value that follows it.
pub proof fn lemma_parse_full_quadratic(
    line: Seq<u8>,
    apre: Seq<u8>,
    sb_neg: bool,
    bpre: Seq<u8>,
    sc_neg: bool,
    ctok: Seq<u8>,
)
    requires
        ({
            let ts = tokenize(normalize(line));
            &&& ts.len() == 7
            &&& ts[0] == apre + seq![B_X, B_CARET, B_TWO]
            &&& num_ok(apre)
            &&& ts[1] == if sb_neg {
                seq![B_MINUS]
            } else {
                seq![B_PLUS]
            }
            &&& ts[2] == bpre + seq![B_X]
            &&& num_ok(bpre)
            &&& ts[3] == if sc_neg {
                seq![B_MINUS]
            } else {
                seq![B_PLUS]
            }
            &&& ts[4] == ctok
            &&& num_ok(ctok)
        }),
    ensures
        spec_parse(line) == Ok::<Equation, ParseError>(
            Equation { a: num_dec(apre), b: folded(sb_neg, bpre), c: folded(sc_neg, ctok) },
        ),
{
    let ts = tokenize(normalize(line));
    lemma_coef_a_from_token(ts[0], apre);
    lemma_sign_token(ts[1], sb_neg);
    lemma_coef_b_from_token(ts[1], ts[2], bpre);
    lemma_sign_token(ts[3], sc_neg);
    assert(spec_coef_c(ts[3], ts[4]) == Ok::<Dec, ParseError>(folded(sc_neg, ctok)));
}

/// Parsing the five-token form whose middle term is linear (`ax^2 SIGN bx
/// = 0`) succeeds, with `b` read from the term and `c` defaulting to zero.
pub proof fn lemma_parse_linear_term(line: Seq<u8>, apre: Seq<u8>, sb_neg: bool, bpre: Seq<u8>)
    requires
        ({
            let ts = tokenize(normalize(line));
            &&& ts.len() == 5
            &&& ts[0] == apre + seq![B_X, B_CARET, B_TWO]
            &&& num_ok(apre)
            &&& ts[1] == if sb_neg {
                seq![B_MINUS]
            } else {
                seq![B_PLUS]
            }
            &&& ts[2] == bpre + seq![B_X]
            &&& num_ok(bpre)
        }),
    ensures
        spec_parse(line) == Ok::<Equation, ParseError>(
            Equation { a: num_dec(apre), b: folded(sb_neg, bpre), c: dec_zero() },
        ),
{
    let ts = tokenize(normalize(line));
    lemma_coef_a_from_token(ts[0], apre);
    lemma_sign_token(ts[1], sb_neg);
    lemma_coef_b_from_token(ts[1], ts[2], bpre);
}

/// Parsing the five-token form whose middle term is a constant (`ax^2 SIGN c
/// = 0`) succeeds, with `c` read from the term and `b` defaulting to zero.
pub proof fn lemma_parse_constant_term(line: Seq<u8>, apre: Seq<u8>, sc_neg: bool, ctok: Seq<u8>)
    requires
        ({
            let ts = tokenize(normalize(line));
            &&& ts.len() == 5
            &&& ts[0] == apre + seq![B_X, B_CARET, B_TWO]
            &&& num_ok(apre)
            &&& ts[1] == if sc_neg {
                seq![B_MINUS]
            } else {
                seq![B_PLUS]
            }
            &&& ts[2] == ctok
            &&& num_ok(ctok)
        }),
    ensures
        spec_parse(line) == Ok::<Equation, ParseError>(
            Equation { a: num_dec(apre), b: dec_zero(), c: folded(sc_neg, ctok) },
        ),
{
    let ts = tokenize(normalize(line));
    lemma_coef_a_from_token(ts[0], apre);
    lemma_num_bytes(ctok);
    assert forall|m: int| 0 <= m < ctok.len() implies ctok[m] != B_X by {}
    lemma_first_byte_none(ts[2], B_X);
    lemma_sign_token(ts[1], sc_neg);
    assert(spec_coef_c(ts[1], ts[2]) == Ok::<Dec, ParseError>(folded(sc_neg, ctok)));
}

/// Parse a raw input line into an equation with exact decimal coefficients,
/// or the parse error that precisely names what is wrong with it.
pub fn parse_equation(line: &[u8]) -> (r: Result<Equation, ParseError>)
    ensures
        r == spec_parse(line@),
        match r {
            Ok(eq) => eq.wf(),
            Err(_) => true,
        },
{
    let norm = normalize_line(line);
    let toks = tokenize_line(norm.as_slice());
    let ghost ts = tokenize(normalize(line@));
    proof {
        assert(views(toks@) == ts);
    }
    if !(toks.len() == 7 || toks.len() == 5) {
        return Err(ParseError::WrongTokenCount);
    }
    let seven = toks.len() == 7;
    // coefficient a, from token 0
    let t0 = toks[0].as_slice();
    let k = match find_x2(t0) {
        None => {
            return Err(ParseError::MissingQuadraticMarker);
        },
        Some(k) => k,
    };
    proof {
        assert(t0@ == ts[0]);
        assert(first_x2(ts[0]) == k);
    }
    let apre = prefix_of(t0, k);
    let a = if apre.len() == 1 && apre[0] == B_MINUS {
        proof {
            assert(ts[0].take(k as int) =~= seq![B_MINUS]);
        }
        Dec::unit(true)
    } else if apre.len() == 0 {
        proof {
            assert(!(ts[0].take(k as int) =~= seq![B_MINUS]));
        }
        Dec::unit(false)
    } else {
        proof {
            if ts[0].take(k as int) =~= seq![B_MINUS] {
                assert(apre@.len() == 1 && apre@[0] == B_MINUS);
            }
        }
        match parse_num(apre.as_slice()) {
            None => {
                return Err(ParseError::InvalidCoefficient(Coef::A));
            },
            Some(d) => d,
        }
    };
    // the middle term, token 2, with its sign token 1
    let t2 = toks[2].as_slice();
    let xpos = find_byte(t2, B_X);
    let sign1_neg = {
        let s1 = toks[1].as_slice();
        s1.len() == 1 && s1[0] == B_MINUS
    };
    proof {
        assert(t2@ == ts[2]);
        assert(toks@[1]@ == ts[1]);
        if ts[1] =~= seq![B_MINUS] {
            assert(sign1_neg);
        }
        if sign1_neg {
            assert(ts[1] =~= seq![B_MINUS]);
        }
    }
    if seven {
        let xk = match xpos {
            None => {
                return Err(ParseError::MissingLinearMarker);
            },
            Some(xk) => xk,
        };
        let bpre = prefix_of(t2, xk);
        let b = match parse_num(bpre.as_slice()) {
            None => {
                return Err(ParseError::InvalidCoefficient(Coef::B));
            },
            Some(d) => Dec { neg: sign1_neg != d.neg, mant: d.mant, scale: d.scale },
        };
        // coefficient c, token 4, with its sign token 3
        let sign3_neg = {
            let s3 = toks[3].as_slice();
            s3.len() == 1 && s3[0] == B_MINUS
        };
        proof {
            assert(toks@[3]@ == ts[3]);
            if ts[3] =~= seq![B_MINUS] {
                assert(sign3_neg);
            }
            if sign3_neg {
                assert(ts[3] =~= seq![B_MINUS]);
            }
        }
        let t4 = toks[4].as_slice();
        proof {
            assert(t4@ == ts[4]);
        }
        let c = match parse_num(t4) {
            None => {
                return Err(ParseError::InvalidCoefficient(Coef::C));
            },
            Some(d) => Dec { neg: sign3_neg != d.neg, mant: d.mant, scale: d.scale },
        };
        Ok(Equation { a, b, c })
    } else {
        match xpos {
            Some(xk) => {
                let bpre = prefix_of(t2, xk);
                let b = match parse_num(bpre.as_slice()) {
                    None => {
                        return Err(ParseError::InvalidCoefficient(Coef::B));
                    },
                    Some(d) => Dec { neg: sign1_neg != d.neg, mant: d.mant, scale: d.scale },
                };
                Ok(Equation { a, b, c: Dec::zero() })
            },
            None => {
                let c = match parse_num(t2) {
                    None => {
                        return Err(ParseError::InvalidCoefficient(Coef::C));
                    },
                    Some(d) => Dec { neg: sign1_neg != d.neg, mant: d.mant, scale: d.scale },
                };
                Ok(Equation { a, b: Dec::zero(), c })
            },
        }
    }
}

/// Whitespace test on a byte.
fn is_ws_exec(b: u8) -> (r: bool)
    ensures
        r == is_ws(b),
{
    b == 32 || b == 9 || b == 10 || b == 11 || b == 12 || b == 13
}

} // verus!
