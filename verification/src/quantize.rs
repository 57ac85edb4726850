//! Parsing one comma-separated field as a decimal intensity and quantizing
//! it to a byte.
//!
//! A field is trimmed of surrounding ASCII whitespace and must then read as
//! a floating-point literal: an optional sign, then either one of the words
//! `inf`, `infinity` or `nan` (ignoring ASCII case), or decimal digits with
//! at most one decimal point and at least one digit, optionally followed by
//! an exponent (`e` or `E`, an optional sign, and digits).  The field maps
//! to `255 * value` truncated toward zero and saturated to the byte range:
//! `nan` and every negative value give 0, any value of one or more
//! (including `inf`) gives 255, and a pure fraction `0.d1..dk` gives
//! `floor(255 * 0.d1..dk)`, with an exponent shifting the decimal point
//! along the digit string.
//!
//! The value is computed by exact decimal arithmetic (the carry fold
//! `carry255` is exactly `floor(255 * 0.digits)`), with no rounding and no
//! clamping of in-range values.  On digit strings finer than binary
//! floating point resolves, the exact floor can differ from what rounding
//! through a binary float would give.

use vstd::prelude::*;

verus! {

pub open spec fn is_ascii_space(b: u8) -> bool {
    b == 32 || b == 9 || b == 10 || b == 11 || b == 12 || b == 13
}

pub open spec fn is_dec_digit(b: u8) -> bool {
    48 <= b && b <= 57
}

pub open spec fn digit_val(b: u8) -> int {
    b - 48
}

pub open spec fn all_dec_digits(s: Seq<u8>) -> bool {
    forall|i: int| 0 <= i < s.len() ==> is_dec_digit(#[trigger] s[i])
}

pub open spec fn spec_trim_front(s: Seq<u8>) -> Seq<u8>
    decreases s.len(),
{
    if s.len() > 0 && is_ascii_space(s[0]) {
        spec_trim_front(s.skip(1))
    } else {
        s
    }
}

pub open spec fn spec_trim_back(s: Seq<u8>) -> Seq<u8>
    decreases s.len(),
{
    if s.len() > 0 && is_ascii_space(s.last()) {
        spec_trim_back(s.drop_last())
    } else {
        s
    }
}

pub open spec fn spec_trimmed(s: Seq<u8>) -> Seq<u8> {
    spec_trim_back(spec_trim_front(s))
}

/// Index of the first occurrence of `b` in `s`, or `s.len()` if absent.
pub open spec fn find_byte(s: Seq<u8>, b: u8) -> nat
    decreases s.len(),
{
    if s.len() == 0 {
        0
    } else if s[0] == b {
        0
    } else {
        (1 + find_byte(s.skip(1), b)) as nat
    }
}

/// If no occurrence of `b` lies before `k`, and `k` is either the length of
/// `s` or an occurrence, then `k` is where the first occurrence sits.
pub proof fn lemma_find_byte_is(s: Seq<u8>, b: u8, k: int)
    requires
        0 <= k <= s.len(),
        forall|j: int| 0 <= j < k ==> s[j] != b,
        k == s.len() || s[k] == b,
    ensures
        find_byte(s, b) == k,
    decreases s.len(),
{
    if s.len() == 0 {
    } else if s[0] == b {
        assert(k == 0);
    } else {
        assert(s[0] != b);
        assert(k >= 1);
        assert forall|j: int| 0 <= j < k - 1 implies s.skip(1)[j] != b by {
            assert(s[j + 1] != b);
        }
        assert(k - 1 == s.skip(1).len() || s.skip(1)[k - 1] == b);
        lemma_find_byte_is(s.skip(1), b, k - 1);
    }
}

/// The carry left over after multiplying the digit string `s`, read as the
/// decimal fraction `0.s`, by 255: processing digits from the rightmost one,
/// each step folds `(255 * digit + carry) / 10`.  The result is exactly
/// `floor(255 * 0.s)`.
pub open spec fn carry255(s: Seq<u8>) -> int
    decreases s.len(),
{
    if s.len() == 0 {
        0
    } else {
        (255 * digit_val(s[0]) + carry255(s.skip(1))) / 10
    }
}

/// `c` divided by ten, `k` times over: the carry of a fraction with `k`
/// zeros prepended to its digits.
pub open spec fn div10_iter(c: int, k: int) -> int
    decreases k,
{
    if k <= 0 {
        c
    } else {
        div10_iter(c, k - 1) / 10
    }
}

proof fn lemma_div10_iter_small(c: int, k: int)
    requires
        0 <= c <= 254,
        k >= 3,
    ensures
        div10_iter(c, k) == 0,
    decreases k,
{
    if k == 3 {
        assert(div10_iter(c, 0) == c);
        assert(div10_iter(c, 1) == c / 10);
        assert(div10_iter(c, 2) == (c / 10) / 10);
        assert(div10_iter(c, 3) == ((c / 10) / 10) / 10);
    } else {
        lemma_div10_iter_small(c, k - 1);
    }
}

pub open spec fn has_sign(t: Seq<u8>) -> bool {
    t.len() > 0 && (t[0] == 43 || t[0] == 45)
}

pub open spec fn is_negative(t: Seq<u8>) -> bool {
    t.len() > 0 && t[0] == 45
}

pub open spec fn number_body(t: Seq<u8>) -> Seq<u8> {
    if has_sign(t) {
        t.skip(1)
    } else {
        t
    }
}

/// The byte with an ASCII upper-case letter folded to lower case.
pub open spec fn lower_byte(b: u8) -> u8 {
    if 65 <= b && b <= 90 {
        (b + 32) as u8
    } else {
        b
    }
}

/// Whether `s` spells the (lower-case) word `w` up to ASCII case.
pub open spec fn matches_word(s: Seq<u8>, w: Seq<u8>) -> bool {
    s.len() == w.len() && forall|i: int| 0 <= i < s.len() ==> lower_byte(#[trigger] s[i]) == w[i]
}

/// The bytes of `"inf"`.
pub open spec fn inf_word() -> Seq<u8> {
    seq![105u8, 110u8, 102u8]
}

/// The bytes of `"infinity"`.
pub open spec fn infinity_word() -> Seq<u8> {
    seq![105u8, 110u8, 102u8, 105u8, 110u8, 105u8, 116u8, 121u8]
}

/// The bytes of `"nan"`.
pub open spec fn nan_word() -> Seq<u8> {
    seq![110u8, 97u8, 110u8]
}

pub open spec fn is_inf_word(body: Seq<u8>) -> bool {
    matches_word(body, inf_word()) || matches_word(body, infinity_word())
}

pub open spec fn is_nan_word(body: Seq<u8>) -> bool {
    matches_word(body, nan_word())
}

pub open spec fn is_exp_byte(b: u8) -> bool {
    b == 101 || b == 69
}

/// Index of the first exponent marker (`e` or `E`) in `s`, or `s.len()`.
pub open spec fn find_exp(s: Seq<u8>) -> nat
    decreases s.len(),
{
    if s.len() == 0 {
        0
    } else if is_exp_byte(s[0]) {
        0
    } else {
        (1 + find_exp(s.skip(1))) as nat
    }
}

proof fn lemma_find_exp_is(s: Seq<u8>, k: int)
    requires
        0 <= k <= s.len(),
        forall|j: int| 0 <= j < k ==> !is_exp_byte(s[j]),
        k == s.len() || is_exp_byte(s[k]),
    ensures
        find_exp(s) == k,
    decreases s.len(),
{
    if s.len() == 0 {
    } else if is_exp_byte(s[0]) {
        assert(k == 0);
    } else {
        assert(k >= 1);
        assert forall|j: int| 0 <= j < k - 1 implies !is_exp_byte(s.skip(1)[j]) by {
            assert(s.skip(1)[j] == s[j + 1]);
        }
        assert(k - 1 == s.skip(1).len() || is_exp_byte(s.skip(1)[k - 1]));
        lemma_find_exp_is(s.skip(1), k - 1);
    }
}

/// The significand of the body: everything before the exponent marker.
pub open spec fn mantissa(body: Seq<u8>) -> Seq<u8> {
    body.take(find_exp(body) as int)
}

pub open spec fn has_exp(body: Seq<u8>) -> bool {
    find_exp(body) < body.len()
}

/// The exponent piece of the body: everything after the exponent marker.
pub open spec fn exp_str(body: Seq<u8>) -> Seq<u8> {
    body.skip(find_exp(body) as int + 1)
}

pub open spec fn exp_is_negative(es: Seq<u8>) -> bool {
    es.len() > 0 && es[0] == 45
}

pub open spec fn exp_digits(es: Seq<u8>) -> Seq<u8> {
    if es.len() > 0 && (es[0] == 43 || es[0] == 45) {
        es.skip(1)
    } else {
        es
    }
}

pub open spec fn exp_valid(es: Seq<u8>) -> bool {
    exp_digits(es).len() > 0 && all_dec_digits(exp_digits(es))
}

/// The value of `s` read as decimal digits, most significant first.
pub open spec fn dec_val_bytes(s: Seq<u8>) -> int
    decreases s.len(),
{
    if s.len() == 0 {
        0
    } else {
        dec_val_bytes(s.drop_last()) * 10 + digit_val(s.last())
    }
}

proof fn lemma_dec_val_bytes_nonneg(s: Seq<u8>)
    requires
        all_dec_digits(s),
    ensures
        dec_val_bytes(s) >= 0,
    decreases s.len(),
{
    if s.len() > 0 {
        assert(is_dec_digit(s.last()));
        assert(all_dec_digits(s.drop_last()));
        lemma_dec_val_bytes_nonneg(s.drop_last());
    }
}

pub open spec fn int_digits(body: Seq<u8>) -> Seq<u8> {
    body.take(find_byte(body, 46) as int)
}

pub open spec fn frac_digits(body: Seq<u8>) -> Seq<u8> {
    if find_byte(body, 46) == body.len() {
        Seq::empty()
    } else {
        body.skip(find_byte(body, 46) as int + 1)
    }
}

/// Whether the trimmed field reads as a floating-point literal: a special
/// word, or digits with at most one decimal point, at least one digit, and
/// an optional well-formed exponent.
pub open spec fn is_valid_number(t: Seq<u8>) -> bool {
    let body = number_body(t);
    if is_inf_word(body) || is_nan_word(body) {
        true
    } else {
        let m = mantissa(body);
        &&& all_dec_digits(int_digits(m))
        &&& all_dec_digits(frac_digits(m))
        &&& int_digits(m).len() + frac_digits(m).len() > 0
        &&& (has_exp(body) ==> exp_valid(exp_str(body)))
    }
}

/// The signed exponent the body declares, or zero when it has none.
pub open spec fn signed_exp(body: Seq<u8>) -> int {
    if has_exp(body) {
        let es = exp_str(body);
        if exp_is_negative(es) {
            -dec_val_bytes(exp_digits(es))
        } else {
            dec_val_bytes(exp_digits(es))
        }
    } else {
        0
    }
}

/// Whether any of the first `point` digits (those left of the shifted
/// decimal point) is nonzero.
pub open spec fn has_nonzero_before(digits: Seq<u8>, point: int) -> bool {
    exists|i: int| 0 <= i < point && i < digits.len() && digits[i] != 48
}

/// What one field quantizes to: `None` if it does not read as a number,
/// otherwise `255 * value` truncated toward zero and saturated to a byte.
/// With the mantissa's digits written as one string and the decimal point
/// shifted by the exponent, any nonzero digit left of the point saturates
/// to 255, and otherwise the result is the exact floor of 255 times the
/// remaining fraction.
pub open spec fn spec_quantize(s: Seq<u8>) -> Option<u8> {
    let t = spec_trimmed(s);
    if !is_valid_number(t) {
        None
    } else {
        let body = number_body(t);
        if is_nan_word(body) {
            Some(0)
        } else if is_negative(t) {
            Some(0)
        } else if is_inf_word(body) {
            Some(255)
        } else {
            let m = mantissa(body);
            let digits = int_digits(m) + frac_digits(m);
            let point = int_digits(m).len() + signed_exp(body);
            if has_nonzero_before(digits, point) {
                Some(255)
            } else if point >= digits.len() {
                Some(0)
            } else if point >= 0 {
                Some(carry255(digits.skip(point)) as u8)
            } else {
                Some(div10_iter(carry255(digits), -point) as u8)
            }
        }
    }
}

fn is_space_exec(b: u8) -> (r: bool)
    ensures
        r == is_ascii_space(b),
{
    b == 32 || b == 9 || b == 10 || b == 11 || b == 12 || b == 13
}

fn lower_byte_exec(b: u8) -> (r: u8)
    ensures
        r == lower_byte(b),
{
    if b >= 65 && b <= 90 {
        b + 32
    } else {
        b
    }
}

/// The bounds of the field once surrounding ASCII whitespace is dropped.
#[verifier::loop_isolation(false)]
fn trimmed_bounds(field: &[u8]) -> (r: (usize, usize))
    ensures
        r.0 <= r.1 <= field@.len(),
        field@.subrange(r.0 as int, r.1 as int) == spec_trimmed(field@),
{
    let n = field.len();
    let ghost s = field@;

    let mut lo: usize = 0;
    proof {
        assert(s.skip(0) =~= s);
    }
    while lo < n && is_space_exec(field[lo])
        invariant
            0 <= lo <= n,
            spec_trim_front(s) == spec_trim_front(s.skip(lo as int)),
        decreases n - lo,
    {
        proof {
            assert(s.skip(lo as int)[0] == s[lo as int]);
            assert(s.skip(lo as int).skip(1) =~= s.skip(lo as int + 1));
        }
        lo = lo + 1;
    }
    proof {
        if lo < n {
            assert(!is_ascii_space(s.skip(lo as int)[0]));
        }
        assert(spec_trim_front(s) == s.skip(lo as int));
    }

    let mut hi: usize = n;
    proof {
        assert(s.skip(lo as int) =~= s.subrange(lo as int, n as int));
    }
    while hi > lo && is_space_exec(field[hi - 1])
        invariant
            lo <= hi <= n,
            spec_trim_back(s.subrange(lo as int, n as int)) == spec_trim_back(
                s.subrange(lo as int, hi as int),
            ),
        decreases hi,
    {
        proof {
            let cur = s.subrange(lo as int, hi as int);
            assert(cur.last() == s[hi - 1]);
            assert(cur.drop_last() =~= s.subrange(lo as int, hi as int - 1));
        }
        hi = hi - 1;
    }
    proof {
        let cur = s.subrange(lo as int, hi as int);
        if hi > lo {
            assert(!is_ascii_space(cur.last()));
        }
        assert(spec_trimmed(s) == s.subrange(lo as int, hi as int));
    }
    (lo, hi)
}

/// Whether every byte of `field[a..b]` is a decimal digit.
#[verifier::loop_isolation(false)]
fn digits_in_range(field: &[u8], a: usize, b: usize) -> (r: bool)
    requires
        a <= b <= field@.len(),
    ensures
        r == all_dec_digits(field@.subrange(a as int, b as int)),
{
    let ghost sub = field@.subrange(a as int, b as int);
    let mut k: usize = a;
    while k < b
        invariant
            a <= k <= b,
            forall|j: int| a <= j < k ==> is_dec_digit(#[trigger] field@[j]),
        decreases b - k,
    {
        if !(field[k] >= 48 && field[k] <= 57) {
            proof {
                assert(sub[k - a] == field@[k as int]);
            }
            return false;
        }
        k = k + 1;
    }
    proof {
        assert forall|j: int| 0 <= j < sub.len() implies is_dec_digit(#[trigger] sub[j]) by {
            assert(sub[j] == field@[a + j]);
        }
    }
    true
}

/// Whether `field[bs..hi]` spells one of the special words: `inf` or
/// `infinity` in the first flag, `nan` in the second, ignoring ASCII case.
fn word_flags(field: &[u8], bs: usize, hi: usize) -> (r: (bool, bool))
    requires
        bs <= hi <= field@.len(),
    ensures
        r.0 == is_inf_word(field@.subrange(bs as int, hi as int)),
        r.1 == is_nan_word(field@.subrange(bs as int, hi as int)),
{
    let ghost body = field@.subrange(bs as int, hi as int);
    proof {
        assert forall|i: int| 0 <= i < body.len() implies body[i] == field@[bs + i] by {}
    }
    let blen = hi - bs;
    let w_inf = blen == 3 && lower_byte_exec(field[bs]) == 105 && lower_byte_exec(field[bs + 1])
        == 110 && lower_byte_exec(field[bs + 2]) == 102;
    let w_infinity = blen == 8 && lower_byte_exec(field[bs]) == 105 && lower_byte_exec(
        field[bs + 1],
    ) == 110 && lower_byte_exec(field[bs + 2]) == 102 && lower_byte_exec(field[bs + 3]) == 105
        && lower_byte_exec(field[bs + 4]) == 110 && lower_byte_exec(field[bs + 5]) == 105
        && lower_byte_exec(field[bs + 6]) == 116 && lower_byte_exec(field[bs + 7]) == 121;
    let w_nan = blen == 3 && lower_byte_exec(field[bs]) == 110 && lower_byte_exec(field[bs + 1])
        == 97 && lower_byte_exec(field[bs + 2]) == 110;
    proof {
        assert(w_inf == matches_word(body, inf_word())) by {
            if w_inf {
                assert forall|i: int| 0 <= i < body.len() implies lower_byte(#[trigger] body[i])
                    == inf_word()[i] by {
                    if i == 0 {
                    } else if i == 1 {
                    } else {
                        assert(i == 2);
                    }
                }
            } else {
                if matches_word(body, inf_word()) {
                    assert(lower_byte(body[0]) == 105 && lower_byte(body[1]) == 110 && lower_byte(
                        body[2],
                    ) == 102);
                }
            }
        }
        assert(w_infinity == matches_word(body, infinity_word())) by {
            if w_infinity {
                assert forall|i: int| 0 <= i < body.len() implies lower_byte(#[trigger] body[i])
                    == infinity_word()[i] by {
                    if i == 0 {
                    } else if i == 1 {
                    } else if i == 2 {
                    } else if i == 3 {
                    } else if i == 4 {
                    } else if i == 5 {
                    } else if i == 6 {
                    } else {
                        assert(i == 7);
                    }
                }
            } else {
                if matches_word(body, infinity_word()) {
                    assert(lower_byte(body[0]) == 105 && lower_byte(body[1]) == 110 && lower_byte(
                        body[2],
                    ) == 102 && lower_byte(body[3]) == 105 && lower_byte(body[4]) == 110
                        && lower_byte(body[5]) == 105 && lower_byte(body[6]) == 116 && lower_byte(
                        body[7],
                    ) == 121);
                }
            }
        }
        assert(w_nan == matches_word(body, nan_word())) by {
            if w_nan {
                assert forall|i: int| 0 <= i < body.len() implies lower_byte(#[trigger] body[i])
                    == nan_word()[i] by {
                    if i == 0 {
                    } else if i == 1 {
                    } else {
                        assert(i == 2);
                    }
                }
            } else {
                if matches_word(body, nan_word()) {
                    assert(lower_byte(body[0]) == 110 && lower_byte(body[1]) == 97 && lower_byte(
                        body[2],
                    ) == 110);
                }
            }
        }
    }
    (w_inf || w_infinity, w_nan)
}

/// Exponents at or beyond this value exceed every possible digit count, so
/// a saturated reading selects the same quantization branch as the exact
/// one.
pub const EXP_SAT: u128 = 0x2_0000_0000_0000_0000;

/// Read the exponent piece `field[me+1..hi]`: its sign, and its value
/// saturated at `EXP_SAT`; `None` if it is not a sign and digits.
#[verifier::loop_isolation(false)]
fn parse_exponent(field: &[u8], me: usize, hi: usize) -> (r: Option<(bool, u128)>)
    requires
        me < hi <= field@.len(),
    ensures
        ({
            let es = field@.subrange(me as int + 1, hi as int);
            match r {
                None => !exp_valid(es),
                Some((en, ev)) => exp_valid(es) && en == exp_is_negative(es) && ((ev < EXP_SAT
                    && ev == dec_val_bytes(exp_digits(es))) || (ev == EXP_SAT && dec_val_bytes(
                    exp_digits(es),
                ) >= EXP_SAT)),
            }
        }),
{
    let ghost s = field@;
    let ghost es = s.subrange(me as int + 1, hi as int);
    let mut eneg: bool = false;
    let mut ei: usize = me + 1;
    if ei < hi && (field[ei] == 43 || field[ei] == 45) {
        eneg = field[ei] == 45;
        ei = ei + 1;
    }
    let ghost ed = s.subrange(ei as int, hi as int);
    proof {
        if ei == me + 2 {
            assert(es[0] == s[me + 1]);
            assert(exp_digits(es) =~= ed);
        } else {
            assert(exp_digits(es) =~= ed);
        }
        assert(exp_is_negative(es) == (eneg && es.len() > 0));
    }
    if ei == hi {
        return None;
    }
    proof {
        assert(exp_is_negative(es) == eneg);
        assert(ed.take(0) =~= Seq::<u8>::empty());
    }
    let estart = ei;
    let mut eval: u128 = 0;
    let mut e: usize = estart;
    while e < hi
        invariant
            estart <= e <= hi,
            forall|j: int| estart <= j < e ==> is_dec_digit(#[trigger] s[j]),
            (eval < EXP_SAT && eval == dec_val_bytes(ed.take(e - estart))) || (eval == EXP_SAT
                && dec_val_bytes(ed.take(e - estart)) >= EXP_SAT),
        decreases hi - e,
    {
        proof {
            assert(ed[e - estart] == s[e as int]);
        }
        if !(field[e] >= 48 && field[e] <= 57) {
            return None;
        }
        let d = (field[e] - 48) as u128;
        proof {
            assert(ed.take(e - estart + 1).drop_last() =~= ed.take(e - estart));
            assert(ed.take(e - estart + 1).last() == ed[e - estart]);
        }
        if eval >= EXP_SAT {
            eval = EXP_SAT;
        } else {
            let next = eval * 10 + d;
            if next >= EXP_SAT {
                eval = EXP_SAT;
            } else {
                eval = next;
            }
        }
        e = e + 1;
    }
    proof {
        assert(ed.take(hi - estart) =~= ed);
        assert forall|j: int| 0 <= j < ed.len() implies is_dec_digit(#[trigger] ed[j]) by {
            assert(ed[j] == s[estart + j]);
        }
        assert(exp_valid(es));
    }
    Some((eneg, eval))
}

/// Whether any of the first `upper` digits is nonzero.
#[verifier::loop_isolation(false)]
fn scan_nonzero(digits: &Vec<u8>, upper: usize) -> (r: bool)
    requires
        upper <= digits@.len(),
    ensures
        r == exists|i: int| 0 <= i < upper && #[trigger] digits@[i] != 48,
{
    let mut z: usize = 0;
    while z < upper
        invariant
            0 <= z <= upper,
            forall|j: int| 0 <= j < z ==> digits@[j] == 48,
        decreases upper - z,
    {
        if digits[z] != 48 {
            return true;
        }
        z = z + 1;
    }
    false
}

/// The carry fold over `digits[from..]`, from the rightmost digit.
#[verifier::loop_isolation(false)]
fn carry_of(digits: &Vec<u8>, from: usize) -> (c: u32)
    requires
        from <= digits@.len(),
        all_dec_digits(digits@),
    ensures
        c as int == carry255(digits@.skip(from as int)),
        c <= 254,
{
    let dlen = digits.len();
    let mut c: u32 = 0;
    let mut p: usize = dlen;
    proof {
        assert(digits@.subrange(dlen as int, dlen as int) =~= Seq::<u8>::empty());
    }
    while p > from
        invariant
            from <= p <= dlen,
            c == carry255(digits@.subrange(p as int, dlen as int)),
            c <= 254,
        decreases p,
    {
        p = p - 1;
        proof {
            let sub = digits@.subrange(p as int, dlen as int);
            assert(sub[0] == digits@[p as int]);
            assert(is_dec_digit(digits@[p as int]));
            assert(sub.skip(1) =~= digits@.subrange(p as int + 1, dlen as int));
        }
        c = (255 * ((digits[p] - 48) as u32) + c) / 10;
    }
    proof {
        assert(digits@.subrange(from as int, dlen as int) =~= digits@.skip(from as int));
    }
    c
}

/// Quantize a digit string whose decimal point, starting after the first
/// `ilen` digits, is shifted by the exponent `texp` (encoded by `eneg` and
/// the saturated magnitude `eval`): 255 on any nonzero digit left of the
/// point, else the exact floor of 255 times the remaining fraction.
#[verifier::loop_isolation(false)]
#[verifier::rlimit(60)]
fn quantize_shifted(
    digits: &Vec<u8>,
    ilen: usize,
    eneg: bool,
    eval: u128,
    Ghost(texp): Ghost<int>,
) -> (r: u8)
    requires
        ilen <= digits@.len(),
        all_dec_digits(digits@),
        eval <= EXP_SAT,
        eval < EXP_SAT ==> (if eneg {
            texp == -(eval as int)
        } else {
            texp == eval as int
        }),
        eval == EXP_SAT ==> (if eneg {
            texp <= -(EXP_SAT as int)
        } else {
            texp >= EXP_SAT as int
        }),
    ensures
        ({
            let point = ilen + texp;
            r as int == (if has_nonzero_before(digits@, point) {
                255int
            } else if point >= digits@.len() {
                0int
            } else if point >= 0 {
                carry255(digits@.skip(point))
            } else {
                div10_iter(carry255(digits@), -point)
            })
        }),
{
    let dlen = digits.len();
    let ghost point: int = ilen + texp;

    // How many digits stand left of the shifted point, capped at the digit
    // count, and how far the point moved left of the first digit.
    let upper: usize;
    let shift_down: u128;
    if !eneg {
        if eval >= (dlen - ilen) as u128 {
            upper = dlen;
        } else {
            upper = ilen + (eval as usize);
        }
        shift_down = 0;
    } else {
        if eval <= ilen as u128 {
            upper = ilen - (eval as usize);
            shift_down = 0;
        } else {
            upper = 0;
            shift_down = eval - ilen as u128;
        }
    }
    proof {
        if !eneg {
            if eval == EXP_SAT {
                assert(point >= EXP_SAT > dlen as int);
            }
            assert(shift_down == 0 && point >= 0);
            assert(upper as int == if point >= dlen as int {
                dlen as int
            } else {
                point
            });
        } else {
            if eval < EXP_SAT {
                if eval <= ilen as u128 {
                    assert(upper as int == point && point >= 0 && shift_down == 0);
                } else {
                    assert(point < 0 && upper == 0 && shift_down as int == -point);
                }
            } else {
                assert(point <= ilen - EXP_SAT);
                assert(point < -3);
                assert(upper == 0 && shift_down as int >= 3);
            }
        }
    }

    // Any nonzero digit left of the point saturates the byte.
    if scan_nonzero(digits, upper) {
        proof {
            let i = choose|i: int| 0 <= i < upper && #[trigger] digits@[i] != 48;
            assert(i < point && i < digits@.len() && digits@[i] != 48);
            assert(has_nonzero_before(digits@, point));
        }
        return 255;
    }
    proof {
        assert(!has_nonzero_before(digits@, point)) by {
            if has_nonzero_before(digits@, point) {
                let i = choose|i: int| 0 <= i < point && i < digits@.len() && digits@[i] != 48;
                assert(i < upper);
                assert(digits@[i] != 48);
            }
        }
    }
    if shift_down == 0 && upper == dlen {
        // The whole string stands left of the point and is all zeros.
        proof {
            assert(point >= dlen);
        }
        return 0;
    }

    let c = carry_of(digits, upper);
    if shift_down == 0 {
        proof {
            assert(0 <= point < dlen && point == upper);
        }
        c as u8
    } else {
        // The point lies left of every digit: prepend that many zeros, that
        // is, divide the carry by ten as often; three times already reaches
        // zero.
        proof {
            assert(point < 0);
            assert(digits@.skip(0) =~= digits@);
            assert(c as int == carry255(digits@));
            assert(div10_iter(c as int, 0) == c as int);
            assert(div10_iter(c as int, 1) == div10_iter(c as int, 0) / 10);
            assert(div10_iter(c as int, 2) == div10_iter(c as int, 1) / 10);
            if shift_down >= 3 {
                lemma_div10_iter_small(c as int, -point);
            }
        }
        let out: u32 = if shift_down >= 3 {
            0
        } else if shift_down == 2 {
            (c / 10) / 10
        } else {
            c / 10
        };
        out as u8
    }
}

/// Parse one field and quantize it to a byte, exactly as `spec_quantize`
/// describes.
#[verifier::loop_isolation(false)]
#[verifier::rlimit(100)]
pub fn quantize_field(field: &[u8]) -> (r: Option<u8>)
    ensures
        r == spec_quantize(field@),
{
    let ghost s = field@;
    let (lo, hi) = trimmed_bounds(field);
    let ghost t = s.subrange(lo as int, hi as int);

    // Optional sign.
    let mut neg: bool = false;
    let mut bs: usize = lo;
    if lo < hi && (field[lo] == 43 || field[lo] == 45) {
        neg = field[lo] == 45;
        bs = lo + 1;
    }
    let ghost body = s.subrange(bs as int, hi as int);
    proof {
        if bs == lo + 1 {
            assert(t[0] == s[lo as int]);
            assert(has_sign(t));
            assert(t.skip(1) =~= body);
        } else {
            assert(!has_sign(t));
            assert(t =~= body);
        }
        assert(number_body(t) == body);
        assert(is_negative(t) == neg);
    }

    // The special words inf, infinity and nan.
    let (w_inf, w_nan) = word_flags(field, bs, hi);
    if w_nan {
        return Some(0);
    }
    if w_inf {
        if neg {
            return Some(0);
        }
        return Some(255);
    }

    // Locate the exponent marker.
    let mut me: usize = bs;
    while me < hi && field[me] != 101 && field[me] != 69
        invariant
            bs <= me <= hi,
            forall|j: int| bs <= j < me ==> !is_exp_byte(#[trigger] s[j]),
        decreases hi - me,
    {
        me = me + 1;
    }
    proof {
        assert forall|j: int| 0 <= j < me - bs implies !is_exp_byte(#[trigger] body[j]) by {
            assert(body[j] == s[bs + j]);
        }
        if me < hi {
            assert(body[me - bs] == s[me as int]);
        }
        lemma_find_exp_is(body, me - bs);
    }
    let ghost m = mantissa(body);
    proof {
        assert(m =~= s.subrange(bs as int, me as int));
    }

    // Locate the first decimal point of the mantissa.
    let mut dp: usize = bs;
    while dp < me && field[dp] != 46
        invariant
            bs <= dp <= me,
            forall|j: int| bs <= j < dp ==> s[j] != 46,
        decreases me - dp,
    {
        dp = dp + 1;
    }
    proof {
        assert forall|j: int| 0 <= j < dp - bs implies m[j] != 46 by {
            assert(m[j] == s[bs + j]);
        }
        if dp < me {
            assert(m[dp - bs] == s[dp as int]);
        }
        lemma_find_byte_is(m, 46, dp - bs);
    }
    let ghost ip = int_digits(m);
    let ghost fp = frac_digits(m);
    let fs: usize = if dp < me {
        dp + 1
    } else {
        me
    };
    proof {
        assert(ip =~= s.subrange(bs as int, dp as int));
        assert(fp =~= s.subrange(fs as int, me as int));
    }

    // The mantissa needs at least one digit, and nothing but digits.
    if dp - bs == 0 && me - fs == 0 {
        return None;
    }
    if !digits_in_range(field, bs, dp) {
        return None;
    }
    if !digits_in_range(field, fs, me) {
        return None;
    }

    // The optional exponent.
    let mut eneg: bool = false;
    let mut eval: u128 = 0;
    let ghost es = s.subrange(me as int + 1, hi as int);
    if me < hi {
        proof {
            assert(exp_str(body) =~= es);
        }
        match parse_exponent(field, me, hi) {
            Some((en, ev)) => {
                eneg = en;
                eval = ev;
            },
            None => {
                return None;
            },
        }
    }
    proof {
        assert(is_valid_number(t));
        if me < hi {
            lemma_dec_val_bytes_nonneg(exp_digits(es));
        }
    }

    if neg {
        return Some(0);
    }

    // The mantissa's digits as one string, the decimal point shifted by
    // the exponent.
    let mut digits: Vec<u8> = Vec::new();
    digits.extend_from_slice(vstd::slice::slice_subrange(field, bs, dp));
    digits.extend_from_slice(vstd::slice::slice_subrange(field, fs, me));
    let ghost gd = ip + fp;
    proof {
        assert(digits@ =~= gd);
        assert(all_dec_digits(gd));
    }
    let ilen = dp - bs;
    let ghost texp: int = signed_exp(body);
    proof {
        if me < hi {
            if eneg {
                assert(texp == -dec_val_bytes(exp_digits(es)));
            } else {
                assert(texp == dec_val_bytes(exp_digits(es)));
            }
        } else {
            assert(texp == 0);
        }
    }
    let q = quantize_shifted(&digits, ilen, eneg, eval, Ghost(texp));
    proof {
        assert(ip.len() == ilen);
    }
    Some(q)
}

} // verus!
