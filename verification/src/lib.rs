//! Converts CSV text of per-pixel channel intensities into a flat byte buffer
//! ready for an image encoder.
//!
//! The core is the channel-reordering parse pipeline: a closed set of input
//! channel layouts (`texture_formats`), a row parser that validates, reorders
//! and quantizes each comma-separated line (`file_ops`, `quantize`), and the
//! small value types around it (`vec4`, dimension parsing here at the root).

use vstd::prelude::*;

pub mod ascii;
pub mod file_ops;
pub mod quantize;
pub mod texture_formats;
pub mod vec4;

verus! {

/// A fatal configuration error: the request itself, not a data row, is
/// unusable.
#[derive(Debug, Clone, PartialEq, Eq)]
pub enum ConfigError {
    /// The requested output channel count is not 3 or 4.
    UnsupportedChannelCount(usize),
    /// The dimension string does not read as `WIDTHxHEIGHT` positive
    /// integers; carries the offending string.
    InvalidDimensions(String),
}

/// Whether `c` is a decimal digit.
pub open spec fn is_digit_char(c: char) -> bool {
    48 <= c as int && c as int <= 57
}

pub open spec fn all_digit_chars(s: Seq<char>) -> bool {
    forall|i: int| 0 <= i < s.len() ==> is_digit_char(#[trigger] s[i])
}

/// The value of `s` read as decimal digits, most significant first.
pub open spec fn dec_val_chars(s: Seq<char>) -> int
    decreases s.len(),
{
    if s.len() == 0 {
        0
    } else {
        dec_val_chars(s.drop_last()) * 10 + (s.last() as int - 48)
    }
}

/// What `str::parse::<u32>` accepts of a dimension piece: an optional plus
/// sign, then one or more decimal digits whose value fits in 32 bits.
pub open spec fn spec_parse_u32(s: Seq<char>) -> Option<u32> {
    let body = if s.len() > 0 && s[0] == '+' {
        s.skip(1)
    } else {
        s
    };
    if body.len() > 0 && all_digit_chars(body) && dec_val_chars(body) <= 0xffff_ffff {
        Some(dec_val_chars(body) as u32)
    } else {
        None
    }
}

/// Index of the first occurrence of `c` in `s`, or `s.len()` if absent.
pub open spec fn find_char(s: Seq<char>, c: char) -> nat
    decreases s.len(),
{
    if s.len() == 0 {
        0
    } else if s[0] == c {
        0
    } else {
        (1 + find_char(s.skip(1), c)) as nat
    }
}

proof fn lemma_find_char_is(s: Seq<char>, c: char, k: int)
    requires
        0 <= k <= s.len(),
        forall|j: int| 0 <= j < k ==> s[j] != c,
        k == s.len() || s[k] == c,
    ensures
        find_char(s, c) == k,
    decreases s.len(),
{
    if s.len() == 0 {
    } else if s[0] == c {
        assert(k == 0);
    } else {
        assert(k >= 1);
        assert forall|j: int| 0 <= j < k - 1 implies s.skip(1)[j] != c by {
            assert(s[j + 1] != c);
        }
        assert(k - 1 == s.skip(1).len() || s.skip(1)[k - 1] == c);
        lemma_find_char_is(s.skip(1), c, k - 1);
    }
}

/// The dimension pair named by `s`: the piece before the first `x` as the
/// width, the piece between the first and second `x` (or the end) as the
/// height, both read as positive 32-bit integers.
pub open spec fn spec_parse_dimensions(s: Seq<char>) -> Option<(u32, u32)> {
    let p = find_char(s, 'x');
    if p >= s.len() {
        None
    } else {
        let rest = s.skip(p as int + 1);
        let q = find_char(rest, 'x');
        match (spec_parse_u32(s.take(p as int)), spec_parse_u32(rest.take(q as int))) {
            (Some(w), Some(h)) => if w > 0 && h > 0 {
                Some((w, h))
            } else {
                None
            },
            _ => None,
        }
    }
}

/// A digit string's value is never negative.
proof fn lemma_dec_val_nonneg(s: Seq<char>)
    requires
        all_digit_chars(s),
    ensures
        dec_val_chars(s) >= 0,
    decreases s.len(),
{
    if s.len() > 0 {
        assert(is_digit_char(s.last()));
        assert(all_digit_chars(s.drop_last()));
        lemma_dec_val_nonneg(s.drop_last());
    }
}

/// A digit string's value only grows as more digits are read.
proof fn lemma_dec_val_mono(s: Seq<char>, k: int)
    requires
        0 <= k <= s.len(),
        all_digit_chars(s),
    ensures
        dec_val_chars(s) >= dec_val_chars(s.take(k)),
    decreases s.len() - k,
{
    if k == s.len() {
        assert(s.take(k) =~= s);
    } else {
        assert(s.take(k + 1).drop_last() =~= s.take(k));
        assert(s.take(k + 1).last() == s[k]);
        assert(is_digit_char(s[k]));
        assert(all_digit_chars(s.take(k)));
        lemma_dec_val_nonneg(s.take(k));
        lemma_dec_val_mono(s, k + 1);
    }
}

/// Parse `s[a..b]` as `str::parse::<u32>` would, as `spec_parse_u32`
/// describes.
#[verifier::loop_isolation(false)]
fn parse_u32_range(s: &str, a: usize, b: usize) -> (r: Option<u32>)
    requires
        a <= b <= s@.len(),
    ensures
        r == spec_parse_u32(s@.subrange(a as int, b as int)),
{
    let ghost piece = s@.subrange(a as int, b as int);
    let mut a2: usize = a;
    if a < b && s.get_char(a) == '+' {
        a2 = a + 1;
    }
    let ghost body = s@.subrange(a2 as int, b as int);
    proof {
        if a2 == a + 1 {
            assert(piece[0] == s@[a as int]);
            assert(piece.skip(1) =~= body);
        } else {
            assert(piece =~= body);
        }
    }
    if a2 == b {
        return None;
    }
    let mut acc: u64 = 0;
    let mut i: usize = a2;
    proof {
        assert(body.take(0) =~= Seq::<char>::empty());
    }
    while i < b
        invariant
            a2 <= i <= b,
            forall|j: int| a2 <= j < i ==> is_digit_char(#[trigger] s@[j]),
            acc == dec_val_chars(body.take(i - a2)),
            acc <= 0xffff_ffff,
        decreases b - i,
    {
        let c = s.get_char(i);
        let cu = c as u32;
        proof {
            assert(body[i - a2] == s@[i as int]);
        }
        if cu < 48 || cu > 57 {
            return None;
        }
        let d: u64 = (cu - 48) as u64;
        acc = acc * 10 + d;
        proof {
            assert(body.take(i - a2 + 1).drop_last() =~= body.take(i - a2));
            assert(body.take(i - a2 + 1).last() == body[i - a2]);
        }
        if acc > 0xffff_ffff {
            proof {
                if all_digit_chars(body) {
                    lemma_dec_val_mono(body, i - a2 + 1);
                }
            }
            return None;
        }
        i = i + 1;
    }
    proof {
        assert(body.take(b - a2) =~= body);
        assert forall|j: int| 0 <= j < body.len() implies is_digit_char(#[trigger] body[j]) by {
            assert(body[j] == s@[a2 + j]);
        }
    }
    Some(acc as u32)
}

/// Parse a `WIDTHxHEIGHT` dimension string into positive width and height,
/// as `spec_parse_dimensions` describes; anything else is a configuration
/// error carrying the offending string.
#[verifier::loop_isolation(false)]
pub fn parse_dimensions(s: &str) -> (r: Result<(u32, u32), ConfigError>)
    ensures
        match r {
            Ok(d) => spec_parse_dimensions(s@) == Some(d),
            Err(e) => spec_parse_dimensions(s@) is None && (e matches ConfigError::InvalidDimensions(t) && t@ == s@),
        },
{
    let n = s.unicode_len();
    let mut p: usize = 0;
    while p < n && s.get_char(p) != 'x'
        invariant
            0 <= p <= n,
            forall|t: int| 0 <= t < p ==> s@[t] != 'x',
        decreases n - p,
    {
        p = p + 1;
    }
    proof {
        lemma_find_char_is(s@, 'x', p as int);
    }
    if p == n {
        return Err(ConfigError::InvalidDimensions(String::from_str(s)));
    }
    let ghost rest = s@.skip(p as int + 1);
    let mut q: usize = p + 1;
    while q < n && s.get_char(q) != 'x'
        invariant
            p + 1 <= q <= n,
            forall|t: int| p + 1 <= t < q ==> s@[t] != 'x',
        decreases n - q,
    {
        q = q + 1;
    }
    proof {
        assert forall|t: int| 0 <= t < q - p - 1 implies rest[t] != 'x' by {
            assert(rest[t] == s@[p + 1 + t]);
        }
        if q < n {
            assert(rest[q - p - 1] == s@[q as int]);
        }
        lemma_find_char_is(rest, 'x', q - p - 1);
        assert(s@.subrange(0, p as int) =~= s@.take(p as int));
        assert(s@.subrange(p as int + 1, q as int) =~= rest.take(q - p - 1));
    }
    let w = parse_u32_range(s, 0, p);
    let h = parse_u32_range(s, p + 1, q);
    match (w, h) {
        (Some(w), Some(h)) => {
            if w > 0 && h > 0 {
                Ok((w, h))
            } else {
                Err(ConfigError::InvalidDimensions(String::from_str(s)))
            }
        },
        _ => Err(ConfigError::InvalidDimensions(String::from_str(s))),
    }
}

} // verus!
