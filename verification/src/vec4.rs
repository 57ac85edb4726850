//! A pixel of four integer channels with an explicit slot-index accessor.
//!
//! Slot 0 is R, 1 is G, 2 is B and 3 is A.  The default value is fully
//! transparent black except for the alpha sentinel, which is non-zero.

use vstd::prelude::*;

use crate::ascii::{ascii_bytes_to_string, ascii_view};

verus! {

#[derive(Debug, Clone, Copy, PartialEq, Eq, Structural)]
pub struct Vec4 {
    pub r: i32,
    pub g: i32,
    pub b: i32,
    pub a: i32,
}

/// The channel of `v` held in canonical slot `i`.
pub open spec fn spec_slot(v: Vec4, i: int) -> i32 {
    if i == 0 {
        v.r
    } else if i == 1 {
        v.g
    } else if i == 2 {
        v.b
    } else {
        v.a
    }
}

/// The decimal digits of `n`, most significant first.
pub open spec fn dec_digits(n: nat) -> Seq<u8>
    decreases n,
{
    if n < 10 {
        seq![(48 + n) as u8]
    } else {
        dec_digits(n / 10).push((48 + n % 10) as u8)
    }
}

/// The decimal spelling of `x`, with a leading minus sign when negative.
pub open spec fn dec_i32(x: int) -> Seq<u8> {
    if x < 0 {
        seq![45u8] + dec_digits((-x) as nat)
    } else {
        dec_digits(x as nat)
    }
}

pub proof fn lemma_dec_digits_ascii(n: nat)
    ensures
        forall|i: int| 0 <= i < dec_digits(n).len() ==> 48 <= #[trigger] dec_digits(n)[i] < 58,
    decreases n,
{
    if n < 10 {
    } else {
        lemma_dec_digits_ascii(n / 10);
        assert forall|i: int| 0 <= i < dec_digits(n).len() implies 48 <= #[trigger] dec_digits(
            n,
        )[i] < 58 by {
            if i < dec_digits(n / 10).len() {
                assert(dec_digits(n)[i] == dec_digits(n / 10)[i]);
            }
        }
    }
}

pub proof fn lemma_dec_i32_ascii(x: int)
    ensures
        forall|i: int| 0 <= i < dec_i32(x).len() ==> #[trigger] dec_i32(x)[i] < 128,
{
    if x < 0 {
        lemma_dec_digits_ascii((-x) as nat);
    } else {
        lemma_dec_digits_ascii(x as nat);
    }
}

/// Append the decimal digits of `n` to `buf`.
fn push_dec_u32(buf: &mut Vec<u8>, n: u32)
    ensures
        final(buf)@ == old(buf)@ + dec_digits(n as nat),
    decreases n,
{
    if n < 10 {
        buf.push((48 + n) as u8);
        assert(final(buf)@ =~= old(buf)@ + dec_digits(n as nat));
    } else {
        push_dec_u32(buf, n / 10);
        buf.push((48 + n % 10) as u8);
        assert(final(buf)@ =~= old(buf)@ + dec_digits(n as nat));
    }
}

/// Append the decimal spelling of `x` to `buf`.
fn push_dec_i32(buf: &mut Vec<u8>, x: i32)
    ensures
        final(buf)@ == old(buf)@ + dec_i32(x as int),
{
    if x >= 0 {
        push_dec_u32(buf, x as u32);
    } else {
        buf.push(45);
        let m: u32 = (-(x as i64)) as u32;
        assert(m as int == -(x as int));
        push_dec_u32(buf, m);
        assert(final(buf)@ =~= old(buf)@ + dec_i32(x as int));
    }
}

/// The bytes of the `"R, G, B"` spelling of `v`.
pub open spec fn spec_rgb_bytes(v: Vec4) -> Seq<u8> {
    dec_i32(v.r as int) + seq![44u8, 32u8] + dec_i32(v.g as int) + seq![44u8, 32u8] + dec_i32(
        v.b as int,
    )
}

impl Vec4 {
    pub fn get_slot(&self, i: usize) -> (r: i32)
        requires
            i < 4,
        ensures
            r == spec_slot(*self, i as int),
    {
        if i == 0 {
            self.r
        } else if i == 1 {
            self.g
        } else if i == 2 {
            self.b
        } else {
            self.a
        }
    }

    pub fn set_slot(&mut self, i: usize, val: i32)
        requires
            i < 4,
        ensures
            spec_slot(*final(self), i as int) == val,
            forall|j: int| 0 <= j < 4 && j != i ==> spec_slot(*final(self), j) == spec_slot(
                *old(self),
                j,
            ),
    {
        if i == 0 {
            self.r = val;
        } else if i == 1 {
            self.g = val;
        } else if i == 2 {
            self.b = val;
        } else {
            self.a = val;
        }
    }

    /// The `"R, G, B"` spelling of the pixel's color channels.
    pub fn to_rgb_string(&self) -> (r: String)
        ensures
            r@ == ascii_view(spec_rgb_bytes(*self)),
    {
        let mut buf: Vec<u8> = Vec::new();
        push_dec_i32(&mut buf, self.r);
        buf.push(44);
        buf.push(32);
        push_dec_i32(&mut buf, self.g);
        buf.push(44);
        buf.push(32);
        push_dec_i32(&mut buf, self.b);
        proof {
            lemma_dec_i32_ascii(self.r as int);
            lemma_dec_i32_ascii(self.g as int);
            lemma_dec_i32_ascii(self.b as int);
            assert(buf@ =~= spec_rgb_bytes(*self));
        }
        ascii_bytes_to_string(buf)
    }
}

impl Default for Vec4 {
    /// Transparent black, except that the alpha sentinel defaults non-zero.
    fn default() -> (r: Self)
        ensures
            r == (Vec4 { r: 0, g: 0, b: 0, a: 1 }),
    {
        Vec4 { r: 0, g: 0, b: 0, a: 1 }
    }
}

} // verus!
