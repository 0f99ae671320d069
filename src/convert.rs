//! Lossless conversion of an IEEE-754 single-precision value, given by its
//! bit pattern, into a [`Component`].
use crate::num::{is_difference, len_of, Component};
use crate::words::{
    lemma_tail_bounds, lemma_tail_last, lemma_tail_zero_prefix, lemma_weight_pos,
    lemma_weight_pow2, tail_value, word_base, word_weight, words_value,
};
use vstd::arithmetic::div_mod::{lemma_fundamental_div_mod, lemma_fundamental_div_mod_converse};
use vstd::arithmetic::power2::{
    lemma2_to64, lemma_pow2_adds, lemma_pow2_pos, lemma_pow2_strictly_increases,
    lemma_pow2_unfold, pow2,
};
use vstd::prelude::*;

verus! {

/// Why a float has no [`Component`] equal to it.
#[derive(Clone, Copy, Debug, PartialEq, Eq, Structural)]
pub enum ConversionError {
    /// The value is infinite or not a number.
    NonFinite,
    /// The whole part `floor(x)` is `256` or more in magnitude.
    TooLarge,
}

/// The biased exponent field of the float with bit pattern `b`.
pub open spec fn bits_exponent(b: u32) -> int {
    (b as int / 0x80_0000) % 256
}

/// The sign bit of `b`.
pub open spec fn bits_negative(b: u32) -> bool {
    b >= 0x8000_0000
}

/// The significand of `b`, with its implicit leading one for normal values.
pub open spec fn bits_mantissa(b: u32) -> int {
    if bits_exponent(b) == 0 {
        b as int % 0x80_0000
    } else {
        b as int % 0x80_0000 + 0x80_0000
    }
}

/// The finite float `b` is `±bits_mantissa(b) / 2^bits_scale(b)`.
pub open spec fn bits_scale(b: u32) -> int {
    if bits_exponent(b) == 0 {
        149
    } else {
        150 - bits_exponent(b)
    }
}

/// The signed significand: the float is `bits_numerator(b) / 2^bits_scale(b)`.
pub open spec fn bits_numerator(b: u32) -> int {
    if bits_negative(b) {
        -bits_mantissa(b)
    } else {
        bits_mantissa(b)
    }
}

/// `b` is neither infinite nor a NaN.
pub open spec fn bits_finite(b: u32) -> bool {
    bits_exponent(b) != 255
}

/// `floor(x)` for the float `x` with bit pattern `b`, where `bits_scale(b) > 0`.
pub open spec fn bits_floor(b: u32) -> int {
    bits_numerator(b) / (pow2(bits_scale(b) as nat) as int)
}

/// The whole part of the finite float `b` lies in `(-256, 256)`. A float with
/// `bits_scale(b) <= 0` is at least `2^23` in magnitude.
pub open spec fn bits_in_range(b: u32) -> bool {
    bits_scale(b) > 0 && -256 < bits_floor(b) < 256
}

/// `r` is exactly the float `b`, with its whole part `floor(b)` and no
/// trailing zero word.
pub open spec fn represents_bits(r: Component, b: u32) -> bool {
    let n = len_of(r);
    &&& r.int == bits_floor(b)
    &&& (r.int * word_weight(n) + words_value(r.subint@)) * pow2(bits_scale(b) as nat)
        == bits_numerator(b) * word_weight(n)
    &&& (n == 0 || r.subint@.last() != 0)
}

/// `2^k` for `k < 32`.
fn pow2_u64(k: u32) -> (p: u64)
    requires
        k < 32,
    ensures
        p == pow2(k as nat),
        p <= 0x8000_0000,
{
    proof {
        lemma2_to64();
    }
    let mut p: u64 = 1;
    let mut i: u32 = 0;
    while i < k
        invariant
            i <= k < 32,
            p == pow2(i as nat),
        decreases k - i,
    {
        proof {
            lemma2_to64();
            lemma_pow2_strictly_increases(i as nat, 31);
            lemma_pow2_unfold((i + 1) as nat);
        }
        p = p * 2;
        i = i + 1;
    }
    proof {
        if k < 31 {
            lemma_pow2_strictly_increases(k as nat, 31);
        }
    }
    p
}

/// Splits `mant / 2^q` into its whole part and the remainder.
fn split_at_scale(mant: u32, q: u32) -> (res: (u32, u32))
    requires
        mant < 0x100_0000,
        1 <= q,
    ensures
        mant == res.0 * pow2(q as nat) + res.1,
        res.1 < pow2(q as nat),
        res.0 < 0x100_0000,
        res.1 < 0x100_0000,
{
    proof {
        lemma2_to64();
        lemma_pow2_pos(q as nat);
    }
    if q >= 24 {
        proof {
            if q > 24 {
                lemma_pow2_strictly_increases(24, q as nat);
            }
        }
        (0, mant)
    } else {
        let p = pow2_u64(q);
        let whole = (mant as u64 / p) as u32;
        let rem = (mant as u64 % p) as u32;
        proof {
            lemma_fundamental_div_mod(mant as int, p as int);
            assert(whole * p <= mant) by (nonlinear_arith)
                requires
                    mant == p * whole + rem,
                    rem >= 0,
            ;
            assert(whole <= whole * p) by (nonlinear_arith)
                requires
                    p >= 1,
                    whole >= 0,
            ;
        }
        (whole, rem)
    }
}

/// A word `g * 2^s` with `g` odd and `s < 32` is not a multiple of `2^32`.
proof fn lemma_odd_shift_low_word(g: int, s: nat, h: int)
    requires
        g % 2 == 1,
        s < 32,
        h == g * pow2(s),
    ensures
        h % word_base() != 0,
{
    lemma2_to64();
    lemma_pow2_pos(s);
    lemma_fundamental_div_mod(h, word_base());
    if h % word_base() == 0 {
        let hi = h / word_base();
        let t = pow2((31 - s) as nat);
        lemma_pow2_adds(s, (32 - s) as nat);
        lemma_pow2_unfold((32 - s) as nat);
        assert(pow2((32 - s - 1) as nat) == t);
        let ps = pow2(s) as int;
        assert(g * ps == (hi * 2 * t) * ps) by (nonlinear_arith)
            requires
                h == g * ps,
                h == word_base() * hi,
                word_base() == ps * (2 * t),
        ;
        assert(g == hi * 2 * t) by (nonlinear_arith)
            requires
                g * ps == (hi * 2 * t) * ps,
                ps > 0,
        ;
        assert((2 * (hi * t)) % 2 == 0);
        assert(g == 2 * (hi * t)) by (nonlinear_arith)
            requires
                g == hi * 2 * t,
        ;
    }
}

/// The fraction `rem / 2^q` as the fewest words that hold it exactly.
fn fraction_words(rem: u32, q: u32) -> (v: Vec<u32>)
    requires
        1 <= q <= 149,
        rem < 0x100_0000,
        rem < pow2(q as nat),
    ensures
        words_value(v@) * pow2(q as nat) == rem * word_weight(v@.len()),
        v@.len() == 0 <==> rem == 0,
        v@.len() > 0 ==> v@.last() != 0,
{
    if rem == 0 {
        return Vec::new();
    }
    proof {
        lemma2_to64();
    }
    let mut g: u32 = rem;
    let mut tz: u32 = 0;
    while g % 2 == 0
        invariant
            0 < g <= rem,
            rem < 0x100_0000,
            tz <= 24,
            rem == g * pow2(tz as nat),
        decreases g,
    {
        proof {
            lemma2_to64();
            lemma_pow2_unfold((tz + 1) as nat);
            assert(rem == (g / 2) * pow2((tz + 1) as nat)) by (nonlinear_arith)
                requires
                    rem == g * pow2(tz as nat),
                    g % 2 == 0,
                    pow2((tz + 1) as nat) == 2 * pow2(tz as nat),
            ;
            if tz >= 24 {
                lemma_pow2_strictly_increases(24, tz as nat + 1);
                assert(g / 2 >= 1);
                assert((g / 2) * pow2((tz + 1) as nat) >= pow2((tz + 1) as nat)) by (
                nonlinear_arith)
                    requires
                        g / 2 >= 1,
                ;
            }
        }
        g = g / 2;
        tz = tz + 1;
    }
    proof {
        assert(g * pow2(tz as nat) >= pow2(tz as nat)) by (nonlinear_arith)
            requires
                g >= 1,
        ;
        if tz > q {
            lemma_pow2_strictly_increases(q as nat, tz as nat);
        }
    }
    let need: u32 = q - tz;
    let w: u32 = (need + 31) / 32;
    let s: u32 = 32 * w - need;
    let p = pow2_u64(s);
    proof {
        assert(g * p <= 0xff_ffff * 0x8000_0000) by (nonlinear_arith)
            requires
                g <= 0xff_ffff,
                p <= 0x8000_0000,
        ;
    }
    let h: u64 = (g as u64) * p;
    let lo: u32 = (h % 0x1_0000_0000) as u32;
    let hi: u32 = (h / 0x1_0000_0000) as u32;
    proof {
        // h * 2^q == rem * 2^(32 w)
        lemma_pow2_adds(s as nat, q as nat);
        lemma_pow2_adds(32 * w as nat, tz as nat);
        assert(s + q == 32 * w + tz);
        lemma_weight_pow2(w as nat);
        assert(h * pow2(q as nat) == rem * word_weight(w as nat)) by (nonlinear_arith)
            requires
                h == g * pow2(s as nat),
                rem == g * pow2(tz as nat),
                pow2(s as nat) * pow2(q as nat) == pow2(32 * w as nat) * pow2(tz as nat),
                word_weight(w as nat) == pow2(32 * w as nat),
        ;
        lemma_pow2_pos(q as nat);
        lemma_weight_pos(w as nat);
        assert(h < word_weight(w as nat)) by (nonlinear_arith)
            requires
                h * pow2(q as nat) == rem * word_weight(w as nat),
                rem < pow2(q as nat),
                word_weight(w as nat) > 0,
        ;
        lemma_fundamental_div_mod(h as int, word_base());
        lemma_odd_shift_low_word(g as int, s as nat, h as int);
    }
    let mut v: Vec<u32> = Vec::new();
    while v.len() + 2 < w as usize
        invariant
            v.len() + 2 <= w || v.len() == 0,
            1 <= w <= 5,
            forall|k: int| 0 <= k < v.len() ==> v@[k] == 0,
        decreases w - v.len(),
    {
        v.push(0);
    }
    if w >= 2 {
        v.push(hi);
    }
    v.push(lo);
    proof {
        let n = v@.len();
        assert(n == w);
        if w >= 2 {
            lemma_tail_zero_prefix(v@, 0, n - 2);
            assert(word_weight(1) == word_base() * word_weight(0));
            assert(v@[n - 1] == lo);
            assert(tail_value(v@, n as int) == 0);
            assert(tail_value(v@, n - 1) == v@[n - 1] * word_weight(0) + tail_value(v@, n as int));
            assert(tail_value(v@, n - 2) == v@[n - 2] * word_weight(1) + tail_value(v@, n - 1));
            assert(v@[n - 2] == hi);
            assert(words_value(v@) == h);
        } else {
            assert(word_weight(1) == word_base() * word_weight(0));
            assert(hi == 0);
            assert(v@[0] == lo);
            assert(tail_value(v@, 1) == 0);
            assert(tail_value(v@, 0) == v@[0] * word_weight(0) + tail_value(v@, 1));
            assert(words_value(v@) == h);
        }
    }
    v
}

impl Component {
    /// The exact value of the float whose IEEE-754 single-precision bit
    /// pattern is `bits`, with its whole part `floor(x)` and the fewest
    /// fractional words that hold the rest.
    pub fn from_bits(bits: u32) -> (r: Result<Component, ConversionError>)
        ensures
            r is Ok <==> bits_finite(bits) && bits_in_range(bits),
            r is Ok ==> represents_bits(r->Ok_0, bits),
            r is Err ==> r->Err_0 == (if bits_finite(bits) {
                ConversionError::TooLarge
            } else {
                ConversionError::NonFinite
            }),
    {
        let e: u32 = (bits / 0x80_0000) % 256;
        if e == 255 {
            return Err(ConversionError::NonFinite);
        }
        if e >= 150 {
            return Err(ConversionError::TooLarge);
        }
        let low: u32 = bits % 0x80_0000;
        let mant: u32 = if e == 0 {
            low
        } else {
            low + 0x80_0000
        };
        let q: u32 = if e == 0 {
            149
        } else {
            150 - e
        };
        let negative = bits >= 0x8000_0000;
        let (whole, rem) = split_at_scale(mant, q);
        let ghost pq = pow2(q as nat) as int;
        proof {
            lemma_pow2_pos(q as nat);
            if !negative {
                lemma_fundamental_div_mod_converse(mant as int, pq, whole as int, rem as int);
            } else if rem == 0 {
                assert(-mant == (-whole) * pq + 0) by (nonlinear_arith)
                    requires
                        mant == whole * pq + rem,
                        rem == 0,
                ;
                lemma_fundamental_div_mod_converse(-mant, pq, -whole, 0);
            } else {
                assert(-mant == (-whole - 1) * pq + (pq - rem)) by (nonlinear_arith)
                    requires
                        mant == whole * pq + rem,
                ;
                lemma_fundamental_div_mod_converse(-mant, pq, -whole - 1, pq - rem);
            }
        }
        if whole >= 256 || (negative && rem != 0 && whole >= 255) {
            return Err(ConversionError::TooLarge);
        }
        let words = fraction_words(rem, q);
        let magnitude = Component { int: whole as i32, subint: words };
        if !negative {
            proof {
                let n = len_of(magnitude);
                let v = words_value(magnitude.subint@);
                assert((whole * word_weight(n) + v) * pq == mant * word_weight(n)) by (
                nonlinear_arith)
                    requires
                        v * pq == rem * word_weight(n),
                        mant == whole * pq + rem,
                ;
            }
            return Ok(magnitude);
        }
        let mut r = Component { int: 0, subint: Vec::new() };
        let ghost zero = r;
        r.sub_assign(&magnitude);
        proof {
            let n = len_of(magnitude);
            let v = words_value(magnitude.subint@);
            let d = word_weight(n);
            assert(is_difference(r, zero, magnitude));
            assert(words_value(zero.subint@) == 0);
            lemma_weight_pos(n);
            lemma_tail_bounds(magnitude.subint@, 0);
            if rem == 0 {
                assert(n == 0);
                assert(d == 1);
                lemma_fundamental_div_mod_converse(-v, d, 0, 0);
                lemma_fundamental_div_mod_converse(-whole + 0x8000_0000, 0x1_0000_0000, 0, -whole
                    + 0x8000_0000);
                assert(r.int == -whole);
                assert(words_value(r.subint@) == 0);
                assert((r.int * d + 0) * pq == -mant * d) by (nonlinear_arith)
                    requires
                        d == 1,
                        r.int == -whole,
                        mant == whole * pq,
                ;
            } else {
                assert(v > 0) by (nonlinear_arith)
                    requires
                        v * pq == rem * d,
                        rem > 0,
                        d > 0,
                        pq > 0,
                        v >= 0,
                ;
                lemma_fundamental_div_mod_converse(-v, d, -1, d - v);
                lemma_fundamental_div_mod_converse(
                    -whole - 1 + 0x8000_0000,
                    0x1_0000_0000,
                    0,
                    -whole - 1 + 0x8000_0000,
                );
                assert(r.int == -whole - 1);
                assert(words_value(r.subint@) == d - v);
                assert((r.int * d + (d - v)) * pq == -mant * d) by (nonlinear_arith)
                    requires
                        r.int == -whole - 1,
                        v * pq == rem * d,
                        mant == whole * pq + rem,
                ;
                // the last word of d - v is not zero, since that of v is not
                lemma_tail_last(magnitude.subint@, 0);
                lemma_tail_last(r.subint@, 0);
                let mw = word_weight((n - 1) as nat);
                assert(d == word_base() * mw);
                let lo = v % word_base();
                lemma_fundamental_div_mod(v, word_base());
                let vq = v / word_base();
                assert(d - v == word_base() * (mw - vq - 1) + (word_base() - lo)) by (
                nonlinear_arith)
                    requires
                        d == word_base() * mw,
                        v == word_base() * vq + lo,
                ;
                lemma_fundamental_div_mod_converse(
                    d - v,
                    word_base(),
                    mw - vq - 1,
                    word_base() - lo,
                );
            }
        }
        Ok(r)
    }
}

} // verus!
