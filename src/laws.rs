//! Algebraic laws of the fixed-point operations, stated over the contracts
//! of [`Component::add`], [`Component::sub`] and [`Component::mul`].
use crate::num::{
    frac_at, is_difference, is_product, is_sum, len_of, width, wrap_i32, Component,
};
use crate::words::{
    lemma_tail_bounds, lemma_tail_zero_prefix, lemma_weight_adds, lemma_weight_pos,
    lemma_words_injective, lemma_words_zero, tail_value, word_base, word_weight, words_value,
};
use vstd::arithmetic::div_mod::{
    lemma_fundamental_div_mod, lemma_fundamental_div_mod_converse, lemma_mod_multiples_vanish,
};
use vstd::prelude::*;

verus! {

/// `x` already in the range of `i32` is its own wrap.
proof fn lemma_wrap_small(x: int)
    requires
        -0x8000_0000 <= x < 0x8000_0000,
    ensures
        wrap_i32(x) == x,
{
    lemma_fundamental_div_mod_converse(x + 0x8000_0000, 0x1_0000_0000, 0, x + 0x8000_0000);
}

/// Adding zero (whole part zero, no fractional words) gives back the same
/// whole part and the same words.
pub proof fn law_add_zero(a: Component, z: Component, r: Component)
    requires
        z.int == 0,
        len_of(z) == 0,
        is_sum(r, a, z),
    ensures
        r.int == a.int,
        r.subint@ == a.subint@,
{
    let n = len_of(a);
    assert(width(a, z) == n);
    assert(word_weight(0) == 1);
    assert(frac_at(a, n) == words_value(a.subint@));
    assert(frac_at(z, n) == 0);
    lemma_tail_bounds(a.subint@, 0);
    lemma_weight_pos(n);
    lemma_fundamental_div_mod_converse(words_value(a.subint@), word_weight(n), 0, words_value(
        a.subint@,
    ));
    lemma_wrap_small(a.int as int);
    lemma_words_injective(r.subint@, a.subint@);
}

/// `a - a` is exactly zero: a zero whole part and only zero words.
pub proof fn law_sub_self(a: Component, r: Component)
    requires
        is_difference(r, a, a),
    ensures
        r.int == 0,
        forall|k: int| 0 <= k < len_of(r) ==> r.subint@[k] == 0,
{
    let n = width(a, a);
    lemma_weight_pos(n);
    lemma_fundamental_div_mod_converse(0, word_weight(n), 0, 0);
    lemma_wrap_small(0);
    lemma_words_zero(r.subint@);
}

/// The product of two whole numbers (no fractional words) is zero with no
/// words: the product takes in the fractional words only.
pub proof fn law_mul_whole_numbers(a: Component, b: Component, r: Component)
    requires
        len_of(a) == 0,
        len_of(b) == 0,
        is_product(r, a, b),
    ensures
        r.int == 0,
        len_of(r) == 0,
{
}

/// A suffix of all-ones words is one less than the next weight up.
proof fn lemma_tail_all_ones(s: Seq<u32>, k: int)
    requires
        0 <= k <= s.len(),
        forall|j: int| k <= j < s.len() ==> s[j] == 0xffff_ffff,
    ensures
        tail_value(s, k) == word_weight((s.len() - k) as nat) - 1,
    decreases s.len() - k,
{
    if k < s.len() {
        lemma_tail_all_ones(s, k + 1);
        let w = word_weight((s.len() - 1 - k) as nat);
        assert(word_weight((s.len() - k) as nat) == word_base() * w);
        assert(0xffff_ffff * w + (w - 1) == word_base() * w - 1) by (nonlinear_arith);
    }
}

/// A carry ripples through every word: `a`'s words all `0xFFFFFFFF`, `b`
/// of the same length with only its last word `1`, give all-zero words and
/// a whole part of `a.int + b.int + 1`, wrapped.
pub proof fn law_carry_ripples(a: Component, b: Component, r: Component)
    requires
        len_of(a) >= 1,
        len_of(b) == len_of(a),
        forall|k: int| 0 <= k < len_of(a) ==> a.subint@[k] == 0xffff_ffff,
        forall|k: int| 0 <= k < len_of(b) - 1 ==> b.subint@[k] == 0,
        b.subint@.last() == 1,
        is_sum(r, a, b),
    ensures
        r.int == wrap_i32(a.int + b.int + 1),
        len_of(r) == len_of(a),
        forall|k: int| 0 <= k < len_of(r) ==> r.subint@[k] == 0,
{
    let n = len_of(a);
    let bs = b.subint@;
    lemma_tail_all_ones(a.subint@, 0);
    lemma_tail_zero_prefix(bs, 0, n - 1);
    assert(tail_value(bs, n as int) == 0);
    assert(tail_value(bs, n - 1) == bs[n - 1] * word_weight(0) + tail_value(bs, n as int));
    assert(words_value(bs) == 1);
    assert(word_weight(0) == 1);
    assert(frac_at(a, n) == word_weight(n) - 1);
    assert(frac_at(b, n) == 1);
    lemma_weight_pos(n);
    lemma_fundamental_div_mod_converse(word_weight(n), word_weight(n), 1, 0);
    lemma_words_zero(r.subint@);
}

/// `x` as a whole number of units of `2^(-32 n)`, for `n` at least its
/// word count.
pub open spec fn scaled(x: Component, n: nat) -> int {
    x.int * word_weight(n) + frac_at(x, n)
}

/// `y`, a count of units of `2^(-32 n)`, wrapped as the whole part wraps:
/// into `[-2^31, 2^31)` whole units.
pub open spec fn wrap_scaled(y: int, n: nat) -> int {
    let h = 0x8000_0000 * word_weight(n);
    (y + h) % (2 * h) - h
}

/// Wrapping an already wrapped term again changes nothing.
proof fn lemma_wrap_absorb(x: int, y: int, n: nat)
    ensures
        wrap_scaled(wrap_scaled(x, n) + y, n) == wrap_scaled(x + y, n),
        wrap_scaled(y + wrap_scaled(x, n), n) == wrap_scaled(y + x, n),
{
    let h = 0x8000_0000 * word_weight(n);
    lemma_weight_pos(n);
    lemma_fundamental_div_mod(x + h, 2 * h);
    let j = (x + h) / (2 * h);
    assert(wrap_scaled(x, n) == x - (2 * h) * j);
    lemma_mod_multiples_vanish(-j, x + y + h, 2 * h);
    assert(wrap_scaled(x, n) + y + h == (2 * h) * (-j) + (x + y + h)) by (nonlinear_arith)
        requires
            wrap_scaled(x, n) == x - (2 * h) * j,
    ;
}

/// A sum's scaled value is the wrapped sum of its operands' scaled values,
/// at any word count `big` that holds both operands.
proof fn lemma_sum_scaled(r: Component, a: Component, b: Component, big: nat)
    requires
        is_sum(r, a, b),
        big >= width(a, b),
    ensures
        scaled(r, big) == wrap_scaled(scaled(a, big) + scaled(b, big), big),
{
    let n = width(a, b);
    let w = word_weight(n);
    lemma_weight_pos(n);
    let s = frac_at(a, n) + frac_at(b, n);
    let k = a.int + b.int + s / w;
    lemma_fundamental_div_mod(s, w);
    lemma_fundamental_div_mod(k + 0x8000_0000, 0x1_0000_0000);
    let j = (k + 0x8000_0000) / 0x1_0000_0000;
    assert(r.int == k - 0x1_0000_0000 * j);
    assert(word_weight(0) == 1);
    assert(scaled(r, n) == r.int * w + s % w);
    let h = 0x8000_0000 * w;
    assert(scaled(r, n) == scaled(a, n) + scaled(b, n) - j * (2 * h)) by (nonlinear_arith)
        requires
            scaled(r, n) == r.int * w + s % w,
            r.int == k - 0x1_0000_0000 * j,
            k == a.int + b.int + s / w,
            s == w * (s / w) + s % w,
            scaled(a, n) == a.int * w + frac_at(a, n),
            scaled(b, n) == b.int * w + frac_at(b, n),
            s == frac_at(a, n) + frac_at(b, n),
            h == 0x8000_0000 * w,
    ;
    assert(0 <= scaled(r, n) + h < 2 * h) by (nonlinear_arith)
        requires
            scaled(r, n) == r.int * w + s % w,
            -0x8000_0000 <= r.int < 0x8000_0000,
            0 <= s % w < w,
            h == 0x8000_0000 * w,
    ;
    lemma_fundamental_div_mod_converse(
        scaled(a, n) + scaled(b, n) + h,
        2 * h,
        j,
        scaled(r, n) + h,
    );
    // from `n` words up to `big`
    let kk = word_weight((big - n) as nat);
    lemma_weight_pos((big - n) as nat);
    lemma_weight_adds(n, (big - n) as nat);
    assert forall|x: Component| len_of(x) <= n implies scaled(x, big) == scaled(x, n) * kk by {
        lemma_weight_adds((n - len_of(x)) as nat, (big - n) as nat);
        assert(scaled(x, big) == scaled(x, n) * kk) by (nonlinear_arith)
            requires
                scaled(x, big) == x.int * word_weight(big) + words_value(x.subint@) * word_weight(
                    (big - len_of(x)) as nat,
                ),
                scaled(x, n) == x.int * w + words_value(x.subint@) * word_weight(
                    (n - len_of(x)) as nat,
                ),
                word_weight(big) == w * kk,
                word_weight((big - len_of(x)) as nat) == word_weight((n - len_of(x)) as nat) * kk,
        ;
    }
    let y = scaled(a, n) + scaled(b, n);
    let rem = scaled(r, n) + h;
    assert(y * kk + h * kk == j * (2 * h * kk) + rem * kk) by (nonlinear_arith)
        requires
            y + h == j * (2 * h) + rem,
    ;
    assert(0 <= rem * kk < 2 * h * kk) by (nonlinear_arith)
        requires
            0 <= rem < 2 * h,
            kk > 0,
    ;
    assert(0x8000_0000 * word_weight(big) == h * kk) by (nonlinear_arith)
        requires
            word_weight(big) == w * kk,
            h == 0x8000_0000 * w,
    ;
    lemma_fundamental_div_mod_converse(y * kk + h * kk, 2 * h * kk, j, rem * kk);
    assert(len_of(r) <= n && len_of(a) <= n && len_of(b) <= n);
    assert(scaled(r, big) == scaled(r, n) * kk);
    assert(scaled(a, big) == scaled(a, n) * kk);
    assert(scaled(b, big) == scaled(b, n) * kk);
    assert(scaled(a, big) + scaled(b, big) == y * kk) by (nonlinear_arith)
        requires
            scaled(a, big) == scaled(a, n) * kk,
            scaled(b, big) == scaled(b, n) * kk,
            y == scaled(a, n) + scaled(b, n),
    ;
    assert(rem * kk - h * kk == scaled(r, n) * kk) by (nonlinear_arith)
        requires
            rem == scaled(r, n) + h,
    ;
    let hb = 0x8000_0000 * word_weight(big);
    assert(hb == h * kk);
    assert(2 * hb == 2 * h * kk) by (nonlinear_arith)
        requires
            hb == h * kk,
    ;
    assert((y * kk + hb) % (2 * hb) == rem * kk);
    assert(wrap_scaled(y * kk, big) == rem * kk - hb);
}

/// Addition is associative: `(a + b) + c` and `a + (b + c)` have the same
/// whole part and the same words, wrapping included.
pub proof fn law_add_associative(
    a: Component,
    b: Component,
    c: Component,
    ab: Component,
    left: Component,
    bc: Component,
    right: Component,
)
    requires
        is_sum(ab, a, b),
        is_sum(left, ab, c),
        is_sum(bc, b, c),
        is_sum(right, a, bc),
    ensures
        left.int == right.int,
        left.subint@ == right.subint@,
{
    let n = width(ab, c);
    assert(width(a, bc) == n);
    lemma_sum_scaled(ab, a, b, n);
    lemma_sum_scaled(left, ab, c, n);
    lemma_sum_scaled(bc, b, c, n);
    lemma_sum_scaled(right, a, bc, n);
    let (ta, tb, tc) = (scaled(a, n), scaled(b, n), scaled(c, n));
    lemma_wrap_absorb(ta + tb, tc, n);
    lemma_wrap_absorb(tb + tc, ta, n);
    assert(ta + tb + tc == ta + (tb + tc));
    assert(scaled(left, n) == scaled(right, n));
    let w = word_weight(n);
    lemma_weight_pos(n);
    assert(word_weight(0) == 1);
    assert((n - len_of(left)) as nat == 0 && (n - len_of(right)) as nat == 0);
    assert(frac_at(left, n) == words_value(left.subint@));
    assert(frac_at(right, n) == words_value(right.subint@));
    lemma_tail_bounds(left.subint@, 0);
    lemma_tail_bounds(right.subint@, 0);
    lemma_fundamental_div_mod_converse(scaled(left, n), w, left.int as int, words_value(
        left.subint@,
    ));
    lemma_fundamental_div_mod_converse(scaled(right, n), w, right.int as int, words_value(
        right.subint@,
    ));
    lemma_words_injective(left.subint@, right.subint@);
}

} // verus!
