//! Fixed-point component values and the complex numbers built from them.
use crate::words::{
    lemma_tail_bounds, lemma_tail_push_zero, lemma_tail_update, lemma_tail_zeros, lemma_weight_adds,
    lemma_weight_pos, tail_value, word_base, word_weight, words_value,
};
use vstd::arithmetic::div_mod::{lemma_fundamental_div_mod, lemma_fundamental_div_mod_converse};
use vstd::prelude::*;

verus! {

/// A signed fixed-point number: `int + sum(subint[k] * 2^(-32 (k + 1)))`.
///
/// `subint` holds the fractional words, most significant first. A missing
/// trailing word counts as zero, so values of different lengths combine.
#[derive(Clone, Debug)]
pub struct Component {
    pub int: i32,
    pub subint: Vec<u32>,
}

/// The number of fractional words of `c`.
pub open spec fn len_of(c: Component) -> nat {
    c.subint@.len()
}

/// The fractional part of `c` as a numerator over `2^(32 n)`, for `n` at
/// least as long as `c`'s own word count (missing trailing words are zero).
pub open spec fn frac_at(c: Component, n: nat) -> int {
    words_value(c.subint@) * word_weight((n - len_of(c)) as nat)
}

/// The word count of a sum or difference: the longer of the two operands.
pub open spec fn width(a: Component, b: Component) -> nat {
    if len_of(a) >= len_of(b) {
        len_of(a)
    } else {
        len_of(b)
    }
}

/// `x` reduced into the range of `i32` the way two's complement wraps.
pub open spec fn wrap_i32(x: int) -> int {
    (x + 0x8000_0000) % 0x1_0000_0000 - 0x8000_0000
}

/// The fractional words of `a + b`, as a value: the sum of the zero-padded
/// fractions modulo one.
pub open spec fn sum_frac(a: Component, b: Component) -> int {
    let n = width(a, b);
    (frac_at(a, n) + frac_at(b, n)) % word_weight(n)
}

/// The whole part of `a + b`: both whole parts and the carry out of the
/// fractions, wrapped as an `i32`.
pub open spec fn sum_int(a: Component, b: Component) -> int {
    let n = width(a, b);
    wrap_i32(a.int + b.int + (frac_at(a, n) + frac_at(b, n)) / word_weight(n))
}

/// The fractional words of `a - b`, as a value: the difference of the
/// zero-padded fractions modulo one.
pub open spec fn difference_frac(a: Component, b: Component) -> int {
    let n = width(a, b);
    (frac_at(a, n) - frac_at(b, n)) % word_weight(n)
}

/// The whole part of `a - b`: the difference of the whole parts less the
/// borrow out of the fractions, wrapped as an `i32`.
pub open spec fn difference_int(a: Component, b: Component) -> int {
    let n = width(a, b);
    wrap_i32(a.int - b.int + (frac_at(a, n) - frac_at(b, n)) / word_weight(n))
}

/// `r` is `a + b`, with as many words as the longer operand.
pub open spec fn is_sum(r: Component, a: Component, b: Component) -> bool {
    &&& len_of(r) == width(a, b)
    &&& words_value(r.subint@) == sum_frac(a, b)
    &&& r.int == sum_int(a, b)
}

/// `r` is `a - b`, with as many words as the longer operand.
pub open spec fn is_difference(r: Component, a: Component, b: Component) -> bool {
    &&& len_of(r) == width(a, b)
    &&& words_value(r.subint@) == difference_frac(a, b)
    &&& r.int == difference_int(a, b)
}

/// `r` is the product of the fractional parts of `a` and `b`, with every
/// word kept: `len(a) + len(b)` words and a zero whole part. The whole
/// parts of the operands take no part in it.
pub open spec fn is_product(r: Component, a: Component, b: Component) -> bool {
    &&& r.int == 0
    &&& len_of(r) == len_of(a) + len_of(b)
    &&& words_value(r.subint@) == words_value(a.subint@) * words_value(b.subint@)
}

/// `x + y + c` wrapped into an `i32`.
fn wrapping_sum(x: i32, y: i64, c: i64) -> (r: i32)
    requires
        -0x8000_0000 <= y <= 0x8000_0000,
        -1 <= c <= 1,
    ensures
        r == wrap_i32(x + y + c),
{
    let t: i64 = x as i64 + y + c;
    let r: i64 = if t > 0x7fff_ffff {
        t - 0x1_0000_0000
    } else if t < -0x8000_0000 {
        t + 0x1_0000_0000
    } else {
        t
    };
    proof {
        let q: int = if t > 0x7fff_ffff {
            1
        } else if t < -0x8000_0000 {
            -1
        } else {
            0
        };
        lemma_fundamental_div_mod_converse(
            t + 0x8000_0000,
            0x1_0000_0000,
            q,
            r + 0x8000_0000,
        );
    }
    r as i32
}

/// One step of the carry chain, in terms of suffix values: `w1` is the
/// weight of the word written, `wr * wb` the same weight seen from the
/// shorter operand.
proof fn lemma_carry_step(
    word: int,
    out_carry: int,
    in_carry: int,
    a_i: int,
    b_i: int,
    tail_r: int,
    tail_a: int,
    tail_b: int,
    w1: int,
    wr: int,
    wb: int,
)
    requires
        word + out_carry * word_base() == a_i + b_i + in_carry,
        tail_r + in_carry * w1 == tail_a + tail_b * wb,
        wr * wb == w1,
    ensures
        (word * w1 + tail_r) + out_carry * (word_base() * w1) == (a_i * w1 + tail_a) + (b_i * wr
            + tail_b) * wb,
{
    assert((word * w1 + tail_r) + out_carry * (word_base() * w1) == (a_i * w1 + tail_a) + (b_i
        * wr + tail_b) * wb) by (nonlinear_arith)
        requires
            word + out_carry * word_base() == a_i + b_i + in_carry,
            tail_r + in_carry * w1 == tail_a + tail_b * wb,
            wr * wb == w1,
    ;
}

/// One step of the borrow chain, as [`lemma_carry_step`] for subtraction.
proof fn lemma_borrow_step(
    word: int,
    out_borrow: int,
    in_borrow: int,
    a_i: int,
    b_i: int,
    tail_r: int,
    tail_a: int,
    tail_b: int,
    w1: int,
    wr: int,
    wb: int,
)
    requires
        word - out_borrow * word_base() == a_i - b_i - in_borrow,
        tail_r - in_borrow * w1 == tail_a - tail_b * wb,
        wr * wb == w1,
    ensures
        (word * w1 + tail_r) - out_borrow * (word_base() * w1) == (a_i * w1 + tail_a) - (b_i * wr
            + tail_b) * wb,
{
    assert((word * w1 + tail_r) - out_borrow * (word_base() * w1) == (a_i * w1 + tail_a) - (b_i
        * wr + tail_b) * wb) by (nonlinear_arith)
        requires
            word - out_borrow * word_base() == a_i - b_i - in_borrow,
            tail_r - in_borrow * w1 == tail_a - tail_b * wb,
            wr * wb == w1,
    ;
}

/// The chain's result: a value in `[0, d)` and `k` whole units of `d`.
proof fn lemma_chain_result(v: int, k: int, s: int, d: int)
    requires
        0 <= v < d,
        v + k * d == s,
    ensures
        v == s % d,
        k == s / d,
{
    lemma_fundamental_div_mod_converse(s, d, k, v);
}

/// One step of a multiply-accumulate row: the word at weight `w1` takes
/// `d * b_j` and the incoming carry; `wj * wr` is `w1` seen from the
/// multiplier's word and the row's shift.
proof fn lemma_product_step(
    word: int,
    out_carry: int,
    in_carry: int,
    s_k: int,
    d: int,
    b_j: int,
    tail_r: int,
    tail_s: int,
    tail_b: int,
    w1: int,
    wj: int,
    wr: int,
)
    requires
        word + out_carry * word_base() == s_k + d * b_j + in_carry,
        tail_r + in_carry * w1 == tail_s + d * tail_b * wr,
        wj * wr == w1,
    ensures
        (word * w1 + tail_r) + out_carry * (word_base() * w1) == (s_k * w1 + tail_s) + d * (b_j
            * wj + tail_b) * wr,
{
    assert(word * w1 + out_carry * (word_base() * w1) == (word + out_carry * word_base()) * w1)
        by (nonlinear_arith);
    assert((s_k + d * b_j + in_carry) * w1 == s_k * w1 + (d * b_j) * w1 + in_carry * w1)
        by (nonlinear_arith);
    assert(d * (b_j * wj + tail_b) * wr == (d * b_j) * (wj * wr) + d * tail_b * wr)
        by (nonlinear_arith);
}

impl Component {
    /// Pads `self` with zero words at its least significant end until it
    /// holds at least `n` words; the value is unchanged.
    fn pad_to(&mut self, n: usize)
        ensures
            final(self).int == old(self).int,
            len_of(*final(self)) == (if len_of(*old(self)) >= n {
                len_of(*old(self))
            } else {
                n as nat
            }),
            words_value(final(self).subint@) == frac_at(*old(self), len_of(*final(self))),
    {
        let ghost a = *self;
        while self.subint.len() < n
            invariant
                self.int == a.int,
                len_of(a) <= self.subint.len(),
                len_of(a) >= n ==> self.subint.len() == len_of(a),
                len_of(a) < n ==> self.subint.len() <= n,
                words_value(self.subint@) == frac_at(a, len_of(*self)),
            decreases n - self.subint.len(),
        {
            proof {
                lemma_tail_push_zero(self.subint@, 0);
                let k = (self.subint@.len() - len_of(a)) as nat;
                assert(word_weight(k + 1) == word_base() * word_weight(k));
                assert(words_value(a.subint@) * word_weight(k) * word_base() == words_value(
                    a.subint@,
                ) * (word_base() * word_weight(k))) by (nonlinear_arith);
            }
            self.subint.push(0);
            assert(self.subint@.len() - len_of(a) == (self.subint@.len() - 1 - len_of(a)) + 1);
        }
    }

    /// Adds `rhs` into `self` in place.
    pub fn add_assign(&mut self, rhs: &Component)
        ensures
            is_sum(*final(self), *old(self), *rhs),
    {
        let ghost a = *self;
        self.pad_to(rhs.subint.len());
        let n = self.subint.len();
        let rl = rhs.subint.len();
        let ghost s0 = self.subint@;
        let mut carry: u64 = 0;
        let mut i: usize = rl;
        while i > 0
            invariant
                0 <= i <= rl <= n == self.subint.len(),
                rl == rhs.subint.len(),
                carry <= 1,
                self.int == a.int,
                s0.len() == n,
                forall|k: int| 0 <= k < i ==> self.subint@[k] == s0[k],
                tail_value(self.subint@, i as int) + carry * word_weight((n - i) as nat)
                    == tail_value(s0, i as int) + tail_value(rhs.subint@, i as int) * word_weight(
                    (n - rl) as nat,
                ),
            decreases i,
        {
            i = i - 1;
            let t: u64 = self.subint[i] as u64 + rhs.subint[i] as u64 + carry;
            let new_carry: u64 = if t >= 0x1_0000_0000 {
                1
            } else {
                0
            };
            let word: u32 = (t - new_carry * 0x1_0000_0000) as u32;
            proof {
                let s = self.subint@;
                lemma_tail_update(s, i as int, word, i as int);
                lemma_tail_update(s, i as int, word, i as int + 1);
                let w1 = word_weight((n - 1 - i) as nat);
                lemma_weight_adds((rl - 1 - i) as nat, (n - rl) as nat);
                assert(word_weight((n - i) as nat) == word_base() * w1);
                lemma_carry_step(
                    word as int,
                    new_carry as int,
                    carry as int,
                    s0[i as int] as int,
                    rhs.subint@[i as int] as int,
                    tail_value(s, i + 1),
                    tail_value(s0, i + 1),
                    tail_value(rhs.subint@, i + 1),
                    w1,
                    word_weight((rl - 1 - i) as nat),
                    word_weight((n - rl) as nat),
                );
            }
            self.subint.set(i, word);
            carry = new_carry;
        }
        proof {
            lemma_tail_bounds(self.subint@, 0);
            lemma_chain_result(
                words_value(self.subint@),
                carry as int,
                frac_at(a, n as nat) + frac_at(*rhs, n as nat),
                word_weight(n as nat),
            );
        }
        self.int = wrapping_sum(self.int, rhs.int as i64, carry as i64);
    }

    /// Subtracts `rhs` from `self` in place.
    pub fn sub_assign(&mut self, rhs: &Component)
        ensures
            is_difference(*final(self), *old(self), *rhs),
    {
        let ghost a = *self;
        self.pad_to(rhs.subint.len());
        let n = self.subint.len();
        let rl = rhs.subint.len();
        let ghost s0 = self.subint@;
        let mut borrow: u64 = 0;
        let mut i: usize = rl;
        while i > 0
            invariant
                0 <= i <= rl <= n == self.subint.len(),
                rl == rhs.subint.len(),
                borrow <= 1,
                self.int == a.int,
                s0.len() == n,
                forall|k: int| 0 <= k < i ==> self.subint@[k] == s0[k],
                tail_value(self.subint@, i as int) - borrow * word_weight((n - i) as nat)
                    == tail_value(s0, i as int) - tail_value(rhs.subint@, i as int) * word_weight(
                    (n - rl) as nat,
                ),
            decreases i,
        {
            i = i - 1;
            let top: u64 = self.subint[i] as u64 + 0x1_0000_0000;
            let take: u64 = rhs.subint[i] as u64 + borrow;
            let t: u64 = top - take;
            let new_borrow: u64 = if t >= 0x1_0000_0000 {
                0
            } else {
                1
            };
            let word: u32 = (t + new_borrow * 0x1_0000_0000 - 0x1_0000_0000) as u32;
            proof {
                let s = self.subint@;
                lemma_tail_update(s, i as int, word, i as int);
                lemma_tail_update(s, i as int, word, i as int + 1);
                let w1 = word_weight((n - 1 - i) as nat);
                lemma_weight_adds((rl - 1 - i) as nat, (n - rl) as nat);
                assert(word_weight((n - i) as nat) == word_base() * w1);
                lemma_borrow_step(
                    word as int,
                    new_borrow as int,
                    borrow as int,
                    s0[i as int] as int,
                    rhs.subint@[i as int] as int,
                    tail_value(s, i + 1),
                    tail_value(s0, i + 1),
                    tail_value(rhs.subint@, i + 1),
                    w1,
                    word_weight((rl - 1 - i) as nat),
                    word_weight((n - rl) as nat),
                );
            }
            self.subint.set(i, word);
            borrow = new_borrow;
        }
        proof {
            lemma_tail_bounds(self.subint@, 0);
            let d = word_weight(n as nat);
            assert(-(borrow as int) * d == -(borrow * d)) by (nonlinear_arith);
            lemma_chain_result(
                words_value(self.subint@),
                -(borrow as int),
                frac_at(a, n as nat) - frac_at(*rhs, n as nat),
                d,
            );
        }
        self.int = wrapping_sum(self.int, -(rhs.int as i64), -(borrow as i64));
    }

    /// The full product of the fractional words of `self` and `rhs`, by
    /// long multiplication in base 2^32; the result's whole part is zero.
    pub fn mul(&self, rhs: &Component) -> (r: Component)
        requires
            len_of(*self) + len_of(*rhs) <= usize::MAX,
        ensures
            is_product(r, *self, *rhs),
    {
        let m = self.subint.len();
        let n = rhs.subint.len();
        let total = m + n;
        let mut out: Vec<u32> = Vec::new();
        while out.len() < total
            invariant
                out.len() <= total,
                forall|k: int| 0 <= k < out.len() ==> out@[k] == 0,
            decreases total - out.len(),
        {
            out.push(0);
        }
        let ghost a = self.subint@;
        let ghost b = rhs.subint@;
        proof {
            lemma_tail_zeros(out@, m as int);
        }
        let mut r: usize = 0;
        while r < m
            invariant
                m == a.len(),
                n == b.len(),
                total == m + n,
                a == self.subint@,
                b == rhs.subint@,
                r <= m,
                out.len() == total,
                forall|k: int| 0 <= k < m - r ==> out@[k] == 0,
                tail_value(out@, m - r) == tail_value(a, m - r) * words_value(b),
            decreases m - r,
        {
            let d = self.subint[m - 1 - r];
            let base = m - r;
            let ghost start = out@;
            let mut carry: u64 = 0;
            let mut j: usize = n;
            while j > 0
                invariant
                    m == a.len(),
                    n == b.len(),
                    total == m + n,
                    b == rhs.subint@,
                    r < m,
                    base == m - r,
                    out.len() == total,
                    start.len() == total,
                    j <= n,
                    carry < 0x1_0000_0000,
                    forall|k: int| 0 <= k < base + j ==> out@[k] == start[k],
                    tail_value(out@, base + j) + carry * word_weight((n - j + r) as nat)
                        == tail_value(start, base + j) + d * tail_value(b, j as int) * word_weight(
                        r as nat,
                    ),
                decreases j,
            {
                j = j - 1;
                let k = base + j;
                let bj = rhs.subint[j];
                proof {
                    assert(d * bj <= 0xffff_fffe_0000_0001) by (nonlinear_arith)
                        requires
                            d <= 0xffff_ffff,
                            bj <= 0xffff_ffff,
                    ;
                }
                let t: u64 = out[k] as u64 + (d as u64) * (bj as u64) + carry;
                let word: u32 = (t % 0x1_0000_0000) as u32;
                let next: u64 = t / 0x1_0000_0000;
                proof {
                    lemma_fundamental_div_mod(t as int, 0x1_0000_0000);
                    let o = out@;
                    lemma_tail_update(o, k as int, word, k as int);
                    let w1 = word_weight((n - 1 - j + r) as nat);
                    lemma_weight_adds((n - 1 - j) as nat, r as nat);
                    assert(word_weight((n - j + r) as nat) == word_base() * w1);
                    lemma_product_step(
                        word as int,
                        next as int,
                        carry as int,
                        start[k as int] as int,
                        d as int,
                        bj as int,
                        tail_value(o, k + 1),
                        tail_value(start, k + 1),
                        tail_value(b, j + 1),
                        w1,
                        word_weight((n - 1 - j) as nat),
                        word_weight(r as nat),
                    );
                }
                out.set(k, word);
                carry = next;
            }
            proof {
                let o = out@;
                lemma_tail_update(o, base - 1, carry as u32, base - 1);
                let tb = words_value(b);
                let ta = tail_value(a, base as int);
                assert(a[base - 1] == d);
                assert((d * word_weight(r as nat) + ta) * tb == ta * tb + d * tb * word_weight(
                    r as nat,
                )) by (nonlinear_arith);
            }
            out.set(base - 1, carry as u32);
            assert forall|k: int| 0 <= k < m - (r + 1) implies out@[k] == 0 by {
                assert(out@[k] == start[k]);
            }
            r = r + 1;
        }
        Component { int: 0, subint: out }
    }

    /// The whole number `whole`, with no fractional words.
    pub fn from_int(whole: i32) -> (r: Component)
        ensures
            r.int == whole,
            len_of(r) == 0,
    {
        Component { int: whole, subint: Vec::new() }
    }

    /// A copy of `self`.
    pub fn duplicate(&self) -> (r: Component)
        ensures
            r.int == self.int,
            r.subint@ == self.subint@,
    {
        let mut words: Vec<u32> = Vec::new();
        let mut i: usize = 0;
        while i < self.subint.len()
            invariant
                i <= self.subint.len(),
                words@ == self.subint@.subrange(0, i as int),
            decreases self.subint.len() - i,
        {
            words.push(self.subint[i]);
            i = i + 1;
        }
        assert(words@ == self.subint@);
        Component { int: self.int, subint: words }
    }

    /// `self + rhs` as a new value.
    pub fn add(&self, rhs: &Component) -> (r: Component)
        ensures
            is_sum(r, *self, *rhs),
    {
        let mut r = self.duplicate();
        r.add_assign(rhs);
        r
    }

    /// `self - rhs` as a new value.
    pub fn sub(&self, rhs: &Component) -> (r: Component)
        ensures
            is_difference(r, *self, *rhs),
    {
        let mut r = self.duplicate();
        r.sub_assign(rhs);
        r
    }
}

impl Default for Component {
    /// Zero, with no fractional words.
    fn default() -> (r: Component)
        ensures
            r.int == 0,
            len_of(r) == 0,
    {
        Component::from_int(0)
    }
}

impl core::ops::AddAssign<&Component> for Component {
    fn add_assign(&mut self, rhs: &Component)
        ensures
            is_sum(*final(self), *old(self), *rhs),
    {
        Component::add_assign(self, rhs)
    }
}

impl core::ops::SubAssign<&Component> for Component {
    fn sub_assign(&mut self, rhs: &Component)
        ensures
            is_difference(*final(self), *old(self), *rhs),
    {
        Component::sub_assign(self, rhs)
    }
}

/// An extended-precision complex number `real + imag * i`.
#[derive(Clone, Debug)]
pub struct Complex {
    pub real: Component,
    pub imag: Component,
}

impl Complex {
    /// The complex number `re + im * i`.
    pub fn new(re: Component, im: Component) -> (r: Complex)
        ensures
            r.real == re,
            r.imag == im,
    {
        Complex { real: re, imag: im }
    }

    /// The square step of the iteration: with `s = real + imag` and
    /// `d = real - imag`, the real part is the product `s * d` (of the
    /// fractional words, as [`Component::mul`] defines it) and the imaginary
    /// part is `s + s`. The imaginary part is `2 (a + b)`, not the `2 a b` of
    /// the true square.
    pub fn square(&self) -> (r: Complex)
        requires
            2 * width(self.real, self.imag) <= usize::MAX,
        ensures
            ({
                let (a, b) = (self.real, self.imag);
                let n = width(a, b);
                let s = sum_frac(a, b);
                &&& r.real.int == 0
                &&& len_of(r.real) == 2 * n
                &&& words_value(r.real.subint@) == s * difference_frac(a, b)
                &&& len_of(r.imag) == n
                &&& words_value(r.imag.subint@) == (2 * s) % word_weight(n)
                &&& r.imag.int == wrap_i32(2 * sum_int(a, b) + (2 * s) / word_weight(n))
            }),
    {
        let s = self.real.add(&self.imag);
        let d = self.real.sub(&self.imag);
        let re = s.mul(&d);
        let im = s.add(&s);
        proof {
            let n = width(self.real, self.imag);
            assert(width(s, s) == n);
            lemma_weight_pos(n);
            assert(frac_at(s, n) == words_value(s.subint@)) by {
                assert(word_weight(0) == 1);
                assert((n - len_of(s)) as nat == 0);
            }
        }
        Complex { real: re, imag: im }
    }
}

impl Default for Complex {
    /// `0 + 0 i`.
    fn default() -> (r: Complex)
        ensures
            r.real.int == 0 && len_of(r.real) == 0,
            r.imag.int == 0 && len_of(r.imag) == 0,
    {
        Complex { real: Component::from_int(0), imag: Component::from_int(0) }
    }
}

} // verus!
