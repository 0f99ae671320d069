//! The mathematical model of a sequence of 32-bit words read as one
//! base-2^32 number, most significant word first, with the lemmas that the
//! carrying arithmetic needs.
use vstd::arithmetic::div_mod::lemma_mod_multiples_vanish;
use vstd::arithmetic::power2::{lemma2_to64, lemma_pow2_adds, pow2};
use vstd::prelude::*;

verus! {

/// One unit of the most significant word position past a single word: `2^32`.
pub open spec fn word_base() -> int {
    0x1_0000_0000
}

/// The weight of a word with `n` words below it: `2^(32 * n)`.
pub open spec fn word_weight(n: nat) -> int
    decreases n,
{
    if n == 0 {
        1
    } else {
        word_base() * word_weight((n - 1) as nat)
    }
}

/// The value of the words of `s` from index `k` to the end, read as a
/// base-2^32 number whose most significant word is `s[k]`.
pub open spec fn tail_value(s: Seq<u32>, k: int) -> int
    decreases s.len() - k,
{
    if 0 <= k < s.len() {
        s[k] * word_weight((s.len() - 1 - k) as nat) + tail_value(s, k + 1)
    } else {
        0
    }
}

/// The value of the whole sequence `s`, most significant word first.
pub open spec fn words_value(s: Seq<u32>) -> int {
    tail_value(s, 0)
}

pub proof fn lemma_weight_pos(n: nat)
    ensures
        word_weight(n) >= 1,
    decreases n,
{
    if n > 0 {
        lemma_weight_pos((n - 1) as nat);
    }
}

/// Weights multiply by adding their word counts.
pub proof fn lemma_weight_adds(a: nat, b: nat)
    ensures
        word_weight(a) * word_weight(b) == word_weight(a + b),
    decreases a,
{
    if a > 0 {
        lemma_weight_adds((a - 1) as nat, b);
        assert(word_weight(a + b) == word_base() * word_weight((a - 1 + b) as nat));
        assert(word_weight(a) * word_weight(b) == word_base() * (word_weight((a - 1) as nat)
            * word_weight(b))) by (nonlinear_arith)
            requires
                word_weight(a) == word_base() * word_weight((a - 1) as nat),
        ;
    }
}

/// A suffix of `len - k` words lies in `[0, 2^(32 (len - k)))`.
pub proof fn lemma_tail_bounds(s: Seq<u32>, k: int)
    requires
        0 <= k <= s.len(),
    ensures
        0 <= tail_value(s, k) < word_weight((s.len() - k) as nat),
    decreases s.len() - k,
{
    if k < s.len() {
        lemma_tail_bounds(s, k + 1);
        let w = word_weight((s.len() - 1 - k) as nat);
        lemma_weight_pos((s.len() - 1 - k) as nat);
        let x = s[k] as int;
        let r = tail_value(s, k + 1);
        assert(0 <= x * w + r < word_base() * w) by (nonlinear_arith)
            requires
                0 <= x < word_base(),
                0 <= r < w,
        ;
    }
}

/// Writing `x` at index `i` changes every suffix that holds index `i` by
/// the difference times that word's weight, and no other suffix.
pub proof fn lemma_tail_update(s: Seq<u32>, i: int, x: u32, k: int)
    requires
        0 <= i < s.len(),
        0 <= k <= s.len(),
    ensures
        k <= i ==> tail_value(s.update(i, x), k) == tail_value(s, k) + (x - s[i])
            * word_weight((s.len() - 1 - i) as nat),
        k > i ==> tail_value(s.update(i, x), k) == tail_value(s, k),
        k == i ==> tail_value(s.update(i, x), k) == x * word_weight((s.len() - 1 - i) as nat)
            + tail_value(s, k + 1),
    decreases s.len() - k,
{
    let t = s.update(i, x);
    if k < s.len() {
        lemma_tail_update(s, i, x, k + 1);
        if k == i {
            let w = word_weight((s.len() - 1 - i) as nat);
            assert(x * w - s[i] * w == (x - s[i]) * w) by (nonlinear_arith);
        }
    }
}

/// Leading zero words add nothing.
pub proof fn lemma_tail_zero_prefix(s: Seq<u32>, k: int, p: int)
    requires
        0 <= k <= p <= s.len(),
        forall|j: int| k <= j < p ==> s[j] == 0,
    ensures
        tail_value(s, k) == tail_value(s, p),
    decreases p - k,
{
    if k < p {
        lemma_tail_zero_prefix(s, k + 1, p);
    }
}

/// Appending a zero word shifts every suffix up by one word.
pub proof fn lemma_tail_push_zero(s: Seq<u32>, k: int)
    requires
        0 <= k <= s.len(),
    ensures
        tail_value(s.push(0), k) == tail_value(s, k) * word_base(),
    decreases s.len() - k,
{
    let t = s.push(0);
    if k < s.len() {
        lemma_tail_push_zero(s, k + 1);
        assert(t[k] == s[k]);
        let w = word_weight((s.len() - 1 - k) as nat);
        assert(word_weight((t.len() - 1 - k) as nat) == word_base() * w);
        assert(s[k] * (word_base() * w) + tail_value(s, k + 1) * word_base() == (s[k] * w
            + tail_value(s, k + 1)) * word_base()) by (nonlinear_arith);
    } else {
        assert(tail_value(t, k + 1) == 0);
        assert(t[k] == 0);
    }
}

/// Two sequences of one length with equal suffix values are equal from there on.
pub proof fn lemma_tail_injective(s: Seq<u32>, t: Seq<u32>, k: int)
    requires
        s.len() == t.len(),
        0 <= k <= s.len(),
        tail_value(s, k) == tail_value(t, k),
    ensures
        forall|j: int| k <= j < s.len() ==> s[j] == t[j],
    decreases s.len() - k,
{
    if k < s.len() {
        let w = word_weight((s.len() - 1 - k) as nat);
        lemma_tail_bounds(s, k + 1);
        lemma_tail_bounds(t, k + 1);
        let a = s[k] as int;
        let b = t[k] as int;
        let ra = tail_value(s, k + 1);
        let rb = tail_value(t, k + 1);
        assert(a == b) by (nonlinear_arith)
            requires
                a * w + ra == b * w + rb,
                0 <= ra < w,
                0 <= rb < w,
        ;
        lemma_tail_injective(s, t, k + 1);
    }
}

/// Two sequences of one length with equal values are equal.
pub proof fn lemma_words_injective(s: Seq<u32>, t: Seq<u32>)
    requires
        s.len() == t.len(),
        words_value(s) == words_value(t),
    ensures
        s == t,
{
    lemma_tail_injective(s, t, 0);
    assert(s =~= t);
}

/// A sequence of zero words is worth zero.
pub proof fn lemma_tail_zeros(s: Seq<u32>, k: int)
    requires
        0 <= k <= s.len(),
        forall|j: int| k <= j < s.len() ==> s[j] == 0,
    ensures
        tail_value(s, k) == 0,
    decreases s.len() - k,
{
    if k < s.len() {
        lemma_tail_zeros(s, k + 1);
    }
}

/// A sequence worth zero holds only zero words.
pub proof fn lemma_words_zero(s: Seq<u32>)
    requires
        words_value(s) == 0,
    ensures
        forall|j: int| 0 <= j < s.len() ==> s[j] == 0,
{
    let z = Seq::new(s.len(), |j: int| 0u32);
    lemma_tail_zeros(z, 0);
    lemma_words_injective(s, z);
}

/// The weight of `n` words is `2^(32 n)`.
pub proof fn lemma_weight_pow2(n: nat)
    ensures
        word_weight(n) == pow2(32 * n),
    decreases n,
{
    lemma2_to64();
    if n > 0 {
        lemma_weight_pow2((n - 1) as nat);
        lemma_pow2_adds(32, 32 * (n - 1) as nat);
        assert(32 + 32 * (n - 1) as nat == 32 * n);
    }
}

/// The least significant word of a suffix is its value modulo `2^32`.
pub proof fn lemma_tail_last(s: Seq<u32>, k: int)
    requires
        0 <= k < s.len(),
    ensures
        tail_value(s, k) % word_base() == s.last() as int,
    decreases s.len() - k,
{
    if k == s.len() - 1 {
        assert(tail_value(s, k + 1) == 0);
    } else {
        lemma_tail_last(s, k + 1);
        let w = word_weight((s.len() - 2 - k) as nat);
        assert(word_weight((s.len() - 1 - k) as nat) == word_base() * w);
        assert(s[k] * (word_base() * w) == word_base() * (s[k] * w)) by (nonlinear_arith);
        lemma_mod_multiples_vanish(s[k] * w, tail_value(s, k + 1), word_base());
    }
}

} // verus!
