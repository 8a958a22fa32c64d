//! Arithmetic and rotations on `w`-bit words, held in the low bits of a `u128`.

use vstd::prelude::*;

verus! {

/// The widest word that can be held: words live in a `u128`.
pub const MAX_WORD_BITS: u128 = 128;

/// The mask that keeps the low `w` bits.
pub open spec fn word_mask(w: u128) -> u128 {
    if w >= 128 {
        0xffff_ffff_ffff_ffff_ffff_ffff_ffff_ffffu128
    } else {
        ((1u128 << w) - 1) as u128
    }
}

/// `x` is a word of width `w`: no bit at or above position `w` is set.
pub open spec fn is_word(x: u128, w: u128) -> bool {
    x & word_mask(w) == x
}

/// Addition modulo `2^w`.
pub open spec fn add_w(a: u128, b: u128, w: u128) -> u128 {
    (((a + b) % (u128::MAX as int + 1)) as u128) & word_mask(w)
}

/// Subtraction modulo `2^w`.
pub open spec fn sub_w(a: u128, b: u128, w: u128) -> u128 {
    (((a + (u128::MAX as int + 1) - b) % (u128::MAX as int + 1)) as u128) & word_mask(w)
}

/// Cyclic left rotation of the `w`-bit word `x` by `y mod w` positions.
pub open spec fn rotl(x: u128, y: u128, w: u128) -> u128 {
    let s = y % w;
    if s == 0 {
        x & word_mask(w)
    } else {
        ((x << s) | (x >> ((w - s) as u128))) & word_mask(w)
    }
}

/// Cyclic right rotation of the `w`-bit word `x` by `y mod w` positions.
pub open spec fn rotr(x: u128, y: u128, w: u128) -> u128 {
    let s = y % w;
    if s == 0 {
        x & word_mask(w)
    } else {
        ((x >> s) | (x << ((w - s) as u128))) & word_mask(w)
    }
}

pub fn mask(w: u128) -> (r: u128)
    requires
        0 < w <= MAX_WORD_BITS,
    ensures
        r == word_mask(w),
{
    if w >= 128 {
        0xffff_ffff_ffff_ffff_ffff_ffff_ffff_ffffu128
    } else {
        assert(1u128 << w >= 1) by (bit_vector)
            requires
                w < 128,
        ;
        (1u128 << w) - 1
    }
}

pub fn add_word(a: u128, b: u128, w: u128) -> (r: u128)
    requires
        0 < w <= MAX_WORD_BITS,
    ensures
        r == add_w(a, b, w),
        is_word(r, w),
{
    let r = a.wrapping_add(b) & mask(w);
    proof {
        lemma_results_are_words(a, b, w);
    }
    r
}

pub fn sub_word(a: u128, b: u128, w: u128) -> (r: u128)
    requires
        0 < w <= MAX_WORD_BITS,
    ensures
        r == sub_w(a, b, w),
        is_word(r, w),
{
    let r = a.wrapping_sub(b) & mask(w);
    proof {
        lemma_results_are_words(a, b, w);
    }
    r
}

pub fn rotate_left(x: u128, y: u128, w: u128) -> (r: u128)
    requires
        0 < w <= MAX_WORD_BITS,
    ensures
        r == rotl(x, y, w),
        is_word(r, w),
{
    let s = y % w;
    let m = mask(w);
    let r = if s == 0 {
        x & m
    } else {
        ((x << s) | (x >> (w - s))) & m
    };
    proof {
        lemma_results_are_words(x, y, w);
    }
    r
}

pub fn rotate_right(x: u128, y: u128, w: u128) -> (r: u128)
    requires
        0 < w <= MAX_WORD_BITS,
    ensures
        r == rotr(x, y, w),
        is_word(r, w),
{
    let s = y % w;
    let m = mask(w);
    let r = if s == 0 {
        x & m
    } else {
        ((x >> s) | (x << (w - s))) & m
    };
    proof {
        lemma_results_are_words(x, y, w);
    }
    r
}

/// Keeping the low `w` bits gives a `w`-bit word.
pub proof fn lemma_masked_is_word(x: u128, w: u128)
    requires
        0 < w <= MAX_WORD_BITS,
    ensures
        is_word(x & word_mask(w), w),
{
    let m = word_mask(w);
    assert((x & m) & m == x & m) by (bit_vector);
}

/// Rotations, sums and differences modulo `2^w` are `w`-bit words.
pub proof fn lemma_results_are_words(x: u128, y: u128, w: u128)
    requires
        0 < w <= MAX_WORD_BITS,
    ensures
        is_word(rotl(x, y, w), w),
        is_word(rotr(x, y, w), w),
        is_word(add_w(x, y, w), w),
        is_word(sub_w(x, y, w), w),
{
    let s = y % w;
    let d = (w - s) as u128;
    lemma_masked_is_word(x, w);
    lemma_masked_is_word((x << s) | (x >> d), w);
    lemma_masked_is_word((x >> s) | (x << d), w);
    lemma_masked_is_word(((x + y) % (u128::MAX as int + 1)) as u128, w);
    lemma_masked_is_word(((x + (u128::MAX as int + 1) - y) % (u128::MAX as int + 1)) as u128, w);
}

/// Rotating right undoes rotating left by the same amount.
pub proof fn lemma_rotr_rotl(x: u128, y: u128, w: u128)
    requires
        0 < w <= MAX_WORD_BITS,
        is_word(x, w),
    ensures
        rotr(rotl(x, y, w), y, w) == x,
{
    let s = y % w;
    let d = (w - s) as u128;
    let m = word_mask(w);
    assert(s < w);
    if s != 0 {
        if w == 128 {
            lemma_rot_full(x, s, d);
        } else {
            lemma_rot_part(x, s, d, w);
        }
    } else {
        assert(x & m == x ==> (x & m) & m == x) by (bit_vector);
    }
}

#[verifier::spinoff_prover]
#[verifier::rlimit(100)]
proof fn lemma_rot_full(x: u128, s: u128, d: u128)
    by (bit_vector)
    requires
        0 < s < 128,
        d == 128 - s,
    ensures
        (((((x << s) | (x >> d)) & 0xffff_ffff_ffff_ffff_ffff_ffff_ffff_ffffu128) >> s)
            | ((((x << s) | (x >> d)) & 0xffff_ffff_ffff_ffff_ffff_ffff_ffff_ffffu128) << d))
            & 0xffff_ffff_ffff_ffff_ffff_ffff_ffff_ffffu128 == x,
{
}

#[verifier::spinoff_prover]
#[verifier::rlimit(100)]
proof fn lemma_rot_part(x: u128, s: u128, d: u128, w: u128)
    by (bit_vector)
    requires
        0 < s < w,
        w < 128,
        d == w - s,
        x & (((1u128 << w) - 1) as u128) == x,
    ensures
        (((((x << s) | (x >> d)) & (((1u128 << w) - 1) as u128)) >> s)
            | ((((x << s) | (x >> d)) & (((1u128 << w) - 1) as u128)) << d))
            & (((1u128 << w) - 1) as u128) == x,
{
}

/// Subtracting `k` undoes adding `k`, modulo `2^w`.
pub proof fn lemma_sub_add(a: u128, k: u128, w: u128)
    requires
        0 < w <= MAX_WORD_BITS,
        is_word(a, w),
    ensures
        sub_w(add_w(a, k, w), k, w) == a,
{
    let m = word_mask(w);
    let s = ((a + k) % (u128::MAX as int + 1)) as u128;
    let t = s & m;
    assert(t == add_w(a, k, w));
    assert(sub_w(t, k, w) == (((t + (u128::MAX as int + 1) - k) % (u128::MAX as int + 1)) as u128) & m);
    if w == 128 {
        assert(m == 0xffff_ffff_ffff_ffff_ffff_ffff_ffff_ffffu128);
    } else {
        assert(m == ((1u128 << w) - 1) as u128);
    }
    assert((((t + (u128::MAX as int + 1) - k) % (u128::MAX as int + 1)) as u128) & m == a)
        by (bit_vector)
        requires
            0 < w <= 128,
            a & m == a,
            s == ((a + k) % (u128::MAX as int + 1)) as u128,
            t == s & m,
            w == 128 ==> m == 0xffff_ffff_ffff_ffff_ffff_ffff_ffff_ffffu128,
            w < 128 ==> m == ((1u128 << w) - 1) as u128,
    ;
}

} // verus!
