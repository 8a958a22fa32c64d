//! What holds of every key, every width and every round count: decryption
//! undoes encryption, and ciphertext comes in whole blocks.

use vstd::prelude::*;
use crate::cipher::{
    block, block_bytes, block_count, decode_block, decode_blocks, decrypt_rounds, encode_block,
    encode_blocks, encrypt_rounds, first_word, rc5_decode, rc5_encode, second_word, held_width,
};
use crate::codec::{
    bytes_of, chunk_count, clip, lemma_bytes_of_word_from, lemma_word_from_bytes_of,
    lemma_word_from_width,
};
use crate::schedule::{lemma_constants_exist, subkeys};
use crate::word::{
    add_w, is_word, lemma_results_are_words, lemma_rotr_rotl, lemma_sub_add, rotl, word_mask,
};

verus! {

proof fn lemma_xor_word(x: u128, y: u128, w: u128)
    requires
        is_word(x, w),
        is_word(y, w),
    ensures
        is_word(x ^ y, w),
        (x ^ y) ^ y == x,
{
    let m = word_mask(w);
    assert(x & m == x && y & m == y ==> (x ^ y) & m == x ^ y) by (bit_vector);
    assert((x ^ y) ^ y == x) by (bit_vector);
}

/// On two `w`-bit words, decryption undoes encryption for any subkey table
/// and any number of rounds; encryption gives `w`-bit words.
pub proof fn lemma_decrypt_encrypt(s: Seq<u128>, w: u128, a: u128, b: u128, n: nat)
    requires
        held_width(w),
        is_word(a, w),
        is_word(b, w),
    ensures
        is_word(encrypt_rounds(s, w, a, b, n).0, w),
        is_word(encrypt_rounds(s, w, a, b, n).1, w),
        decrypt_rounds(s, w, encrypt_rounds(s, w, a, b, n).0, encrypt_rounds(s, w, a, b, n).1, n)
            == (a, b),
    decreases n,
{
    if n == 0 {
        lemma_sub_add(a, s[0], w);
        lemma_sub_add(b, s[1], w);
        lemma_results_are_words(a, s[0], w);
        lemma_results_are_words(b, s[1], w);
    } else {
        lemma_decrypt_encrypt(s, w, a, b, (n - 1) as nat);
        let (a0, b0) = encrypt_rounds(s, w, a, b, (n - 1) as nat);
        let k0 = s[2 * n as int];
        let k1 = s[2 * n as int + 1];
        let x = rotl(a0 ^ b0, b0, w);
        let a1 = add_w(x, k0, w);
        let y = rotl(b0 ^ a1, a1, w);
        lemma_results_are_words(a0 ^ b0, b0, w);
        lemma_results_are_words(x, k0, w);
        lemma_results_are_words(b0 ^ a1, a1, w);
        lemma_results_are_words(y, k1, w);
        lemma_xor_word(b0, a1, w);
        lemma_xor_word(a0, b0, w);
        lemma_sub_add(y, k1, w);
        lemma_rotr_rotl(b0 ^ a1, a1, w);
        lemma_sub_add(x, k0, w);
        lemma_rotr_rotl(a0 ^ b0, b0, w);
    }
}

/// On a full block, decoding undoes encoding; the encoding is one block long.
pub proof fn lemma_decode_encode_block(s: Seq<u128>, w: u128, r: nat, blk: Seq<u8>)
    requires
        held_width(w),
        blk.len() == block_bytes(w),
    ensures
        encode_block(s, w, r, blk).len() == block_bytes(w),
        decode_block(s, w, r, encode_block(s, w, r, blk)) == blk,
{
    let u = (w / 8) as nat;
    let lo = blk.subrange(0, u as int);
    let hi = blk.subrange(u as int, 2 * u as int);
    assert(clip(blk, 0, u as int) == lo);
    assert(clip(blk, u as int, 2 * u as int) == hi);
    let a = first_word(blk, u);
    let b = second_word(blk, u);
    lemma_word_from_width(lo);
    lemma_word_from_width(hi);
    assert(8 * u == w);
    lemma_decrypt_encrypt(s, w, a, b, r);
    let (x, y) = encrypt_rounds(s, w, a, b, r);
    let ct = encode_block(s, w, r, blk);
    assert(ct == bytes_of(x, u) + bytes_of(y, u));
    assert(clip(ct, 0, u as int) =~= bytes_of(x, u));
    assert(clip(ct, u as int, 2 * u as int) =~= bytes_of(y, u));
    lemma_word_from_bytes_of(x, u);
    lemma_word_from_bytes_of(y, u);
    assert(first_word(ct, u) == x);
    assert(second_word(ct, u) == y);
    lemma_bytes_of_word_from(lo);
    lemma_bytes_of_word_from(hi);
    assert(decode_block(s, w, r, ct) =~= blk);
}

/// The encoding of the first `k` blocks is `k` blocks long, and its `i`-th
/// block is the encoding of the `i`-th block of the input.
pub proof fn lemma_encode_blocks_shape(s: Seq<u128>, w: u128, r: nat, data: Seq<u8>, k: nat, i: nat)
    requires
        held_width(w),
        i < k,
    ensures
        encode_blocks(s, w, r, data, k).len() == k * block_bytes(w),
        block(encode_blocks(s, w, r, data, k), (w / 8) as nat, i)
            == encode_block(s, w, r, block(data, (w / 8) as nat, i)),
    decreases k,
{
    let bs = block_bytes(w);
    let u = (w / 8) as nat;
    let prev = encode_blocks(s, w, r, data, (k - 1) as nat);
    let last = encode_block(s, w, r, block(data, u, (k - 1) as nat));
    assert(last.len() == bs);
    if k == 1 {
        assert(prev.len() == 0);
    } else if i < k - 1 {
        lemma_encode_blocks_shape(s, w, r, data, (k - 1) as nat, i);
    } else {
        lemma_encode_blocks_shape(s, w, r, data, (k - 1) as nat, 0);
    }
    assert(prev.len() == (k - 1) * bs);
    assert(k * bs == (k - 1) * bs + bs) by (nonlinear_arith);
    assert(i * bs + bs <= k * bs) by (nonlinear_arith)
        requires i < k;
    assert((i + 1) * bs == i * bs + bs) by (nonlinear_arith);
    let all = encode_blocks(s, w, r, data, k);
    assert(all == prev + last);
    if i < k - 1 {
        assert(i * bs + bs <= (k - 1) * bs) by (nonlinear_arith)
            requires i < k - 1;
        assert(block(all, u, i) =~= block(prev, u, i));
    } else {
        assert(block(all, u, i) =~= last);
    }
}

/// Decoding the first `k` blocks of an encoding of whole blocks gives back
/// the first `k` blocks of the input.
proof fn lemma_decode_encode_blocks(s: Seq<u128>, w: u128, r: nat, pt: Seq<u8>, n: nat, k: nat)
    requires
        held_width(w),
        pt.len() == n * block_bytes(w),
        k <= n,
    ensures
        decode_blocks(s, w, r, encode_blocks(s, w, r, pt, n), k)
            == pt.subrange(0, (k * block_bytes(w)) as int),
    decreases k,
{
    let bs = block_bytes(w);
    let u = (w / 8) as nat;
    let ct = encode_blocks(s, w, r, pt, n);
    if k == 0 {
        assert(pt.subrange(0, 0) =~= Seq::<u8>::empty());
    } else {
        lemma_decode_encode_blocks(s, w, r, pt, n, (k - 1) as nat);
        lemma_encode_blocks_shape(s, w, r, pt, n, (k - 1) as nat);
        assert(k * bs == (k - 1) * bs + bs) by (nonlinear_arith);
        assert(k * bs <= n * bs) by (nonlinear_arith)
            requires k <= n;
        let b = block(pt, u, (k - 1) as nat);
        assert(b == pt.subrange(((k - 1) * bs) as int, (k * bs) as int));
        lemma_decode_encode_block(s, w, r, b);
        assert(decode_blocks(s, w, r, ct, k) =~= pt.subrange(0, (k * bs) as int));
    }
}

proof fn lemma_whole_blocks(n: nat, bs: nat)
    requires
        0 < bs,
    ensures
        chunk_count(n * bs, bs) == n,
{
    assert((n * bs + bs - 1) / bs as int == n) by (nonlinear_arith)
        requires 0 < bs;
}

/// Round trip: for every word width, round count and key, decoding the
/// encoding of a plaintext made of whole blocks gives the plaintext back.
pub proof fn lemma_round_trip(w: u128, r: nat, key: Seq<u8>, pt: Seq<u8>)
    requires
        held_width(w),
        pt.len() % block_bytes(w) == 0,
    ensures
        rc5_encode(w, r, key, pt) is Some,
        rc5_decode(w, r, key, rc5_encode(w, r, key, pt)->0) == Some(pt),
{
    lemma_constants_exist(w);
    let bs = block_bytes(w);
    let s = subkeys(key, w, r)->0;
    let n = pt.len() / bs;
    assert(pt.len() == n * bs) by (nonlinear_arith)
        requires pt.len() % bs == 0, n == pt.len() / bs, 0 < bs;
    lemma_whole_blocks(n, bs);
    let ct = encode_blocks(s, w, r, pt, n);
    if n > 0 {
        lemma_encode_blocks_shape(s, w, r, pt, n, 0);
    }
    assert(ct.len() == n * bs);
    lemma_decode_encode_blocks(s, w, r, pt, n, n);
    assert(pt.subrange(0, pt.len() as int) =~= pt);
}

/// Framing: the ciphertext is the plaintext rounded up to whole blocks of
/// `2u` bytes, so it is never shorter and at most one partial block longer.
pub proof fn lemma_ciphertext_length(w: u128, r: nat, key: Seq<u8>, pt: Seq<u8>)
    requires
        held_width(w),
    ensures
        rc5_encode(w, r, key, pt) is Some,
        rc5_encode(w, r, key, pt)->0.len() == block_count(pt.len(), w) * block_bytes(w),
        rc5_encode(w, r, key, pt)->0.len() % block_bytes(w) == 0,
        pt.len() <= rc5_encode(w, r, key, pt)->0.len() < pt.len() + block_bytes(w),
{
    lemma_constants_exist(w);
    let bs = block_bytes(w);
    let s = subkeys(key, w, r)->0;
    let n = block_count(pt.len(), w);
    if n > 0 {
        lemma_encode_blocks_shape(s, w, r, pt, n, 0);
    } else {
        assert(encode_blocks(s, w, r, pt, 0).len() == 0);
        assert(0 * bs == 0);
    }
    assert(rc5_encode(w, r, key, pt)->0 == encode_blocks(s, w, r, pt, n));
    let len = pt.len();
    assert(n * bs % bs == 0) by (nonlinear_arith)
        requires 0 < bs;
    assert(len <= n * bs < len + bs) by (nonlinear_arith)
        requires 0 < bs, n == (len + bs - 1) / bs as int;
}

} // verus!
