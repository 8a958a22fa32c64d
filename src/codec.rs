//! Little-endian packing of bytes into words and back.

use vstd::prelude::*;
use crate::word::{is_word, word_mask};

verus! {

/// The word whose byte `k` (from the least significant end) is `bs[k]`;
/// positions past the end of `bs` are zero.
pub open spec fn word_from(bs: Seq<u8>) -> u128
    decreases bs.len(),
{
    if bs.len() == 0 {
        0
    } else {
        (word_from(bs.subrange(1, bs.len() as int)) << 8u128) | (bs[0] as u128)
    }
}

/// The `n` low bytes of `x`, least significant first.
pub open spec fn bytes_of(x: u128, n: nat) -> Seq<u8> {
    Seq::new(n, |k: int| ((x >> (8 * k) as u128) & 0xff) as u8)
}

/// The bytes of `bs` from `lo` up to `hi`, both clipped to the end of `bs`.
pub open spec fn clip(bs: Seq<u8>, lo: int, hi: int) -> Seq<u8> {
    let e = if hi <= bs.len() { hi } else { bs.len() as int };
    let b = if lo <= e { lo } else { e };
    bs.subrange(b, e)
}

/// Number of `u`-byte chunks needed to hold `n` bytes: `ceil(n / u)`.
pub open spec fn chunk_count(n: nat, u: nat) -> nat {
    if u == 0 {
        0
    } else {
        ((n + u - 1) / u as int) as nat
    }
}

/// `bs` cut into `u`-byte chunks, each packed into one word; a short last
/// chunk is zero-extended.
pub open spec fn words_of(bs: Seq<u8>, u: nat) -> Seq<u128> {
    Seq::new(chunk_count(bs.len(), u), |i: int| word_from(clip(bs, i * u, (i + 1) * u)))
}

/// Packs `bs[lo..hi]` into one word, `bs[lo]` least significant.
pub fn pack_word(bs: &[u8], lo: usize, hi: usize) -> (r: u128)
    requires
        lo <= hi <= bs@.len(),
    ensures
        r == word_from(bs@.subrange(lo as int, hi as int)),
{
    let mut acc: u128 = 0;
    let mut k: usize = hi;
    assert(bs@.subrange(hi as int, hi as int).len() == 0);
    while k > lo
        invariant
            lo <= k <= hi <= bs@.len(),
            acc == word_from(bs@.subrange(k as int, hi as int)),
        decreases k,
    {
        let ghost prev = bs@.subrange(k as int, hi as int);
        k = k - 1;
        proof {
            let cur = bs@.subrange(k as int, hi as int);
            assert(cur.subrange(1, cur.len() as int) =~= prev);
        }
        acc = (acc << 8u128) | (bs[k] as u128);
    }
    acc
}

/// Groups `bs` into `u`-byte chunks, each packed little-endian into one word;
/// a short last chunk is zero-extended.
pub fn bytes_to_words(bs: &[u8], u: usize) -> (r: Vec<u128>)
    requires
        0 < u,
    ensures
        r@ == words_of(bs@, u as nat),
{
    let n = bs.len();
    let mut words: Vec<u128> = Vec::new();
    let mut lo: usize = 0;
    let ghost count = chunk_count(n as nat, u as nat);
    proof {
        lemma_chunk_count(n as nat, u as nat, 0);
    }
    while lo < n
        invariant
            n == bs@.len(),
            0 < u,
            lo <= n,
            lo < n ==> lo == words@.len() * u,
            lo >= n ==> n <= words@.len() * u,
            words@.len() <= count,
            lo < n ==> words@.len() < count,
            lo >= n ==> words@.len() == count,
            count == chunk_count(n as nat, u as nat),
            forall|i: int| 0 <= i < words@.len() ==>
                #[trigger] words@[i] == word_from(clip(bs@, i * u, (i + 1) * u)),
        decreases n - lo,
    {
        let hi = if n - lo < u { n } else { lo + u };
        let ghost i = words@.len() as int;
        let wd = pack_word(bs, lo, hi);
        proof {
            assert((i + 1) * u == i * u + u) by (nonlinear_arith);
        }
        words.push(wd);
        lo = hi;
        proof {
            lemma_chunk_count(n as nat, u as nat, i as nat + 1);
        }
    }
    assert(words@ =~= words_of(bs@, u as nat));
    words
}

/// The `i`-th chunk starts inside the input exactly when `i < ceil(n / u)`.
pub proof fn lemma_chunk_count(n: nat, u: nat, i: nat)
    requires
        0 < u,
    ensures
        (i * u < n) == (i < chunk_count(n, u)),
{
    let c = (n + u - 1) / u as int;
    assert(c * u <= n + u - 1 < c * u + u) by (nonlinear_arith)
        requires
            0 < u,
            c == (n + u - 1) / u as int,
    ;
    if i < c {
        assert(i * u + u <= c * u) by (nonlinear_arith)
            requires
                i + 1 <= c,
                0 < u,
        ;
    } else {
        assert(i * u >= c * u) by (nonlinear_arith)
            requires
                i >= c,
                0 < u,
        ;
    }
}

/// Emits the `u` low bytes of `x`, least significant first.
pub fn word_to_bytes(x: u128, u: usize, out: &mut Vec<u8>)
    requires
        u <= 16,
    ensures
        final(out)@ == old(out)@ + bytes_of(x, u as nat),
{
    let mut k: usize = 0;
    let ghost start = out@;
    while k < u
        invariant
            k <= u <= 16,
            out@ == start + bytes_of(x, k as nat),
        decreases u - k,
    {
        let shift: u128 = 8 * k as u128;
        out.push(((x >> shift) & 0xff) as u8);
        k = k + 1;
        assert(out@ =~= start + bytes_of(x, k as nat));
    }
}

/// Dropping the first byte of `bytes_of(x, n)` leaves the bytes of `x >> 8`.
proof fn lemma_bytes_of_tail(x: u128, n: nat)
    requires
        1 <= n <= 16,
    ensures
        bytes_of(x, n).subrange(1, n as int) =~= bytes_of(x >> 8u128, (n - 1) as nat),
{
    assert forall|k: int| 0 <= k < n - 1 implies
        #[trigger] bytes_of(x, n).subrange(1, n as int)[k] == bytes_of(x >> 8u128, (n - 1) as nat)[k] by {
        let a = (8 * (k + 1)) as u128;
        let b = (8 * k) as u128;
        assert((x >> a) & 0xff == ((x >> 8u128) >> b) & 0xff) by (bit_vector)
            requires
                b < 120,
                a == b + 8,
        ;
    }
}

/// Unpacking `n` bytes of `x` and packing them again keeps the low `8n` bits.
pub proof fn lemma_word_from_bytes_of(x: u128, n: nat)
    requires
        n <= 16,
    ensures
        word_from(bytes_of(x, n)) == x & word_mask((8 * n) as u128),
    decreases n,
{
    if n == 0 {
        assert(bytes_of(x, 0) =~= Seq::<u8>::empty());
        assert(x & word_mask(0) == 0) by (bit_vector);
    } else {
        lemma_bytes_of_tail(x, n);
        lemma_word_from_bytes_of(x >> 8u128, (n - 1) as nat);
        let m = (8 * (n - 1)) as u128;
        let y = x >> 8u128;
        assert((((y & word_mask(m)) << 8u128) | ((((x >> 0u128) & 0xff) as u8) as u128)) == x & word_mask((m + 8) as u128))
            by (bit_vector)
            requires
                m <= 120,
                y == x >> 8u128,
        ;
    }
}

/// Packing `bs` gives a word of `8 * bs.len()` bits.
pub proof fn lemma_word_from_width(bs: Seq<u8>)
    requires
        bs.len() <= 16,
    ensures
        is_word(word_from(bs), (8 * bs.len()) as u128),
    decreases bs.len(),
{
    if bs.len() > 0 {
        let tail = bs.subrange(1, bs.len() as int);
        lemma_word_from_width(tail);
        let r = word_from(tail);
        let m = (8 * tail.len()) as u128;
        let b = bs[0];
        assert(r & word_mask(m) == r ==> ((r << 8u128) | (b as u128)) & word_mask((m + 8) as u128)
            == ((r << 8u128) | (b as u128))) by (bit_vector)
            requires
                m <= 120,
        ;
    } else {
        assert(0u128 & word_mask(0) == 0) by (bit_vector);
    }
}

/// Packing `bs` and unpacking as many bytes gives `bs` back.
pub proof fn lemma_bytes_of_word_from(bs: Seq<u8>)
    requires
        bs.len() <= 16,
    ensures
        bytes_of(word_from(bs), bs.len()) == bs,
    decreases bs.len(),
{
    let n = bs.len();
    if n == 0 {
        assert(bytes_of(word_from(bs), 0) =~= bs);
    } else {
        let tail = bs.subrange(1, n as int);
        let r = word_from(tail);
        let x = word_from(bs);
        let b = bs[0];
        lemma_bytes_of_word_from(tail);
        lemma_word_from_width(tail);
        lemma_bytes_of_tail(x, n);
        let m = (8 * tail.len()) as u128;
        assert(r & word_mask(m) == r ==> ((r << 8u128) | (b as u128)) >> 8u128 == r) by (bit_vector)
            requires
                m <= 120,
        ;
        assert((((r << 8u128) | (b as u128)) >> 0u128) & 0xff == b as u128) by (bit_vector);
        assert(bytes_of(x, n)[0] == b);
        assert(bytes_of(x, n) =~= bs) by {
            assert forall|k: int| 0 <= k < n implies #[trigger] bytes_of(x, n)[k] == bs[k] by {
                if k > 0 {
                    assert(bytes_of(x, n)[k] == bytes_of(x, n).subrange(1, n as int)[k - 1]);
                    assert(bs[k] == tail[k - 1]);
                }
            }
        }
    }
}

} // verus!
