//! The RC5 block transform and the cipher's parameters.

use vstd::prelude::*;
use crate::codec::{bytes_of, chunk_count, clip, lemma_chunk_count, pack_word, word_from, word_to_bytes};
use crate::error::Rc5Error;
use crate::keygen::random_bytes;
use crate::laws::lemma_ciphertext_length;
use crate::schedule::{
    initialize_subkeys, lemma_constants_exist, lemma_no_constants_beyond, subkeys, MAX_ROUNDS,
};
use crate::word::{word_mask, mask, MAX_WORD_BITS, add_w, add_word, rotate_left, rotate_right, rotl, rotr, sub_w, sub_word};

verus! {

/// The initial whitening and the first `n` rounds of encryption of the
/// block `(a, b)` under the subkey table `s`.
pub open spec fn encrypt_rounds(s: Seq<u128>, w: u128, a: u128, b: u128, n: nat) -> (u128, u128)
    decreases n,
{
    if n == 0 {
        (add_w(a, s[0], w), add_w(b, s[1], w))
    } else {
        let (a0, b0) = encrypt_rounds(s, w, a, b, (n - 1) as nat);
        let a1 = add_w(rotl(a0 ^ b0, b0, w), s[2 * n as int], w);
        let b1 = add_w(rotl(b0 ^ a1, a1, w), s[2 * n as int + 1], w);
        (a1, b1)
    }
}

/// Undoes rounds `n` down to 1 and then the initial whitening.
pub open spec fn decrypt_rounds(s: Seq<u128>, w: u128, a: u128, b: u128, n: nat) -> (u128, u128)
    decreases n,
{
    if n == 0 {
        (sub_w(a, s[0], w), sub_w(b, s[1], w))
    } else {
        let b1 = rotr(sub_w(b, s[2 * n as int + 1], w), a, w) ^ a;
        let a1 = rotr(sub_w(a, s[2 * n as int], w), b1, w) ^ b1;
        decrypt_rounds(s, w, a1, b1, (n - 1) as nat)
    }
}

/// The first word of a block: its first `u` bytes, zero-extended.
pub open spec fn first_word(blk: Seq<u8>, u: nat) -> u128 {
    word_from(clip(blk, 0, u as int))
}

/// The second word of a block: its next `u` bytes, zero-extended.
pub open spec fn second_word(blk: Seq<u8>, u: nat) -> u128 {
    word_from(clip(blk, u as int, 2 * u as int))
}

/// The `k`-th block of `data`: `2u` bytes, or fewer at the end.
pub open spec fn block(data: Seq<u8>, u: nat, k: nat) -> Seq<u8> {
    clip(data, k * (2 * u) as int, (k + 1) * (2 * u) as int)
}

/// The encryption of one block.
pub open spec fn encode_block(s: Seq<u128>, w: u128, r: nat, blk: Seq<u8>) -> Seq<u8> {
    let u = (w / 8) as nat;
    bytes_of(encrypt_rounds(s, w, first_word(blk, u), second_word(blk, u), r).0, u)
        + bytes_of(encrypt_rounds(s, w, first_word(blk, u), second_word(blk, u), r).1, u)
}

/// The decryption of one block.
pub open spec fn decode_block(s: Seq<u128>, w: u128, r: nat, blk: Seq<u8>) -> Seq<u8> {
    let u = (w / 8) as nat;
    bytes_of(decrypt_rounds(s, w, first_word(blk, u), second_word(blk, u), r).0, u)
        + bytes_of(decrypt_rounds(s, w, first_word(blk, u), second_word(blk, u), r).1, u)
}

/// The encryptions of the first `k` blocks of `data`, concatenated.
pub open spec fn encode_blocks(s: Seq<u128>, w: u128, r: nat, data: Seq<u8>, k: nat) -> Seq<u8>
    decreases k,
{
    if k == 0 {
        seq![]
    } else {
        encode_blocks(s, w, r, data, (k - 1) as nat)
            + encode_block(s, w, r, block(data, (w / 8) as nat, (k - 1) as nat))
    }
}

/// The decryptions of the first `k` blocks of `data`, concatenated.
pub open spec fn decode_blocks(s: Seq<u128>, w: u128, r: nat, data: Seq<u8>, k: nat) -> Seq<u8>
    decreases k,
{
    if k == 0 {
        seq![]
    } else {
        decode_blocks(s, w, r, data, (k - 1) as nat)
            + decode_block(s, w, r, block(data, (w / 8) as nat, (k - 1) as nat))
    }
}

/// Bytes per block for word width `w`: two words.
pub open spec fn block_bytes(w: u128) -> nat {
    2 * (w / 8) as nat
}

/// Number of blocks in `n` bytes for word width `w`.
pub open spec fn block_count(n: nat, w: u128) -> nat {
    chunk_count(n, 2 * (w / 8) as nat)
}

/// RC5 encryption of `data` under `key`, or none where no subkey table exists.
pub open spec fn rc5_encode(w: u128, r: nat, key: Seq<u8>, data: Seq<u8>) -> Option<Seq<u8>> {
    match subkeys(key, w, r) {
        Some(s) => Some(encode_blocks(s, w, r, data, block_count(data.len(), w))),
        None => None,
    }
}

/// RC5 decryption of `data` under `key`, or none where no subkey table exists.
pub open spec fn rc5_decode(w: u128, r: nat, key: Seq<u8>, data: Seq<u8>) -> Option<Seq<u8>> {
    match subkeys(key, w, r) {
        Some(s) => Some(decode_blocks(s, w, r, data, block_count(data.len(), w))),
        None => None,
    }
}

/// A valid word width: a positive multiple of 8.
pub open spec fn valid_width(w: u128) -> bool {
    0 < w && w % 8 == 0
}

/// A valid word width whose words fit the 128 bits they are held in.
pub open spec fn held_width(w: u128) -> bool {
    valid_width(w) && w <= MAX_WORD_BITS
}

/// Encrypts the block `(a, b)` with `r` rounds.
fn encrypt_words(s: &Vec<u128>, w: u128, r: usize, a: u128, b: u128) -> (res: (u128, u128))
    requires
        held_width(w),
        r <= MAX_ROUNDS,
        s@.len() == 2 * (r + 1),
    ensures
        res == encrypt_rounds(s@, w, a, b, r as nat),
{
    let mut x = add_word(a, s[0], w);
    let mut y = add_word(b, s[1], w);
    let mut i: usize = 1;
    while i <= r
        invariant
            1 <= i <= r + 1,
            r <= MAX_ROUNDS,
            held_width(w),
            s@.len() == 2 * (r + 1),
            (x, y) == encrypt_rounds(s@, w, a, b, (i - 1) as nat),
        decreases r + 1 - i,
    {
        x = add_word(rotate_left(x ^ y, y, w), s[2 * i], w);
        y = add_word(rotate_left(y ^ x, x, w), s[2 * i + 1], w);
        i = i + 1;
    }
    (x, y)
}

/// Decrypts the block `(a, b)` with `r` rounds.
fn decrypt_words(s: &Vec<u128>, w: u128, r: usize, a: u128, b: u128) -> (res: (u128, u128))
    requires
        held_width(w),
        r <= MAX_ROUNDS,
        s@.len() == 2 * (r + 1),
    ensures
        res == decrypt_rounds(s@, w, a, b, r as nat),
{
    let mut x = a;
    let mut y = b;
    let mut i: usize = r;
    while i > 0
        invariant
            i <= r <= MAX_ROUNDS,
            held_width(w),
            s@.len() == 2 * (r + 1),
            decrypt_rounds(s@, w, x, y, i as nat) == decrypt_rounds(s@, w, a, b, r as nat),
        decreases i,
    {
        y = rotate_right(sub_word(y, s[2 * i + 1], w), x, w) ^ x;
        x = rotate_right(sub_word(x, s[2 * i], w), y, w) ^ y;
        i = i - 1;
    }
    (sub_word(x, s[0], w), sub_word(y, s[1], w))
}

/// Encrypts (or, with `inverse`, decrypts) every block of `data` in turn.
fn run_blocks(s: &Vec<u128>, w: u128, r: usize, data: &[u8], inverse: bool) -> (out: Vec<u8>)
    requires
        held_width(w),
        r <= MAX_ROUNDS,
        s@.len() == 2 * (r + 1),
    ensures
        !inverse ==> out@ == encode_blocks(s@, w, r as nat, data@, block_count(data@.len(), w)),
        inverse ==> out@ == decode_blocks(s@, w, r as nat, data@, block_count(data@.len(), w)),
{
    let u: usize = (w / 8) as usize;
    let bs: usize = 2 * u;
    let n = data.len();
    let mut out: Vec<u8> = Vec::new();
    let mut lo: usize = 0;
    let ghost mut k: nat = 0;
    let ghost count = block_count(n as nat, w);
    proof {
        lemma_chunk_count(n as nat, bs as nat, 0);
    }
    while lo < n
        invariant
            n == data@.len(),
            held_width(w),
            r <= MAX_ROUNDS,
            s@.len() == 2 * (r + 1),
            u == w / 8,
            bs == 2 * u,
            count == block_count(n as nat, w),
            lo <= n,
            lo < n ==> lo == k * bs,
            k <= count,
            lo < n ==> k < count,
            lo >= n ==> k == count,
            !inverse ==> out@ == encode_blocks(s@, w, r as nat, data@, k),
            inverse ==> out@ == decode_blocks(s@, w, r as nat, data@, k),
        decreases n - lo,
    {
        let bhi: usize = if n - lo < bs { n } else { lo + bs };
        let mid: usize = if bhi - lo < u { bhi } else { lo + u };
        proof {
            assert((k + 1) * bs == k * bs + bs) by (nonlinear_arith);
            let blk = block(data@, u as nat, k);
            assert(blk == data@.subrange(lo as int, bhi as int));
            assert(clip(blk, 0, u as int) =~= data@.subrange(lo as int, mid as int));
            assert(clip(blk, u as int, 2 * u as int) =~= data@.subrange(mid as int, bhi as int));
        }
        let a = pack_word(data, lo, mid);
        let b = pack_word(data, mid, bhi);
        let (x, y) = if inverse {
            decrypt_words(s, w, r, a, b)
        } else {
            encrypt_words(s, w, r, a, b)
        };
        word_to_bytes(x, u, &mut out);
        word_to_bytes(y, u, &mut out);
        proof {
            lemma_chunk_count(n as nat, bs as nat, k + 1);
            k = k + 1;
        }
        lo = bhi;
    }
    out
}

/// The parameters of an RC5 cipher: word width `w` in bits, number of
/// rounds `r` and key length `b` in bytes. Derived: `u = w / 8` bytes per
/// word and `t = 2 (r + 1)` subkeys.
pub struct Rc5 {
    w: u32,
    u: usize,
    b: usize,
    t: u128,
    r: usize,
}

impl Rc5 {
    /// Word width in bits.
    pub closed spec fn word_bits(&self) -> u128 {
        self.w as u128
    }

    /// Number of rounds.
    pub closed spec fn rounds(&self) -> nat {
        self.r as nat
    }

    /// Key length in bytes.
    pub closed spec fn key_len(&self) -> nat {
        self.b as nat
    }

    #[verifier::type_invariant]
    spec fn inv(&self) -> bool {
        &&& valid_width(self.w as u128)
        &&& self.u == self.w / 8
        &&& self.r <= MAX_ROUNDS
        &&& self.t == 2 * (self.r + 1)
    }

    /// A random key of `length` bytes.
    pub fn key(&self, length: usize) -> (res: Vec<u8>)
        ensures
            res@.len() == length,
    {
        random_bytes(length)
    }

    /// A cipher with word width `w`, `r` rounds and `b`-byte keys.
    pub fn new(w: u32, r: usize, b: usize) -> (res: Result<Rc5, Rc5Error>)
        requires
            r <= MAX_ROUNDS,
        ensures
            res is Ok == valid_width(w as u128),
            res matches Ok(c) ==> c.word_bits() == w && c.rounds() == r && c.key_len() == b,
            res matches Err(e) ==> e == Rc5Error::InvalidParameters,
    {
        if w == 0 || w % 8 != 0 {
            Err(Rc5Error::InvalidParameters)
        } else {
            Ok(Rc5 { w, u: (w / 8) as usize, b, t: 2 * (r as u128 + 1), r })
        }
    }

    /// The same cipher with word width `w`.
    pub fn w(self, w: u32) -> (res: Result<Self, Rc5Error>)
        ensures
            res is Ok == valid_width(w as u128),
            res matches Ok(c) ==> c.word_bits() == w && c.rounds() == self.rounds()
                && c.key_len() == self.key_len(),
            res matches Err(e) ==> e == Rc5Error::InvalidParameters,
    {
        proof {
            use_type_invariant(&self);
        }
        Rc5::new(w, self.r, self.b)
    }

    /// The same cipher with `r` rounds.
    pub fn r(self, r: usize) -> (res: Self)
        requires
            r <= MAX_ROUNDS,
        ensures
            res.word_bits() == self.word_bits(),
            res.rounds() == r,
            res.key_len() == self.key_len(),
    {
        proof {
            use_type_invariant(&self);
        }
        Rc5 { w: self.w, u: self.u, b: self.b, t: 2 * (r as u128 + 1), r }
    }

    /// The same cipher with `b`-byte keys.
    pub fn b(self, b: usize) -> (res: Self)
        ensures
            res.word_bits() == self.word_bits(),
            res.rounds() == self.rounds(),
            res.key_len() == b,
    {
        proof {
            use_type_invariant(&self);
        }
        Rc5 { w: self.w, u: self.u, b, t: self.t, r: self.r }
    }

    /// Number of words in a key: `ceil(b / u)`.
    pub fn c(&self) -> (res: usize)
        ensures
            res as nat == chunk_count(self.key_len(), (self.word_bits() / 8) as nat),
    {
        proof {
            use_type_invariant(self);
        }
        let q = self.b / self.u;
        let res = if self.b % self.u == 0 {
            q
        } else {
            assert(q < usize::MAX) by (nonlinear_arith)
                requires
                    self.u >= 2,
                    q == self.b / self.u,
            ;
            q + 1
        };
        proof {
            let b = self.b as int;
            let u = self.u as int;
            assert(b == u * (b / u) + b % u) by (nonlinear_arith)
                requires u > 0;
            if b % u == 0 {
                assert((b + u - 1) / u == b / u) by (nonlinear_arith)
                    requires u > 0, b == u * (b / u);
            } else {
                assert((b + u - 1) / u == b / u + 1) by (nonlinear_arith)
                    requires u > 0, b == u * (b / u) + b % u, 0 < b % u < u;
            }
        }
        res
    }

    /// Encrypts `plaintext` under `key`, block by block. A short last
    /// block is zero-extended, so the ciphertext is rounded up to whole
    /// blocks of `2u` bytes. Fails only where no magic constant exists for
    /// the width, which is beyond 128 bits.
    pub fn encode(&self, key: &[u8], plaintext: &[u8]) -> (res: Result<Vec<u8>, Rc5Error>)
        ensures
            res is Ok == (self.word_bits() <= MAX_WORD_BITS),
            res matches Ok(c) ==> rc5_encode(self.word_bits(), self.rounds(), key@, plaintext@)
                == Some(c@),
            res matches Ok(c) ==> c@.len() == block_count(plaintext@.len(), self.word_bits())
                * block_bytes(self.word_bits()),
            res matches Err(e) ==> e == Rc5Error::ConstantDerivationError
                && rc5_encode(self.word_bits(), self.rounds(), key@, plaintext@) is None,
    {
        proof {
            use_type_invariant(self);
            if self.w as u128 <= MAX_WORD_BITS {
                lemma_constants_exist(self.w as u128);
                lemma_ciphertext_length(self.w as u128, self.r as nat, key@, plaintext@);
            } else {
                lemma_no_constants_beyond(self.w as u128);
            }
        }
        let w = self.w as u128;
        match initialize_subkeys(key, w, self.r) {
            Ok(s) => Ok(run_blocks(&s, w, self.r, plaintext, false)),
            Err(e) => Err(e),
        }
    }

    /// Decrypts `ciphertext` under `key`, block by block. A ciphertext that
    /// is not a whole number of blocks of `2u` bytes is refused; otherwise
    /// it fails only where no magic constant exists for the width, which is
    /// beyond 128 bits.
    pub fn decode(&self, key: &[u8], ciphertext: &[u8]) -> (res: Result<Vec<u8>, Rc5Error>)
        ensures
            ciphertext@.len() % block_bytes(self.word_bits()) != 0 ==> res
                == Err::<Vec<u8>, Rc5Error>(Rc5Error::MalformedCiphertext),
            ciphertext@.len() % block_bytes(self.word_bits()) == 0 ==> (res is Ok == (
            self.word_bits() <= MAX_WORD_BITS)),
            res matches Ok(p) ==> rc5_decode(self.word_bits(), self.rounds(), key@, ciphertext@)
                == Some(p@),
            ciphertext@.len() % block_bytes(self.word_bits()) == 0 ==> (res matches Err(e) ==> e
                == Rc5Error::ConstantDerivationError && rc5_decode(
                self.word_bits(),
                self.rounds(),
                key@,
                ciphertext@,
            ) is None),
    {
        proof {
            use_type_invariant(self);
            if self.w as u128 <= MAX_WORD_BITS {
                lemma_constants_exist(self.w as u128);
            } else {
                lemma_no_constants_beyond(self.w as u128);
            }
        }
        let w = self.w as u128;
        if ciphertext.len() % (2 * self.u) != 0 {
            return Err(Rc5Error::MalformedCiphertext);
        }
        match initialize_subkeys(key, w, self.r) {
            Ok(s) => Ok(run_blocks(&s, w, self.r, ciphertext, true)),
            Err(e) => Err(e),
        }
    }

    /// Cyclic left rotation by `y mod w` bits of the word `x`, taken to
    /// its low `w` bits.
    pub fn left(&self, x: u128, y: u128) -> (res: u128)
        requires
            self.word_bits() <= MAX_WORD_BITS,
        ensures
            res == rotl(x & word_mask(self.word_bits()), y, self.word_bits()),
    {
        proof {
            use_type_invariant(self);
        }
        let w = self.w as u128;
        rotate_left(x & mask(w), y, w)
    }

    /// Cyclic right rotation by `y mod w` bits of the word `x`, taken to
    /// its low `w` bits.
    pub fn right(&self, x: u128, y: u128) -> (res: u128)
        requires
            self.word_bits() <= MAX_WORD_BITS,
        ensures
            res == rotr(x & word_mask(self.word_bits()), y, self.word_bits()),
    {
        proof {
            use_type_invariant(self);
        }
        let w = self.w as u128;
        rotate_right(x & mask(w), y, w)
    }
}

impl Default for Rc5 {
    /// RC5-32/12/16: 32-bit words, 12 rounds, 16-byte keys.
    fn default() -> (res: Self)
        ensures
            res.word_bits() == 32,
            res.rounds() == 12,
            res.key_len() == 16,
    {
        Rc5 { w: 32, u: 4, b: 16, t: 26, r: 12 }
    }
}

} // verus!
