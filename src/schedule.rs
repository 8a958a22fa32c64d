//! Expansion of a secret key into the subkey table.

use vstd::prelude::*;
use crate::codec::{bytes_to_words, words_of};
use crate::error::Rc5Error;
use crate::word::{add_w, add_word, rotate_left, rotl, MAX_WORD_BITS};

verus! {

/// The first 128 bits of the fraction of `e - 2`.
pub const E_FRACTION: u128 = 0xb7e1_5162_8aed_2a6a_bf71_5880_9cf4_f3c7;

/// The next 64 bits of the fraction of `e - 2`.
pub const E_TAIL: u64 = 0x62e7_160f_38b4_da56;

/// The first 128 bits of the fraction of the golden ratio.
pub const PHI_FRACTION: u128 = 0x9e37_79b9_7f4a_7c15_f39c_c060_5ced_c834;

/// The next 64 bits of the fraction of the golden ratio.
pub const PHI_TAIL: u64 = 0x1082_276b_f3a2_7251;

/// The odd integer next to a non-negative real `f` given as its floor
/// `fl` and whether `f` is itself an integer: `ceil(f)` if that is odd,
/// else `floor(f)` if that is odd, else none.
pub open spec fn odd_near(fl: u128, exact: bool) -> Option<u128> {
    if !exact && fl % 2 == 0 {
        Some((fl + 1) as u128)
    } else if fl % 2 == 1 {
        Some(fl)
    } else {
        None
    }
}

/// `floor(f * 2^w)` for the binary fraction `f` whose first 128 bits are
/// `frac`, with `w <= 128`.
pub open spec fn scaled_floor(frac: u128, w: u128) -> u128 {
    frac >> ((128 - w) as u128)
}

/// Whether `f * 2^w` is a whole number, for the binary fraction `f` whose
/// first 128 bits are `frac` and whose next 64 bits are `tail`, with
/// `w <= 128`.
pub open spec fn scaled_exact(frac: u128, tail: u64, w: u128) -> bool {
    tail == 0 && frac & (((1u128 << ((128 - w) as u128)) - 1) as u128) == 0
}

/// The magic constant for width `w` derived from a binary fraction; none
/// for a width beyond the 128 bits that a word is held in.
pub open spec fn derived_constant(frac: u128, tail: u64, w: u128) -> Option<u128> {
    if w > 128 {
        None
    } else {
        odd_near(scaled_floor(frac, w), scaled_exact(frac, tail, w))
    }
}

/// `P_w = Odd((e - 2) * 2^w)`, from the standard table where it has the width.
pub open spec fn magic_p_spec(w: u128) -> Option<u128> {
    if w == 16 {
        Some(0xb7e1)
    } else if w == 32 {
        Some(0xb7e1_5163)
    } else if w == 64 {
        Some(0xb7e1_5162_8aed_2a6b)
    } else {
        derived_constant(E_FRACTION, E_TAIL, w)
    }
}

/// `Q_w = Odd((phi - 1) * 2^w)`, from the standard table where it has the width.
pub open spec fn magic_q_spec(w: u128) -> Option<u128> {
    if w == 16 {
        Some(0x9e37)
    } else if w == 32 {
        Some(0x9e37_79b9)
    } else if w == 64 {
        Some(0x9e37_79b9_7f4a_7c15)
    } else {
        derived_constant(PHI_FRACTION, PHI_TAIL, w)
    }
}

/// The odd integer next to `f`, given as its floor and whether it is whole.
pub fn odd(fl: u128, exact: bool) -> (r: Result<u128, Rc5Error>)
    ensures
        r matches Ok(v) ==> odd_near(fl, exact) == Some(v),
        r matches Err(e) ==> odd_near(fl, exact) is None && e == Rc5Error::ConstantDerivationError,
{
    if !exact && fl % 2 == 0 {
        Ok(fl + 1)
    } else if fl % 2 == 1 {
        Ok(fl)
    } else {
        Err(Rc5Error::ConstantDerivationError)
    }
}

fn derive_constant(frac: u128, tail: u64, w: u128) -> (r: Result<u128, Rc5Error>)
    requires
        0 < w,
    ensures
        r matches Ok(v) ==> derived_constant(frac, tail, w) == Some(v),
        r matches Err(e) ==> derived_constant(frac, tail, w) is None
            && e == Rc5Error::ConstantDerivationError,
{
    if w > MAX_WORD_BITS {
        return Err(Rc5Error::ConstantDerivationError);
    }
    let shift: u128 = 128 - w;
    let fl = frac >> shift;
    assert(1u128 << shift >= 1) by (bit_vector)
        requires
            shift < 128,
    ;
    let exact = tail == 0 && frac & ((1u128 << shift) - 1) == 0;
    odd(fl, exact)
}

/// The first magic constant `P_w` for word width `w`.
pub fn magic_p(w: u128) -> (r: Result<u128, Rc5Error>)
    requires
        0 < w,
    ensures
        r matches Ok(v) ==> magic_p_spec(w) == Some(v) && w <= MAX_WORD_BITS,
        r matches Err(e) ==> magic_p_spec(w) is None && e == Rc5Error::ConstantDerivationError,
{
    if w == 16 {
        Ok(0xb7e1)
    } else if w == 32 {
        Ok(0xb7e1_5163)
    } else if w == 64 {
        Ok(0xb7e1_5162_8aed_2a6b)
    } else {
        derive_constant(E_FRACTION, E_TAIL, w)
    }
}

/// The second magic constant `Q_w` for word width `w`.
pub fn magic_q(w: u128) -> (r: Result<u128, Rc5Error>)
    requires
        0 < w,
    ensures
        r matches Ok(v) ==> magic_q_spec(w) == Some(v) && w <= MAX_WORD_BITS,
        r matches Err(e) ==> magic_q_spec(w) is None && e == Rc5Error::ConstantDerivationError,
{
    if w == 16 {
        Ok(0x9e37)
    } else if w == 32 {
        Ok(0x9e37_79b9)
    } else if w == 64 {
        Ok(0x9e37_79b9_7f4a_7c15)
    } else {
        derive_constant(PHI_FRACTION, PHI_TAIL, w)
    }
}

/// Both magic constants exist for every width up to 128 bits: the scaled
/// fractions are never whole numbers there.
pub proof fn lemma_constants_exist(w: u128)
    requires
        0 < w <= MAX_WORD_BITS,
    ensures
        magic_p_spec(w) is Some,
        magic_q_spec(w) is Some,
{
}

/// No magic constant is derived for a width beyond 128 bits.
pub proof fn lemma_no_constants_beyond(w: u128)
    requires
        w > MAX_WORD_BITS,
    ensures
        magic_p_spec(w) is None,
        magic_q_spec(w) is None,
{
}

/// The state of the key-mixing loop: the subkey table `s`, the key words
/// `l`, the two positions and the two running words.
pub struct MixState {
    pub s: Seq<u128>,
    pub l: Seq<u128>,
    pub i: int,
    pub j: int,
    pub a: u128,
    pub b: u128,
}

/// One iteration of the key-mixing loop.
pub open spec fn mix_step(st: MixState, w: u128) -> MixState {
    let a = rotl(add_w(add_w(st.s[st.i], st.a, w), st.b, w), 3, w);
    let b = rotl(add_w(add_w(st.l[st.j], a, w), st.b, w), add_w(a, st.b, w), w);
    MixState {
        s: st.s.update(st.i, a),
        l: st.l.update(st.j, b),
        i: (st.i + 1) % (st.s.len() as int),
        j: (st.j + 1) % (st.l.len() as int),
        a: a,
        b: b,
    }
}

/// `n` iterations of the key-mixing loop from `st`.
pub open spec fn mix(st: MixState, w: u128, n: nat) -> MixState
    decreases n,
{
    if n == 0 {
        st
    } else {
        mix_step(mix(st, w, (n - 1) as nat), w)
    }
}

/// `S[i] = P + i * Q` modulo `2^w`.
pub open spec fn table_entry(p: u128, q: u128, w: u128, i: nat) -> u128
    decreases i,
{
    if i == 0 {
        p
    } else {
        add_w(table_entry(p, q, w, (i - 1) as nat), q, w)
    }
}

/// The subkey table before mixing, of length `t`.
pub open spec fn initial_table(p: u128, q: u128, w: u128, t: nat) -> Seq<u128> {
    Seq::new(t, |i: int| table_entry(p, q, w, i as nat))
}

/// The key as words of `u` bytes; an empty key is one zero word.
pub open spec fn key_words(key: Seq<u8>, u: nat) -> Seq<u128> {
    if key.len() == 0 {
        seq![0u128]
    } else {
        words_of(key, u)
    }
}

/// Size of the subkey table for `r` rounds.
pub open spec fn table_len(r: nat) -> nat {
    2 * (r + 1)
}

/// Number of mixing iterations: three passes over the longer of the table
/// and the key words.
pub open spec fn mix_count(t: nat, c: nat) -> nat {
    if t >= c {
        3 * t
    } else {
        3 * c
    }
}

/// The subkey table for `key` with word width `w` and `r` rounds, or none
/// where a magic constant cannot be derived for `w`.
pub open spec fn subkeys(key: Seq<u8>, w: u128, r: nat) -> Option<Seq<u128>> {
    match (magic_p_spec(w), magic_q_spec(w)) {
        (Some(p), Some(q)) => {
            let l = key_words(key, (w / 8) as nat);
            let t = table_len(r);
            let start = MixState { s: initial_table(p, q, w, t), l: l, i: 0, j: 0, a: 0, b: 0 };
            Some(mix(start, w, mix_count(t, l.len())).s)
        },
        _ => None,
    }
}

/// Largest round count accepted: keeps every loop bound within `usize`.
pub const MAX_ROUNDS: usize = 0x0fff_ffff;

/// Expands `key` into the subkey table for width `w` and `r` rounds.
pub fn initialize_subkeys(key: &[u8], w: u128, r: usize) -> (res: Result<Vec<u128>, Rc5Error>)
    requires
        0 < w,
        w % 8 == 0,
        r <= MAX_ROUNDS,
    ensures
        res matches Ok(s) ==> subkeys(key@, w, r as nat) == Some(s@) && s@.len() == table_len(r as nat),
        res matches Err(e) ==> subkeys(key@, w, r as nat) is None
            && e == Rc5Error::ConstantDerivationError,
{
    let p = match magic_p(w) {
        Ok(v) => v,
        Err(e) => {
            return Err(e);
        },
    };
    let q = match magic_q(w) {
        Ok(v) => v,
        Err(e) => {
            return Err(e);
        },
    };
    let u = (w / 8) as usize;
    let mut l: Vec<u128> = if key.len() == 0 {
        vec![0u128]
    } else {
        bytes_to_words(key, u)
    };
    assert(l@ == key_words(key@, u as nat)) by {
        if key.len() == 0 {
            assert(l@ =~= seq![0u128]);
        }
    }
    proof {
        if key.len() > 0 {
            assert(l@.len() > 0) by (nonlinear_arith)
                requires
                    l@.len() == (((key@.len() + u - 1) / u as int) as nat),
                    key@.len() > 0,
                    u > 0,
            ;
            assert(l@.len() <= key@.len()) by (nonlinear_arith)
                requires
                    l@.len() == (((key@.len() + u - 1) / u as int) as nat),
                    u > 0,
            ;
        }
    }
    let t: usize = 2 * (r + 1);
    let mut s: Vec<u128> = Vec::new();
    s.push(p);
    let mut k: usize = 1;
    while k < t
        invariant
            1 <= k <= t,
            t == table_len(r as nat),
            0 < w <= MAX_WORD_BITS,
            s@ =~= initial_table(p, q, w, k as nat),
        decreases t - k,
    {
        let prev = s[k - 1];
        s.push(add_word(prev, q, w));
        k = k + 1;
        assert(s@ =~= initial_table(p, q, w, k as nat));
    }
    let c = l.len();
    let m: usize = if t >= c {
        t
    } else {
        c
    };
    let ghost start = MixState { s: s@, l: l@, i: 0, j: 0, a: 0, b: 0 };
    let ghost mut step: nat = 0;
    let mut a: u128 = 0;
    let mut b: u128 = 0;
    let mut i: usize = 0;
    let mut j: usize = 0;
    let mut pass: usize = 0;
    while pass < 3
        invariant
            pass <= 3,
            step == pass * m,
            m == if t >= c { t } else { c },
            0 < w <= MAX_WORD_BITS,
            s@.len() == t,
            l@.len() == c,
            0 < c,
            0 < t,
            i < t,
            j < c,
            mix(start, w, step) == (MixState { s: s@, l: l@, i: i as int, j: j as int, a: a, b: b }),
        decreases 3 - pass,
    {
        let mut k: usize = 0;
        while k < m
            invariant
                k <= m,
                step == pass * m + k,
                0 < w <= MAX_WORD_BITS,
                s@.len() == t,
                l@.len() == c,
                0 < c,
                0 < t,
                i < t,
                j < c,
                mix(start, w, step) == (MixState { s: s@, l: l@, i: i as int, j: j as int, a: a, b: b }),
            decreases m - k,
        {
            let x = add_word(add_word(s[i], a, w), b, w);
            let na = rotate_left(x, 3, w);
            s.set(i, na);
            let y = add_word(add_word(l[j], na, w), b, w);
            let nb = rotate_left(y, add_word(na, b, w), w);
            l.set(j, nb);
            a = na;
            b = nb;
            i = (i + 1) % t;
            j = (j + 1) % c;
            k = k + 1;
            proof {
                step = step + 1;
            }
        }
        proof {
            assert(pass * m + m == (pass + 1) * m) by (nonlinear_arith);
        }
        pass = pass + 1;
    }
    assert(step == mix_count(t as nat, c as nat));
    Ok(s)
}

} // verus!
