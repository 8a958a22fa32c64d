//! Random key material.

use vstd::prelude::*;

verus! {

/// Relies on `rand::random`, which draws from the thread-local generator
/// that rand seeds from the operating system; nothing is known of the value.
pub assume_specification<T>[ rand::random::<T> ]() -> (r: T)
    where
        rand::distributions::Standard: rand::distributions::Distribution<T>,
;

/// `length` random bytes.
pub fn random_bytes(length: usize) -> (res: Vec<u8>)
    ensures
        res@.len() == length,
{
    let mut v: Vec<u8> = Vec::new();
    let mut k: usize = 0;
    while k < length
        invariant
            k <= length,
            v@.len() == k,
        decreases length - k,
    {
        v.push(rand::random::<u8>());
        k = k + 1;
    }
    v
}

} // verus!
