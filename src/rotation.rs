//! Rotation of a 32-bit word `x` by `y` bits, kept as a pair.

use vstd::prelude::*;
use crate::word::{rotate_left, rotate_right, rotl, rotr};

verus! {

/// The word width of a [`Rotation`].
pub const ROTATION_BITS: u128 = 32;

/// A 32-bit word and a rotation amount.
pub struct Rotation(pub u32, pub u32);

impl Rotation {
    /// The word rotated left by `y mod 32` bits.
    pub fn left(&mut self) -> (res: u32)
        ensures
            res as u128 == rotl(old(self).0 as u128, old(self).1 as u128, ROTATION_BITS),
            final(self).0 == old(self).0,
            final(self).1 == old(self).1,
    {
        let r = rotate_left(self.x() as u128, self.y() as u128, ROTATION_BITS);
        proof {
            assert(r & (((1u128 << 32u128) - 1) as u128) == r ==> r < 0x1_0000_0000) by (bit_vector);
        }
        r as u32
    }

    /// The word rotated right by `y mod 32` bits.
    pub fn right(&mut self) -> (res: u32)
        ensures
            res as u128 == rotr(old(self).0 as u128, old(self).1 as u128, ROTATION_BITS),
            final(self).0 == old(self).0,
            final(self).1 == old(self).1,
    {
        let r = rotate_right(self.x() as u128, self.y() as u128, ROTATION_BITS);
        proof {
            assert(r & (((1u128 << 32u128) - 1) as u128) == r ==> r < 0x1_0000_0000) by (bit_vector);
        }
        r as u32
    }

    fn x(&self) -> (res: u32)
        ensures
            res == self.0,
    {
        self.0
    }

    fn y(&self) -> (res: u32)
        ensures
            res == self.1,
    {
        self.1
    }
}

} // verus!
