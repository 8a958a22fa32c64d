//! What can go wrong when building a cipher or running it.

use vstd::prelude::*;

verus! {

#[derive(Debug, Clone, Copy, PartialEq, Eq, Structural)]
pub enum Rc5Error {
    /// The word width is not a positive multiple of 8.
    InvalidParameters,
    /// No magic constant can be derived for this width: no odd integer lies
    /// next to the scaled fraction, or the width is beyond the 128 bits that
    /// a word is held in.
    ConstantDerivationError,
    /// A ciphertext whose length is not a whole number of blocks.
    MalformedCiphertext,
}

} // verus!
