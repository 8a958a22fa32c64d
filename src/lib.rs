//! RC5 parametrized block cipher: key schedule and block transform over
//! `w`-bit words, with every step stated and proved in Verus.

pub mod cipher;
pub mod codec;
pub mod error;
pub mod keygen;
pub mod laws;
pub mod rotation;
pub mod schedule;
pub mod word;

pub use cipher::Rc5;
pub use error::Rc5Error;
pub use rotation::Rotation;
