//! Reading and writing data coded with a prefix code.
//!
//! A [`Letter`] holds one codeword. The ordered set of all codewords of one
//! code is an [`Alphabet`].
//!
//! The two main functions of this module are [`pack()`], which packs a
//! stream of letters into bytes, and [`parse()`], which reads the letters
//! back out of the bytes, given their [`Alphabet`].

pub mod alphabet;
pub mod bits;
pub mod common;
pub mod letter;
pub mod text;

pub use self::alphabet::{Alphabet, Node};
pub use self::letter::Letter;
pub use self::text::{pack, parse, TextParser};
