//! Parses a textual fraction such as `35,6/12` into an exact, fully reduced
//! ratio of two 64-bit unsigned integers.
pub mod fraction;
pub mod number;
pub mod parse;
pub mod text;
