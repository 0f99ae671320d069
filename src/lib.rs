//! Extended-precision fixed-point numbers for deep fractal zooms.
//!
//! A [`num::Component`] is a signed whole part plus a sequence of 32-bit
//! fractional words, most significant first. The arithmetic on it is proved
//! against the exact base-2^32 value defined in [`words`].
pub mod words;
pub mod num;
pub mod convert;
pub mod laws;
