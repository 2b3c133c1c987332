//! Finding seeds of Neon White's level rushes.
//!
//! A rush's order comes from a shuffle driven by the game's subtractive random
//! generator.  The library proves that, for every seed from 0 to 161803398,
//! output `k` (for `k` below 96) of that generator is an affine function of
//! the seed modulo `2^31 - 1`, so the shuffle can be computed directly
//! ([`shuffle`]), and that for those seeds it is the generator's shuffle
//! ([`linearization`]).  Around it: rules on an order read from text
//! ([`frontend`], [`levels`], [`text`]), their flat encoding and check
//! ([`rules`]), the search over seeds ([`search`]) and the decisions of the
//! command line ([`cli`]).
pub mod subtractive;
pub mod coefficients;
pub mod shuffle;
pub mod dotnet;
pub mod linearization;
pub mod bitset;
pub mod rules;
pub mod text;
pub mod error;
pub mod levels;
pub mod frontend;
pub mod cli;
pub mod search;
pub mod gui;
