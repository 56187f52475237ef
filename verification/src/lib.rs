//! Brute-force search for a commit digest that carries a chosen hexadecimal
//! signature, as a prefix or a suffix, by nudging the record's two embedded
//! timestamps within a bounded window and re-hashing until a match is found.

pub mod args;
pub mod cli;
pub mod commit;
pub mod digits;
pub mod error;
pub mod git;
pub mod hash;
pub mod spiral;
pub mod time;
