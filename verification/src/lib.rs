//! An immutable on-disk key-value store made of two byte images per dataset:
//! a log of put and delete entries and an open-addressed hash index over it.
//!
//! Everything here works on byte sequences that the caller has read from, or
//! will write to, the two files. Each public function carries a contract over
//! a mathematical model of those bytes.

pub mod error;
pub mod util;
pub mod format;
pub mod vlq;
pub mod codec;
pub mod log;
pub mod murmur;
pub mod hash;
