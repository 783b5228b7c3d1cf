//! Compact representation and deduplication of chess board positions.
//!
//! A board's piece placement is packed into a 256-bit fingerprint: four
//! 64-bit words, sixteen 4-bit square codes per word.  On top of that codec
//! sit three independent structures:
//!
//! * a prefix trie over the fingerprint's sixteen 16-bit chunks, reporting
//!   how much of a new fingerprint's path was already present
//!   ([`persistance::PositionTrie`]);
//! * an interning store that hands each distinct fingerprint a small stable
//!   id by normalizing its four words ([`store::PositionStore`]);
//! * an append-only segment of raw fingerprints with a byte-exact,
//!   round-tripping serialization ([`persistance::PositionSegment`]).

pub mod codec;
pub mod persistance;
pub mod store;
