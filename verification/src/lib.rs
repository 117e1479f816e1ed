//! Word-embedding tables: a binary vector-file parser, an in-memory
//! vocabulary store, and cosine-similarity / analogy ranking.
//!
//! Vector components are IEEE-754 single-precision values. Verified code
//! never performs floating-point arithmetic: throughout the library a
//! component is carried as its 32-bit pattern (`u32`), read little-endian
//! from the file. Numeric work on the patterns (dot products, unit
//! normalization, means) is the caller's, performed between the load and
//! query steps; everything else — parsing, storage, lookup, ranking,
//! exclusion — is verified here, down to the bytes.

pub mod errors;
pub mod parse;
pub mod utils;
pub mod vectorreader;
pub mod wordclusters;
pub mod wordvectors;
