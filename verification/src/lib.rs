//! A verified decoder for dictionary-encoded columns of a columnar binary
//! format. A data page stores a column of fixed-width values as a stream of
//! integer indices into a per-page dictionary; the stream mixes run-length
//! encoded and bit-packed runs. The decoder consumes the stream together with
//! an optional validity (null) bitmap and an optional row filter, and appends
//! the materialised values, densely packed, to an output buffer.

pub mod bitmap;
pub mod value;
pub mod hybrid_rle;
pub mod filter;
pub mod dict_encoded;
pub mod laws;
