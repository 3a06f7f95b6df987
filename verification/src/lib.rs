//! Erasure-coded container library.
//!
//! A payload of bytes is cut into `d` equal-length data shards, extended with
//! `p` redundant parity shards, and serialized into a self-describing
//! container: an 8-byte little-endian original length followed by the shard
//! bytes in index order. On the way back the container is parsed into
//! present/absent shard slots, up to `p` absent shards are recovered through
//! a Reed-Solomon code over GF(256), and the payload is reassembled by
//! concatenating the data shards and stripping the zero padding.

pub mod assembler;
pub mod codec;
pub mod container;
pub mod decoder;
pub mod encoder;
pub mod errors;
pub mod laws;
pub mod model;
pub mod pipeline;
