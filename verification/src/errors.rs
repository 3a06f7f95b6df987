use vstd::prelude::*;

verus! {

/// The ways the erasure-coded container can fail.
#[derive(Clone, Copy, Debug, PartialEq, Eq, Structural)]
pub enum ContainerError {
    /// The shard parameters are invalid for encoding: no data shards, no
    /// parity shards, more than 255 shards in total, or data shards of
    /// unequal lengths.
    Encoding,
    /// The container is too short to be parsed: fewer than 8 header bytes,
    /// or no shard bytes at all while the stored length promises a payload.
    CorruptContainer,
    /// The absent shards cannot be recovered: more slots are absent than the
    /// parity count tolerates, or the present shards have unequal lengths.
    Reconstruction,
    /// The shard set handed to assembly does not cover the stored payload
    /// length: data shards are missing or hold too few bytes in total.
    IncompleteReconstruction,
}

} // verus!
