//! The two compute paths of the tool: turning a payload into container
//! bytes, and turning container bytes back into the payload.

use vstd::prelude::*;

use crate::assembler::{assemblable, assemble, assemble_spec};
use crate::codec::codeword;
use crate::container::{read, read_len_spec, read_ok, read_slots_spec, write_spec};
use crate::decoder::{reconstruct, recoverable};
use crate::encoder::{generate_parity, split};
use crate::errors::ContainerError;
use crate::model::{absent_count, slots_match, split_spec, uniform_len};

verus! {

/// Splits `payload` into `d` data shards, derives `p` parity shards, and
/// serializes original length and all shards into container bytes.
/// Fails with `ContainerError::Encoding` exactly when the shard counts are
/// invalid: `d` or `p` zero, or more than 255 shards in total.
pub fn protect_payload(payload: &Vec<u8>, d: usize, p: usize) -> (r: Result<
    Vec<u8>,
    ContainerError,
>)
    ensures
        r is Ok <==> (1 <= d && 1 <= p && d + p <= 255),
        r is Err ==> r == Err::<Vec<u8>, ContainerError>(ContainerError::Encoding),
        r is Ok ==> r->Ok_0@ == write_spec(
            payload@.len() as u64,
            codeword(split_spec(payload@, d as nat), p as nat),
        ),
        r is Ok ==> r->Ok_0@.len() == 8 + (d + p) * crate::model::shard_len_of(
            payload@.len(),
            d as nat,
        ),
        r is Ok ==> uniform_len(
            codeword(split_spec(payload@, d as nat), p as nat),
            crate::model::shard_len_of(payload@.len(), d as nat),
        ),
{
    if d == 0 || p == 0 || d > 255 || p > 255 || d + p > 255 {
        return Err(ContainerError::Encoding);
    }
    let mut shards = split(payload, d);
    let ghost data_dv = shards.deep_view();
    proof {
        crate::model::lemma_shards_deep_view(shards);
    }
    let mut parity = match generate_parity(&shards, p) {
        Ok(parity) => parity,
        Err(_) => {
            proof {
                assert(false);
            }
            return Err(ContainerError::Encoding);
        },
    };
    let ghost parity_dv = parity.deep_view();
    proof {
        crate::model::lemma_shards_deep_view(parity);
    }
    shards.append(&mut parity);
    proof {
        crate::model::lemma_shards_deep_view(shards);
        assert(shards.deep_view() =~= data_dv + parity_dv);
        assert(data_dv + parity_dv == codeword(split_spec(payload@, d as nat), p as nat));
        let l = crate::model::shard_len_of(payload@.len(), d as nat);
        assert(uniform_len(shards.deep_view(), l));
        crate::model::lemma_flatten_len(shards.deep_view(), l);
        assert(shards.deep_view().len() == d + p);
        assert(shards.deep_view().flatten().len() == (d + p) * l);
    }
    let bytes = crate::container::write(payload.len() as u64, &shards);
    proof {
        vstd::bytes::lemma_auto_spec_u64_to_from_le_bytes();
    }
    Ok(bytes)
}

/// Parses container bytes, recovers up to `p` absent shards, and cuts the
/// data shards back to the stored original length. Each stage's failure
/// keeps its own error: an unparsable container is
/// `ContainerError::CorruptContainer`, unrecoverable slots are
/// `ContainerError::Reconstruction`, and a recovered set too short for the
/// stored length is `ContainerError::IncompleteReconstruction`. Whenever
/// the parsed slots agree with a full shard set `codeword(data, p)` that
/// covers the stored length, the result is exactly that set's payload.
pub fn recover_payload(bytes: &Vec<u8>, d: usize, p: usize) -> (r: Result<
    Vec<u8>,
    ContainerError,
>)
    requires
        1 <= d,
        1 <= p,
        d + p <= 255,
    ensures
        r == Err::<Vec<u8>, ContainerError>(ContainerError::CorruptContainer) <==> !read_ok(
            bytes@,
        ),
        read_ok(bytes@) ==> (r == Err::<Vec<u8>, ContainerError>(ContainerError::Reconstruction)
            <==> !recoverable(read_slots_spec(bytes@, (d + p) as nat), d as nat, p as nat)),
        r is Ok ==> read_ok(bytes@) && recoverable(
            read_slots_spec(bytes@, (d + p) as nat),
            d as nat,
            p as nat,
        ) && r->Ok_0@.len() == read_len_spec(bytes@),
        forall|data: Seq<Seq<u8>>, l: nat|
            read_ok(bytes@) && data.len() == d && #[trigger] uniform_len(
                codeword(data, p as nat),
                l,
            ) && slots_match(read_slots_spec(bytes@, (d + p) as nat), codeword(data, p as nat))
                && absent_count(read_slots_spec(bytes@, (d + p) as nat)) <= p && assemblable(
                codeword(data, p as nat),
                d as nat,
                read_len_spec(bytes@) as nat,
            ) ==> r is Ok && r->Ok_0@ == assemble_spec(
                codeword(data, p as nat),
                d as nat,
                read_len_spec(bytes@) as nat,
            ),
{
    let total = d + p;
    let parsed = match read(bytes, total) {
        Ok(parsed) => parsed,
        Err(e) => {
            return Err(e);
        },
    };
    let stored = parsed.0;
    let slots = parsed.1;
    let shards = match reconstruct(&slots, d, p) {
        Ok(shards) => shards,
        Err(e) => {
            return Err(e);
        },
    };
    match assemble(&shards, d, stored) {
        Ok(payload) => Ok(payload),
        Err(e) => Err(e),
    }
}

} // verus!
