//! The on-disk container layout: an 8-byte little-endian original length
//! followed by every shard's bytes in index order, with no delimiters.
//!
//! The shard length is never stored; a reader re-derives it from the byte
//! count past the header, rounding up, so a truncated file parses into
//! present slots for the bytes that are there and absent slots for the rest.

use vstd::bytes::{spec_u64_from_le_bytes, spec_u64_to_le_bytes, u64_from_le_bytes, u64_to_le_bytes};
use vstd::math::min;
use vstd::prelude::*;
use vstd::slice::slice_subrange;

use crate::errors::ContainerError;
use crate::model::{lemma_flatten_take_push, shard_len_of};

verus! {

/// One shard position while a container is decoded: the bytes were
/// physically present, or the container ended before them.
#[derive(Clone, Debug, PartialEq, Eq)]
pub enum ShardSlot {
    Present(Vec<u8>),
    Absent,
}

impl ShardSlot {
    /// The slot as an optional byte sequence.
    pub open spec fn model(self) -> Option<Seq<u8>> {
        match self {
            ShardSlot::Present(v) => Some(v@),
            ShardSlot::Absent => None,
        }
    }
}

/// A sequence of slots as optional byte sequences.
pub open spec fn slots_model(s: Seq<ShardSlot>) -> Seq<Option<Seq<u8>>> {
    Seq::new(s.len(), |i: int| s[i].model())
}

/// The container bytes of a shard set: the original length as 8
/// little-endian bytes, then the shards' bytes in index order.
pub open spec fn write_spec(original_length: u64, shards: Seq<Seq<u8>>) -> Seq<u8> {
    spec_u64_to_le_bytes(original_length) + shards.flatten()
}

/// A container parses when the 8 header bytes are there, and shard bytes
/// follow whenever the stored length promises a payload.
pub open spec fn read_ok(bytes: Seq<u8>) -> bool {
    &&& bytes.len() >= 8
    &&& (bytes.len() > 8 || spec_u64_from_le_bytes(bytes.take(8)) == 0)
}

/// The original length stored in a container's header.
pub open spec fn read_len_spec(bytes: Seq<u8>) -> u64 {
    spec_u64_from_le_bytes(bytes.take(8))
}

/// The slots parsed from a container: the bytes past the header cut into
/// `total` chunks of the re-derived shard length. Chunks the container
/// ended within or before are what their bytes allow: a last short chunk
/// stays present with fewer bytes, wholly missing chunks are absent. With
/// no shard bytes at all every slot is trivially present and empty.
pub open spec fn read_slots_spec(bytes: Seq<u8>, total: nat) -> Seq<Option<Seq<u8>>>
    recommends
        bytes.len() >= 8,
        total >= 1,
{
    let rem = (bytes.len() - 8) as nat;
    if rem == 0 {
        Seq::new(total, |i: int| Some(Seq::<u8>::empty()))
    } else {
        let l = shard_len_of(rem, total) as int;
        Seq::new(
            total,
            |i: int|
                if 8 + i * l < bytes.len() {
                    Some(bytes.subrange(8 + i * l, min(8 + (i + 1) * l, bytes.len() as int)))
                } else {
                    None
                },
        )
    }
}

/// Serializes `original_length` and the shards into container bytes: the
/// 8-byte little-endian length, then every shard's bytes in index order.
pub fn write(original_length: u64, shards: &Vec<Vec<u8>>) -> (r: Vec<u8>)
    ensures
        r@ == write_spec(original_length, shards.deep_view()),
{
    let ghost dv = shards.deep_view();
    proof {
        crate::model::lemma_shards_deep_view(*shards);
    }
    let mut out = u64_to_le_bytes(original_length);
    let ghost header = out@;
    for i in 0..shards.len()
        invariant
            dv == shards.deep_view(),
            dv.len() == shards@.len(),
            forall|k: int| 0 <= k < shards@.len() ==> #[trigger] dv[k] == shards@[k]@,
            out@ == header + dv.take(i as int).flatten(),
    {
        let shard = &shards[i];
        for j in 0..shard.len()
            invariant
                0 <= i < shards@.len(),
                shard@ == shards@[i as int]@,
                dv == shards.deep_view(),
                dv.len() == shards@.len(),
                forall|k: int| 0 <= k < shards@.len() ==> #[trigger] dv[k] == shards@[k]@,
                out@ == header + dv.take(i as int).flatten() + shard@.take(j as int),
        {
            out.push(shard[j]);
            assert(shard@.take(j + 1) =~= shard@.take(j as int) + seq![shard@[j as int]]);
        }
        proof {
            lemma_flatten_take_push(dv, i as int);
            assert(shard@.take(shard@.len() as int) =~= shard@);
            assert(header + dv.take(i + 1).flatten() =~= header + dv.take(i as int).flatten()
                + shard@);
        }
    }
    proof {
        assert(dv.take(dv.len() as int) =~= dv);
    }
    out
}

/// Parses container bytes into the stored original length and `total` shard
/// slots. Fails with `ContainerError::CorruptContainer` when the header is
/// incomplete or when the stored length promises a payload but no shard
/// bytes follow.
pub fn read(bytes: &Vec<u8>, total: usize) -> (r: Result<(u64, Vec<ShardSlot>), ContainerError>)
    requires
        1 <= total <= 255,
    ensures
        r is Ok <==> read_ok(bytes@),
        r is Err ==> r == Err::<(u64, Vec<ShardSlot>), ContainerError>(
            ContainerError::CorruptContainer,
        ),
        r is Ok ==> r->Ok_0.0 == read_len_spec(bytes@),
        r is Ok ==> r->Ok_0.1@.len() == total,
        r is Ok ==> slots_model(r->Ok_0.1@) == read_slots_spec(bytes@, total as nat),
{
    let len = bytes.len();
    if len < 8 {
        return Err(ContainerError::CorruptContainer);
    }
    let header = slice_subrange(bytes.as_slice(), 0, 8);
    let stored = u64_from_le_bytes(header);
    assert(header@ =~= bytes@.take(8));
    let rem = len - 8;
    if rem == 0 {
        if stored > 0 {
            return Err(ContainerError::CorruptContainer);
        }
        let mut slots: Vec<ShardSlot> = Vec::new();
        for i in 0..total
            invariant
                slots@.len() == i,
                forall|k: int| 0 <= k < i ==> (#[trigger] slots@[k]).model() == Some(Seq::<u8>::empty()),
        {
            slots.push(ShardSlot::Present(Vec::new()));
        }
        proof {
            assert forall|k: int| 0 <= k < total implies slots_model(slots@)[k] == read_slots_spec(
                bytes@,
                total as nat,
            )[k] by {
                assert(slots@[k].model() == Some(Seq::<u8>::empty()));
            }
            assert(slots_model(slots@) =~= read_slots_spec(bytes@, total as nat));
        }
        return Ok((stored, slots));
    }
    let l = if rem % total == 0 {
        rem / total
    } else {
        proof {
            assert(rem as int / total as int + 1 <= rem as int) by (nonlinear_arith)
                requires
                    total as int >= 1,
                    rem as int >= 0,
                    rem as int % total as int != 0,
            ;
        }
        rem / total + 1
    };
    proof {
        let ri = rem as int;
        let ti = total as int;
        assert((ri + ti - 1) / ti == ri / ti + if ri % ti == 0 {
            0int
        } else {
            1int
        }) by (nonlinear_arith)
            requires
                ti >= 1,
                ri >= 0,
        ;
        assert((ri + ti - 1) / ti >= 1) by (nonlinear_arith)
            requires
                ti >= 1,
                ri >= 1,
        ;
        assert(l == shard_len_of(rem as nat, total as nat));
    }
    let ghost spec_slots = read_slots_spec(bytes@, total as nat);
    let mut slots: Vec<ShardSlot> = Vec::new();
    let mut pos: usize = 8;
    proof {
        assert(0int * (l as int) == 0) by (nonlinear_arith);
    }
    for i in 0..total
        invariant
            len == bytes@.len(),
            8 <= len,
            rem == len - 8,
            rem >= 1,
            1 <= l,
            l == shard_len_of(rem as nat, total as nat),
            spec_slots == read_slots_spec(bytes@, total as nat),
            slots@.len() == i,
            pos == min(8 + i * l, len as int),
            forall|k: int| 0 <= k < i ==> #[trigger] slots@[k].model() == spec_slots[k],
    {
        if pos < len {
            let start = pos;
            let mut chunk: Vec<u8> = Vec::new();
            let mut cnt: usize = 0;
            while cnt < l && pos < len
                invariant
                    len == bytes@.len(),
                    start == 8 + i * l,
                    0 <= start < len,
                    cnt <= l,
                    pos == start + cnt,
                    pos <= len,
                    chunk@ == bytes@.subrange(start as int, pos as int),
                decreases l - cnt,
            {
                chunk.push(bytes[pos]);
                pos = pos + 1;
                cnt = cnt + 1;
                assert(chunk@ =~= bytes@.subrange(start as int, pos as int));
            }
            proof {
                assert(start + l == 8 + (i + 1) * l) by (nonlinear_arith)
                    requires
                        start == 8 + i * l,
                ;
                assert(pos as int == min(8 + (i + 1) * l, len as int));
                assert(spec_slots[i as int] == Some(
                    bytes@.subrange(8 + i * l, min(8 + (i + 1) * l, len as int)),
                ));
            }
            slots.push(ShardSlot::Present(chunk));
        } else {
            proof {
                assert(spec_slots[i as int] is None);
                assert(8 + (i + 1) * l >= 8 + i * l) by (nonlinear_arith)
                    requires
                        l >= 0,
                ;
            }
            slots.push(ShardSlot::Absent);
        }
        proof {
            assert(8 + (i + 1) * l == 8 + i * l + l) by (nonlinear_arith);
        }
    }
    proof {
        assert(slots_model(slots@) =~= spec_slots);
    }
    Ok((stored, slots))
}

} // verus!
