//! Reassembling the payload from a recovered shard set.

use vstd::prelude::*;

use crate::errors::ContainerError;

verus! {

/// The payload behind a shard set: the first `d` shards concatenated, cut
/// back to the stored original length `n`.
pub open spec fn assemble_spec(shards: Seq<Seq<u8>>, d: nat, n: nat) -> Seq<u8> {
    shards.take(d as int).flatten().take(n as int)
}

/// The shard set covers the payload: `d` data shards are there and they
/// hold at least `n` bytes between them.
pub open spec fn assemblable(shards: Seq<Seq<u8>>, d: nat, n: nat) -> bool {
    &&& shards.len() >= d
    &&& shards.take(d as int).flatten().len() >= n
}

/// Concatenates the `d` data shards in order and truncates the result to
/// exactly `original_length` bytes, discarding the zero padding that
/// splitting may have added. Fails with
/// `ContainerError::IncompleteReconstruction` when the data shards are
/// missing or too short to cover that length.
pub fn assemble(shards: &Vec<Vec<u8>>, d: usize, original_length: u64) -> (r: Result<
    Vec<u8>,
    ContainerError,
>)
    ensures
        r is Ok <==> assemblable(shards.deep_view(), d as nat, original_length as nat),
        r is Err ==> r == Err::<Vec<u8>, ContainerError>(ContainerError::IncompleteReconstruction),
        r is Ok ==> r->Ok_0@ == assemble_spec(
            shards.deep_view(),
            d as nat,
            original_length as nat,
        ),
        r is Ok ==> r->Ok_0@.len() == original_length,
{
    let ghost dv = shards.deep_view();
    proof {
        crate::model::lemma_shards_deep_view(*shards);
    }
    if shards.len() < d {
        return Err(ContainerError::IncompleteReconstruction);
    }
    let mut out: Vec<u8> = Vec::new();
    for i in 0..d
        invariant
            dv == shards.deep_view(),
            dv.len() == shards@.len(),
            d <= shards@.len(),
            forall|k: int| 0 <= k < shards@.len() ==> #[trigger] dv[k] == shards@[k]@,
            out@.len() <= original_length,
            out@ == filled(dv, i as int, original_length as nat),
    {
        let shard = &shards[i];
        let ghost base = dv.take(i as int).flatten();
        proof {
            assert(base + shard@.take(0) =~= base);
        }
        for j in 0..shard.len()
            invariant
                dv == shards.deep_view(),
                dv.len() == shards@.len(),
                d <= shards@.len(),
                0 <= i < d,
                forall|k: int| 0 <= k < shards@.len() ==> #[trigger] dv[k] == shards@[k]@,
                shard@ == dv[i as int],
                base == dv.take(i as int).flatten(),
                out@.len() <= original_length,
                out@ == clip(base + shard@.take(j as int), original_length as nat),
        {
            proof {
                assert(base + shard@.take(j + 1) =~= (base + shard@.take(j as int)).push(
                    shard@[j as int],
                ));
            }
            if (out.len() as u64) < original_length {
                out.push(shard[j]);
                proof {
                    lemma_clip_push_keep(base + shard@.take(j as int), original_length as nat);
                }
            } else {
                proof {
                    lemma_clip_push_drop(base + shard@.take(j as int), original_length as nat);
                }
            }
        }
        proof {
            crate::model::lemma_flatten_take_push(dv, i as int);
            assert(shard@.take(shard@.len() as int) =~= shard@);
            assert(base + shard@ =~= dv.take(i + 1).flatten());
        }
    }
    if (out.len() as u64) == original_length {
        proof {
            assert(out@ =~= assemble_spec(dv, d as nat, original_length as nat));
        }
        Ok(out)
    } else {
        proof {
            assert(out@.len() < original_length);
            assert(dv.take(d as int).flatten().len() < original_length);
        }
        Err(ContainerError::IncompleteReconstruction)
    }
}

/// The first `n` bytes of `s`, or all of `s` when it is shorter.
spec fn clip(s: Seq<u8>, n: nat) -> Seq<u8> {
    if s.len() <= n {
        s
    } else {
        s.take(n as int)
    }
}

/// The bytes gathered after the first `i` shards, clipped to `n`.
spec fn filled(dv: Seq<Seq<u8>>, i: int, n: nat) -> Seq<u8> {
    clip(dv.take(i).flatten(), n)
}

/// Pushing the next byte while under the clip keeps it.
proof fn lemma_clip_push_keep(s: Seq<u8>, n: nat)
    requires
        clip(s, n).len() < n,
    ensures
        forall|b: u8| #[trigger] clip(s.push(b), n) == clip(s, n).push(b),
{
    assert forall|b: u8| #[trigger] clip(s.push(b), n) == clip(s, n).push(b) by {
        assert(s.len() < n);
        assert(clip(s.push(b), n) =~= clip(s, n).push(b));
    }
}

/// Pushing the next byte at or past the clip drops it.
proof fn lemma_clip_push_drop(s: Seq<u8>, n: nat)
    requires
        clip(s, n).len() >= n,
    ensures
        forall|b: u8| #[trigger] clip(s.push(b), n) == clip(s, n),
{
    assert forall|b: u8| #[trigger] clip(s.push(b), n) == clip(s, n) by {
        assert(s.len() >= n);
        assert(clip(s.push(b), n) =~= clip(s, n));
    }
}

} // verus!
