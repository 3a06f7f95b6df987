//! Cutting a payload into data shards and deriving their parity shards.

use vstd::prelude::*;

use crate::codec::{parity_for, rs_encode};
use crate::errors::ContainerError;
use crate::model::{shard_len_of, split_spec, uniform_len};

verus! {

/// `data` can be handed to the erasure codec: at least one data and one
/// parity shard, at most 255 shards in total, and all data shards of one
/// length.
pub open spec fn encodable(data: Seq<Seq<u8>>, p: nat) -> bool {
    &&& data.len() >= 1
    &&& p >= 1
    &&& data.len() + p <= 255
    &&& uniform_len(data, data[0].len())
}

/// Rounding division up, computed without the sum `n + d` that could
/// overflow a machine integer.
proof fn lemma_ceil_div(n: nat, d: nat)
    requires
        d >= 1,
    ensures
        shard_len_of(n, d) == n / d + if n % d == 0 {
            0int
        } else {
            1int
        },
{
    let ni = n as int;
    let di = d as int;
    assert((ni + di - 1) / di == ni / di + if ni % di == 0 {
        0int
    } else {
        1int
    }) by (nonlinear_arith)
        requires
            di >= 1,
            ni >= 0,
    ;
}

/// Cuts `payload` into exactly `d` shards of `shard_len_of` bytes each; the
/// payload bytes fill the shards in order and whatever room is left in the
/// last touched shards is zero padding. An empty payload yields `d` empty
/// shards.
pub fn split(payload: &Vec<u8>, d: usize) -> (r: Vec<Vec<u8>>)
    requires
        1 <= d,
    ensures
        r.deep_view() == split_spec(payload@, d as nat),
        r@.len() == d,
        forall|i: int|
            0 <= i < d ==> (#[trigger] r@[i]@).len() == shard_len_of(payload@.len(), d as nat),
{
    let n = payload.len();
    proof {
        lemma_ceil_div(n as nat, d as nat);
        if n % d != 0 {
            assert(n as int / d as int + 1 <= n as int) by (nonlinear_arith)
                requires
                    d as int >= 1,
                    n as int >= 0,
                    n as int % d as int != 0,
            ;
        }
    }
    let l = if n % d == 0 {
        n / d
    } else {
        n / d + 1
    };
    let ghost spec_shards = split_spec(payload@, d as nat);
    let mut shards: Vec<Vec<u8>> = Vec::new();
    let mut pos: usize = 0;
    proof {
        assert(0int * (l as int) == 0) by (nonlinear_arith);
    }
    for i in 0..d
        invariant
            l == shard_len_of(payload@.len(), d as nat),
            n == payload@.len(),
            spec_shards == split_spec(payload@, d as nat),
            shards@.len() == i,
            pos == if i * l < n {
                i * l
            } else {
                n as int
            },
            forall|k: int| 0 <= k < i ==> (#[trigger] shards@[k]@) == spec_shards[k],
    {
        let mut shard: Vec<u8> = Vec::new();
        for j in 0..l
            invariant
                l == shard_len_of(payload@.len(), d as nat),
                n == payload@.len(),
                spec_shards == split_spec(payload@, d as nat),
                0 <= i < d,
                shard@.len() == j,
                pos == if i * l + j < n {
                    i * l + j
                } else {
                    n as int
                },
                forall|jj: int| 0 <= jj < j ==> (#[trigger] shard@[jj]) == spec_shards[i as int][jj],
        {
            if pos < n {
                shard.push(payload[pos]);
                pos = pos + 1;
            } else {
                shard.push(0u8);
            }
            assert(shard@[j as int] == spec_shards[i as int][j as int]);
        }
        assert(shard@ =~= spec_shards[i as int]);
        shards.push(shard);
        assert(i * l + l == (i + 1) * l) by (nonlinear_arith);
    }
    proof {
        crate::model::lemma_shards_deep_view(shards);
        assert(shards.deep_view() =~= spec_shards);
    }
    shards
}

/// Derives the `p` parity shards of `data` through the Galois codec, so that
/// any `data.len()` of the combined `data.len() + p` shards determine the
/// rest. Rejects invalid counts and uneven data shards with
/// `ContainerError::Encoding`; empty data shards get empty parity shards.
pub fn generate_parity(data: &Vec<Vec<u8>>, p: usize) -> (r: Result<
    Vec<Vec<u8>>,
    ContainerError,
>)
    ensures
        r is Ok <==> encodable(data.deep_view(), p as nat),
        r is Err ==> r == Err::<Vec<Vec<u8>>, ContainerError>(ContainerError::Encoding),
        r is Ok ==> r->Ok_0.deep_view() == parity_for(data.deep_view(), p as nat),
        r is Ok ==> r->Ok_0@.len() == p,
        r is Ok ==> forall|i: int|
            0 <= i < p ==> (#[trigger] r->Ok_0@[i]@).len() == data@[0]@.len(),
{
    proof {
        crate::model::lemma_shards_deep_view(*data);
    }
    let d = data.len();
    if d == 0 || p == 0 || d > 255 || p > 255 || d + p > 255 {
        return Err(ContainerError::Encoding);
    }
    let l = data[0].len();
    for i in 1..d
        invariant
            d == data@.len(),
            l == data@[0]@.len(),
            forall|k: int| 0 <= k < i ==> (#[trigger] data@[k]@).len() == l,
    {
        if data[i].len() != l {
            proof {
                assert(data.deep_view()[i as int].len() != data.deep_view()[0].len());
            }
            return Err(ContainerError::Encoding);
        }
    }
    assert(uniform_len(data.deep_view(), l as nat));
    if l == 0 {
        let mut parity: Vec<Vec<u8>> = Vec::new();
        for i in 0..p
            invariant
                parity@.len() == i,
                forall|k: int| 0 <= k < i ==> (#[trigger] parity@[k]@).len() == 0,
        {
            parity.push(Vec::new());
        }
        proof {
            crate::model::lemma_shards_deep_view(parity);
            assert(parity.deep_view() =~~= crate::model::empty_shards(p as nat));
        }
        Ok(parity)
    } else {
        let parity = rs_encode(data, p);
        Ok(parity)
    }
}

} // verus!
