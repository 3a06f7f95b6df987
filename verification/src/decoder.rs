//! Refilling absent shard slots from the present ones.

use vstd::prelude::*;

use crate::codec::{codeword, parity_for, parity_of, rs_reconstruct};
use crate::container::{slots_model, ShardSlot};
use crate::errors::ContainerError;
use crate::model::{
    absent_count, lemma_absent_count_take, lemma_shards_deep_view, lemma_slots_deep_view,
    present_uniform, slots_match, uniform_len,
};

verus! {

/// The slots can be recovered: no more slots are absent than the parity
/// count `p` tolerates, and when anything is absent at all, the present
/// shards share one length for the codec to work with.
pub open spec fn recoverable(m: Seq<Option<Seq<u8>>>, d: nat, p: nat) -> bool {
    &&& absent_count(m) <= p
    &&& (absent_count(m) == 0 || exists|l: nat| present_uniform(m, l))
}

/// An absent slot anywhere makes the absent count positive.
proof fn lemma_absent_count_pos(m: Seq<Option<Seq<u8>>>, i: int)
    requires
        0 <= i < m.len(),
        m[i] is None,
    ensures
        absent_count(m) >= 1,
    decreases m.len(),
{
    if i == m.len() - 1 {
    } else {
        lemma_absent_count_pos(m.drop_last(), i);
    }
}

/// A fresh byte-for-byte copy of `v`.
fn clone_bytes(v: &Vec<u8>) -> (r: Vec<u8>)
    ensures
        r@ == v@,
{
    let mut r: Vec<u8> = Vec::new();
    for i in 0..v.len()
        invariant
            r@ =~= v@.take(i as int),
    {
        r.push(v[i]);
        assert(r@ =~= v@.take(i + 1));
    }
    assert(r@ =~= v@);
    r
}

/// Recovers the full shard set behind `slots`: present shards are kept
/// byte for byte, absent ones are refilled through the Galois codec.
/// Succeeds exactly when the slots are `recoverable`; more than `p` absent
/// slots, or present shards of uneven lengths, fail with
/// `ContainerError::Reconstruction`. Whenever the present slots agree with
/// a shard set of the form `codeword(data, p)` — `d` data shards and their
/// parity, all of one length — the recovered set is exactly that codeword:
/// any `d` shards of a codeword determine the rest.
pub fn reconstruct(slots: &Vec<ShardSlot>, d: usize, p: usize) -> (r: Result<
    Vec<Vec<u8>>,
    ContainerError,
>)
    requires
        1 <= d,
        1 <= p,
        d + p <= 255,
        slots@.len() == d + p,
    ensures
        r is Ok <==> recoverable(slots_model(slots@), d as nat, p as nat),
        r is Err ==> r == Err::<Vec<Vec<u8>>, ContainerError>(ContainerError::Reconstruction),
        r is Ok ==> r->Ok_0@.len() == d + p,
        r is Ok ==> forall|i: int|
            0 <= i < slots@.len() && (#[trigger] slots_model(slots@)[i]) is Some
                ==> r->Ok_0.deep_view()[i] == slots_model(slots@)[i]->0,
        forall|data: Seq<Seq<u8>>, l: nat|
            data.len() == d && #[trigger] uniform_len(codeword(data, p as nat), l) && slots_match(
                slots_model(slots@),
                codeword(data, p as nat),
            ) && absent_count(slots_model(slots@)) <= p ==> r is Ok && r->Ok_0.deep_view()
                == codeword(data, p as nat),
{
    let ghost m = slots_model(slots@);
    let total = d + p;
    let mut absent: usize = 0;
    let mut seen: bool = false;
    let mut plen: usize = 0;
    let mut uniform: bool = true;
    let ghost mut wp: int = 0;
    let ghost mut wa: int = 0;
    let ghost mut wb: int = 0;
    for i in 0..total
        invariant
            m == slots_model(slots@),
            m.len() == total,
            total == d + p,
            slots@.len() == total,
            absent == absent_count(m.take(i as int)),
            absent <= i,
            seen ==> 0 <= wp < i && m[wp] is Some && m[wp]->0.len() == plen,
            !seen ==> forall|k: int| 0 <= k < i ==> !((#[trigger] m[k]) is Some),
            uniform ==> forall|k: int|
                0 <= k < i && (#[trigger] m[k]) is Some ==> m[k]->0.len() == plen,
            !uniform ==> 0 <= wa < i && 0 <= wb < i && m[wa] is Some && m[wb] is Some
                && m[wa]->0.len() != m[wb]->0.len(),
    {
        match &slots[i] {
            ShardSlot::Present(v) => {
                proof {
                    assert(m[i as int] == Some(v@));
                }
                if !seen {
                    seen = true;
                    plen = v.len();
                    proof {
                        wp = i as int;
                    }
                } else if v.len() != plen {
                    if uniform {
                        uniform = false;
                        proof {
                            wa = wp;
                            wb = i as int;
                        }
                    }
                }
            },
            ShardSlot::Absent => {
                proof {
                    assert(m[i as int] is None);
                }
                absent = absent + 1;
            },
        }
        proof {
            lemma_absent_count_take(m, i as int);
        }
    }
    proof {
        assert(m.take(total as int) =~= m);
    }
    if absent > p {
        proof {
            assert(!recoverable(m, d as nat, p as nat));
        }
        return Err(ContainerError::Reconstruction);
    }
    if absent == 0 {
        let mut out: Vec<Vec<u8>> = Vec::new();
        for i in 0..total
            invariant
                m == slots_model(slots@),
                m.len() == total,
                slots@.len() == total,
                absent_count(m) == 0,
                out@.len() == i,
                forall|k: int| 0 <= k < i ==> (#[trigger] m[k]) is Some,
                forall|k: int| 0 <= k < i ==> (#[trigger] out@[k]@) == m[k]->0,
        {
            match &slots[i] {
                ShardSlot::Present(v) => {
                    proof {
                        assert(m[i as int] == Some(v@));
                    }
                    out.push(clone_bytes(v));
                },
                ShardSlot::Absent => {
                    proof {
                        assert(m[i as int] is None);
                        lemma_absent_count_pos(m, i as int);
                        assert(false);
                    }
                    out.push(Vec::new());
                },
            }
        }
        proof {
            lemma_shards_deep_view(out);
            assert forall|data: Seq<Seq<u8>>, l: nat|
                data.len() == d && #[trigger] uniform_len(codeword(data, p as nat), l)
                    && slots_match(m, codeword(data, p as nat)) && absent_count(m) <= p implies out
                .deep_view() == codeword(data, p as nat) by {
                let cw = codeword(data, p as nat);
                assert forall|k: int| 0 <= k < total implies #[trigger] out.deep_view()[k]
                    == cw[k] by {
                    assert(m[k] is Some);
                    assert(m[k]->0 == cw[k]);
                }
                assert(out.deep_view() =~= cw);
            }
        }
        return Ok(out);
    }
    // something is absent, so the codec is needed: the present shards must
    // share one length
    if !uniform {
        proof {
            assert(absent_count(m) >= 1);
            assert forall|l: nat| !present_uniform(m, l) by {
                assert(m[wa] is Some && m[wb] is Some);
            }
            assert(!recoverable(m, d as nat, p as nat));
            assert forall|data: Seq<Seq<u8>>, l: nat|
                data.len() == d && #[trigger] uniform_len(codeword(data, p as nat), l)
                    && slots_match(m, codeword(data, p as nat)) && absent_count(m) <= p
                implies false by {
                let cw = codeword(data, p as nat);
                assert(m[wa]->0 == cw[wa] && m[wb]->0 == cw[wb]);
                assert(cw[wa].len() == l && cw[wb].len() == l);
            }
        }
        return Err(ContainerError::Reconstruction);
    }
    proof {
        if !seen {
            lemma_all_absent(m, m.len() as int);
            assert(false);
        }
    }
    if plen == 0 {
        let mut out: Vec<Vec<u8>> = Vec::new();
        for i in 0..total
            invariant
                m == slots_model(slots@),
                m.len() == total,
                slots@.len() == total,
                uniform ==> forall|k: int|
                    0 <= k < m.len() && (#[trigger] m[k]) is Some ==> m[k]->0.len() == plen,
                plen == 0,
                uniform,
                out@.len() == i,
                forall|k: int| 0 <= k < i ==> (#[trigger] out@[k]@).len() == 0,
                forall|k: int|
                    0 <= k < i && (#[trigger] m[k]) is Some ==> out@[k]@ == m[k]->0,
        {
            match &slots[i] {
                ShardSlot::Present(v) => {
                    proof {
                        assert(m[i as int] == Some(v@));
                    }
                    out.push(clone_bytes(v));
                },
                ShardSlot::Absent => {
                    out.push(Vec::new());
                },
            }
        }
        proof {
            lemma_shards_deep_view(out);
            assert(present_uniform(m, 0nat));
            assert(recoverable(m, d as nat, p as nat));
            assert forall|data: Seq<Seq<u8>>, l: nat|
                data.len() == d && #[trigger] uniform_len(codeword(data, p as nat), l)
                    && slots_match(m, codeword(data, p as nat)) && absent_count(m) <= p implies out
                .deep_view() == codeword(data, p as nat) by {
                let cw = codeword(data, p as nat);
                assert(m[wp]->0 == cw[wp]);
                assert(l == 0);
                assert forall|k: int| 0 <= k < total implies #[trigger] out.deep_view()[k]
                    == cw[k] by {
                    assert(cw[k].len() == 0);
                    assert(out.deep_view()[k] =~= cw[k]);
                }
                assert(out.deep_view() =~= cw);
            }
        }
        return Ok(out);
    }
    // the general case: hand the slots to the codec
    let mut opts: Vec<Option<Vec<u8>>> = Vec::new();
    for i in 0..total
        invariant
            m == slots_model(slots@),
            m.len() == total,
            slots@.len() == total,
            opts@.len() == i,
            forall|k: int|
                0 <= k < i ==> ((#[trigger] opts@[k]) is Some <==> m[k] is Some),
            forall|k: int|
                0 <= k < i && (#[trigger] opts@[k]) is Some ==> opts@[k]->0@ == m[k]->0,
    {
        match &slots[i] {
            ShardSlot::Present(v) => {
                proof {
                    assert(m[i as int] == Some(v@));
                }
                opts.push(Some(clone_bytes(v)));
            },
            ShardSlot::Absent => {
                proof {
                    assert(m[i as int] is None);
                }
                opts.push(None);
            },
        }
    }
    proof {
        lemma_slots_deep_view(opts);
        assert(opts.deep_view() =~= m);
    }
    rs_reconstruct(d, p, &mut opts, plen);
    let ghost fin = opts.deep_view();
    proof {
        lemma_slots_deep_view(opts);
    }
    let mut out: Vec<Vec<u8>> = Vec::new();
    for i in 0..total
        invariant
            fin == opts.deep_view(),
            opts@.len() == total,
            forall|k: int| 0 <= k < total ==> (#[trigger] opts@[k]) is Some,
            forall|k: int|
                0 <= k < total ==> #[trigger] fin[k] == match opts@[k] {
                    Some(x) => Some(x@),
                    None => None::<Seq<u8>>,
                },
            out@.len() == i,
            forall|k: int| 0 <= k < i ==> #[trigger] out@[k]@ == fin[k]->0,
    {
        match &opts[i] {
            Some(v) => {
                out.push(clone_bytes(v));
            },
            None => {
                proof {
                    assert(false);
                }
                out.push(Vec::new());
            },
        }
    }
    proof {
        lemma_shards_deep_view(out);
        assert(present_uniform(m, plen as nat));
        assert(recoverable(m, d as nat, p as nat));
        // present slots came through unchanged
        assert forall|i: int|
            0 <= i < slots@.len() && (#[trigger] slots_model(slots@)[i]) is Some implies out
            .deep_view()[i] == slots_model(slots@)[i]->0 by {
            assert(fin[i] == m[i]);
        }
        // when the slots agree with a codeword, the codec returned exactly it
        assert forall|data: Seq<Seq<u8>>, l: nat|
            data.len() == d && #[trigger] uniform_len(codeword(data, p as nat), l) && slots_match(
                m,
                codeword(data, p as nat),
            ) && absent_count(m) <= p implies out.deep_view() == codeword(data, p as nat) by {
            let cw = codeword(data, p as nat);
            assert(m[wp]->0 == cw[wp]);
            assert(l == plen);
            assert(data.len() >= 1);
            assert(data[0] == cw[0]);
            assert(data[0].len() == l);
            assert(parity_for(data, p as nat) == parity_of(data, p as nat));
            assert(uniform_len(data, plen as nat)) by {
                assert forall|k: int| 0 <= k < data.len() implies (#[trigger] data[k]).len()
                    == plen by {
                    assert(data[k] == cw[k]);
                }
            }
            assert(uniform_len(parity_of(data, p as nat), plen as nat)) by {
                assert forall|k: int|
                    0 <= k < parity_of(data, p as nat).len() implies (#[trigger] parity_of(
                    data,
                    p as nat,
                )[k]).len() == plen by {
                    assert(parity_of(data, p as nat).len() == cw.len() - d);
                    assert(parity_of(data, p as nat)[k] == cw[d + k]);
                }
            }
            assert(slots_match(m, data + parity_of(data, p as nat)));
            assert(fin =~= (data + parity_of(data, p as nat)).map_values(|s: Seq<u8>| Some(s)));
            assert forall|k: int| 0 <= k < total implies #[trigger] out.deep_view()[k]
                == cw[k] by {
                assert(fin[k] == (data + parity_of(data, p as nat)).map_values(
                    |s: Seq<u8>| Some(s),
                )[k]);
                assert(fin[k] == Some(cw[k]));
            }
            assert(out.deep_view() =~= cw);
        }
    }
    Ok(out)
}

/// A prefix of slots that are all absent counts its own length.
proof fn lemma_all_absent(m: Seq<Option<Seq<u8>>>, j: int)
    requires
        0 <= j <= m.len(),
        forall|k: int| 0 <= k < m.len() ==> !((#[trigger] m[k]) is Some),
    ensures
        absent_count(m.take(j)) == j,
    decreases j,
{
    if j > 0 {
        lemma_all_absent(m, j - 1);
        lemma_absent_count_take(m, j - 1);
    } else {
        assert(m.take(0) =~= Seq::<Option<Seq<u8>>>::empty());
    }
}

} // verus!
