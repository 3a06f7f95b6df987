//! The laws that tie the pipeline together: a written container reads back
//! as the very shard set it was written from, and any tolerated pattern of
//! absent slots still determines the original payload.

use vstd::arithmetic::div_mod::lemma_fundamental_div_mod;
use vstd::bytes::{lemma_auto_spec_u64_to_from_le_bytes, spec_u64_to_le_bytes};
use vstd::prelude::*;

use crate::assembler::{assemblable, assemble_spec};
use crate::container::{read_len_spec, read_ok, read_slots_spec, write_spec};
use crate::decoder::recoverable;
use crate::model::{
    absent_count, lemma_flatten_len, lemma_flatten_subrange, present_uniform, shard_len_of,
    slots_match, split_spec, uniform_len,
};

verus! {

/// A slot sequence with no absent slot counts zero absences.
pub proof fn lemma_absent_count_all_some(m: Seq<Option<Seq<u8>>>)
    requires
        forall|i: int| 0 <= i < m.len() ==> (#[trigger] m[i]) is Some,
    ensures
        absent_count(m) == 0,
    decreases m.len(),
{
    if m.len() > 0 {
        lemma_absent_count_all_some(m.drop_last());
    }
}

/// Splitting covers the payload: the data shards are uniform, their bytes
/// concatenate to the payload followed by zero padding, and cutting the
/// concatenation back to the payload length recovers the payload exactly.
pub proof fn lemma_split_covers(payload: Seq<u8>, d: nat)
    requires
        1 <= d,
    ensures
        split_spec(payload, d).len() == d,
        uniform_len(split_spec(payload, d), shard_len_of(payload.len(), d)),
        split_spec(payload, d).flatten().len() == d * shard_len_of(payload.len(), d),
        d * shard_len_of(payload.len(), d) >= payload.len(),
        split_spec(payload, d).flatten().take(payload.len() as int) == payload,
{
    let n = payload.len();
    let l = shard_len_of(n, d);
    let s = split_spec(payload, d);
    assert(uniform_len(s, l));
    lemma_flatten_len(s, l);
    assert(d * l >= n) by (nonlinear_arith)
        requires
            d >= 1,
            n >= 0,
            l == (n + d - 1) / (d as int),
    ;
    let f = s.flatten();
    assert forall|k: int| 0 <= k < n implies f[k] == payload[k] by {
        let li = l as int;
        assert(li >= 1) by (nonlinear_arith)
            requires
                d >= 1,
                n >= 1,
                li == (n + d - 1) / (d as int),
                k < n,
                k >= 0,
        ;
        let i = k / li;
        let j = k % li;
        lemma_fundamental_div_mod(k, li);
        assert(0 <= j < li) by (nonlinear_arith)
            requires
                li >= 1,
                j == k % li,
        ;
        assert(i >= 0) by (nonlinear_arith)
            requires
                k >= 0,
                li >= 1,
                i == k / li,
        ;
        assert(i < d) by (nonlinear_arith)
            requires
                k < d * li,
                li >= 1,
                k == li * i + j,
                0 <= j < li,
                i >= 0,
        ;
        crate::model::lemma_flatten_index(s, l, i, j);
        assert(k == i * li + j);
        assert(f[k] == s[i][j]);
        assert(s[i][j] == payload[i * li + j]);
    }
    assert(f.take(n as int) =~= payload);
}

/// Round trip: for every payload — the empty one included — and any parity
/// shards of the proper count and length beside its data shards, the
/// serialized container parses back to the stored payload length and to
/// every slot present with exactly the written shard's bytes, and
/// reassembling the data shards cut to that length yields the payload
/// itself, byte for byte. The parity bytes come from the codec at run
/// time, so they enter here as a parameter constrained to the count and
/// length that `generate_parity` guarantees.
pub proof fn lemma_round_trip(payload: Seq<u8>, d: nat, p: nat, parity: Seq<Seq<u8>>)
    requires
        1 <= d,
        1 <= p,
        d + p <= 255,
        payload.len() <= u64::MAX,
        parity.len() == p,
        uniform_len(parity, shard_len_of(payload.len(), d)),
    ensures
        uniform_len(split_spec(payload, d) + parity, shard_len_of(payload.len(), d)),
        read_ok(write_spec(payload.len() as u64, split_spec(payload, d) + parity)),
        read_len_spec(write_spec(payload.len() as u64, split_spec(payload, d) + parity))
            == payload.len(),
        read_slots_spec(
            write_spec(payload.len() as u64, split_spec(payload, d) + parity),
            d + p,
        ) == (split_spec(payload, d) + parity).map_values(|s: Seq<u8>| Some(s)),
        absent_count(
            read_slots_spec(
                write_spec(payload.len() as u64, split_spec(payload, d) + parity),
                d + p,
            ),
        ) == 0,
        slots_match(
            read_slots_spec(
                write_spec(payload.len() as u64, split_spec(payload, d) + parity),
                d + p,
            ),
            split_spec(payload, d) + parity,
        ),
        assemblable(split_spec(payload, d) + parity, d, payload.len()),
        assemble_spec(split_spec(payload, d) + parity, d, payload.len()) == payload,
{
    let n = payload.len();
    let l = shard_len_of(n, d);
    let data = split_spec(payload, d);
    let cw = data + parity;
    let total = (d + p) as int;
    lemma_split_covers(payload, d);
    assert(uniform_len(cw, l)) by {
        assert forall|i: int| 0 <= i < cw.len() implies (#[trigger] cw[i]).len() == l by {
            if i < d {
                assert(cw[i] == data[i]);
            } else {
                assert(cw[i] == parity[i - d]);
            }
        }
    }
    lemma_flatten_len(cw, l);
    assert(cw.len() * l == total * l);
    let header = spec_u64_to_le_bytes(n as u64);
    let c = write_spec(n as u64, cw);
    lemma_auto_spec_u64_to_from_le_bytes();
    assert(header.len() == 8);
    assert(c.take(8) =~= header);
    assert(read_len_spec(c) == n);
    let slots = cw.map_values(|s: Seq<u8>| Some(s));
    assert(slots.len() == cw.len());
    assert forall|i: int| 0 <= i < slots.len() implies (#[trigger] slots[i]) is Some by {}
    lemma_absent_count_all_some(slots);
    if n == 0 {
        assert((0 + d as int - 1) / (d as int) == 0) by (nonlinear_arith)
            requires
                d >= 1,
        ;
        assert(l == 0);
        assert(total * l == 0) by (nonlinear_arith)
            requires
                l == 0,
        ;
        assert(c.len() == 8);
        assert(read_ok(c));
        assert forall|i: int| 0 <= i < total implies read_slots_spec(c, d + p)[i] == slots[i] by {
            assert(cw[i].len() == 0);
            assert(cw[i] =~= Seq::<u8>::empty());
        }
        assert(read_slots_spec(c, d + p) =~= slots);
    } else {
        assert(l >= 1) by (nonlinear_arith)
            requires
                d >= 1,
                n >= 1,
                l == (n + d - 1) / (d as int),
        ;
        let rem = total * (l as int);
        assert(total * (l as int) >= 1) by (nonlinear_arith)
            requires
                total >= 2,
                l >= 1,
        ;
        assert(c.len() == 8 + rem);
        assert(read_ok(c));
        assert((rem + total - 1) / total == l) by (nonlinear_arith)
            requires
                rem == total * (l as int),
                total >= 1,
                l >= 1,
        ;
        assert(shard_len_of(rem as nat, (d + p)) == l);
        assert forall|i: int| 0 <= i < total implies read_slots_spec(c, d + p)[i] == slots[i] by {
            let li = l as int;
            assert(i * li < rem && (i + 1) * li <= rem && i * li >= 0 && i * li + li == (i + 1)
                * li) by (nonlinear_arith)
                requires
                    0 <= i < total,
                    li >= 1,
                    rem == total * li,
            ;
            assert(8 + i * li < c.len());
            assert(vstd::math::min(8 + (i + 1) * li, c.len() as int) == 8 + (i + 1) * li);
            crate::model::lemma_flatten_subrange(cw, l, i);
            assert(c.subrange(8 + i * li, 8 + (i + 1) * li) =~= cw.flatten().subrange(
                i * li,
                (i + 1) * li,
            ));
            assert(read_slots_spec(c, d + p)[i] == Some(cw[i]));
        }
        assert(read_slots_spec(c, d + p) =~= slots);
    }
    assert(cw.take(d as int) =~= data);
    assert(assemble_spec(cw, d, n) == payload);
}

/// Erasure tolerance: whatever choice of at most `p` slots is absent from a
/// full shard set of `d` uniform data shards and their `p` parity shards,
/// the remaining slots are recoverable, and the shard set they belong to
/// reassembles to the original payload exactly — so recovery does not
/// depend on which positions, data or parity, were lost. That the codec
/// refills the absent slots with exactly that shard set is stated by
/// `reconstruct`'s own contract; this law supplies the rest of the chain.
pub proof fn lemma_erasure_tolerance(
    payload: Seq<u8>,
    d: nat,
    p: nat,
    parity: Seq<Seq<u8>>,
    m: Seq<Option<Seq<u8>>>,
)
    requires
        1 <= d,
        1 <= p,
        d + p <= 255,
        parity.len() == p,
        uniform_len(parity, shard_len_of(payload.len(), d)),
        slots_match(m, split_spec(payload, d) + parity),
        absent_count(m) <= p,
    ensures
        recoverable(m, d, p),
        uniform_len(split_spec(payload, d) + parity, shard_len_of(payload.len(), d)),
        assemblable(split_spec(payload, d) + parity, d, payload.len()),
        assemble_spec(split_spec(payload, d) + parity, d, payload.len()) == payload,
{
    let n = payload.len();
    let l = shard_len_of(n, d);
    let data = split_spec(payload, d);
    let cw = data + parity;
    lemma_split_covers(payload, d);
    assert(uniform_len(cw, l)) by {
        assert forall|i: int| 0 <= i < cw.len() implies (#[trigger] cw[i]).len() == l by {
            if i < d {
                assert(cw[i] == data[i]);
            } else {
                assert(cw[i] == parity[i - d]);
            }
        }
    }
    assert(present_uniform(m, l)) by {
        assert forall|i: int| 0 <= i < m.len() && (#[trigger] m[i]) is Some implies m[i]->0.len()
            == l by {
            assert(m[i]->0 == cw[i]);
        }
    }
    assert(recoverable(m, d, p));
    assert(cw.take(d as int) =~= data);
    assert(assemble_spec(cw, d, n) == payload);
}

} // verus!
