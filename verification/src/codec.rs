//! The Galois-field erasure codec behind the shard math.
//!
//! The finite-field linear algebra itself is done by the
//! `reed_solomon_erasure` crate over GF(256). Its two operations enter the
//! library through the trusted wrappers below: parity generation is named by
//! the uninterpreted `parity_of`, and reconstruction is trusted to refill a
//! partially absent shard set with exactly the shards it was encoded from —
//! the maximum-distance-separable property of the code.

use vstd::prelude::*;

use crate::model::{slots_match, uniform_len, empty_shards};

verus! {

/// The parity shards that the GF(256) Reed-Solomon code derives from `data`
/// for a parity count of `p`: a fixed function of the data shards and the
/// counts alone.
pub uninterp spec fn parity_of(data: Seq<Seq<u8>>, p: nat) -> Seq<Seq<u8>>;

/// The parity shards the library pairs with `data`: `p` empty shards when
/// the data shards are empty (the codec refuses zero-length shards, and
/// there is nothing to protect), and the code's parity shards otherwise.
pub open spec fn parity_for(data: Seq<Seq<u8>>, p: nat) -> Seq<Seq<u8>> {
    if data.len() > 0 && data[0].len() == 0 {
        empty_shards(p)
    } else {
        parity_of(data, p)
    }
}

/// The full shard set of `data`: the data shards followed by their parity.
pub open spec fn codeword(data: Seq<Seq<u8>>, p: nat) -> Seq<Seq<u8>> {
    data + parity_for(data, p)
}

/// Relies on `reed_solomon_erasure::galois_8::ReedSolomon::new` and
/// `ReedSolomon::encode`: for valid counts and uniform nonzero shard
/// lengths, `encode` deterministically fills `p` parity shards of the data
/// shards' length. The wrapper returns those parity shards, here named
/// `parity_of(data, p)`.
#[verifier::external_body]
pub(crate) fn rs_encode(data: &Vec<Vec<u8>>, p: usize) -> (r: Vec<Vec<u8>>)
    requires
        1 <= data@.len(),
        1 <= p,
        data@.len() + p <= 255,
        data@[0]@.len() >= 1,
        forall|i: int| 0 <= i < data@.len() ==> (#[trigger] data@[i]@).len() == data@[0]@.len(),
    ensures
        r.deep_view() == parity_of(data.deep_view(), p as nat),
        r@.len() == p,
        forall|i: int| 0 <= i < p ==> (#[trigger] r@[i]@).len() == data@[0]@.len(),
{
    let rs = reed_solomon_erasure::galois_8::ReedSolomon::new(data.len(), p).unwrap();
    let mut shards = data.clone();
    shards.resize(data.len() + p, vec![0u8; data[0].len()]);
    rs.encode(&mut shards).unwrap();
    shards.split_off(data.len())
}

/// Relies on `reed_solomon_erasure::galois_8::ReedSolomon::new` and
/// `ReedSolomon::reconstruct`: with valid counts, all present slots of one
/// uniform nonzero length, and at least `d` of the `d + p` slots present,
/// `reconstruct` succeeds, keeps the present slots, and refills the absent
/// ones. When the present slots agree with a set that `encode` produced,
/// the refilled set is exactly that set: any `d` shards of a codeword
/// determine the rest.
#[verifier::external_body]
pub(crate) fn rs_reconstruct(d: usize, p: usize, slots: &mut Vec<Option<Vec<u8>>>, l: usize)
    requires
        1 <= d,
        1 <= p,
        d + p <= 255,
        old(slots)@.len() == d + p,
        l >= 1,
        forall|i: int|
            0 <= i < old(slots)@.len() && (#[trigger] old(slots)@[i]) is Some
                ==> old(slots)@[i]->0@.len() == l,
        crate::model::absent_count(old(slots).deep_view()) <= p,
    ensures
        final(slots)@.len() == d + p,
        forall|i: int| 0 <= i < final(slots)@.len() ==> (#[trigger] final(slots)@[i]) is Some,
        forall|i: int|
            0 <= i < final(slots)@.len() && (#[trigger] old(slots)@[i]) is Some
                ==> final(slots)@[i] == old(slots)@[i],
        forall|i: int| 0 <= i < final(slots)@.len() ==> (#[trigger] final(slots)@[i])->0@.len() == l,
        forall|data: Seq<Seq<u8>>|
            (#[trigger] uniform_len(data, l as nat)) && data.len() == d && uniform_len(
                parity_of(data, p as nat),
                l as nat,
            ) && slots_match(old(slots).deep_view(), data + parity_of(data, p as nat))
                ==> final(slots).deep_view() =~= (data + parity_of(data, p as nat)).map_values(
                |s: Seq<u8>| Some(s),
            ),
{
    let rs = reed_solomon_erasure::galois_8::ReedSolomon::new(d, p).unwrap();
    rs.reconstruct(slots.as_mut_slice()).unwrap();
}

} // verus!
