//! The mathematical model of shards, shard slots, and their basic laws.

use vstd::prelude::*;

verus! {

/// Number of bytes each shard holds when a payload of `n` bytes is cut into
/// `d` data shards: `n / d` rounded up, so 0 only for an empty payload.
pub open spec fn shard_len_of(n: nat, d: nat) -> nat
    recommends
        d >= 1,
{
    ((n + d - 1) / (d as int)) as nat
}

/// The payload cut into `d` chunks of `shard_len_of` bytes each, the tail
/// chunk right-padded with zero bytes.
pub open spec fn split_spec(payload: Seq<u8>, d: nat) -> Seq<Seq<u8>>
    recommends
        d >= 1,
{
    let l = shard_len_of(payload.len(), d) as int;
    Seq::new(
        d,
        |i: int|
            Seq::new(
                l as nat,
                |j: int|
                    if i * l + j < payload.len() {
                        payload[i * l + j]
                    } else {
                        0u8
                    },
            ),
    )
}

/// Every shard of `s` holds exactly `l` bytes.
pub open spec fn uniform_len(s: Seq<Seq<u8>>, l: nat) -> bool {
    forall|i: int| 0 <= i < s.len() ==> (#[trigger] s[i]).len() == l
}

/// `p` shards of no bytes each.
pub open spec fn empty_shards(p: nat) -> Seq<Seq<u8>> {
    Seq::new(p, |i: int| Seq::<u8>::empty())
}

/// How many slots of `m` are absent.
pub open spec fn absent_count(m: Seq<Option<Seq<u8>>>) -> nat
    decreases m.len(),
{
    if m.len() == 0 {
        0
    } else {
        absent_count(m.drop_last()) + (if m.last() is None {
            1nat
        } else {
            0nat
        })
    }
}

/// Every present slot of `m` agrees with the shard at its position in `full`.
pub open spec fn slots_match(m: Seq<Option<Seq<u8>>>, full: Seq<Seq<u8>>) -> bool {
    &&& m.len() == full.len()
    &&& forall|i: int| 0 <= i < m.len() && (#[trigger] m[i]) is Some ==> m[i]->0 == full[i]
}

/// Every present slot of `m` holds exactly `l` bytes.
pub open spec fn present_uniform(m: Seq<Option<Seq<u8>>>, l: nat) -> bool {
    forall|i: int| 0 <= i < m.len() && (#[trigger] m[i]) is Some ==> m[i]->0.len() == l
}

/// A vector of byte vectors deep-views to the sequence of its elements'
/// byte sequences.
pub proof fn lemma_shards_deep_view(v: Vec<Vec<u8>>)
    ensures
        v.deep_view().len() == v@.len(),
        forall|i: int| 0 <= i < v@.len() ==> #[trigger] v.deep_view()[i] == v@[i]@,
{
    assert forall|i: int| 0 <= i < v@.len() implies #[trigger] v.deep_view()[i] == v@[i]@ by {
        assert(v@[i].deep_view() =~= v@[i]@);
    }
}

/// A vector of optional byte vectors deep-views to the sequence of its
/// elements' optional byte sequences.
pub proof fn lemma_slots_deep_view(v: Vec<Option<Vec<u8>>>)
    ensures
        v.deep_view().len() == v@.len(),
        forall|i: int|
            0 <= i < v@.len() ==> #[trigger] v.deep_view()[i] == match v@[i] {
                Some(x) => Some(x@),
                None => None::<Seq<u8>>,
            },
{
    assert forall|i: int|
        0 <= i < v@.len() implies #[trigger] v.deep_view()[i] == match v@[i] {
        Some(x) => Some(x@),
        None => None::<Seq<u8>>,
    } by {
        if v@[i] is Some {
            assert(v@[i]->0.deep_view() =~= v@[i]->0@);
        }
    }
}

/// Counting absent slots distributes over prefixes, one slot at a time.
pub proof fn lemma_absent_count_take(m: Seq<Option<Seq<u8>>>, i: int)
    requires
        0 <= i < m.len(),
    ensures
        absent_count(m.take(i + 1)) == absent_count(m.take(i)) + (if m[i] is None {
            1nat
        } else {
            0nat
        }),
{
    let a = m.take(i + 1);
    assert(a.drop_last() =~= m.take(i));
    assert(a.last() == m[i]);
}

/// A sequence of shards all of length `l` flattens to `s.len() * l` bytes.
pub proof fn lemma_flatten_len(s: Seq<Seq<u8>>, l: nat)
    requires
        uniform_len(s, l),
    ensures
        s.flatten().len() == s.len() * l,
    decreases s.len(),
{
    if s.len() == 0 {
        assert(s.flatten() =~= Seq::<u8>::empty());
    } else {
        let rest = s.drop_first();
        assert(uniform_len(rest, l));
        lemma_flatten_len(rest, l);
        assert(s.flatten() == s.first() + rest.flatten());
        assert(l + (s.len() - 1) * l == s.len() * l) by (nonlinear_arith);
    }
}

/// In the flattening of uniform shards, byte `j` of shard `i` sits at
/// position `i * l + j`.
pub proof fn lemma_flatten_index(s: Seq<Seq<u8>>, l: nat, i: int, j: int)
    requires
        uniform_len(s, l),
        0 <= i < s.len(),
        0 <= j < l,
    ensures
        0 <= i * l + j < s.flatten().len(),
        s.flatten()[i * l + j] == s[i][j],
    decreases i,
{
    lemma_flatten_len(s, l);
    assert(i * l + j < s.len() * l) by (nonlinear_arith)
        requires
            0 <= i < s.len(),
            0 <= j < l,
    ;
    if i == 0 {
        assert(s.flatten() == s.first() + s.drop_first().flatten());
        assert(i * l + j == j) by (nonlinear_arith)
            requires
                i == 0,
        ;
        assert(s.flatten()[j] == s.first()[j]);
        assert(s.first() == s[0]);
        assert(s.flatten()[i * l + j] == s[i][j]);
    } else {
        let rest = s.drop_first();
        assert(uniform_len(rest, l));
        lemma_flatten_index(rest, l, i - 1, j);
        assert(s.flatten() == s.first() + rest.flatten());
        assert(i * l + j >= l) by (nonlinear_arith)
            requires
                i >= 1,
                j >= 0,
                l >= 0,
        ;
        assert(i * l + j - l == (i - 1) * l + j) by (nonlinear_arith);
        assert(s.flatten()[i * l + j] == rest.flatten()[(i - 1) * l + j]);
        assert(rest[i - 1] == s[i]);
    }
}

/// In the flattening of uniform shards, shard `i` is the subrange from
/// `i * l` to `(i + 1) * l`.
pub proof fn lemma_flatten_subrange(s: Seq<Seq<u8>>, l: nat, i: int)
    requires
        uniform_len(s, l),
        0 <= i < s.len(),
    ensures
        (i + 1) * l <= s.flatten().len(),
        s.flatten().subrange(i * l, (i + 1) * l) == s[i],
{
    lemma_flatten_len(s, l);
    assert((i + 1) * l <= s.len() * l) by (nonlinear_arith)
        requires
            0 <= i < s.len(),
            0 <= l,
    ;
    assert((i + 1) * l == i * l + l) by (nonlinear_arith);
    assert forall|j: int| 0 <= j < l implies s.flatten().subrange(i * l, (i + 1) * l)[j] == s[i][j]
        by {
        lemma_flatten_index(s, l, i, j);
    }
    assert(s.flatten().subrange(i * l, (i + 1) * l) =~= s[i]);
}

/// Flattening one more shard appends its bytes.
pub proof fn lemma_flatten_take_push(s: Seq<Seq<u8>>, i: int)
    requires
        0 <= i < s.len(),
    ensures
        s.take(i + 1).flatten() == s.take(i).flatten() + s[i],
{
    let a = s.take(i + 1);
    let b = s.take(i);
    a.lemma_flatten_and_flatten_alt_are_equivalent();
    b.lemma_flatten_and_flatten_alt_are_equivalent();
    assert(a.drop_last() =~= b);
    assert(a.flatten_alt() == a.drop_last().flatten_alt() + a.last());
    assert(s.take(i + 1).flatten() =~= s.take(i).flatten() + s[i]);
}

} // verus!
