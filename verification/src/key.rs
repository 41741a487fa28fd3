//! Position keys: the pair of the mover's and the opponent's cells, packed
//! into one number for use in hash maps.

use vstd::prelude::*;

verus! {

/// The two sets of a key side by side in one number.
pub open spec fn packed(key: (u64, u64)) -> u128 {
    (key.0 * 0x1_0000_0000_0000_0000 + key.1) as u128
}

/// Packs the two sets of a key into one number; different keys give
/// different numbers.
pub fn pack(key: (u64, u64)) -> (out: u128)
    ensures
        out == packed(key),
{
    (key.0 as u128) * 0x1_0000_0000_0000_0000 + (key.1 as u128)
}

/// Different keys are packed into different numbers.
pub proof fn lemma_packed_apart(a: (u64, u64), b: (u64, u64))
    ensures
        packed(a) == packed(b) ==> a == b,
{
}

/// A map by packed keys, read as a map by keys.
pub open spec fn unpacked<V>(m: Map<u128, V>) -> Map<(u64, u64), V> {
    Map::new(|key: (u64, u64)| m.contains_key(packed(key)), |key: (u64, u64)| m[packed(key)])
}

/// An insertion under a packed key is an insertion under the key.
pub proof fn lemma_unpacked_insert<V>(m: Map<u128, V>, key: (u64, u64), v: V)
    ensures
        unpacked(m.insert(packed(key), v)) == unpacked(m).insert(key, v),
{
    assert forall|other: (u64, u64)| packed(other) == packed(key) implies other == key by {
        lemma_packed_apart(other, key);
    }
    assert(unpacked(m.insert(packed(key), v)) =~= unpacked(m).insert(key, v));
}

/// The empty map by packed keys is the empty map by keys.
pub proof fn lemma_unpacked_empty<V>()
    ensures
        unpacked(Map::<u128, V>::empty()) == Map::<(u64, u64), V>::empty(),
{
    assert(unpacked(Map::<u128, V>::empty()) =~= Map::<(u64, u64), V>::empty());
}

} // verus!
