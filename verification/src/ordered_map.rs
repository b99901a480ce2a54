//! An insertion-ordered map from node indices to numbers, kept in an
//! `IndexMap` of the crate `indexmap`.
//!
//! What the map holds is named by `entries`: its key-value pairs in the
//! order in which their keys were first inserted.

use indexmap::IndexMap;
use vstd::prelude::*;

verus! {

/// `IndexMap` of the crate `indexmap`, a map that keeps its pairs in the
/// order in which their keys were inserted. Nothing inside it is seen here.
#[verifier::external_type_specification]
#[verifier::external_body]
#[verifier::reject_recursive_types(K)]
#[verifier::reject_recursive_types(V)]
#[verifier::reject_recursive_types(S)]
pub struct ExIndexMap<K, V, S>(IndexMap<K, V, S>);

/// The key-value pairs of the map, in insertion order.
pub uninterp spec fn entries(map: IndexMap<usize, i128>) -> Seq<(usize, i128)>;

/// The index of the first pair from `k` on whose key is `key`.
pub open spec fn position_from<K, V>(pairs: Seq<(K, V)>, key: K, k: int) -> Option<int>
    decreases pairs.len() - k,
{
    if k < 0 || k >= pairs.len() {
        None
    } else if pairs[k].0 == key {
        Some(k)
    } else {
        position_from(pairs, key, k + 1)
    }
}

/// The index of the pair whose key is `key`.
pub open spec fn position<K, V>(pairs: Seq<(K, V)>, key: K) -> Option<int> {
    position_from(pairs, key, 0)
}

/// The value stored for `key`.
pub open spec fn lookup<K, V>(pairs: Seq<(K, V)>, key: K) -> Option<V> {
    match position(pairs, key) {
        Some(p) => Some(pairs[p].1),
        None => None,
    }
}

/// The pairs after `value` is stored for `key`: a key that is present keeps
/// its place and takes the new value, a new key goes to the end.
pub open spec fn put<K, V>(pairs: Seq<(K, V)>, key: K, value: V) -> Seq<(K, V)> {
    match position(pairs, key) {
        Some(p) => pairs.update(p, (key, value)),
        None => pairs.push((key, value)),
    }
}

/// What `position_from` finds is in range and has the key.
pub proof fn lemma_position_from<K, V>(pairs: Seq<(K, V)>, key: K, k: int)
    requires
        0 <= k,
    ensures
        position_from(pairs, key, k) matches Some(p) ==> k <= p < pairs.len() && pairs[p].0 == key,
        position_from(pairs, key, k) is None ==> forall|j: int|
            k <= j < pairs.len() ==> (#[trigger] pairs[j]).0 != key,
    decreases pairs.len() - k,
{
    if k < pairs.len() && pairs[k].0 != key {
        lemma_position_from(pairs, key, k + 1);
    }
}

/// The pairs of a map as pairs of mathematical integers.
pub open spec fn pairs_view(pairs: Seq<(usize, i128)>) -> Seq<(int, int)> {
    Seq::new(pairs.len(), |k: int| (pairs[k].0 as int, pairs[k].1 as int))
}

/// A key stands at the same place among the pairs and among their
/// mathematical form.
pub proof fn lemma_position_view(pairs: Seq<(usize, i128)>, key: usize, k: int)
    requires
        0 <= k,
    ensures
        position_from(pairs_view(pairs), key as int, k) == position_from(pairs, key, k),
    decreases pairs.len() - k,
{
    if k < pairs.len() && pairs[k].0 != key {
        lemma_position_view(pairs, key, k + 1);
    }
}

/// Storing a value and then taking the mathematical form is storing the
/// value in the mathematical form.
pub proof fn lemma_put_view(pairs: Seq<(usize, i128)>, key: usize, value: i128)
    ensures
        pairs_view(put(pairs, key, value)) == put(pairs_view(pairs), key as int, value as int),
        lookup(pairs_view(pairs), key as int) == match lookup(pairs, key) {
            Some(v) => Some(v as int),
            None => None,
        },
{
    lemma_position_view(pairs, key, 0);
    lemma_position_from(pairs, key, 0);
    assert(pairs_view(put(pairs, key, value)) =~= put(
        pairs_view(pairs),
        key as int,
        value as int,
    ));
}

/// `IndexMap::new`: a map without pairs.
#[verifier::external_body]
pub(crate) fn map_new() -> (map: IndexMap<usize, i128>)
    ensures
        entries(map) == Seq::<(usize, i128)>::empty(),
{
    IndexMap::new()
}

/// `IndexMap::len`: the number of pairs.
#[verifier::external_body]
pub(crate) fn map_len(map: &IndexMap<usize, i128>) -> (n: usize)
    ensures
        n == entries(*map).len(),
{
    map.len()
}

/// `IndexMap::get`: the value stored for `key`, if the key is present.
#[verifier::external_body]
pub(crate) fn map_get(map: &IndexMap<usize, i128>, key: usize) -> (r: Option<i128>)
    ensures
        r == lookup(entries(*map), key),
{
    map.get(&key).copied()
}

/// `IndexMap::insert`: a key that is present keeps its place in the order
/// and takes the new value; a new key is added last.
#[verifier::external_body]
pub(crate) fn map_insert(map: &mut IndexMap<usize, i128>, key: usize, value: i128)
    ensures
        entries(*final(map)) == put(entries(*old(map)), key, value),
{
    map.insert(key, value);
}

/// `IndexMap::get_index`: the pair at a place in the order, if the place is
/// taken.
#[verifier::external_body]
pub(crate) fn map_get_index(map: &IndexMap<usize, i128>, index: usize) -> (r: Option<(usize, i128)>)
    ensures
        r == if index < entries(*map).len() {
            Some(entries(*map)[index as int])
        } else {
            None
        },
{
    map.get_index(index).map(|(k, v)| (*k, *v))
}

} // verus!
