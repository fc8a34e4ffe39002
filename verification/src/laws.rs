//! What holds of every map, whatever was stored in it: each law is stated
//! over the views of maps and keys, as the contracts of `put` and `get` are.
//!
//! In each law, "`after` is `before` after `put(k, v)`" is written as
//! `after@ == before@.insert(k@, v)`, which is what `put` ensures of the
//! entries, or as `after.shape() == shape_after_put(before.shape(), k@)`, which
//! is what it ensures of the nodes; "`get(k)` returns `x`" is written as
//! `lookup(k@) == x`, which is what `get` ensures.

use crate::key::Key;
use crate::model::{after_puts, lemma_after_puts_elsewhere};
use crate::shape::shape_after_put;
use crate::trie::TrieMap;
use vstd::prelude::*;

verus! {

/// Round trip: what was put under a key is what `get` returns for that key.
pub proof fn law_get_after_put<V>(before: TrieMap<V>, after: TrieMap<V>, k: Key, v: V)
    requires
        after@ == before@.insert(k@, v),
    ensures
        after.lookup(k@) == Some(v),
{
}

/// Last write wins: after two puts under one key, `get` returns the second
/// value, and what the map holds under every other key is as it was before
/// the second put; the two puts together are worth the second alone.
pub proof fn law_last_write_wins<V>(
    before: TrieMap<V>,
    between: TrieMap<V>,
    after: TrieMap<V>,
    k: Key,
    v1: V,
    v2: V,
)
    requires
        between@ == before@.insert(k@, v1),
        after@ == between@.insert(k@, v2),
    ensures
        after.lookup(k@) == Some(v2),
        forall|other: Seq<u8>| other != k@ ==> after.lookup(other) == between.lookup(other),
        after@ == before@.insert(k@, v2),
{
    assert(after@ =~= before@.insert(k@, v2));
}

/// A put changes nothing under any other key.
pub proof fn law_put_leaves_others<V>(
    before: TrieMap<V>,
    after: TrieMap<V>,
    k: Key,
    v: V,
    other: Key,
)
    requires
        after@ == before@.insert(k@, v),
        other@ != k@,
    ensures
        after.lookup(other@) == before.lookup(other@),
{
}

/// A key under which nothing was ever put is absent: in an empty map, and in
/// a map that was filled from an empty one by puts under other keys.
pub proof fn law_never_put_is_absent<V>(
    start: TrieMap<V>,
    end: TrieMap<V>,
    puts: Seq<(Seq<u8>, V)>,
    k: Key,
)
    requires
        start@ == Map::<Seq<u8>, V>::empty(),
        end@ == after_puts(start@, puts),
        forall|i: int| 0 <= i < puts.len() ==> (#[trigger] puts[i]).0 != k@,
    ensures
        start.lookup(k@) is None,
        end.lookup(k@) is None,
{
    lemma_after_puts_elsewhere(start@, puts, k@);
}

/// The empty key addresses an entry like any other: what was put under it is
/// what `get` returns for it, whatever is put under other keys afterwards.
pub proof fn law_empty_key<V>(
    before: TrieMap<V>,
    after: TrieMap<V>,
    end: TrieMap<V>,
    k: Key,
    v: V,
    puts: Seq<(Seq<u8>, V)>,
)
    requires
        k@.len() == 0,
        after@ == before@.insert(k@, v),
        end@ == after_puts(after@, puts),
        forall|i: int| 0 <= i < puts.len() ==> (#[trigger] puts[i]).0.len() > 0,
    ensures
        after.lookup(k@) == Some(v),
        end.lookup(k@) == Some(v),
{
    lemma_after_puts_elsewhere(after@, puts, k@);
}

/// Two keys that differ in any byte do not collide, however long a prefix
/// they share: after a put under each, `get` returns for each its own value,
/// and every third key holds what it held before.
pub proof fn law_distinct_keys<V>(
    before: TrieMap<V>,
    between: TrieMap<V>,
    after: TrieMap<V>,
    k1: Key,
    v1: V,
    k2: Key,
    v2: V,
)
    requires
        k1@ != k2@,
        between@ == before@.insert(k1@, v1),
        after@ == between@.insert(k2@, v2),
    ensures
        after.lookup(k1@) == Some(v1),
        after.lookup(k2@) == Some(v2),
        forall|k3: Seq<u8>| k3 != k1@ && k3 != k2@ ==> after.lookup(k3) == before.lookup(k3),
{
}

/// A put makes nodes and removes none. Every node that was there is still
/// there, with its array of children if it had one. A node that is new lies on
/// the way to the key or at its end, and an array of children that is new
/// belongs to a node from which the walk went further down: none is allocated
/// before a node needs its first child.
pub proof fn law_put_only_adds_nodes<V>(before: TrieMap<V>, after: TrieMap<V>, k: Key)
    requires
        after.shape() == shape_after_put(before.shape(), k@),
    ensures
        forall|p: Seq<u8>| #[trigger]
            before.shape().contains_key(p) ==> after.shape().contains_key(p) && (before.shape()[p]
                ==> after.shape()[p]),
        forall|p: Seq<u8>| #[trigger]
            after.shape().contains_key(p) && !before.shape().contains_key(p) ==> p.is_prefix_of(
                k@,
            ),
        forall|p: Seq<u8>| #[trigger]
            after.shape().contains_key(p) && after.shape()[p] && !(before.shape().contains_key(p)
                && before.shape()[p]) ==> p.is_prefix_of(k@) && p.len() < k@.len(),
{
}

} // verus!
