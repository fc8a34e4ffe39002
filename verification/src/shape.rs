//! The shape of a tree: under which paths a node exists, and which of the
//! nodes have their array of children. A shape is a map from the path of each
//! node to whether that node has the array.

use crate::model::{
    graft, lemma_prefix_concat, lemma_prefix_of_concat, lemma_prefix_rest, lemma_subtree_empty,
    lemma_subtree_subtree, subtree,
};
use vstd::prelude::*;

verus! {

/// With each path, every prefix of it is a path of `m` too.
pub open spec fn prefix_closed(m: Map<Seq<u8>, bool>) -> bool {
    forall|p: Seq<u8>, s: Seq<u8>| #[trigger] m.contains_key(p + s) ==> m.contains_key(p)
}

/// The shape of a single node that has no array of children.
pub open spec fn single_leaf() -> Map<Seq<u8>, bool> {
    Map::<Seq<u8>, bool>::empty().insert(Seq::<u8>::empty(), false)
}

/// The shape of the node that a walk along `path` finds or makes: what lies
/// under `path`, or a single new node where there is none yet.
pub open spec fn below(m: Map<Seq<u8>, bool>, path: Seq<u8>) -> Map<Seq<u8>, bool> {
    if m.contains_key(path) {
        subtree(m, path)
    } else {
        single_leaf()
    }
}

/// `m` after a walk along the first `n` bytes of `key` has left the nodes it
/// went through: each of them exists and has its array of children.
pub open spec fn paved(m: Map<Seq<u8>, bool>, key: Seq<u8>, n: int) -> Map<Seq<u8>, bool> {
    Map::new(
        |p: Seq<u8>| m.contains_key(p) || (p.is_prefix_of(key) && p.len() < n),
        |p: Seq<u8>|
            if p.is_prefix_of(key) && p.len() < n {
                true
            } else {
                m[p]
            },
    )
}

/// `m` after a value was stored under `key`: every prefix of `key` is the
/// path of a node, `key` itself too; each proper prefix has its array of
/// children; every other node, and the node of `key` if it was there, is as
/// it was.
pub open spec fn shape_after_put(m: Map<Seq<u8>, bool>, key: Seq<u8>) -> Map<Seq<u8>, bool> {
    Map::new(
        |p: Seq<u8>| m.contains_key(p) || p.is_prefix_of(key),
        |p: Seq<u8>|
            if p.is_prefix_of(key) && p.len() < key.len() {
                true
            } else if m.contains_key(p) {
                m[p]
            } else {
                false
            },
    )
}

/// A prefix of `key` that is as long as `key` is `key`.
proof fn lemma_prefix_of_same_len(p: Seq<u8>, key: Seq<u8>)
    requires
        p.is_prefix_of(key),
        p.len() == key.len(),
    ensures
        p == key,
{
    assert(key.subrange(0, p.len() as int) =~= key);
}

/// Going down by `p` and then by `q` is going down by `p + q`, also where
/// nodes are missing on the way.
pub proof fn lemma_below_below(m: Map<Seq<u8>, bool>, p: Seq<u8>, q: Seq<u8>)
    requires
        prefix_closed(m),
    ensures
        below(below(m, p), q) == below(m, p + q),
{
    reveal(subtree);
    let e = Seq::<u8>::empty();
    if m.contains_key(p) {
        assert(subtree(m, p).contains_key(q) == m.contains_key(p + q));
        if m.contains_key(p + q) {
            lemma_subtree_subtree(m, p, q);
        }
    } else {
        if m.contains_key(p + q) {
            assert(m.contains_key(p));
        }
        if q.len() == 0 {
            assert(q =~= e);
            lemma_subtree_empty(single_leaf());
        } else {
            assert(!single_leaf().contains_key(q));
        }
    }
}

/// One step of a walk: the node at the end of the first `i` bytes of `key`
/// gets its array of children, and the walk goes on below it.
pub proof fn lemma_pave_step(
    m: Map<Seq<u8>, bool>,
    key: Seq<u8>,
    i: int,
    sub: Map<Seq<u8>, bool>,
)
    requires
        prefix_closed(m),
        0 <= i < key.len(),
    ensures
        graft(
            paved(m, key, i),
            key.take(i),
            graft(below(m, key.take(i)), seq![key[i]], sub).insert(Seq::<u8>::empty(), true),
        ) == graft(paved(m, key, i + 1), key.take(i + 1), sub),
{
    reveal(subtree);
    reveal(graft);
    let p = key.take(i);
    let b = seq![key[i]];
    let e = Seq::<u8>::empty();
    let part = below(m, p);
    let inner = graft(part, b, sub).insert(e, true);
    let lhs = graft(paved(m, key, i), p, inner);
    let rhs = graft(paved(m, key, i + 1), key.take(i + 1), sub);
    assert(key.take(i + 1) =~= p + b);
    assert(p.is_prefix_of(key));
    assert forall|s: Seq<u8>|
        #![trigger lhs.dom().contains(s)]
        #![trigger rhs.dom().contains(s)]
        lhs.contains_key(s) == rhs.contains_key(s) && (lhs.contains_key(s) ==> lhs[s] == rhs[s]) by {
        lemma_prefix_concat(p, b, s);
        if p.is_prefix_of(s) {
            lemma_prefix_rest(p, s);
            let t = s.skip(p.len() as int);
            assert(lhs.contains_key(s) == inner.contains_key(t));
            if t.len() == 0 {
                assert(t =~= e);
                assert(s =~= p);
                assert(!b.is_prefix_of(t));
            } else if b.is_prefix_of(t) {
            } else {
                assert(t != e);
                assert(inner.contains_key(t) == part.contains_key(t));
                assert(!(s.is_prefix_of(key) && s.len() < i + 1));
                if m.contains_key(p) {
                    assert(part.contains_key(t) == m.contains_key(p + t));
                } else {
                    assert(!part.contains_key(t));
                    if m.contains_key(p + t) {
                        assert(m.contains_key(p));
                    }
                }
            }
        } else {
            if s.is_prefix_of(key) && s.len() == i {
                assert(s =~= key.take(i));
                assert(p.is_prefix_of(p + e));
                assert(p + e =~= p);
            }
        }
    }
    assert(lhs =~= rhs);
}

/// The end of a walk along `key`: every node on the way has its array of
/// children, and the node of `key` exists.
pub proof fn lemma_pave_end(m: Map<Seq<u8>, bool>, key: Seq<u8>)
    requires
        prefix_closed(m),
    ensures
        graft(paved(m, key, key.len() as int), key, below(m, key)) == shape_after_put(m, key),
{
    reveal(subtree);
    reveal(graft);
    let e = Seq::<u8>::empty();
    let part = below(m, key);
    let lhs = graft(paved(m, key, key.len() as int), key, part);
    let rhs = shape_after_put(m, key);
    assert forall|s: Seq<u8>|
        #![trigger lhs.dom().contains(s)]
        #![trigger rhs.dom().contains(s)]
        lhs.contains_key(s) == rhs.contains_key(s) && (lhs.contains_key(s) ==> lhs[s] == rhs[s]) by {
        if key.is_prefix_of(s) {
            lemma_prefix_rest(key, s);
            let t = s.skip(key.len() as int);
            assert(lhs.contains_key(s) == part.contains_key(t));
            if s.is_prefix_of(key) {
                lemma_prefix_of_same_len(s, key);
                assert(t =~= e);
                assert(key + e =~= key);
            } else {
                assert(t != e) by {
                    if t == e {
                        assert(key + e =~= key);
                    }
                }
                if !m.contains_key(key) {
                    assert(!part.contains_key(t));
                    if m.contains_key(key + t) {
                        assert(m.contains_key(key));
                    }
                }
            }
        } else {
            if s.is_prefix_of(key) && s.len() == key.len() {
                lemma_prefix_of_same_len(s, key);
                lemma_prefix_of_concat(key, e);
                assert(key + e =~= key);
            }
        }
    }
    assert(lhs =~= rhs);
}

} // verus!
