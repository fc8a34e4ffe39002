//! The mathematical model of a tree: a map from byte strings to values, and
//! the two operations on such maps that follow a walk down the tree.

use vstd::prelude::*;

verus! {

/// The entries of `m` whose key starts with `prefix`, each under the rest of
/// its key.
#[verifier::opaque]
pub open spec fn subtree<V>(m: Map<Seq<u8>, V>, prefix: Seq<u8>) -> Map<Seq<u8>, V> {
    Map::new(|s: Seq<u8>| m.contains_key(prefix + s), |s: Seq<u8>| m[prefix + s])
}

/// `m` with everything under `prefix` replaced by the entries of `sub`, each
/// under `prefix` followed by its key.
#[verifier::opaque]
pub open spec fn graft<V>(m: Map<Seq<u8>, V>, prefix: Seq<u8>, sub: Map<Seq<u8>, V>) -> Map<
    Seq<u8>,
    V,
> {
    Map::new(
        |s: Seq<u8>|
            if prefix.is_prefix_of(s) {
                sub.contains_key(s.skip(prefix.len() as int))
            } else {
                m.contains_key(s)
            },
        |s: Seq<u8>|
            if prefix.is_prefix_of(s) {
                sub[s.skip(prefix.len() as int)]
            } else {
                m[s]
            },
    )
}

/// `m` after the entries of `puts` were stored in it, one after the other.
pub open spec fn after_puts<V>(m: Map<Seq<u8>, V>, puts: Seq<(Seq<u8>, V)>) -> Map<Seq<u8>, V>
    decreases puts.len(),
{
    if puts.len() == 0 {
        m
    } else {
        after_puts(m, puts.drop_last()).insert(puts.last().0, puts.last().1)
    }
}

/// Storing under other keys leaves what a key holds as it was.
pub proof fn lemma_after_puts_elsewhere<V>(
    m: Map<Seq<u8>, V>,
    puts: Seq<(Seq<u8>, V)>,
    key: Seq<u8>,
)
    requires
        forall|i: int| 0 <= i < puts.len() ==> (#[trigger] puts[i]).0 != key,
    ensures
        after_puts(m, puts).contains_key(key) == m.contains_key(key),
        m.contains_key(key) ==> after_puts(m, puts)[key] == m[key],
    decreases puts.len(),
{
    if puts.len() > 0 {
        let earlier = puts.drop_last();
        assert forall|i: int| 0 <= i < earlier.len() implies (#[trigger] earlier[i]).0 != key by {
            assert(earlier[i] == puts[i]);
        }
        lemma_after_puts_elsewhere(m, earlier, key);
        assert(puts.last() == puts[puts.len() - 1]);
    }
}

/// Under the empty prefix lies the whole map.
pub proof fn lemma_subtree_empty<V>(m: Map<Seq<u8>, V>)
    ensures
        subtree(m, Seq::<u8>::empty()) == m,
{
    reveal(subtree);
    assert forall|s: Seq<u8>| Seq::<u8>::empty() + s == s by {
        assert(Seq::<u8>::empty() + s =~= s);
    }
    assert(subtree(m, Seq::<u8>::empty()) =~= m);
}

/// Replacing everything replaces the whole map.
pub proof fn lemma_graft_empty<V>(m: Map<Seq<u8>, V>, sub: Map<Seq<u8>, V>)
    ensures
        graft(m, Seq::<u8>::empty(), sub) == sub,
{
    reveal(graft);
    let g = graft(m, Seq::<u8>::empty(), sub);
    assert forall|s: Seq<u8>|
        #![trigger g.dom().contains(s)]
        #![trigger sub.dom().contains(s)]
        g.contains_key(s) == sub.contains_key(s) && (g.contains_key(s) ==> g[s] == sub[s]) by {
        assert(Seq::<u8>::empty().is_prefix_of(s));
        assert(s.skip(0) =~= s);
    }
    assert(g =~= sub);
}

/// What lies at the root of the part under `p` is what `m` holds under `p`.
pub proof fn lemma_subtree_root<V>(m: Map<Seq<u8>, V>, p: Seq<u8>)
    ensures
        subtree(m, p).contains_key(Seq::<u8>::empty()) == m.contains_key(p),
        m.contains_key(p) ==> subtree(m, p)[Seq::<u8>::empty()] == m[p],
{
    reveal(subtree);
    assert(p + Seq::<u8>::empty() =~= p);
}

/// Where nothing lies under a prefix of `key`, `m` holds nothing under `key`.
pub proof fn lemma_subtree_none<V>(m: Map<Seq<u8>, V>, p: Seq<u8>, key: Seq<u8>)
    requires
        p.is_prefix_of(key),
        subtree(m, p) == Map::<Seq<u8>, V>::empty(),
    ensures
        !m.contains_key(key),
{
    reveal(subtree);
    lemma_prefix_rest(p, key);
    let rest = key.skip(p.len() as int);
    assert(!subtree(m, p).contains_key(rest));
}

/// Going down by `p` and then by `q` is going down by `p + q`.
pub proof fn lemma_subtree_subtree<V>(m: Map<Seq<u8>, V>, p: Seq<u8>, q: Seq<u8>)
    ensures
        subtree(subtree(m, p), q) == subtree(m, p + q),
{
    reveal(subtree);
    assert forall|s: Seq<u8>| p + (q + s) == (p + q) + s by {
        assert(p + (q + s) =~= (p + q) + s);
    }
    assert(subtree(subtree(m, p), q) =~= subtree(m, p + q));
}

/// A string that starts with `p` is `p` followed by the rest.
pub proof fn lemma_prefix_rest(p: Seq<u8>, s: Seq<u8>)
    requires
        p.is_prefix_of(s),
    ensures
        p + s.skip(p.len() as int) == s,
{
    assert(p =~= s.subrange(0, p.len() as int));
    assert(p + s.skip(p.len() as int) =~= s);
}

/// `p` followed by `t` starts with `p`, and `t` is the rest.
pub proof fn lemma_prefix_of_concat(p: Seq<u8>, t: Seq<u8>)
    ensures
        p.is_prefix_of(p + t),
        (p + t).skip(p.len() as int) == t,
{
    assert(p =~= (p + t).subrange(0, p.len() as int));
    assert((p + t).skip(p.len() as int) =~= t);
}

/// A string starts with `p + q` exactly when it starts with `p` and the rest
/// starts with `q`.
pub proof fn lemma_prefix_concat(p: Seq<u8>, q: Seq<u8>, s: Seq<u8>)
    ensures
        (p + q).is_prefix_of(s) <==> p.is_prefix_of(s) && q.is_prefix_of(s.skip(p.len() as int)),
        (p + q).is_prefix_of(s) ==> s.skip((p + q).len() as int) == s.skip(p.len() as int).skip(
            q.len() as int,
        ),
{
    let t = s.skip(p.len() as int);
    if (p + q).is_prefix_of(s) {
        lemma_prefix_rest(p + q, s);
        let u = s.skip((p + q).len() as int);
        assert(s =~= p + (q + u));
        lemma_prefix_of_concat(p, q + u);
        lemma_prefix_of_concat(q, u);
        assert(t == q + u);
        assert(t.skip(q.len() as int) == u);
    }
    if p.is_prefix_of(s) && q.is_prefix_of(t) {
        lemma_prefix_rest(p, s);
        lemma_prefix_rest(q, t);
        let u = t.skip(q.len() as int);
        assert(s =~= (p + q) + u);
        lemma_prefix_of_concat(p + q, u);
    }
}

/// Replacing what lies under `q` inside what lies under `p` replaces what
/// lies under `p + q`.
pub proof fn lemma_graft_graft<V>(
    m: Map<Seq<u8>, V>,
    p: Seq<u8>,
    q: Seq<u8>,
    sub: Map<Seq<u8>, V>,
)
    ensures
        graft(m, p, graft(subtree(m, p), q, sub)) == graft(m, p + q, sub),
{
    reveal(subtree);
    reveal(graft);
    let inner = graft(subtree(m, p), q, sub);
    let lhs = graft(m, p, inner);
    let rhs = graft(m, p + q, sub);
    assert forall|s: Seq<u8>|
        #![trigger lhs.dom().contains(s)]
        #![trigger rhs.dom().contains(s)]
        lhs.contains_key(s) == rhs.contains_key(s) && (lhs.contains_key(s) ==> lhs[s] == rhs[s]) by {
        lemma_prefix_concat(p, q, s);
        if p.is_prefix_of(s) {
            lemma_prefix_rest(p, s);
            let t = s.skip(p.len() as int);
            assert(lhs.contains_key(s) == inner.contains_key(t));
            if !q.is_prefix_of(t) {
                assert(inner.contains_key(t) == subtree(m, p).contains_key(t));
                assert(subtree(m, p).contains_key(t) == m.contains_key(p + t));
            }
        }
    }
    assert(lhs =~= rhs);
}

/// Storing `v` at the root of what lies under `p` stores it under `p`.
pub proof fn lemma_graft_insert<V>(m: Map<Seq<u8>, V>, p: Seq<u8>, v: V)
    ensures
        graft(m, p, subtree(m, p).insert(Seq::<u8>::empty(), v)) == m.insert(p, v),
{
    reveal(subtree);
    reveal(graft);
    let inner = subtree(m, p).insert(Seq::<u8>::empty(), v);
    let lhs = graft(m, p, inner);
    let rhs = m.insert(p, v);
    assert forall|s: Seq<u8>|
        #![trigger lhs.dom().contains(s)]
        #![trigger rhs.dom().contains(s)]
        lhs.contains_key(s) == rhs.contains_key(s) && (lhs.contains_key(s) ==> lhs[s] == rhs[s]) by {
        if p.is_prefix_of(s) {
            lemma_prefix_rest(p, s);
            let t = s.skip(p.len() as int);
            assert(lhs.contains_key(s) == inner.contains_key(t));
            if t =~= Seq::<u8>::empty() {
                assert(s =~= p);
            } else {
                assert(s != p) by {
                    if s == p {
                        assert(t.len() == 0);
                    }
                }
                assert(inner.contains_key(t) == subtree(m, p).contains_key(t));
                assert(subtree(m, p).contains_key(t) == m.contains_key(p + t));
            }
        } else {
            assert(s != p) by {
                if s == p {
                    assert(p =~= s.subrange(0, p.len() as int));
                }
            }
        }
    }
    assert(lhs =~= rhs);
}

} // verus!
