//! The map: a tree of nodes under one root, walked one byte of the key at a
//! time.

use crate::key::Key;
use crate::model::{
    graft, lemma_graft_empty, lemma_graft_graft, lemma_graft_insert, lemma_subtree_empty,
    lemma_subtree_none, lemma_subtree_root, lemma_subtree_subtree, subtree,
};
use crate::node::Node;
use crate::shape::{
    below, lemma_below_below, lemma_pave_end, lemma_pave_step, paved, prefix_closed,
    shape_after_put, single_leaf,
};
use vstd::prelude::*;

verus! {

/// A map from keys to values of type `V`.
pub struct TrieMap<V> {
    root: Node<V>,
}

impl<V> View for TrieMap<V> {
    type V = Map<Seq<u8>, V>;

    /// The entries of the map, each under the bytes of its key.
    closed spec fn view(&self) -> Map<Seq<u8>, V> {
        self.root@
    }
}

impl<V> TrieMap<V> {
    /// The nodes of the tree: the path of each from the root, with whether
    /// the node has its array of children.
    pub closed spec fn shape(&self) -> Map<Seq<u8>, bool> {
        self.root.shape()
    }

    /// What the map holds under the bytes `key`, if anything.
    pub open spec fn lookup(&self, key: Seq<u8>) -> Option<V> {
        if self@.contains_key(key) {
            Some(self@[key])
        } else {
            None
        }
    }

    /// Every entry sits in a node: where the map holds a value under a key,
    /// the tree has a node under that key.
    pub proof fn lemma_entries_sit_in_nodes(&self)
        ensures
            forall|key: Seq<u8>| self@.contains_key(key) ==> self.shape().contains_key(key),
    {
    }

    /// An empty map: a root without a value and without children.
    pub fn new() -> (m: Self)
        ensures
            m@ == Map::<Seq<u8>, V>::empty(),
            m.shape() == single_leaf(),
    {
        TrieMap { root: Node::default() }
    }

    /// Stores `v` under `k`, in place of what was stored there if anything
    /// was, and without saying whether anything was. No other entry changes.
    ///
    /// The walk starts at the root and goes down one byte of the key at a
    /// time, making each node that is missing on the way; the node at the end
    /// of the key takes the value.
    pub fn put(&mut self, k: &Key, v: V)
        ensures
            final(self)@ == old(self)@.insert(k@, v),
            final(self).shape() == shape_after_put(old(self).shape(), k@),
    {
        let bytes = k.as_bytes();
        let ghost before = self.root@;
        let ghost nodes = self.root.shape();
        proof {
            self.root.lemma_shape_prefix_closed();
            lemma_subtree_empty(before);
            lemma_subtree_empty(nodes);
        }
        let mut cur = &mut self.root;
        let mut i: usize = 0;
        proof {
            assert(k@.take(0) =~= Seq::<u8>::empty());
            lemma_graft_empty(before, final(cur)@);
            lemma_graft_empty(paved(nodes, k@, 0), final(cur).shape());
        }
        while i < bytes.len()
            invariant
                i <= bytes.len(),
                bytes@ == k@,
                prefix_closed(nodes),
                cur@ == subtree(before, k@.take(i as int)),
                cur.shape() == below(nodes, k@.take(i as int)),
                after_borrow(self.root)@ == graft(before, k@.take(i as int), final(cur)@),
                after_borrow(self.root).shape() == graft(
                    paved(nodes, k@, i as int),
                    k@.take(i as int),
                    final(cur).shape(),
                ),
            decreases bytes.len() - i,
        {
            let ghost walked = k@.take(i as int);
            let b = bytes[i];
            cur = cur.get_or_add_child(b);
            proof {
                assert(k@.take(i + 1) =~= walked + seq![b]);
                lemma_subtree_subtree(before, walked, seq![b]);
                lemma_graft_graft(before, walked, seq![b], final(cur)@);
                lemma_below_below(nodes, walked, seq![b]);
                lemma_pave_step(nodes, k@, i as int, final(cur).shape());
            }
            i += 1;
        }
        let ghost last = *cur;
        cur.value = Some(Box::new(v));
        proof {
            assert(k@.take(i as int) =~= k@);
            last.lemma_set_value(*cur, v);
            lemma_graft_insert(before, k@, v);
            lemma_pave_end(nodes, k@);
        }
    }

    /// The value stored under `k`, if there is one.
    ///
    /// The walk starts at the root, goes down one byte of the key at a time
    /// and stops at the first node that is missing; nothing is created.
    pub fn get(&self, k: &Key) -> (r: Option<&V>)
        ensures
            match r {
                Some(v) => self.lookup(k@) == Some(*v),
                None => self.lookup(k@) is None,
            },
    {
        let bytes = k.as_bytes();
        proof {
            assert(k@.take(0) =~= Seq::<u8>::empty());
            lemma_subtree_empty(self.root@);
        }
        let mut cur = &self.root;
        let mut i: usize = 0;
        while i < bytes.len()
            invariant
                i <= bytes.len(),
                bytes@ == k@,
                cur@ == subtree(self.root@, k@.take(i as int)),
            decreases bytes.len() - i,
        {
            let ghost walked = k@.take(i as int);
            let b = bytes[i];
            proof {
                assert(k@.take(i + 1) =~= walked + seq![b]);
                lemma_subtree_subtree(self.root@, walked, seq![b]);
            }
            match cur.get_child(b) {
                Some(child) => {
                    cur = child;
                },
                None => {
                    proof {
                        lemma_subtree_none(self.root@, k@.take(i + 1), k@);
                    }
                    return None;
                },
            }
            i += 1;
        }
        proof {
            assert(k@.take(i as int) =~= k@);
            lemma_subtree_root(self.root@, k@);
            cur.lemma_root_view();
        }
        match &cur.value {
            Some(v) => Some(&**v),
            None => None,
        }
    }
}

} // verus!
