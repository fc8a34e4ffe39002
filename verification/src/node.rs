//! Nodes of the tree: an optional value and, once a node has a child, an array
//! with one slot for each byte.

use crate::model::{graft, subtree};
use crate::shape::{below, prefix_closed, single_leaf};
use vstd::prelude::*;

verus! {

/// The number of slots for children in a node: one for each value of a byte.
pub const FANOUT: usize = 256;

/// A vertex of the tree. The path from the root to a node spells the key whose
/// value the node holds.
pub struct Node<V> {
    /// The value stored under the key that ends here, if any.
    pub value: Option<Box<V>>,
    /// One slot per byte, indexed by the byte itself; absent until the node
    /// gets its first child.
    pub children: Option<Box<[Option<Box<Node<V>>>; FANOUT]>>,
}

impl<V> View for Node<V> {
    type V = Map<Seq<u8>, V>;

    /// The entries of the subtree rooted here, each under the bytes that lead
    /// from this node to the node that holds its value.
    open spec fn view(&self) -> Map<Seq<u8>, V> {
        Map::new(|key: Seq<u8>| self.lookup(key) is Some, |key: Seq<u8>| self.lookup(key)->Some_0)
    }
}

impl<V> Node<V> {
    /// The node without a value and without children.
    pub open spec fn empty() -> Node<V> {
        Node { value: None, children: None }
    }

    /// The child under byte `b`, if there is one.
    pub open spec fn child(&self, b: u8) -> Option<Node<V>> {
        match self.children {
            Some(slots) => match slots@[b as int] {
                Some(c) => Some(*c),
                None => None,
            },
            None => None,
        }
    }

    /// The node reached from this one by following `path` byte by byte, if
    /// every node on the way exists.
    pub open spec fn descend(&self, path: Seq<u8>) -> Option<Node<V>>
        decreases path.len(),
    {
        if path.len() == 0 {
            Some(*self)
        } else {
            match self.child(path[0]) {
                Some(c) => c.descend(path.drop_first()),
                None => None,
            }
        }
    }

    /// What the subtree rooted here holds under `key`: the value of the node
    /// reached by following `key`, if that node exists and has one.
    pub open spec fn lookup(&self, key: Seq<u8>) -> Option<V> {
        match self.descend(key) {
            Some(node) => match node.value {
                Some(v) => Some(*v),
                None => None,
            },
            None => None,
        }
    }

    /// The nodes of the subtree rooted here: the path of each from this node,
    /// with whether the node has its array of children.
    pub open spec fn shape(&self) -> Map<Seq<u8>, bool> {
        Map::new(
            |path: Seq<u8>| self.descend(path) is Some,
            |path: Seq<u8>| self.descend(path)->Some_0.children is Some,
        )
    }

    /// Following a path that starts with `b` is following the rest of it from
    /// the child under `b`.
    pub proof fn lemma_descend_step(&self, b: u8, rest: Seq<u8>)
        ensures
            self.descend(seq![b] + rest) == match self.child(b) {
                Some(c) => c.descend(rest),
                None => None,
            },
    {
        let path = seq![b] + rest;
        assert(path[0] == b);
        assert(path.drop_first() =~= rest);
    }

    /// The empty node holds nothing and is a single leaf.
    pub proof fn lemma_empty()
        ensures
            Self::empty()@ == Map::<Seq<u8>, V>::empty(),
            Self::empty().shape() == single_leaf(),
    {
        let e = Self::empty();
        assert forall|path: Seq<u8>| path.len() > 0 implies e.descend(path) is None by {
            assert(e.child(path[0]) is None);
        }
        assert(e@ =~= Map::<Seq<u8>, V>::empty());
        assert forall|path: Seq<u8>|
            #![trigger e.shape().dom().contains(path)]
            #![trigger single_leaf().dom().contains(path)]
            e.shape().contains_key(path) == single_leaf().contains_key(path) by {
            if path.len() == 0 {
                assert(path =~= Seq::<u8>::empty());
            }
        }
        assert(e.shape() =~= single_leaf());
    }

    /// Under the empty key a node holds its own value.
    pub proof fn lemma_root_view(&self)
        ensures
            self@.contains_key(Seq::<u8>::empty()) == self.value is Some,
            self.value matches Some(v) ==> self@[Seq::<u8>::empty()] == *v,
    {
        assert(self.lookup(Seq::<u8>::empty()) is Some == self.value is Some);
    }

    /// Where a node exists, the nodes on the way to it exist.
    pub proof fn lemma_shape_prefix_closed(&self)
        ensures
            prefix_closed(self.shape()),
    {
        assert forall|p: Seq<u8>, s: Seq<u8>| #[trigger]
            self.shape().contains_key(p + s) implies self.shape().contains_key(p) by {
            self.lemma_descend_prefix(p, s);
        }
    }

    proof fn lemma_descend_prefix(&self, p: Seq<u8>, s: Seq<u8>)
        requires
            self.descend(p + s) is Some,
        ensures
            self.descend(p) is Some,
        decreases p.len(),
    {
        if p.len() > 0 {
            let path = p + s;
            assert(path[0] == p[0]);
            assert(path.drop_first() =~= p.drop_first() + s);
            self.child(p[0])->Some_0.lemma_descend_prefix(p.drop_first(), s);
        }
    }

    /// What a child holds is what its parent holds under the child's byte, in
    /// values and in nodes; a node without that child holds nothing there.
    pub proof fn lemma_child(&self, b: u8)
        ensures
            self.shape().contains_key(seq![b]) == self.child(b) is Some,
            match self.child(b) {
                Some(c) => c@ == subtree(self@, seq![b]) && c.shape() == subtree(
                    self.shape(),
                    seq![b],
                ),
                None => subtree(self@, seq![b]) == Map::<Seq<u8>, V>::empty(),
            },
    {
        reveal(subtree);
        let sub = subtree(self@, seq![b]);
        let sub_shape = subtree(self.shape(), seq![b]);
        assert forall|s: Seq<u8>| #[trigger] self.descend(seq![b] + s) == match self.child(b) {
            Some(c) => c.descend(s),
            None => None,
        } by {
            self.lemma_descend_step(b, s);
        }
        assert(seq![b] + Seq::<u8>::empty() =~= seq![b]);
        assert(self.descend(seq![b] + Seq::<u8>::empty()) is Some == self.child(b) is Some);
        match self.child(b) {
            Some(c) => {
                assert forall|s: Seq<u8>|
                    #![trigger sub.dom().contains(s)]
                    #![trigger c@.dom().contains(s)]
                    sub.contains_key(s) == c@.contains_key(s) && (sub.contains_key(s) ==> sub[s]
                        == c@[s]) by {
                    assert(self.descend(seq![b] + s) == c.descend(s));
                }
                assert(c@ =~= sub);
                assert forall|s: Seq<u8>|
                    #![trigger sub_shape.dom().contains(s)]
                    #![trigger c.shape().dom().contains(s)]
                    sub_shape.contains_key(s) == c.shape().contains_key(s) && (
                    sub_shape.contains_key(s) ==> sub_shape[s] == c.shape()[s]) by {
                    assert(self.descend(seq![b] + s) == c.descend(s));
                }
                assert(c.shape() =~= sub_shape);
            },
            None => {
                assert forall|s: Seq<u8>| !#[trigger] sub.dom().contains(s) by {
                    assert(self.descend(seq![b] + s) is None);
                }
                assert(sub =~= Map::<Seq<u8>, V>::empty());
            },
        }
    }

    /// A node that differs from `self` only in its child under `b` holds what
    /// `self` holds, but for what lies under `b`, where it holds what that
    /// child holds; and it has its array of children.
    pub proof fn lemma_replace_child(&self, after: Node<V>, b: u8, c: Node<V>)
        requires
            after.value == self.value,
            after.child(b) == Some(c),
            forall|other: u8| other != b ==> after.child(other) == self.child(other),
        ensures
            after@ == graft(self@, seq![b], c@),
            after.shape() == graft(self.shape(), seq![b], c.shape()).insert(
                Seq::<u8>::empty(),
                true,
            ),
    {
        reveal(graft);
        let g = graft(self@, seq![b], c@);
        let h = graft(self.shape(), seq![b], c.shape()).insert(Seq::<u8>::empty(), true);
        assert forall|s: Seq<u8>|
            (s.len() > 0 && s[0] == b ==> seq![b].is_prefix_of(s) && after.descend(s) == c.descend(
                s.skip(1),
            )) && (s.len() > 0 && s[0] != b ==> !seq![b].is_prefix_of(s) && after.descend(s)
                == self.descend(s)) && (s.len() == 0 ==> !seq![b].is_prefix_of(s)) by {
            if s.len() > 0 {
                if s[0] == b {
                    assert(seq![b] =~= s.subrange(0, 1));
                    assert(s.skip(1) =~= s.drop_first());
                } else {
                    if seq![b].is_prefix_of(s) {
                        assert(seq![b][0] == s.subrange(0, 1)[0]);
                    }
                }
            }
        }
        assert forall|s: Seq<u8>|
            #![trigger g.dom().contains(s)]
            #![trigger after@.dom().contains(s)]
            g.contains_key(s) == after@.contains_key(s) && (g.contains_key(s) ==> g[s]
                == after@[s]) by {
            if s.len() > 0 && s[0] == b {
                assert(after.descend(s) == c.descend(s.skip(1)));
            }
        }
        assert(after@ =~= g);
        assert forall|s: Seq<u8>|
            #![trigger h.dom().contains(s)]
            #![trigger after.shape().dom().contains(s)]
            h.contains_key(s) == after.shape().contains_key(s) && (h.contains_key(s) ==> h[s]
                == after.shape()[s]) by {
            if s.len() == 0 {
                assert(s =~= Seq::<u8>::empty());
            } else if s[0] == b {
                assert(after.descend(s) == c.descend(s.skip(1)));
            }
        }
        assert(after.shape() =~= h);
    }

    /// A node that differs from `self` only in holding `v` holds what `self`
    /// holds, and `v` under the empty key; its nodes are those of `self`.
    pub proof fn lemma_set_value(&self, after: Node<V>, v: V)
        requires
            after.value == Some(Box::new(v)),
            after.children == self.children,
        ensures
            after@ == self@.insert(Seq::<u8>::empty(), v),
            after.shape() == self.shape(),
    {
        let ins = self@.insert(Seq::<u8>::empty(), v);
        assert forall|s: Seq<u8>| s.len() > 0 implies after.descend(s) == self.descend(s) by {
            assert(after.child(s[0]) == self.child(s[0]));
        }
        assert forall|s: Seq<u8>|
            #![trigger ins.dom().contains(s)]
            #![trigger after@.dom().contains(s)]
            ins.contains_key(s) == after@.contains_key(s) && (ins.contains_key(s) ==> ins[s]
                == after@[s]) by {
            if s.len() == 0 {
                assert(s =~= Seq::<u8>::empty());
            }
        }
        assert(after@ =~= ins);
        assert(after.shape() =~= self.shape());
    }

    /// The child under byte `idx`, or `None` where the node has no children
    /// at all or none under that byte. Nothing is created.
    pub fn get_child(&self, idx: u8) -> (r: Option<&Node<V>>)
        ensures
            match r {
                Some(c) => {
                    &&& self.child(idx) == Some(*c)
                    &&& c@ == subtree(self@, seq![idx])
                    &&& c.shape() == subtree(self.shape(), seq![idx])
                },
                None => {
                    &&& self.child(idx) is None
                    &&& subtree(self@, seq![idx]) == Map::<Seq<u8>, V>::empty()
                    &&& !self.shape().contains_key(seq![idx])
                },
            },
    {
        proof {
            self.lemma_child(idx);
        }
        match &self.children {
            None => None,
            Some(slots) => match &slots[idx as usize] {
                None => None,
                Some(c) => Some(&**c),
            },
        }
    }

    /// The child under byte `idx`, made first where it is missing: the array
    /// of children is allocated if the node has none, and an empty node is
    /// put into the slot if the slot is empty. Whatever the caller then writes
    /// through the result is what the node holds under `idx`; the node's own
    /// value and its other children stay as they were.
    pub fn get_or_add_child(&mut self, idx: u8) -> (child: &mut Node<V>)
        ensures
            *child == match old(self).child(idx) {
                Some(c) => c,
                None => Self::empty(),
            },
            child@ == subtree(old(self)@, seq![idx]),
            child.shape() == below(old(self).shape(), seq![idx]),
            final(self).value == old(self).value,
            final(self).child(idx) == Some(*final(child)),
            forall|b: u8| b != idx ==> final(self).child(b) == old(self).child(b),
            final(self)@ == graft(old(self)@, seq![idx], final(child)@),
            final(self).shape() == graft(
                old(self).shape(),
                seq![idx],
                final(child).shape(),
            ).insert(Seq::<u8>::empty(), true),
    {
        proof {
            old(self).lemma_child(idx);
            Self::lemma_empty();
            assert forall|after: Node<V>, c: Node<V>|
                after.value == old(self).value && after.child(idx) == Some(c) && (forall|b: u8|
                    b != idx ==> after.child(b) == old(self).child(b)) implies #[trigger] after@
                == graft(old(self)@, seq![idx], #[trigger] c@) by {
                old(self).lemma_replace_child(after, idx, c);
            }
            assert forall|after: Node<V>, c: Node<V>|
                after.value == old(self).value && after.child(idx) == Some(c) && (forall|b: u8|
                    b != idx ==> after.child(b) == old(self).child(b))
                implies #[trigger] after.shape() == graft(
                old(self).shape(),
                seq![idx],
                #[trigger] c.shape(),
            ).insert(Seq::<u8>::empty(), true) by {
                old(self).lemma_replace_child(after, idx, c);
            }
        }
        if self.children.is_none() {
            self.children = Some(new_child_array());
        }
        let slots = self.children.as_mut().unwrap();
        let slot = &mut slots[idx as usize];
        if slot.is_none() {
            *slot = Some(Box::new(Node::default()));
        }
        let child = slot.as_mut().unwrap();
        &mut **child
    }
}

impl<V> Default for Node<V> {
    /// A node without a value and without children.
    fn default() -> (node: Self)
        ensures
            node == Self::empty(),
            node@ == Map::<Seq<u8>, V>::empty(),
            node.shape() == single_leaf(),
    {
        proof {
            Self::lemma_empty();
        }
        Node { value: None, children: None }
    }
}

/// A fresh array of children, every slot empty.
pub fn new_child_array<V>() -> (slots: Box<[Option<Box<Node<V>>>; FANOUT]>)
    ensures
        forall|i: int| 0 <= i < FANOUT ==> slots@[i] is None,
{
    // A slot owns its child, so one empty slot cannot be copied into the
    // others: each of them is written out.
    Box::new([
        None, None, None, None, None, None, None, None,
        None, None, None, None, None, None, None, None,
        None, None, None, None, None, None, None, None,
        None, None, None, None, None, None, None, None,
        None, None, None, None, None, None, None, None,
        None, None, None, None, None, None, None, None,
        None, None, None, None, None, None, None, None,
        None, None, None, None, None, None, None, None,
        None, None, None, None, None, None, None, None,
        None, None, None, None, None, None, None, None,
        None, None, None, None, None, None, None, None,
        None, None, None, None, None, None, None, None,
        None, None, None, None, None, None, None, None,
        None, None, None, None, None, None, None, None,
        None, None, None, None, None, None, None, None,
        None, None, None, None, None, None, None, None,
        None, None, None, None, None, None, None, None,
        None, None, None, None, None, None, None, None,
        None, None, None, None, None, None, None, None,
        None, None, None, None, None, None, None, None,
        None, None, None, None, None, None, None, None,
        None, None, None, None, None, None, None, None,
        None, None, None, None, None, None, None, None,
        None, None, None, None, None, None, None, None,
        None, None, None, None, None, None, None, None,
        None, None, None, None, None, None, None, None,
        None, None, None, None, None, None, None, None,
        None, None, None, None, None, None, None, None,
        None, None, None, None, None, None, None, None,
        None, None, None, None, None, None, None, None,
        None, None, None, None, None, None, None, None,
        None, None, None, None, None, None, None, None,
    ])
}

} // verus!
