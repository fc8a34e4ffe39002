//! Keys: strings whose length in bytes is bounded.

use crate::order::{common_prefix_len, lemma_order_at_common_prefix, precedes};
use std::cmp::Ordering;
use vstd::prelude::*;
use vstd::std_specs::cmp::{PartialEqSpecImpl, PartialOrdSpecImpl};
use vstd::string::StringSliceAdditionalSpecFns;
use vstd::utf8::{encode_utf8, encode_utf8_decode_utf8};

verus! {

/// The greatest length of a key, in bytes. It bounds the depth of the tree,
/// and with it the number of steps of an insertion or a lookup.
pub const KEYLEN: usize = 128;

/// Why a key could not be made.
#[derive(Clone, Copy, Debug, PartialEq, Eq, Structural)]
pub enum KeyError {
    /// The input is longer than [`KEYLEN`] bytes.
    KeyTooLong,
}

impl KeyError {
    /// The error in words.
    pub fn message(&self) -> (text: &'static str)
        ensures
            text@ == "Key is too big"@,
    {
        "Key is too big"
    }
}

/// A validated, immutable key of at most [`KEYLEN`] bytes. The length is
/// checked once, when the key is made, and never again.
#[derive(Debug, Eq, Ord, Hash)]
pub struct Key(String);

impl View for Key {
    type V = Seq<u8>;

    /// The bytes of the key, in order.
    closed spec fn view(&self) -> Seq<u8> {
        encode_utf8(self.0@)
    }
}

impl Key {
    /// No key is longer than [`KEYLEN`] bytes.
    #[verifier::type_invariant]
    spec fn bounded(&self) -> bool {
        self@.len() <= KEYLEN
    }

    /// Makes a key that holds exactly the bytes of `s`, or refuses `s` when it
    /// is longer than [`KEYLEN`] bytes. Any content is accepted; nothing is
    /// ever cut off.
    pub fn new(s: &str) -> (r: Result<Key, KeyError>)
        ensures
            s.spec_bytes().len() <= KEYLEN ==> r is Ok && r->Ok_0@ == s.spec_bytes(),
            s.spec_bytes().len() > KEYLEN ==> r == Err::<Key, KeyError>(KeyError::KeyTooLong),
    {
        if s.as_bytes().len() > KEYLEN {
            return Err(KeyError::KeyTooLong);
        }
        Ok(Key(s.to_owned()))
    }

    /// The bytes of the key: never more than [`KEYLEN`].
    pub fn as_bytes(&self) -> (bytes: &[u8])
        ensures
            bytes@ == self@,
            bytes@.len() <= KEYLEN,
    {
        proof {
            use_type_invariant(self);
        }
        self.0.as_str().as_bytes()
    }
}

impl Clone for Key {
    fn clone(&self) -> (copy: Key)
        ensures
            copy@ == self@,
    {
        proof {
            use_type_invariant(self);
        }
        Key(self.0.clone())
    }
}

impl PartialEq for Key {
    /// Two keys are equal when they hold the same bytes.
    fn eq(&self, other: &Key) -> (r: bool) {
        proof {
            encode_utf8_decode_utf8(self.0@);
            encode_utf8_decode_utf8(other.0@);
        }
        self.0 == other.0
    }
}

impl PartialEqSpecImpl for Key {
    open spec fn obeys_eq_spec() -> bool {
        true
    }

    open spec fn eq_spec(&self, other: &Key) -> bool {
        self@ == other@
    }
}

impl PartialOrd for Key {
    /// Keys are ordered as their bytes are, byte by byte.
    fn partial_cmp(&self, other: &Key) -> (r: Option<Ordering>) {
        let a = self.as_bytes();
        let b = other.as_bytes();
        let n = common_prefix_len(a, b);
        proof {
            lemma_order_at_common_prefix(a@, b@, n);
        }
        if n == b.len() {
            if n == a.len() {
                Some(Ordering::Equal)
            } else {
                Some(Ordering::Greater)
            }
        } else if n == a.len() || a[n] < b[n] {
            Some(Ordering::Less)
        } else {
            Some(Ordering::Greater)
        }
    }
}

impl PartialOrdSpecImpl for Key {
    open spec fn obeys_partial_cmp_spec() -> bool {
        true
    }

    open spec fn partial_cmp_spec(&self, other: &Key) -> Option<Ordering> {
        if self@ == other@ {
            Some(Ordering::Equal)
        } else if precedes(self@, other@) {
            Some(Ordering::Less)
        } else {
            Some(Ordering::Greater)
        }
    }
}

} // verus!
