//! A trie of ASCII keys held in a store of bytes, and the stores it can be held in.

use crate::reader::{get, spec_get};
use std::borrow::Cow;
use vstd::prelude::*;
use vstd::string::StringSliceAdditionalSpecFns;

verus! {

/// A container whose contents are a run of bytes.
pub trait ByteStore {
    /// The bytes held.
    spec fn spec_bytes(&self) -> Seq<u8>;

    /// The bytes held, borrowed.
    fn store_bytes(&self) -> (res: &[u8])
        ensures
            res@ == self.spec_bytes(),
    ;
}

impl ByteStore for Vec<u8> {
    open spec fn spec_bytes(&self) -> Seq<u8> {
        self@
    }

    fn store_bytes(&self) -> (res: &[u8]) {
        self.as_slice()
    }
}

impl<'a> ByteStore for &'a [u8] {
    open spec fn spec_bytes(&self) -> Seq<u8> {
        (*self)@
    }

    fn store_bytes(&self) -> (res: &[u8]) {
        *self
    }
}

impl<const N: usize> ByteStore for [u8; N] {
    open spec fn spec_bytes(&self) -> Seq<u8> {
        self@
    }

    fn store_bytes(&self) -> (res: &[u8]) {
        self.as_slice()
    }
}

impl ByteStore for Box<[u8]> {
    open spec fn spec_bytes(&self) -> Seq<u8> {
        (**self)@
    }

    fn store_bytes(&self) -> (res: &[u8]) {
        &**self
    }
}

impl<'a> ByteStore for Cow<'a, [u8]> {
    open spec fn spec_bytes(&self) -> Seq<u8> {
        self@
    }

    fn store_bytes(&self) -> (res: &[u8]) {
        match self {
            Cow::Borrowed(b) => *b,
            Cow::Owned(v) => v.as_slice(),
        }
    }
}

/// A trie of ASCII keys mapped to `usize` values, read from its store of bytes.
pub struct AsciiTrie<S>(pub(crate) S);

impl<S> AsciiTrie<S> {
    /// The store.
    pub closed spec fn store(&self) -> S {
        self.0
    }

    /// A trie over the given store.
    pub fn from_store(store: S) -> (res: Self)
        ensures
            res.store() == store,
    {
        Self(store)
    }

    /// The store, given back.
    pub fn take_store(self) -> (res: S)
        ensures
            res == self.store(),
    {
        self.0
    }
}

impl<S: ByteStore> AsciiTrie<S> {
    /// The bytes of the trie.
    pub open spec fn view(&self) -> Seq<u8> {
        self.store().spec_bytes()
    }

    /// The value for the key `ascii`, or `None`.
    pub fn get(&self, ascii: &[u8]) -> (res: Option<usize>)
        ensures
            res == spec_get(self@, ascii@),
    {
        get(self.0.store_bytes(), ascii)
    }

    /// The value for the key `ascii`, or `None`.
    pub fn get_str(&self, ascii: &str) -> (res: Option<usize>)
        ensures
            res == spec_get(self@, ascii.spec_bytes()),
    {
        self.get(ascii.as_bytes())
    }

    /// Whether the trie has no bytes.
    pub fn is_empty(&self) -> (res: bool)
        ensures
            res == (self@.len() == 0),
    {
        self.0.store_bytes().len() == 0
    }

    /// The number of bytes of the trie.
    pub fn byte_len(&self) -> (res: usize)
        ensures
            res == self@.len(),
    {
        self.0.store_bytes().len()
    }

    /// The bytes of the trie.
    pub fn as_bytes(&self) -> (res: &[u8])
        ensures
            res@ == self@,
    {
        self.0.store_bytes()
    }
}

} // verus!
