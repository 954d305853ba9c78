//! The public trie types: a trie of ASCII keys, and the same layout read as a perfect-hash
//! trie or as one of extended capacity, together with `ZeroTrie`, which holds any one of
//! them.

use crate::reader6::{get6, iter6, pairs_read_back, pairs_view, spec_get6, walk_items6};
use crate::trie::ByteStore;
use std::borrow::Cow;
use vstd::prelude::*;
use vstd::string::StringSliceAdditionalSpecFns;

verus! {

/// A trie of one of the three kinds.
pub struct ZeroTrie<S>(ZeroTrieInner<S>);

/// The kind of a `ZeroTrie`, with its trie.
pub enum ZeroTrieInner<S> {
    SimpleAscii(ZeroTrieSimpleAscii<S>),
    PerfectHash(ZeroTriePerfectHash<S>),
    ExtendedCapacity(ZeroTrieExtendedCapacity<S>),
}

/// A trie whose keys are ASCII.
pub struct ZeroTrieSimpleAscii<S> {
    pub(crate) store: S,
}

/// A trie whose branch nodes may use a perfect hash of their target bytes.
pub struct ZeroTriePerfectHash<S> {
    pub(crate) store: S,
}

/// A trie whose offsets may take more bytes.
pub struct ZeroTrieExtendedCapacity<S> {
    pub(crate) store: S,
}

impl<S> ZeroTrieSimpleAscii<S> {
    /// The store.
    pub closed spec fn store(&self) -> S {
        self.store
    }

    /// Wraps the trie as a `ZeroTrie`.
    pub fn into_zerotrie(self) -> (res: ZeroTrie<S>)
        ensures
            res.inner() == ZeroTrieInner::SimpleAscii(self),
    {
        ZeroTrie(ZeroTrieInner::SimpleAscii(self))
    }

    /// A trie over the given store.
    pub fn from_store(store: S) -> (res: Self)
        ensures
            res.store() == store,
    {
        Self { store }
    }

    /// The store, given back.
    pub fn take_store(self) -> (res: S)
        ensures
            res == self.store(),
    {
        self.store
    }
}

impl<S: ByteStore> ZeroTrieSimpleAscii<S> {
    /// The bytes of the trie.
    pub open spec fn view(&self) -> Seq<u8> {
        self.store().spec_bytes()
    }

    /// The value for `key`, or `None`.
    pub fn get(&self, key: &[u8]) -> (res: Option<usize>)
        ensures
            res == spec_get6(self@, key@, false),
    {
        get6(self.store.store_bytes(), key, false)
    }

    /// The value for `key`, or `None`.
    pub fn get_str(&self, key: &str) -> (res: Option<usize>)
        ensures
            res == spec_get6(self@, key.spec_bytes(), false),
    {
        self.get(key.as_bytes())
    }

    /// Whether the trie has no bytes.
    pub fn is_empty(&self) -> (res: bool)
        ensures
            res == (self@.len() == 0),
    {
        self.store.store_bytes().len() == 0
    }

    /// The number of bytes of the trie.
    pub fn byte_len(&self) -> (res: usize)
        ensures
            res == self@.len(),
    {
        self.store.store_bytes().len()
    }

    /// The bytes of the trie.
    pub fn as_bytes(&self) -> (res: &[u8])
        ensures
            res@ == self@,
    {
        self.store.store_bytes()
    }

    /// The key and value pairs of the trie, in the order in which its bytes hold them (for a
    /// trie built from pairs, the pairs' order); each key reads back its value.
    pub fn iter(&self) -> (res: Vec<(Vec<u8>, usize)>)
        ensures
            pairs_read_back(res@, self@, false),
            pairs_view(res@) == walk_items6(self@, Seq::empty(), true, false),
    {
        iter6(self.store.store_bytes(), false)
    }

    /// The same trie over borrowed bytes.
    pub fn as_borrowed(&self) -> (res: ZeroTrieSimpleAscii<&[u8]>)
        ensures
            res@ == self@,
    {
        ZeroTrieSimpleAscii::from_bytes(self.store.store_bytes())
    }

    /// The same trie over an owned copy of the bytes.
    pub fn to_owned(&self) -> (res: ZeroTrieSimpleAscii<Vec<u8>>)
        ensures
            res@ == self@,
    {
        ZeroTrieSimpleAscii::from_store(vstd::slice::slice_to_vec(self.store.store_bytes()))
    }
}

impl<'a> ZeroTrieSimpleAscii<&'a [u8]> {
    /// The trie over the bytes `trie`.
    pub fn from_bytes(trie: &'a [u8]) -> (res: Self)
        ensures
            res@ == trie@,
    {
        Self { store: trie }
    }
}

impl<S> ZeroTriePerfectHash<S> {
    /// The store.
    pub closed spec fn store(&self) -> S {
        self.store
    }

    /// Wraps the trie as a `ZeroTrie`.
    pub fn into_zerotrie(self) -> (res: ZeroTrie<S>)
        ensures
            res.inner() == ZeroTrieInner::PerfectHash(self),
    {
        ZeroTrie(ZeroTrieInner::PerfectHash(self))
    }

    /// A trie over the given store.
    pub fn from_store(store: S) -> (res: Self)
        ensures
            res.store() == store,
    {
        Self { store }
    }

    /// The store, given back.
    pub fn take_store(self) -> (res: S)
        ensures
            res == self.store(),
    {
        self.store
    }
}

impl<S: ByteStore> ZeroTriePerfectHash<S> {
    /// The bytes of the trie.
    pub open spec fn view(&self) -> Seq<u8> {
        self.store().spec_bytes()
    }

    /// The value for `key`, or `None`.
    pub fn get(&self, key: &[u8]) -> (res: Option<usize>)
        ensures
            res == spec_get6(self@, key@, true),
    {
        get6(self.store.store_bytes(), key, true)
    }

    /// The value for `key`, or `None`.
    pub fn get_str(&self, key: &str) -> (res: Option<usize>)
        ensures
            res == spec_get6(self@, key.spec_bytes(), true),
    {
        self.get(key.as_bytes())
    }

    /// Whether the trie has no bytes.
    pub fn is_empty(&self) -> (res: bool)
        ensures
            res == (self@.len() == 0),
    {
        self.store.store_bytes().len() == 0
    }

    /// The number of bytes of the trie.
    pub fn byte_len(&self) -> (res: usize)
        ensures
            res == self@.len(),
    {
        self.store.store_bytes().len()
    }

    /// The bytes of the trie.
    pub fn as_bytes(&self) -> (res: &[u8])
        ensures
            res@ == self@,
    {
        self.store.store_bytes()
    }

    /// The key and value pairs of the trie, in the order in which its bytes hold them (at a
    /// branch, the order of its targets); each key reads back its value.
    pub fn iter(&self) -> (res: Vec<(Vec<u8>, usize)>)
        ensures
            pairs_read_back(res@, self@, true),
            pairs_view(res@) == walk_items6(self@, Seq::empty(), true, true),
    {
        iter6(self.store.store_bytes(), true)
    }

    /// The same trie over borrowed bytes.
    pub fn as_borrowed(&self) -> (res: ZeroTriePerfectHash<&[u8]>)
        ensures
            res@ == self@,
    {
        ZeroTriePerfectHash::from_bytes(self.store.store_bytes())
    }

    /// The same trie over an owned copy of the bytes.
    pub fn to_owned(&self) -> (res: ZeroTriePerfectHash<Vec<u8>>)
        ensures
            res@ == self@,
    {
        ZeroTriePerfectHash::from_store(vstd::slice::slice_to_vec(self.store.store_bytes()))
    }
}

impl<'a> ZeroTriePerfectHash<&'a [u8]> {
    /// The trie over the bytes `trie`.
    pub fn from_bytes(trie: &'a [u8]) -> (res: Self)
        ensures
            res@ == trie@,
    {
        Self { store: trie }
    }
}

impl<S> ZeroTrieExtendedCapacity<S> {
    /// The store.
    pub closed spec fn store(&self) -> S {
        self.store
    }

    /// Wraps the trie as a `ZeroTrie`.
    pub fn into_zerotrie(self) -> (res: ZeroTrie<S>)
        ensures
            res.inner() == ZeroTrieInner::ExtendedCapacity(self),
    {
        ZeroTrie(ZeroTrieInner::ExtendedCapacity(self))
    }

    /// A trie over the given store.
    pub fn from_store(store: S) -> (res: Self)
        ensures
            res.store() == store,
    {
        Self { store }
    }

    /// The store, given back.
    pub fn take_store(self) -> (res: S)
        ensures
            res == self.store(),
    {
        self.store
    }
}

impl<S: ByteStore> ZeroTrieExtendedCapacity<S> {
    /// The bytes of the trie.
    pub open spec fn view(&self) -> Seq<u8> {
        self.store().spec_bytes()
    }

    /// The value for `key`, or `None`.
    pub fn get(&self, key: &[u8]) -> (res: Option<usize>)
        ensures
            res == spec_get6(self@, key@, true),
    {
        get6(self.store.store_bytes(), key, true)
    }

    /// The value for `key`, or `None`.
    pub fn get_str(&self, key: &str) -> (res: Option<usize>)
        ensures
            res == spec_get6(self@, key.spec_bytes(), true),
    {
        self.get(key.as_bytes())
    }

    /// Whether the trie has no bytes.
    pub fn is_empty(&self) -> (res: bool)
        ensures
            res == (self@.len() == 0),
    {
        self.store.store_bytes().len() == 0
    }

    /// The number of bytes of the trie.
    pub fn byte_len(&self) -> (res: usize)
        ensures
            res == self@.len(),
    {
        self.store.store_bytes().len()
    }

    /// The bytes of the trie.
    pub fn as_bytes(&self) -> (res: &[u8])
        ensures
            res@ == self@,
    {
        self.store.store_bytes()
    }

    /// The key and value pairs of the trie, in the order in which its bytes hold them (at a
    /// branch, the order of its targets); each key reads back its value.
    pub fn iter(&self) -> (res: Vec<(Vec<u8>, usize)>)
        ensures
            pairs_read_back(res@, self@, true),
            pairs_view(res@) == walk_items6(self@, Seq::empty(), true, true),
    {
        iter6(self.store.store_bytes(), true)
    }

    /// The same trie over borrowed bytes.
    pub fn as_borrowed(&self) -> (res: ZeroTrieExtendedCapacity<&[u8]>)
        ensures
            res@ == self@,
    {
        ZeroTrieExtendedCapacity::from_bytes(self.store.store_bytes())
    }

    /// The same trie over an owned copy of the bytes.
    pub fn to_owned(&self) -> (res: ZeroTrieExtendedCapacity<Vec<u8>>)
        ensures
            res@ == self@,
    {
        ZeroTrieExtendedCapacity::from_store(vstd::slice::slice_to_vec(self.store.store_bytes()))
    }
}

impl<'a> ZeroTrieExtendedCapacity<&'a [u8]> {
    /// The trie over the bytes `trie`.
    pub fn from_bytes(trie: &'a [u8]) -> (res: Self)
        ensures
            res@ == trie@,
    {
        Self { store: trie }
    }
}

impl ZeroTrieSimpleAscii<Vec<u8>> {
    /// The same trie, its store owned inside a `Cow`.
    pub fn wrap_bytes_into_cow(self) -> (res: ZeroTrieSimpleAscii<Cow<'static, [u8]>>)
        ensures
            res@ == self@,
    {
        ZeroTrieSimpleAscii { store: Cow::Owned(self.store) }
    }
}

impl<'a> ZeroTrieSimpleAscii<&'a [u8]> {
    /// The same trie, its store borrowed inside a `Cow`.
    pub fn wrap_bytes_into_cow(self) -> (res: ZeroTrieSimpleAscii<Cow<'a, [u8]>>)
        ensures
            res@ == self@,
    {
        ZeroTrieSimpleAscii { store: Cow::Borrowed(self.store) }
    }
}

impl<S> ZeroTrie<S> {
    /// The kind of trie held, with the trie.
    pub closed spec fn inner(&self) -> ZeroTrieInner<S> {
        self.0
    }
}

impl<S: ByteStore> ZeroTrie<S> {
    /// The bytes of the trie held.
    pub open spec fn view(&self) -> Seq<u8> {
        match self.inner() {
            ZeroTrieInner::SimpleAscii(t) => t@,
            ZeroTrieInner::PerfectHash(t) => t@,
            ZeroTrieInner::ExtendedCapacity(t) => t@,
        }
    }

    /// Whether the trie held reads perfect-hash branches.
    pub open spec fn reads_phf(&self) -> bool {
        !(self.inner() is SimpleAscii)
    }

    /// The value for `key`, or `None`.
    pub fn get(&self, key: &[u8]) -> (res: Option<usize>)
        ensures
            res == spec_get6(self@, key@, self.reads_phf()),
    {
        match &self.0 {
            ZeroTrieInner::SimpleAscii(t) => t.get(key),
            ZeroTrieInner::PerfectHash(t) => t.get(key),
            ZeroTrieInner::ExtendedCapacity(t) => t.get(key),
        }
    }

    /// The value for `key`, or `None`.
    pub fn get_str(&self, key: &str) -> (res: Option<usize>)
        ensures
            res == spec_get6(self@, key.spec_bytes(), self.reads_phf()),
    {
        match &self.0 {
            ZeroTrieInner::SimpleAscii(t) => t.get_str(key),
            ZeroTrieInner::PerfectHash(t) => t.get_str(key),
            ZeroTrieInner::ExtendedCapacity(t) => t.get_str(key),
        }
    }

    /// Whether the trie has no bytes.
    pub fn is_empty(&self) -> (res: bool)
        ensures
            res == (self@.len() == 0),
    {
        match &self.0 {
            ZeroTrieInner::SimpleAscii(t) => t.is_empty(),
            ZeroTrieInner::PerfectHash(t) => t.is_empty(),
            ZeroTrieInner::ExtendedCapacity(t) => t.is_empty(),
        }
    }

    /// The number of bytes of the trie.
    pub fn byte_len(&self) -> (res: usize)
        ensures
            res == self@.len(),
    {
        match &self.0 {
            ZeroTrieInner::SimpleAscii(t) => t.byte_len(),
            ZeroTrieInner::PerfectHash(t) => t.byte_len(),
            ZeroTrieInner::ExtendedCapacity(t) => t.byte_len(),
        }
    }

    /// The bytes of the trie.
    pub fn as_bytes(&self) -> (res: &[u8])
        ensures
            res@ == self@,
    {
        match &self.0 {
            ZeroTrieInner::SimpleAscii(t) => t.as_bytes(),
            ZeroTrieInner::PerfectHash(t) => t.as_bytes(),
            ZeroTrieInner::ExtendedCapacity(t) => t.as_bytes(),
        }
    }
}

} // verus!
