//! Borrowed byte strings, as keys of the trie builders.

use crate::ascii::AsciiStr;
use vstd::prelude::*;

verus! {

/// A borrowed string of arbitrary bytes.
#[derive(Debug, Copy, Clone, PartialEq, Eq, PartialOrd, Ord)]
pub struct ByteStr<'a> {
    bytes: &'a [u8],
}

impl<'a> ByteStr<'a> {
    /// The bytes of the string.
    pub closed spec fn view(&self) -> Seq<u8> {
        self.bytes@
    }

    /// The bytes as a byte string.
    pub fn from_bytes(bytes: &'a [u8]) -> (res: Self)
        ensures
            res@ == bytes@,
    {
        ByteStr { bytes }
    }

    /// The bytes.
    pub fn as_bytes(&self) -> (res: &'a [u8])
        ensures
            res@ == self@,
    {
        self.bytes
    }

    /// The pairs with each ASCII string taken as a byte string.
    pub fn from_ascii_str_slice_with_value(input: &[(AsciiStr<'a>, usize)]) -> (res: Vec<
        (ByteStr<'a>, usize),
    >)
        ensures
            res@.len() == input@.len(),
            forall|i: int|
                0 <= i < input@.len() ==> (#[trigger] res@[i]).0@ == input@[i].0@ && res@[i].1
                    == input@[i].1,
    {
        let mut res: Vec<(ByteStr<'a>, usize)> = Vec::new();
        let mut i: usize = 0;
        while i < input.len()
            invariant
                i <= input@.len(),
                res@.len() == i,
                forall|j: int|
                    0 <= j < i ==> (#[trigger] res@[j]).0@ == input@[j].0@ && res@[j].1
                        == input@[j].1,
            decreases input@.len() - i,
        {
            let (s, v) = input[i];
            res.push((ByteStr { bytes: s.as_bytes() }, v));
            i += 1;
        }
        res
    }

    /// The pairs with each slice taken as a byte string.
    pub fn from_byte_slice_with_value(input: &[(&'a [u8], usize)]) -> (res: Vec<
        (ByteStr<'a>, usize),
    >)
        ensures
            res@.len() == input@.len(),
            forall|i: int|
                0 <= i < input@.len() ==> (#[trigger] res@[i]).0@ == input@[i].0@ && res@[i].1
                    == input@[i].1,
    {
        let mut res: Vec<(ByteStr<'a>, usize)> = Vec::new();
        let mut i: usize = 0;
        while i < input.len()
            invariant
                i <= input@.len(),
                res@.len() == i,
                forall|j: int|
                    0 <= j < i ==> (#[trigger] res@[j]).0@ == input@[j].0@ && res@[j].1
                        == input@[j].1,
            decreases input@.len() - i,
        {
            let (s, v) = input[i];
            res.push((ByteStr { bytes: s }, v));
            i += 1;
        }
        res
    }

    /// The number of bytes.
    pub fn len(&self) -> (res: usize)
        ensures
            res == self@.len(),
    {
        self.bytes.len()
    }

    /// The byte at `index`, or `None` past the end.
    pub fn byte_at(&self, index: usize) -> (res: Option<u8>)
        ensures
            index < self@.len() <==> res is Some,
            res matches Some(b) ==> b == self@[index as int],
    {
        if index < self.bytes.len() {
            Some(self.bytes[index])
        } else {
            None
        }
    }

    /// The byte at `index`, which must be within the string.
    pub fn byte_at_or_panic(&self, index: usize) -> (res: u8)
        requires
            index < self@.len(),
        ensures
            res == self@[index as int],
    {
        self.bytes[index]
    }

    /// Whether the first `prefix_len` bytes of both strings agree; both must be that long.
    pub fn prefix_eq(&self, other: &ByteStr, prefix_len: usize) -> (res: bool)
        requires
            prefix_len <= self@.len(),
            prefix_len <= other@.len(),
        ensures
            res == (self@.take(prefix_len as int) == other@.take(prefix_len as int)),
    {
        let mut i: usize = 0;
        while i < prefix_len
            invariant
                i <= prefix_len <= self@.len(),
                prefix_len <= other@.len(),
                forall|j: int| 0 <= j < i ==> self@[j] == other@[j],
            decreases prefix_len - i,
        {
            if self.bytes[i] != other.bytes[i] {
                proof {
                    assert(self@.take(prefix_len as int)[i as int] != other@.take(
                        prefix_len as int,
                    )[i as int]);
                }
                return false;
            }
            i += 1;
        }
        proof {
            assert(self@.take(prefix_len as int) =~= other@.take(prefix_len as int));
        }
        return true;
    }
}

} // verus!
