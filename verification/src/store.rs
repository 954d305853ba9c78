//! Fixed-capacity stores for the trie builder that works in place: a byte buffer that
//! grows at the front, and a stack of branch records.

use crate::const_util::{ConstArrayBuilder, ConstSlice};
use crate::error::Error;
use crate::tstore::BranchMeta;
use vstd::prelude::*;

verus! {

/// A buffer of `N` bytes filled from the back.
pub struct ConstAsciiTrieBuilderStore<const N: usize> {
    data: ConstArrayBuilder<N, u8>,
}

impl<const N: usize> ConstAsciiTrieBuilderStore<N> {
    /// The bytes written.
    pub closed spec fn view(&self) -> Seq<u8> {
        self.data.view()
    }

    /// How many bytes can still be put in front.
    pub closed spec fn room(&self) -> int {
        self.data.spec_start() as int
    }

    /// Where the bytes written end in the buffer.
    pub closed spec fn end(&self) -> int {
        self.data.spec_limit() as int
    }

    /// An empty buffer with room for `N` bytes.
    pub fn atbs_new_empty() -> (res: Self)
        ensures
            res@ == Seq::<u8>::empty(),
            res.room() == N,
            res.end() == N,
    {
        Self { data: ConstArrayBuilder::new_empty([0u8; N], N) }
    }

    /// The number of bytes written.
    pub fn atbs_len(&self) -> (res: usize)
        ensures
            res == self@.len(),
            res == self.end() - self.room(),
            0 <= self.room() <= self.end() <= N,
    {
        self.data.len()
    }

    /// Puts `byte` in front; there must be room.
    pub fn atbs_push_front(self, byte: u8) -> (res: Self)
        requires
            self.room() > 0,
        ensures
            res@ == seq![byte] + self@,
            res.room() == self.room() - 1,
            res.end() == self.end(),
    {
        Self { data: self.data.const_push_front(byte) }
    }

    /// Puts the bytes of `other` in front; there must be room.
    pub fn atbs_extend_front(self, other: ConstSlice<u8>) -> (res: Self)
        requires
            other.spec_wf(),
            self.room() >= other@.len(),
        ensures
            res@ == other@ + self@,
            res.room() == self.room() - other@.len(),
            res.end() == self.end(),
    {
        Self { data: self.data.const_extend_front(other) }
    }

    /// The bytes written.
    pub fn atbs_as_bytes(&self) -> (res: ConstSlice<'_, u8>)
        ensures
            res.spec_wf(),
            res@ == self@,
    {
        self.data.as_const_slice()
    }

    /// Sets the bits of `other` in the byte at `index`.
    pub fn atbs_bitor_assign(self, index: usize, other: u8) -> (res: Self)
        requires
            index < self@.len(),
        ensures
            res@ == self@.update(index as int, self@[index as int] | other),
            res.room() == self.room(),
            res.end() == self.end(),
    {
        let ghost before = self@;
        let _len = self.data.len();
        let data = self.data.const_bitor_assign(index, other);
        proof {
            assert(data.view() =~= before.update(index as int, before[index as int] | other));
        }
        Self { data }
    }

    /// The whole buffer, which must be exactly full.
    pub fn take_or_panic(self) -> (res: [u8; N])
        requires
            self.room() == 0,
            self.end() == N,
        ensures
            res@ == self@,
    {
        self.data.const_take_or_panic()
    }
}

/// A stack of at most `N` branch records.
pub struct ConstLengthsStack1b<const N: usize> {
    data: [Option<BranchMeta>; N],
    idx: usize,
}

impl<const N: usize> ConstLengthsStack1b<N> {
    #[verifier::type_invariant]
    spec fn inv(&self) -> bool {
        &&& self.idx <= N
        &&& forall|i: int| 0 <= i < self.idx ==> (#[trigger] self.data@[i]) is Some
    }

    /// The records, bottom first.
    pub closed spec fn view(&self) -> Seq<BranchMeta> {
        Seq::new(self.idx as nat, |i: int| self.data@[i]->Some_0)
    }

    /// An empty stack.
    pub fn new() -> (res: Self)
        ensures
            res@ == Seq::<BranchMeta>::empty(),
    {
        let res = Self { data: [None; N], idx: 0 };
        proof {
            assert(res@ =~= Seq::<BranchMeta>::empty());
        }
        res
    }

    /// Whether the stack is empty.
    pub fn is_empty(&self) -> (res: bool)
        ensures
            res == (self@.len() == 0),
    {
        self.idx == 0
    }

    /// Puts `meta` on top, or `ConstBuilder` when all `N` places are taken.
    pub fn push(self, meta: BranchMeta) -> (res: Result<Self, Error>)
        ensures
            self@.len() < N <==> res is Ok,
            res matches Ok(s) ==> s@ == self@.push(meta),
            res is Err ==> res == Err::<Self, Error>(Error::ConstBuilder("AsciiTrie Builder: Need more stack (max N)")),
    {
        proof {
            use_type_invariant(&self);
        }
        if self.idx >= N {
            return Err(Error::ConstBuilder("AsciiTrie Builder: Need more stack (max N)"));
        }
        Ok(self.push_or_panic(meta))
    }

    /// Puts `meta` on top; there must be a free place.
    pub fn push_or_panic(self, meta: BranchMeta) -> (res: Self)
        requires
            self@.len() < N,
        ensures
            res@ == self@.push(meta),
    {
        let mut s = self;
        proof {
            use_type_invariant(&s);
        }
        let ghost before = s@;
        let i = s.idx;
        s.data[i] = Some(meta);
        s.idx = i + 1;
        proof {
            assert(s@ =~= before.push(meta));
        }
        s
    }

    /// The record on top; the stack must not be empty.
    pub fn peek_or_panic(&self) -> (res: BranchMeta)
        requires
            self@.len() > 0,
        ensures
            res == self@.last(),
    {
        self.get_or_panic(0)
    }

    /// The record `index` places below the top; it must be there.
    fn get_or_panic(&self, index: usize) -> (res: BranchMeta)
        requires
            index < self@.len(),
        ensures
            res == self@[self@.len() - 1 - index],
    {
        proof {
            use_type_invariant(self);
        }
        match self.data[self.idx - index - 1] {
            Some(x) => x,
            None => {
                proof {
                    assert(false);
                }
                BranchMeta::const_default()
            },
        }
    }

    /// Takes the top `len` records off, at most 256, which must be there; they come back in
    /// stack order, the deepest first.
    pub fn pop_many_or_panic(self, len: usize) -> (res: (Self, ConstArrayBuilder<256, BranchMeta>))
        requires
            len <= 256,
            len <= self@.len(),
        ensures
            res.1.view() == self@.subrange(self@.len() - len, self@.len() as int),
            res.0@ == self@.take(self@.len() - len),
    {
        let mut s = self;
        proof {
            use_type_invariant(&s);
        }
        let ghost before = s@;
        let mut result = ConstArrayBuilder::new_empty([BranchMeta::const_default(); 256], 256);
        let mut ix: usize = 0;
        while ix < len
            invariant
                ix <= len,
                len <= 256,
                len <= s.idx,
                s.idx <= N,
                s@ == before,
                forall|i: int| 0 <= i < s.idx ==> (#[trigger] s.data@[i]) is Some,
                result.spec_start() == 256 - ix,
                result.view() == before.subrange(before.len() - ix, before.len() as int),
            decreases len - ix,
        {
            let i = s.idx - ix - 1;
            let x = match s.data[i] {
                Some(x) => x,
                None => {
                    proof {
                        assert(false);
                    }
                    BranchMeta::const_default()
                },
            };
            proof {
                assert(x == before[i as int]);
            }
            result = result.push_front_or_panic(x);
            proof {
                assert(seq![x] + before.subrange(before.len() - ix, before.len() as int)
                    =~= before.subrange(before.len() - ix - 1, before.len() as int));
            }
            ix += 1;
        }
        s.idx = s.idx - len;
        proof {
            assert(s@ =~= before.take(before.len() - len));
        }
        (s, result)
    }
}

impl<const N: usize> ConstArrayBuilder<N, BranchMeta> {
    /// The records' bytes, in reverse order.
    pub fn map_to_ascii_bytes(&self) -> (res: ConstArrayBuilder<N, u8>)
        ensures
            res.view() == Seq::new(self.view().len(), |i: int| self.view()[self.view().len() - 1 - i].ascii),
    {
        let mut result = ConstArrayBuilder::new_empty([0u8; N], N);
        let self_as_slice = self.as_const_slice();
        let n = self.len();
        let mut i: usize = 0;
        while i < n
            invariant
                i <= n,
                n == self.view().len(),
                self_as_slice.spec_wf(),
                self_as_slice.view() == self.view(),
                self.spec_wf(),
                n <= N,
                result.spec_start() == N - i,
                result.view() == Seq::new(i as nat, |k: int| self.view()[i - 1 - k].ascii),
            decreases n - i,
        {
            let value = *self_as_slice.get_or_panic(i);
            let ghost before = result.view();
            result = result.const_push_front(value.ascii);
            proof {
                assert(result.view() =~= Seq::new((i + 1) as nat, |k: int| self.view()[i + 1 - 1 - k].ascii));
            }
            i += 1;
        }
        result
    }
}

} // verus!
