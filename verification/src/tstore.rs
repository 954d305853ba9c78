//! Growable stores for the trie builders, and the stack of branch records they keep.

use crate::const_util::{rotated, lemma_block_swap, ConstArrayBuilder};
use std::collections::VecDeque;
use vstd::prelude::*;

verus! {

/// What a builder records of a branch target while the branch is being assembled.
#[derive(Debug, Clone, Copy)]
pub struct BranchMeta {
    /// The target's byte.
    pub ascii: u8,
    /// The bytes written for this target and the targets after it in the same branch.
    pub length: usize,
    /// The bytes written for this target alone.
    pub local_length: usize,
    /// The number of targets recorded so far in the same branch, this one included.
    pub count: usize,
}

impl BranchMeta {
    /// A record of nothing: NUL byte and zero lengths and count.
    pub fn const_default() -> (res: Self)
        ensures
            res.ascii == 0,
            res.length == 0,
            res.local_length == 0,
            res.count == 0,
    {
        BranchMeta { ascii: crate::ascii::AsciiByte::nul().get(), length: 0, local_length: 0, count: 0 }
    }
}

/// A store of bytes that grows at the front.
pub trait TrieBuilderStore: Sized {
    /// The bytes held.
    spec fn store_view(&self) -> Seq<u8>;

    /// An empty store.
    fn atbs_new_empty() -> (res: Self)
        ensures
            res.store_view() == Seq::<u8>::empty(),
    ;

    /// The number of bytes held.
    fn atbs_len(&self) -> (res: usize)
        ensures
            res == self.store_view().len(),
    ;

    /// Puts `byte` in front.
    fn atbs_push_front(&mut self, byte: u8)
        ensures
            final(self).store_view() == seq![byte] + old(self).store_view(),
    ;

    /// Puts the bytes of `other` in front, in their order.
    fn atbs_extend_front(&mut self, other: &[u8])
        ensures
            final(self).store_view() == other@ + old(self).store_view(),
    ;

    /// A copy of the bytes held.
    fn atbs_to_bytes(&self) -> (res: Vec<u8>)
        ensures
            res@ == self.store_view(),
    ;

    /// Sets the bits of `other` in the byte at `index`.
    fn atbs_bitor_assign(&mut self, index: usize, other: u8)
        requires
            index < old(self).store_view().len(),
        ensures
            final(self).store_view() == old(self).store_view().update(
                index as int,
                old(self).store_view()[index as int] | other,
            ),
    ;

    /// Exchanges the bytes `start..mid` and `mid..limit`.
    fn atbs_swap_ranges(&mut self, start: usize, mid: usize, limit: usize)
        requires
            start <= mid <= limit <= old(self).store_view().len(),
        ensures
            final(self).store_view() == rotated(
                old(self).store_view(),
                start as int,
                mid as int,
                limit as int,
            ),
    ;

    /// Takes the first byte off the front, or `None` if there is none.
    fn atbs_split_first(&mut self) -> (res: Option<u8>)
        ensures
            old(self).store_view().len() == 0 ==> res is None && final(self).store_view()
                == old(self).store_view(),
            old(self).store_view().len() > 0 ==> res == Some(old(self).store_view()[0])
                && final(self).store_view() == old(self).store_view().drop_first(),
    ;

    /// Puts `n` zero bytes in front.
    fn atbs_prepend_n_zeros(&mut self, n: usize)
        ensures
            final(self).store_view() == Seq::new(n as nat, |i: int| 0u8) + old(
                self,
            ).store_view(),
    {
        let ghost start = self.store_view();
        let mut i: usize = 0;
        while i < n
            invariant
                i <= n,
                self.store_view() == Seq::new(i as nat, |k: int| 0u8) + start,
            decreases n - i,
        {
            self.atbs_push_front(0);
            proof {
                assert(seq![0u8] + (Seq::new(i as nat, |k: int| 0u8) + start) =~= Seq::new(
                    (i + 1) as nat,
                    |k: int| 0u8,
                ) + start);
            }
            i += 1;
        }
    }
}

/// Sets the byte at `index` to `value`.
fn deque_set(d: &mut VecDeque<u8>, index: usize, value: u8)
    requires
        index < old(d)@.len(),
    ensures
        final(d)@ == old(d)@.update(index as int, value),
{
    let ghost before = d@;
    d.remove(index);
    d.insert(index, value);
    proof {
        assert(d@ =~= before.update(index as int, value));
    }
}

impl TrieBuilderStore for VecDeque<u8> {
    open spec fn store_view(&self) -> Seq<u8> {
        self@
    }

    fn atbs_new_empty() -> (res: Self) {
        VecDeque::new()
    }

    fn atbs_len(&self) -> (res: usize) {
        self.len()
    }

    fn atbs_push_front(&mut self, byte: u8) {
        self.push_front(byte);
    }

    fn atbs_extend_front(&mut self, other: &[u8]) {
        let ghost start = self@;
        let mut i = other.len();
        while i > 0
            invariant
                i <= other@.len(),
                self@ == other@.skip(i as int) + start,
            decreases i,
        {
            self.push_front(other[i - 1]);
            proof {
                assert(seq![other@[i - 1]] + (other@.skip(i as int) + start) =~= other@.skip(i - 1)
                    + start);
            }
            i -= 1;
        }
        proof {
            assert(other@.skip(0) =~= other@);
        }
    }

    fn atbs_to_bytes(&self) -> (res: Vec<u8>) {
        let mut v: Vec<u8> = Vec::new();
        let mut k: usize = 0;
        while k < self.len()
            invariant
                k <= self@.len(),
                v@ == self@.take(k as int),
            decreases self@.len() - k,
        {
            v.push(self[k]);
            proof {
                assert(self@.take(k + 1) =~= self@.take(k as int).push(self@[k as int]));
            }
            k += 1;
        }
        proof {
            assert(self@.take(k as int) =~= self@);
        }
        v
    }

    fn atbs_bitor_assign(&mut self, index: usize, other: u8) {
        let b = self[index];
        deque_set(self, index, b | other);
    }

    fn atbs_swap_ranges(&mut self, start: usize, mid: usize, limit: usize) {
        let ghost goal = rotated(self@, start as int, mid as int, limit as int);
        let ghost (s0, m0, l0) = (start, mid, limit);
        let mut lo = start;
        let mut md = mid;
        let mut hi = limit;
        loop
            invariant
                lo <= md <= hi <= self@.len(),
                rotated(self@, lo as int, md as int, hi as int) == goal,
                goal == rotated(old(self)@, s0 as int, m0 as int, l0 as int),
                s0 == start && m0 == mid && l0 == limit,
            decreases hi - lo,
        {
            if lo == md || md == hi {
                proof {
                    assert(rotated(self@, lo as int, md as int, hi as int) =~= self@);
                }
                return;
            }
            let ghost before = self@;
            let len0 = md - lo;
            let len1 = hi - md;
            let m = if len0 < len1 {
                len0
            } else {
                len1
            };
            let mut i = lo;
            let mut j = hi - m;
            while j < hi
                invariant
                    lo <= i <= lo + m,
                    hi - m <= j <= hi,
                    i - lo == j - (hi - m),
                    m <= len0,
                    m <= len1,
                    lo + len0 + len1 == hi,
                    hi <= self@.len(),
                    self@.len() == before.len(),
                    forall|t: int|
                        0 <= t < before.len() && !(lo <= t < i) && !(hi - m <= t < j)
                            ==> self@[t] == before[t],
                    forall|t: int| 0 <= t < i - lo ==> #[trigger] self@[lo + t] == before[hi - m + t],
                    forall|t: int| 0 <= t < i - lo ==> #[trigger] self@[hi - m + t] == before[lo + t],
                decreases hi - j,
            {
                let x = self[i];
                let y = self[j];
                deque_set(self, i, y);
                deque_set(self, j, x);
                i += 1;
                j += 1;
            }
            proof {
                lemma_block_swap(before, self@, lo as int, md as int, hi as int, m as int);
            }
            if len0 < len1 {
                md = lo + len0;
                hi -= len0;
            } else {
                lo += len1;
                md = hi - len1;
            }
        }
    }

    fn atbs_split_first(&mut self) -> (res: Option<u8>) {
        let r = self.pop_front();
        proof {
            if old(self)@.len() > 0 {
                assert(self@ =~= old(self)@.drop_first());
            }
        }
        r
    }
}

/// A stack of branch records.
pub struct MutableLengthsStack1b {
    data: Vec<BranchMeta>,
}

impl MutableLengthsStack1b {
    /// The records, bottom first.
    pub closed spec fn view(&self) -> Seq<BranchMeta> {
        self.data@
    }

    /// An empty stack.
    pub fn new() -> (res: Self)
        ensures
            res@ == Seq::<BranchMeta>::empty(),
    {
        Self { data: Vec::new() }
    }

    /// Whether the stack is empty.
    pub fn is_empty(&self) -> (res: bool)
        ensures
            res == (self@.len() == 0),
    {
        self.data.len() == 0
    }

    /// Puts `meta` on top.
    pub fn push(&mut self, meta: BranchMeta)
        ensures
            final(self)@ == old(self)@.push(meta),
    {
        self.data.push(meta);
    }

    /// The record on top; the stack must not be empty.
    pub fn peek_or_panic(&self) -> (res: BranchMeta)
        requires
            self@.len() > 0,
        ensures
            res == self@.last(),
    {
        self.data[self.data.len() - 1]
    }

    /// Takes the top `len` records off, at most 256, which must be there; they come back in
    /// stack order, the deepest first.
    pub fn pop_many_or_panic(&mut self, len: usize) -> (res: ConstArrayBuilder<256, BranchMeta>)
        requires
            len <= 256,
            len <= old(self)@.len(),
        ensures
            res.view() == old(self)@.subrange(old(self)@.len() - len, old(self)@.len() as int),
            final(self)@ == old(self)@.take(old(self)@.len() - len),
    {
        let total = self.data.len();
        let mut result = ConstArrayBuilder::new_empty([BranchMeta::const_default(); 256], 256);
        let mut ix: usize = 0;
        while ix < len
            invariant
                ix <= len,
                len <= 256,
                len <= total,
                total == self@.len(),
                result.spec_start() == 256 - ix,
                result.view() == self@.subrange(total - ix, total as int),
            decreases len - ix,
        {
            let i = total - ix - 1;
            let x = self.data[i];
            result = result.push_front_or_panic(x);
            proof {
                assert(seq![x] + self@.subrange(total - ix, total as int) =~= self@.subrange(
                    total - ix - 1,
                    total as int,
                ));
            }
            ix += 1;
        }
        self.data.truncate(total - len);
        result
    }
}

} // verus!
