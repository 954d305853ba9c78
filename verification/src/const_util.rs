//! Slices and array-backed buffers addressed by a start and a limit index, as used by the
//! trie builders.

use vstd::prelude::*;

verus! {

/// A window `full_slice[start..limit]` onto a borrowed slice.
#[derive(Debug, Copy, Clone)]
pub struct ConstSlice<'a, T> {
    full_slice: &'a [T],
    start: usize,
    limit: usize,
}

impl<'a, T> ConstSlice<'a, T> {
    pub closed spec fn spec_full(&self) -> Seq<T> {
        self.full_slice@
    }

    pub closed spec fn spec_start(&self) -> usize {
        self.start
    }

    pub closed spec fn spec_limit(&self) -> usize {
        self.limit
    }

    /// The items in the window.
    pub open spec fn view(&self) -> Seq<T> {
        self.spec_full().subrange(self.spec_start() as int, self.spec_limit() as int)
    }

    /// The window lies within the slice.
    pub open spec fn spec_wf(&self) -> bool {
        self.spec_start() <= self.spec_limit() <= self.spec_full().len()
    }

    /// The window over all of `other`.
    pub fn from_slice(other: &'a [T]) -> (res: Self)
        ensures
            res.spec_wf(),
            res.spec_full() == other@,
            res.view() == other@,
    {
        let res = ConstSlice { full_slice: other, start: 0, limit: other.len() };
        proof {
            assert(other@.subrange(0, other@.len() as int) =~= other@);
        }
        res
    }

    /// The window `full_slice[start..limit]`; nothing is checked here.
    pub fn from_manual_slice(full_slice: &'a [T], start: usize, limit: usize) -> (res: Self)
        ensures
            res.spec_full() == full_slice@,
            res.spec_start() == start,
            res.spec_limit() == limit,
    {
        ConstSlice { full_slice, start, limit }
    }

    /// The number of items in the window.
    pub fn len(&self) -> (res: usize)
        requires
            self.spec_start() <= self.spec_limit(),
        ensures
            res == self.spec_limit() - self.spec_start(),
    {
        self.limit - self.start
    }

    /// Whether the window holds no item.
    pub fn is_empty(&self) -> (res: bool)
        requires
            self.spec_start() <= self.spec_limit(),
        ensures
            res == (self.spec_limit() == self.spec_start()),
    {
        self.len() == 0
    }

    /// The item at `index` within the window.
    pub fn get_or_panic(&self, index: usize) -> (res: &'a T)
        requires
            index + self.spec_start() < self.spec_full().len(),
        ensures
            *res == self.spec_full()[index + self.spec_start()],
    {
        assert(self.full_slice@.len() == self.full_slice.len());
        &self.full_slice[index + self.start]
    }

    /// The first item of the window, if any.
    pub fn first(&self) -> (res: Option<&'a T>)
        requires
            self.spec_wf(),
        ensures
            self.view().len() == 0 ==> res is None,
            self.view().len() > 0 ==> res == Some(&self.view()[0]),
    {
        if self.len() == 0 {
            None
        } else {
            Some(self.get_or_panic(0))
        }
    }

    /// The last item of the window, if any.
    pub fn last(&self) -> (res: Option<&'a T>)
        requires
            self.spec_wf(),
        ensures
            self.view().len() == 0 ==> res is None,
            self.view().len() > 0 ==> res == Some(&self.view().last()),
    {
        if self.len() == 0 {
            None
        } else {
            Some(self.get_or_panic(self.len() - 1))
        }
    }

    /// The window `new_start..new_limit` within this window.
    pub fn get_subslice_or_panic(&self, new_start: usize, new_limit: usize) -> (res: ConstSlice<
        'a,
        T,
    >)
        requires
            self.spec_start() <= self.spec_limit(),
            new_start <= new_limit,
            new_limit <= self.spec_limit() - self.spec_start(),
        ensures
            res.spec_full() == self.spec_full(),
            res.spec_start() == self.spec_start() + new_start,
            res.spec_limit() == self.spec_start() + new_limit,
            self.spec_wf() ==> res.spec_wf() && res.view() == self.view().subrange(
                new_start as int,
                new_limit as int,
            ),
    {
        let res = ConstSlice {
            full_slice: self.full_slice,
            start: self.start + new_start,
            limit: self.start + new_limit,
        };
        proof {
            if self.spec_wf() {
                assert(res.view() =~= self.view().subrange(new_start as int, new_limit as int));
            }
        }
        res
    }

    /// The items in the window, as a slice.
    pub fn as_slice(&self) -> (res: &'a [T])
        requires
            self.spec_wf(),
        ensures
            res@ == self.view(),
    {
        vstd::slice::slice_subrange(self.full_slice, self.start, self.limit)
    }
}

} // verus!

verus! {

/// The items of `s` with `s[a..b]` and `s[b..c]` exchanged.
pub open spec fn rotated<T>(s: Seq<T>, a: int, b: int, c: int) -> Seq<T> {
    s.subrange(0, a) + s.subrange(b, c) + s.subrange(a, b) + s.subrange(c, s.len() as int)
}

/// A buffer backed by an array of `N` items, of which `full_array[start..limit]` are in use.
#[derive(Debug)]
pub struct ConstArrayBuilder<const N: usize, T> {
    full_array: [T; N],
    start: usize,
    limit: usize,
}

impl<const N: usize, T> ConstArrayBuilder<N, T> {
    #[verifier::type_invariant]
    spec fn inv(&self) -> bool {
        self.start <= self.limit <= N
    }

    pub closed spec fn spec_full(&self) -> Seq<T> {
        self.full_array@
    }

    pub closed spec fn spec_start(&self) -> usize {
        self.start
    }

    pub closed spec fn spec_limit(&self) -> usize {
        self.limit
    }

    /// The items in use.
    pub open spec fn view(&self) -> Seq<T> {
        self.spec_full().subrange(self.spec_start() as int, self.spec_limit() as int)
    }

    /// The window bounds lie within the array; every value of the type satisfies this.
    pub open spec fn spec_wf(&self) -> bool {
        self.spec_start() <= self.spec_limit() <= N && self.spec_full().len() == N
    }

    /// An empty buffer whose start and limit are both `cursor`.
    pub fn new_empty(full_array: [T; N], cursor: usize) -> (res: Self)
        requires
            cursor <= N,
        ensures
            res.spec_full() == full_array@,
            res.spec_start() == cursor,
            res.spec_limit() == cursor,
            res.view() == Seq::<T>::empty(),
    {
        let res = Self { full_array, start: cursor, limit: cursor };
        proof {
            assert(res.view() =~= Seq::<T>::empty());
        }
        res
    }

    /// The buffer using `full_array[start..limit]`.
    pub fn from_manual_slice(full_array: [T; N], start: usize, limit: usize) -> (res: Self)
        requires
            start <= limit,
            limit <= N,
        ensures
            res.spec_full() == full_array@,
            res.spec_start() == start,
            res.spec_limit() == limit,
            res.view() == full_array@.subrange(start as int, limit as int),
    {
        Self { full_array, start, limit }
    }

    /// The number of items in use.
    pub fn len(&self) -> (res: usize)
        ensures
            res == self.view().len(),
            res == self.spec_limit() - self.spec_start(),
            self.spec_wf(),
    {
        proof {
            use_type_invariant(self);
        }
        self.limit - self.start
    }

    /// Whether no item is in use.
    pub fn is_empty(&self) -> (res: bool)
        ensures
            res == (self.view().len() == 0),
    {
        self.len() == 0
    }

    /// The items in use, as a window onto the array.
    pub fn as_const_slice(&self) -> (res: ConstSlice<'_, T>)
        ensures
            res.spec_wf(),
            res.spec_full() == self.spec_full(),
            res.spec_start() == self.spec_start(),
            res.spec_limit() == self.spec_limit(),
            res.view() == self.view(),
    {
        proof {
            use_type_invariant(self);
        }
        ConstSlice::from_manual_slice(self.full_array.as_slice(), self.start, self.limit)
    }

    /// The items in use, as a slice.
    pub fn as_slice(&self) -> (res: &[T])
        ensures
            res@ == self.view(),
    {
        proof {
            use_type_invariant(self);
        }
        vstd::slice::slice_subrange(self.full_array.as_slice(), self.start, self.limit)
    }
}

} // verus!

verus! {

/// After exchanging the `m` items at `a` with the last `m` items before `c`, where `m` is the
/// length of the shorter of `a..b` and `b..c`, rotating what is left of the range gives the
/// rotation of the whole of `a..c` at `b`.
pub proof fn lemma_block_swap<T>(old: Seq<T>, new: Seq<T>, a: int, b: int, c: int, m: int)
    requires
        0 <= a < b < c <= old.len(),
        m == if b - a < c - b { b - a } else { c - b },
        new.len() == old.len(),
        forall|t: int|
            0 <= t < old.len() && !(a <= t < a + m) && !(c - m <= t < c) ==> new[t] == old[t],
        forall|t: int| 0 <= t < m ==> #[trigger] new[a + t] == old[c - m + t],
        forall|t: int| 0 <= t < m ==> #[trigger] new[c - m + t] == old[a + t],
    ensures
        b - a < c - b ==> rotated(new, a, a + m, c - m) == rotated(old, a, b, c),
        b - a >= c - b ==> rotated(new, a + m, c - m, c) == rotated(old, a, b, c),
{
    if b - a < c - b {
        let lhs = rotated(new, a, a + m, c - m);
        let rhs = rotated(old, a, b, c);
        assert forall|t: int| 0 <= t < lhs.len() implies lhs[t] == rhs[t] by {
            if t < a {
            } else if t < a + (c - b - m) {
                assert(lhs[t] == new[t + m]);
                assert(rhs[t] == old[t + m]);
            } else if t < c - m {
                let u = t - (a + (c - b - m));
                assert(lhs[t] == new[a + u]);
                assert(rhs[t] == old[t + m]);
            } else if t < c {
                let u = t - (c - m);
                assert(lhs[t] == new[c - m + u]);
                assert(rhs[t] == old[a + u]);
            } else {
            }
        }
        assert(lhs =~= rhs);
    } else {
        let lhs = rotated(new, a + m, c - m, c);
        let rhs = rotated(old, a, b, c);
        assert forall|t: int| 0 <= t < lhs.len() implies lhs[t] == rhs[t] by {
            if t < a {
            } else if t < a + m {
                let u = t - a;
                assert(lhs[t] == new[a + u]);
                assert(rhs[t] == old[b + u]);
            } else if t < a + m + m {
                let u = t - (a + m);
                assert(lhs[t] == new[c - m + u]);
                assert(rhs[t] == old[a + u]);
            } else if t < c {
                assert(lhs[t] == new[t - m]);
                assert(rhs[t] == old[t - m]);
            } else {
            }
        }
        assert(lhs =~= rhs);
    }
}

} // verus!

verus! {

impl<const N: usize> ConstArrayBuilder<N, u8> {
    /// Sets the bits of `other` in the byte at `index` past the start.
    pub fn const_bitor_assign(self, index: usize, other: u8) -> (res: Self)
        requires
            self.spec_start() + index < N,
        ensures
            res.spec_start() == self.spec_start(),
            res.spec_limit() == self.spec_limit(),
            res.spec_full() == self.spec_full().update(
                self.spec_start() + index,
                self.spec_full()[self.spec_start() + index] | other,
            ),
    {
        let mut s = self;
        proof {
            use_type_invariant(&s);
        }
        let k = s.start + index;
        let b = s.full_array[k];
        s.full_array[k] = b | other;
        s
    }

    /// The whole array, which must be exactly the bytes in use.
    pub fn const_take_or_panic(self) -> (res: [u8; N])
        requires
            self.spec_start() == 0,
            self.spec_limit() == N,
        ensures
            res@ == self.view(),
    {
        proof {
            use_type_invariant(&self);
            assert(self.full_array@.subrange(0, N as int) =~= self.full_array@);
        }
        self.full_array
    }

    /// Puts `value` in front of the bytes in use.
    pub fn const_push_front(self, value: u8) -> (res: Self)
        requires
            self.spec_start() > 0,
        ensures
            res.view() == seq![value] + self.view(),
            res.spec_start() == self.spec_start() - 1,
            res.spec_limit() == self.spec_limit(),
    {
        let mut s = self;
        proof {
            use_type_invariant(&s);
        }
        let ghost old_view = s.view();
        s.start -= 1;
        let st = s.start;
        s.full_array[st] = value;
        proof {
            assert(s.view() =~= seq![value] + old_view);
        }
        s
    }

    /// Puts the bytes of `other` in front of the bytes in use.
    pub fn const_extend_front(self, other: ConstSlice<u8>) -> (res: Self)
        requires
            other.spec_wf(),
            self.spec_start() >= other.view().len(),
        ensures
            res.view() == other.view() + self.view(),
            res.spec_start() == self.spec_start() - other.view().len(),
            res.spec_limit() == self.spec_limit(),
    {
        let mut s = self;
        proof {
            use_type_invariant(&s);
        }
        let ghost old_view = s.view();
        let ghost old_start = s.start;
        let n = other.len();
        s.start -= n;
        let mut i = s.start;
        let mut k: usize = 0;
        while k < n
            invariant
                s.spec_start() == old_start - n,
                s.spec_limit() == old_view.len() + old_start,
                i == s.spec_start() + k,
                k <= n,
                n == other.view().len(),
                other.spec_wf(),
                s.spec_full().len() == N,
                s.spec_start() + n <= s.spec_limit() <= N,
                forall|t: int| 0 <= t < k ==> #[trigger] s.spec_full()[s.spec_start() + t]
                    == other.view()[t],
                s.spec_full().subrange(old_start as int, s.spec_limit() as int) == old_view,
            decreases n - k,
        {
            let byte = *other.get_or_panic(k);
            proof {
                use_type_invariant(&s);
            }
            s.full_array[i] = byte;
            i += 1;
            k += 1;
            proof {
                assert(s.spec_full().subrange(old_start as int, s.spec_limit() as int)
                    =~= old_view);
            }
        }
        proof {
            let v = s.view();
            let w = other.view() + old_view;
            assert forall|t: int| 0 <= t < v.len() implies v[t] == w[t] by {
                if t < n {
                    assert(s.spec_full()[s.spec_start() + t] == other.view()[t]);
                } else {
                    let sub = s.spec_full().subrange(old_start as int, s.spec_limit() as int);
                    assert(sub[t - n] == v[t]);
                }
            }
            assert(v =~= w);
        }
        s
    }

    /// Exchanges the bytes `start..mid` and `mid..limit` (relative to the start of the
    /// bytes in use).
    pub fn swap_ranges(self, start: usize, mid: usize, limit: usize) -> (res: Self)
        requires
            start == mid || mid == limit || (start <= mid <= limit && start >= self.spec_start()
                && self.spec_start() + limit <= self.spec_limit()),
        ensures
            res.spec_start() == self.spec_start(),
            res.spec_limit() == self.spec_limit(),
            start == mid || mid == limit ==> res.spec_full() == self.spec_full(),
            !(start == mid || mid == limit) ==> res.spec_full() == rotated(
                self.spec_full(),
                self.spec_start() + start,
                self.spec_start() + mid,
                self.spec_start() + limit,
            ),
        decreases limit - start,
    {
        let mut s = self;
        proof {
            use_type_invariant(&s);
        }
        if start == mid || mid == limit {
            return s;
        }
        let ghost old_full = s.spec_full();
        let len0 = mid - start;
        let len1 = limit - mid;
        let m = if len0 < len1 { len0 } else { len1 };
        let mut i = s.start + start;
        let mut j = s.start + limit - m;
        let ghost a = s.start + start;
        let ghost c = s.start + limit;
        let ghost st0 = s.start;
        let ghost lim0 = s.limit;
        while j < s.start + limit
            invariant
                s.spec_start() == st0,
                s.spec_limit() == lim0,
                old_full.len() == N,
                s.spec_start() + limit <= s.spec_limit() <= N,
                s.spec_full().len() == N,
                a == s.spec_start() + start,
                c == s.spec_start() + limit,
                m <= len0,
                m <= len1,
                a + len0 + len1 == c,
                i - a == j - (c - m),
                a <= i <= a + m,
                c - m <= j <= c,
                forall|t: int|
                    0 <= t < N && !(a <= t < i) && !(c - m <= t < j) ==> s.spec_full()[t]
                        == old_full[t],
                forall|t: int| 0 <= t < i - a ==> #[trigger] s.spec_full()[a + t] == old_full[c - m + t],
                forall|t: int| 0 <= t < i - a ==> #[trigger] s.spec_full()[c - m + t] == old_full[a + t],
            decreases c - j,
        {
            let temp = s.full_array[i];
            let other = s.full_array[j];
            s.full_array[i] = other;
            s.full_array[j] = temp;
            i += 1;
            j += 1;
        }
        proof {
            lemma_block_swap(old_full, s.spec_full(), a, a + len0 as int, c, m as int);
        }
        if len0 < len1 {
            return s.swap_ranges(start, start + len0, limit - len0);
        } else {
            return s.swap_ranges(start + len1, limit - len1, limit);
        }
    }
}

} // verus!

verus! {

impl<const N: usize, T: Copy> ConstArrayBuilder<N, T> {
    /// Takes the first item in use off the front.
    pub fn split_first_or_panic(self) -> (res: (T, Self))
        requires
            self.view().len() > 0,
        ensures
            res.0 == self.view()[0],
            res.1.view() == self.view().drop_first(),
            res.1.spec_full() == self.spec_full(),
            res.1.spec_start() == self.spec_start() + 1,
            res.1.spec_limit() == self.spec_limit(),
    {
        let mut s = self;
        proof {
            use_type_invariant(&s);
        }
        let ghost old_view = s.view();
        let first = s.full_array[s.start];
        s.start = s.start + 1;
        proof {
            assert(s.view() =~= old_view.drop_first());
        }
        (first, s)
    }

    /// Puts `value` in front of the items in use.
    pub fn push_front_or_panic(self, value: T) -> (res: Self)
        requires
            self.spec_start() > 0,
        ensures
            res.view() == seq![value] + self.view(),
            res.spec_start() == self.spec_start() - 1,
            res.spec_limit() == self.spec_limit(),
    {
        let mut s = self;
        proof {
            use_type_invariant(&s);
        }
        let ghost old_view = s.view();
        s.start = s.start - 1;
        let st = s.start;
        s.full_array[st] = value;
        proof {
            assert(s.view() =~= seq![value] + old_view);
        }
        s
    }

    /// Exchanges the items at `i` and `j` (relative to the start of the items in use).
    pub fn swap_or_panic(self, i: usize, j: usize) -> (res: Self)
        requires
            i < self.view().len(),
            j < self.view().len(),
        ensures
            res.view() == self.view().update(i as int, self.view()[j as int]).update(
                j as int,
                self.view()[i as int],
            ),
            res.spec_start() == self.spec_start(),
            res.spec_limit() == self.spec_limit(),
    {
        let mut s = self;
        proof {
            use_type_invariant(&s);
        }
        let ghost old_view = s.view();
        let a = s.start + i;
        let b = s.start + j;
        let x = s.full_array[a];
        let y = s.full_array[b];
        s.full_array[a] = y;
        s.full_array[b] = x;
        proof {
            assert(s.view() =~= old_view.update(i as int, old_view[j as int]).update(
                j as int,
                old_view[i as int],
            ));
        }
        s
    }
}

} // verus!
