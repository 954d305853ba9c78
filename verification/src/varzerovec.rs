//! The byte layout of a vector of variable-length elements: the number of elements as 4
//! little-endian bytes, a width byte (4), the start of each element within the data as 4
//! little-endian bytes, then the elements' bytes one after the other. The empty slice
//! stands for the empty vector.

use crate::ascii::{bytes_less, lemma_seq_less_total, lemma_seq_less_trans, seq_less};
use crate::builder::offset_of;
use core::cmp::Ordering;
use core::marker::PhantomData;
use vstd::prelude::*;

verus! {

/// The number of bytes of the element count.
pub const LENGTH_WIDTH: usize = 4;

/// The number of bytes of the width byte.
pub const METADATA_WIDTH: usize = 1;

/// The number of bytes of each element's start.
pub const INDEX_WIDTH: usize = 4;

/// The largest number of elements.
pub const MAX_LENGTH: u64 = 0xffff_ffff;

/// The largest start of an element.
pub const MAX_INDEX: u64 = 0xffff_ffff;

/// Why bytes are not a vector, or an element.
#[derive(Debug, Clone, Copy, PartialEq, Eq)]
pub enum ZeroVecError {
    /// The bytes of an element have the wrong length for its type.
    InvalidLength { ty: &'static str, len: usize },
    /// The bytes of an element are not a value of its type.
    ParseError { ty: &'static str },
    /// The bytes do not have the layout of a vector.
    VarZeroVecFormatError,
}

/// A type whose values are held as runs of bytes of any length.
pub trait VarULE {
    /// Whether `bytes` holds a value of the type.
    spec fn valid_bytes(bytes: Seq<u8>) -> bool;

    /// `Ok` when `bytes` holds a value of the type, else why not.
    fn validate_byte_slice(bytes: &[u8]) -> (res: Result<(), ZeroVecError>)
        ensures
            res is Ok <==> Self::valid_bytes(bytes@),
    ;
}

/// Any run of bytes is a byte string.
impl VarULE for [u8] {
    open spec fn valid_bytes(bytes: Seq<u8>) -> bool {
        true
    }

    fn validate_byte_slice(bytes: &[u8]) -> (res: Result<(), ZeroVecError>) {
        Ok(())
    }
}

/// The number made of the 4 bytes of `b` from `at`, the least significant first.
pub open spec fn le4(b: Seq<u8>, at: int) -> int {
    b[at] + 256 * b[at + 1] + 65536 * b[at + 2] + 16777216 * b[at + 3]
}

/// The number of elements that the bytes announce.
pub open spec fn vzv_count(bytes: Seq<u8>) -> int {
    if bytes.len() == 0 {
        0
    } else {
        le4(bytes, 0)
    }
}

/// Where the elements' bytes start.
pub open spec fn vzv_data_start(bytes: Seq<u8>) -> int {
    5 + 4 * vzv_count(bytes)
}

/// The bytes of the elements, one after the other.
pub open spec fn vzv_data(bytes: Seq<u8>) -> Seq<u8> {
    bytes.skip(vzv_data_start(bytes))
}

/// Where element `k` starts within the data.
pub open spec fn vzv_start(bytes: Seq<u8>, k: int) -> int {
    le4(bytes, 5 + 4 * k)
}

/// Where element `k` ends within the data: where the next starts, or the end of the data.
pub open spec fn vzv_end(bytes: Seq<u8>, k: int) -> int {
    if k + 1 < vzv_count(bytes) {
        vzv_start(bytes, k + 1)
    } else {
        vzv_data(bytes).len() as int
    }
}

/// The count, the width byte and the starts are all there.
pub open spec fn vzv_header_ok(bytes: Seq<u8>) -> bool {
    bytes.len() == 0 || (bytes.len() >= 5 && bytes[4] == 4 && vzv_data_start(bytes) <= bytes.len())
}

/// Element `k` starts no later than it ends, within the data.
pub open spec fn vzv_range_ok(bytes: Seq<u8>, k: int) -> bool {
    0 <= vzv_start(bytes, k) <= vzv_end(bytes, k) <= vzv_data(bytes).len()
}

/// The bytes of element `k`.
pub open spec fn vzv_element(bytes: Seq<u8>, k: int) -> Seq<u8> {
    vzv_data(bytes).subrange(vzv_start(bytes, k), vzv_end(bytes, k))
}

/// The elements that the bytes hold.
pub open spec fn vzv_elements(bytes: Seq<u8>) -> Seq<Seq<u8>> {
    Seq::new(vzv_count(bytes) as nat, |k: int| vzv_element(bytes, k))
}

/// Element `k` lies within the data and is a value of type `T`.
pub open spec fn vzv_element_ok<T: VarULE + ?Sized>(bytes: Seq<u8>, k: int) -> bool {
    vzv_range_ok(bytes, k) && T::valid_bytes(vzv_element(bytes, k))
}

/// The bytes have the layout of a vector of elements of type `T`.
pub open spec fn vzv_valid<T: VarULE + ?Sized>(bytes: Seq<u8>) -> bool {
    &&& vzv_header_ok(bytes)
    &&& forall|k: int| 0 <= k < vzv_count(bytes) ==> #[trigger] vzv_element_ok::<T>(bytes, k)
}

/// A vector of elements of type `T`, read from its bytes in place.
pub struct VarZeroVecComponents<'a, T: ?Sized> {
    len: u32,
    indices_with_meta: &'a [u8],
    things: &'a [u8],
    entire_slice: &'a [u8],
    marker: PhantomData<&'a T>,
}

impl<'a, T: ?Sized> Copy for VarZeroVecComponents<'a, T> {

}

impl<'a, T: ?Sized> Clone for VarZeroVecComponents<'a, T> {
    fn clone(&self) -> (res: Self)
        ensures
            res == *self,
    {
        *self
    }
}

impl<'a, T: ?Sized> VarZeroVecComponents<'a, T> {
    #[verifier::type_invariant]
    spec fn inv(&self) -> bool {
        let e = self.entire_slice@;
        &&& vzv_header_ok(e)
        &&& self.len == vzv_count(e)
        &&& e.len() == 0 ==> self.indices_with_meta@ == seq![1u8] && self.things@.len() == 0
        &&& e.len() > 0 ==> self.indices_with_meta@ == e.subrange(4, vzv_data_start(e))
            && self.things@ == vzv_data(e)
        &&& forall|k: int| 0 <= k < vzv_count(e) ==> #[trigger] vzv_range_ok(e, k)
    }

    /// The bytes the vector is read from.
    pub closed spec fn bytes(&self) -> Seq<u8> {
        self.entire_slice@
    }

    /// The elements.
    pub open spec fn elements(&self) -> Seq<Seq<u8>> {
        vzv_elements(self.bytes())
    }
}

impl<'a, T: VarULE + ?Sized> VarZeroVecComponents<'a, T> {
    /// The empty vector.
    pub fn new() -> (res: Self)
        ensures
            res.elements() == Seq::<Seq<u8>>::empty(),
            res.bytes() == Seq::<u8>::empty(),
    {
        let empty: &'a [u8] = &[];
        let one: &'a [u8] = &[1];
        proof {
            assert(empty@ =~= Seq::<u8>::empty());
            assert(one@ =~= seq![1u8]);
        }
        Self { len: 0, indices_with_meta: one, things: empty, entire_slice: empty, marker: PhantomData }
    }
}

impl<'a, T: VarULE + ?Sized> VarZeroVecComponents<'a, T> {
    /// The vector held by `slice`, checking its layout: the empty slice, or the count,
    /// the width byte 4 and the starts all present, each element starting no later than it
    /// ends within the data, and each element a value of `T`. The error is
    /// `VarZeroVecFormatError` for a layout fault, and the one `T` gives for the first
    /// element (in order) that is not a value of `T`, where that comes first.
    pub fn parse_byte_slice(slice: &'a [u8]) -> (res: Result<Self, ZeroVecError>)
        ensures
            res is Ok <==> vzv_valid::<T>(slice@),
            res matches Ok(c) ==> c.bytes() == slice@,
            !vzv_header_ok(slice@) ==> res == Err::<Self, ZeroVecError>(ZeroVecError::VarZeroVecFormatError),
            forall|k: int|
                vzv_header_ok(slice@) && 0 <= k < vzv_count(slice@) && !vzv_range_ok(slice@, k)
                    && (forall|j: int| 0 <= j < k ==> #[trigger] vzv_element_ok::<T>(slice@, j))
                    ==> res == Err::<Self, ZeroVecError>(ZeroVecError::VarZeroVecFormatError),
    {
        if slice.len() == 0 {
            let one: &'a [u8] = &[1];
            let empty: &'a [u8] = &[];
            proof {
                assert(one@ =~= seq![1u8]);
                assert(empty@ =~= Seq::<u8>::empty());
            }
            return Ok(Self { len: 0, indices_with_meta: one, things: empty, entire_slice: slice, marker: PhantomData });
        }
        if slice.len() < LENGTH_WIDTH {
            return Err(ZeroVecError::VarZeroVecFormatError);
        }
        let len = read_le4(slice, 0);
        if slice.len() <= LENGTH_WIDTH || slice[LENGTH_WIDTH] != INDEX_WIDTH as u8 {
            return Err(ZeroVecError::VarZeroVecFormatError);
        }
        let data_start: u64 = (LENGTH_WIDTH + METADATA_WIDTH) as u64 + (INDEX_WIDTH as u64) * (len as u64);
        if data_start > slice.len() as u64 {
            return Err(ZeroVecError::VarZeroVecFormatError);
        }
        let data_start = data_start as usize;
        let indices_with_meta = vstd::slice::slice_subrange(slice, LENGTH_WIDTH, data_start);
        let things = vstd::slice::slice_subrange(slice, data_start, slice.len());
        let ghost e = slice@;
        proof {
            assert(things@ =~= vzv_data(e));
            assert(indices_with_meta@ =~= e.subrange(4, vzv_data_start(e)));
            vstd::slice::axiom_spec_len(indices_with_meta);
        }
        let mut k: u32 = 0;
        while k < len
            invariant
                k <= len == vzv_count(e),
                e == slice@,
                vzv_header_ok(e),
                e.len() > 0,
                things@ == vzv_data(e),
                indices_with_meta@ == e.subrange(4, vzv_data_start(e)),
                indices_with_meta@.len() <= usize::MAX,
                forall|j: int| 0 <= j < k ==> #[trigger] vzv_element_ok::<T>(e, j),
            decreases len - k,
        {
            proof {
                assert(indices_with_meta@[1 + 4 * k + 0] == e[5 + 4 * k + 0]);
                assert(indices_with_meta@[1 + 4 * k + 1] == e[5 + 4 * k + 1]);
                assert(indices_with_meta@[1 + 4 * k + 2] == e[5 + 4 * k + 2]);
                assert(indices_with_meta@[1 + 4 * k + 3] == e[5 + 4 * k + 3]);
            }
            let start = read_le4(indices_with_meta, 1 + 4 * (k as usize)) as usize;
            let end = if k + 1 < len {
                proof {
                    assert(indices_with_meta@[1 + 4 * (k + 1) + 0] == e[5 + 4 * (k + 1) + 0]);
                    assert(indices_with_meta@[1 + 4 * (k + 1) + 1] == e[5 + 4 * (k + 1) + 1]);
                    assert(indices_with_meta@[1 + 4 * (k + 1) + 2] == e[5 + 4 * (k + 1) + 2]);
                    assert(indices_with_meta@[1 + 4 * (k + 1) + 3] == e[5 + 4 * (k + 1) + 3]);
                }
                read_le4(indices_with_meta, 1 + 4 * ((k + 1) as usize)) as usize
            } else {
                things.len()
            };
            proof {
                assert(start == vzv_start(e, k as int));
                assert(end == vzv_end(e, k as int));
            }
            if start > end || end > things.len() {
                proof {
                    assert(!vzv_range_ok(e, k as int));
                    assert(!vzv_element_ok::<T>(e, k as int));
                }
                return Err(ZeroVecError::VarZeroVecFormatError);
            }
            let element = vstd::slice::slice_subrange(things, start, end);
            proof {
                assert(element@ =~= vzv_element(e, k as int));
                assert(vzv_range_ok(e, k as int));
            }
            match T::validate_byte_slice(element) {
                Ok(()) => {},
                Err(err) => {
                    proof {
                        assert(!vzv_element_ok::<T>(e, k as int));
                        assert forall|k2: int|
                            vzv_header_ok(e) && 0 <= k2 < vzv_count(e) && !vzv_range_ok(e, k2) && (forall|j: int|
                                0 <= j < k2 ==> #[trigger] vzv_element_ok::<T>(e, j)) implies false by {
                            if k2 > k {
                                assert(vzv_element_ok::<T>(e, k as int));
                            } else if k2 < k {
                                assert(vzv_element_ok::<T>(e, k2));
                            }
                        }
                    }
                    return Err(err);
                },
            }
            proof {
                assert(vzv_element_ok::<T>(e, k as int));
            }
            k += 1;
        }
        proof {
            assert forall|j: int| 0 <= j < vzv_count(e) implies #[trigger] vzv_range_ok(e, j) by {
                assert(vzv_element_ok::<T>(e, j));
            }
        }
        Ok(Self { len, indices_with_meta, things, entire_slice: slice, marker: PhantomData })
    }

    /// The vector held by `slice`, which must have the layout that `parse_byte_slice`
    /// accepts: the same vector it gives, without checking the elements again.
    pub fn from_bytes_unchecked(slice: &'a [u8]) -> (res: Self)
        requires
            vzv_valid::<T>(slice@),
        ensures
            res.bytes() == slice@,
    {
        if slice.len() == 0 {
            let one: &'a [u8] = &[1];
            let empty: &'a [u8] = &[];
            proof {
                assert(one@ =~= seq![1u8]);
                assert(empty@ =~= Seq::<u8>::empty());
            }
            return Self { len: 0, indices_with_meta: one, things: empty, entire_slice: slice, marker: PhantomData };
        }
        let len = read_le4(slice, 0);
        let data_start: usize = LENGTH_WIDTH + METADATA_WIDTH + INDEX_WIDTH * (len as usize);
        let indices_with_meta = vstd::slice::slice_subrange(slice, LENGTH_WIDTH, data_start);
        let things = vstd::slice::slice_subrange(slice, data_start, slice.len());
        let ghost e = slice@;
        proof {
            assert(things@ =~= vzv_data(e));
            assert(indices_with_meta@ =~= e.subrange(4, vzv_data_start(e)));
            assert forall|k: int| 0 <= k < vzv_count(e) implies #[trigger] vzv_range_ok(e, k) by {
                assert(vzv_element_ok::<T>(e, k));
            }
        }
        Self { len, indices_with_meta, things, entire_slice: slice, marker: PhantomData }
    }

    /// The number of elements.
    pub fn len(self) -> (res: usize)
        ensures
            res == self.elements().len(),
    {
        proof {
            use_type_invariant(&self);
        }
        self.len as usize
    }

    /// Whether there is no element.
    pub fn is_empty(self) -> (res: bool)
        ensures
            res == (self.elements().len() == 0),
    {
        proof {
            use_type_invariant(&self);
        }
        self.len == 0
    }

    /// The bytes of element `idx`, or `None` past the end.
    pub fn get(self, idx: usize) -> (res: Option<&'a [u8]>)
        ensures
            idx < self.elements().len() <==> res is Some,
            res matches Some(b) ==> b@ == self.elements()[idx as int],
    {
        proof {
            use_type_invariant(&self);
        }
        if idx >= self.len as usize {
            return None;
        }
        Some(self.get_unchecked(idx))
    }

    /// The bytes of element `idx`, which must be within the vector.
    fn get_unchecked(self, idx: usize) -> (res: &'a [u8])
        requires
            idx < self.elements().len(),
        ensures
            res@ == self.elements()[idx as int],
    {
        proof {
            use_type_invariant(&self);
        }
        let (start, end) = self.get_things_range(idx);
        vstd::slice::slice_subrange(self.things, start, end)
    }

    /// Where element `idx`, which must be within the vector, starts and ends in the data.
    fn get_things_range(self, idx: usize) -> (res: (usize, usize))
        requires
            idx < self.elements().len(),
        ensures
            res.0 == vzv_start(self.bytes(), idx as int),
            res.1 == vzv_end(self.bytes(), idx as int),
            res.0 <= res.1 <= vzv_data(self.bytes()).len(),
    {
        proof {
            use_type_invariant(&self);
        }
        let ghost e = self.entire_slice@;
        proof {
            vstd::slice::axiom_spec_len(self.indices_with_meta);
            assert(vzv_range_ok(e, idx as int));
            assert(self.indices_with_meta@[1 + 4 * idx + 0] == e[5 + 4 * idx + 0]);
            assert(self.indices_with_meta@[1 + 4 * idx + 1] == e[5 + 4 * idx + 1]);
            assert(self.indices_with_meta@[1 + 4 * idx + 2] == e[5 + 4 * idx + 2]);
            assert(self.indices_with_meta@[1 + 4 * idx + 3] == e[5 + 4 * idx + 3]);
        }
        let start = read_le4(self.indices_with_meta, 1 + 4 * idx) as usize;
        let end = if idx + 1 == self.len as usize {
            self.things.len()
        } else {
            proof {
                assert(self.indices_with_meta@[1 + 4 * (idx + 1) + 0] == e[5 + 4 * (idx + 1) + 0]);
                assert(self.indices_with_meta@[1 + 4 * (idx + 1) + 1] == e[5 + 4 * (idx + 1) + 1]);
                assert(self.indices_with_meta@[1 + 4 * (idx + 1) + 2] == e[5 + 4 * (idx + 1) + 2]);
                assert(self.indices_with_meta@[1 + 4 * (idx + 1) + 3] == e[5 + 4 * (idx + 1) + 3]);
            }
            read_le4(self.indices_with_meta, 1 + 4 * (idx + 1)) as usize
        };
        (start, end)
    }

    /// The bytes of every element, in order, as `iter` gives them.
    pub fn to_vec(self) -> (res: Vec<&'a [u8]>)
        ensures
            res@.len() == self.elements().len(),
            forall|k: int| 0 <= k < res@.len() ==> (#[trigger] res@[k])@ == self.elements()[k],
    {
        self.iter()
    }

    /// The elements, in order, each borrowed from the vector's bytes.
    pub fn iter(self) -> (res: Vec<&'a [u8]>)
        ensures
            res@.len() == self.elements().len(),
            forall|k: int| 0 <= k < res@.len() ==> (#[trigger] res@[k])@ == self.elements()[k],
    {
        proof {
            use_type_invariant(&self);
        }
        let mut out: Vec<&'a [u8]> = Vec::new();
        let n = self.len as usize;
        let mut k: usize = 0;
        while k < n
            invariant
                k <= n == self.elements().len(),
                out@.len() == k,
                forall|j: int| 0 <= j < k ==> (#[trigger] out@[j])@ == self.elements()[j],
            decreases n - k,
        {
            out.push(self.get_unchecked(k));
            k += 1;
        }
        out
    }
}

/// The elements are in increasing byte order, repeats allowed.
pub open spec fn sorted_elements(es: Seq<Seq<u8>>) -> bool {
    forall|i: int, j: int| 0 <= i < j < es.len() ==> #[trigger] es[i] == #[trigger] es[j] || seq_less(es[i], es[j])
}

/// Where `needle` is among the sorted elements `es[lo..hi]`: `Ok` with its place, or `Err`
/// with the place it would go, every element before that place sorting before it and
/// every one from that place on after it.
pub open spec fn search_result(es: Seq<Seq<u8>>, needle: Seq<u8>, lo: int, hi: int, res: Result<usize, usize>) -> bool {
    match res {
        Ok(i) => lo <= i < hi && es[i as int] == needle,
        Err(i) => lo <= i <= hi && (forall|j: int| lo <= j < i ==> seq_less(#[trigger] es[j], needle))
            && (forall|j: int| i <= j < hi ==> seq_less(needle, #[trigger] es[j])),
    }
}

impl<'a> VarZeroVecComponents<'a, [u8]> {
    /// Looks for `needle` among the elements, which must be in increasing byte order
    /// (repeats allowed) for the answer to mean anything: `Ok` with the place of an element
    /// equal to it, or `Err` with the place where it would go.
    pub fn binary_search(&self, needle: &[u8]) -> (res: Result<usize, usize>)
        ensures
            sorted_elements(self.elements()) ==> search_result(
                self.elements(),
                needle@,
                0,
                self.elements().len() as int,
                res,
            ),
    {
        let n = self.len();
        self.search_between(needle, 0, n)
    }

    /// Looks for `needle` among the elements in `range`, as `binary_search` does; the
    /// place is counted from the start of the range. `None` if the range is not within
    /// the vector.
    pub fn binary_search_in_range(&self, needle: &[u8], range: core::ops::Range<usize>) -> (res: Option<
        Result<usize, usize>,
    >)
        ensures
            (range.start <= range.end <= self.elements().len()) <==> res is Some,
            res matches Some(r) ==> sorted_elements(self.elements()) ==> search_result(
                self.elements(),
                needle@,
                range.start as int,
                range.end as int,
                match r {
                    Ok(i) => Ok((i + range.start) as usize),
                    Err(i) => Err((i + range.start) as usize),
                },
            ),
            res matches Some(r) ==> match r {
                Ok(i) => i < range.end - range.start,
                Err(i) => i <= range.end - range.start,
            },
    {
        let n = self.len();
        if range.start > range.end || range.end > n {
            return None;
        }
        let found = self.search_between(needle, range.start, range.end);
        Some(
            match found {
                Ok(i) => Ok(i - range.start),
                Err(i) => Err(i - range.start),
            },
        )
    }

    /// Binary search among the elements `lo..hi`.
    fn search_between(&self, needle: &[u8], lo: usize, hi: usize) -> (res: Result<usize, usize>)
        requires
            lo <= hi <= self.elements().len(),
        ensures
            match res {
                Ok(i) => lo <= i < hi,
                Err(i) => lo <= i <= hi,
            },
            sorted_elements(self.elements()) ==> search_result(self.elements(), needle@, lo as int, hi as int, res),
    {
        let ghost es = self.elements();
        let mut low = lo;
        let mut high = hi;
        while low < high
            invariant
                lo <= low <= high <= hi <= es.len(),
                es == self.elements(),
                sorted_elements(es) ==> forall|j: int| lo <= j < low ==> seq_less(#[trigger] es[j], needle@),
                sorted_elements(es) ==> forall|j: int| high <= j < hi ==> seq_less(needle@, #[trigger] es[j]),
            decreases high - low,
        {
            let mid = low + (high - low) / 2;
            let probe = self.get_unchecked(mid);
            if bytes_less(probe, needle) {
                proof {
                    if sorted_elements(es) {
                        assert forall|j: int| lo <= j < mid + 1 implies seq_less(#[trigger] es[j], needle@) by {
                            if low <= j < mid && es[j] != es[mid as int] {
                                lemma_seq_less_trans(es[j], es[mid as int], needle@);
                            }
                        }
                    }
                }
                low = mid + 1;
            } else if bytes_less(needle, probe) {
                proof {
                    if sorted_elements(es) {
                        assert forall|j: int| mid <= j < hi implies seq_less(needle@, #[trigger] es[j]) by {
                            if mid < j < high && es[j] != es[mid as int] {
                                lemma_seq_less_trans(needle@, es[mid as int], es[j]);
                            }
                        }
                    }
                }
                high = mid;
            } else {
                proof {
                    lemma_seq_less_total(probe@, needle@);
                }
                return Ok(mid);
            }
        }
        Err(low)
    }
}

/// The element `es[i]`.
pub open spec fn element_at(es: Seq<Seq<u8>>, i: usize) -> Seq<u8> {
    es[i as int]
}

/// What a binary search of `es[lo..hi]` may give back, where `less`, `equal` and
/// `greater` tell on which elements the comparator answered so: `Ok` with an element it
/// found equal, or `Err` with a place whose element before it (within the range) was
/// less and whose element at it (within the range) was greater.
pub open spec fn search_places(
    es: Seq<Seq<u8>>,
    less: spec_fn(Seq<u8>) -> bool,
    equal: spec_fn(Seq<u8>) -> bool,
    greater: spec_fn(Seq<u8>) -> bool,
    lo: int,
    hi: int,
    res: Result<usize, usize>,
) -> bool {
    match res {
        Ok(i) => lo <= i < hi && equal(es[i as int]),
        Err(i) => lo <= i <= hi && (lo < i ==> less(es[i - 1])) && (i < hi ==> greater(es[i as int])),
    }
}

/// `search_places` over `es[lo..hi]`.
pub open spec fn search_places_between(
    es: Seq<Seq<u8>>,
    less: spec_fn(Seq<u8>) -> bool,
    equal: spec_fn(Seq<u8>) -> bool,
    greater: spec_fn(Seq<u8>) -> bool,
    lo: usize,
    hi: usize,
    res: Result<usize, usize>,
) -> bool {
    search_places(es, less, equal, greater, lo as int, hi as int, res)
}

/// `search_places` over all of `es`.
pub open spec fn search_places_all(
    es: Seq<Seq<u8>>,
    less: spec_fn(Seq<u8>) -> bool,
    equal: spec_fn(Seq<u8>) -> bool,
    greater: spec_fn(Seq<u8>) -> bool,
    res: Result<usize, usize>,
) -> bool {
    search_places(es, less, equal, greater, 0, es.len() as int, res)
}

/// `search_places` over `es[start..end]`, with the place `res` counted from `start`.
pub open spec fn search_places_in(
    es: Seq<Seq<u8>>,
    less: spec_fn(Seq<u8>) -> bool,
    equal: spec_fn(Seq<u8>) -> bool,
    greater: spec_fn(Seq<u8>) -> bool,
    start: usize,
    end: usize,
    res: Result<usize, usize>,
) -> bool {
    &&& search_places(
        es,
        less,
        equal,
        greater,
        start as int,
        end as int,
        match res {
            Ok(i) => Ok((i + start) as usize),
            Err(i) => Err((i + start) as usize),
        },
    )
    &&& match res {
        Ok(i) => i < end - start,
        Err(i) => i <= end - start,
    }
}

/// The comparator `f` answered `o` on an element whose bytes are `e`.
pub open spec fn answered<F: Fn(&[u8]) -> Ordering>(f: F, e: Seq<u8>, o: Ordering) -> bool {
    exists|s: &[u8]| s@ == e && #[trigger] f.ensures((s,), o)
}

impl<'a> VarZeroVecComponents<'a, [u8]> {
    /// Looks for the element on which `predicate` answers `Equal`, the elements being in
    /// the order `predicate` compares by for the answer to mean anything: `Ok` with its
    /// place, or `Err` with the place where such an element would go.
    pub fn binary_search_by<F: Fn(&[u8]) -> Ordering>(&self, predicate: F) -> (res: Result<usize, usize>)
        requires
            forall|s: &[u8]| #[trigger] predicate.requires((s,)),
        ensures
            search_places_all(
                self.elements(),
                |e: Seq<u8>| answered(predicate, e, Ordering::Less),
                |e: Seq<u8>| answered(predicate, e, Ordering::Equal),
                |e: Seq<u8>| answered(predicate, e, Ordering::Greater),
                res,
            ),
    {
        let n = self.len();
        self.search_between_by(&predicate, 0, n)
    }

    /// Looks for the element of `range` on which `predicate` answers `Equal`, as
    /// `binary_search_by` does; the place is counted from the start of the range. `None`
    /// if the range is not within the vector.
    pub fn binary_search_in_range_by<F: Fn(&[u8]) -> Ordering>(
        &self,
        predicate: F,
        range: core::ops::Range<usize>,
    ) -> (res: Option<Result<usize, usize>>)
        requires
            forall|s: &[u8]| #[trigger] predicate.requires((s,)),
        ensures
            (range.start <= range.end <= self.elements().len()) <==> res is Some,
            res matches Some(r) ==> search_places_in(
                self.elements(),
                |e: Seq<u8>| answered(predicate, e, Ordering::Less),
                |e: Seq<u8>| answered(predicate, e, Ordering::Equal),
                |e: Seq<u8>| answered(predicate, e, Ordering::Greater),
                range.start,
                range.end,
                r,
            ),
    {
        let n = self.len();
        if range.start > range.end || range.end > n {
            return None;
        }
        let found = self.search_between_by(&predicate, range.start, range.end);
        Some(
            match found {
                Ok(i) => Ok(i - range.start),
                Err(i) => Err(i - range.start),
            },
        )
    }

    /// Binary search with `predicate` among the elements `lo..hi`.
    fn search_between_by<F: Fn(&[u8]) -> Ordering>(&self, predicate: &F, lo: usize, hi: usize) -> (res: Result<
        usize,
        usize,
    >)
        requires
            lo <= hi <= self.elements().len(),
            forall|s: &[u8]| #[trigger] predicate.requires((s,)),
        ensures
            search_places_between(
                self.elements(),
                |e: Seq<u8>| answered(*predicate, e, Ordering::Less),
                |e: Seq<u8>| answered(*predicate, e, Ordering::Equal),
                |e: Seq<u8>| answered(*predicate, e, Ordering::Greater),
                lo,
                hi,
                res,
            ),
    {
        let ghost es = self.elements();
        let mut low = lo;
        let mut high = hi;
        while low < high
            invariant
                lo <= low <= high <= hi <= es.len(),
                es == self.elements(),
                forall|s: &[u8]| #[trigger] predicate.requires((s,)),
                lo < low ==> answered(*predicate, es[low - 1], Ordering::Less),
                high < hi ==> answered(*predicate, element_at(es, high), Ordering::Greater),
            decreases high - low,
        {
            let mid = low + (high - low) / 2;
            let probe = self.get_unchecked(mid);
            let answer = predicate(probe);
            proof {
                assert(answered(*predicate, element_at(es, mid), answer));
            }
            match answer {
                Ordering::Less => {
                    low = mid + 1;
                },
                Ordering::Greater => {
                    high = mid;
                },
                Ordering::Equal => {
                    return Ok(mid);
                },
            }
        }
        Err(low)
    }
}

/// The bytes of the elements `es` laid out as a vector need this many bytes.
pub open spec fn vzv_serial_len(es: Seq<Seq<u8>>) -> int {
    5 + 4 * es.len() + es.flatten().len() as int
}

/// The 4 bytes of `v`, the least significant first.
pub open spec fn le4_bytes(v: int) -> Seq<u8> {
    seq![
        (v % 256) as u8,
        ((v / 256) % 256) as u8,
        ((v / 65536) % 256) as u8,
        ((v / 16777216) % 256) as u8,
    ]
}

/// The starts of the elements `es` within their bytes laid end to end, 4 bytes each.
pub open spec fn index_bytes(es: Seq<Seq<u8>>) -> Seq<u8> {
    Seq::new(4 * es.len(), |i: int| le4_bytes(offset_of(es, i / 4))[i % 4])
}

/// The vector of the elements `es`: their number, the width byte, their starts, and
/// their bytes.
pub open spec fn vzv_serialize(es: Seq<Seq<u8>>) -> Seq<u8> {
    le4_bytes(es.len() as int) + seq![4u8] + index_bytes(es) + es.flatten()
}

/// The bytes of each of `elements`.
pub open spec fn element_bytes(elements: Seq<&[u8]>) -> Seq<Seq<u8>> {
    elements.map_values(|e: &[u8]| e@)
}

/// The number of bytes of the vector of `elements`, or `None` if it does not fit in a
/// `u32`.
pub fn compute_serializable_len(elements: &[&[u8]]) -> (res: Option<u32>)
    ensures
        res == if vzv_serial_len(element_bytes(elements@)) <= u32::MAX {
            Some(vzv_serial_len(element_bytes(elements@)) as u32)
        } else {
            None::<u32>
        },
{
    let ghost es = element_bytes(elements@);
    if elements.len() > u32::MAX as usize {
        proof {
            lemma_flatten_nonneg(es);
        }
        return None;
    }
    let idx_len = match (elements.len() as u32).checked_mul(INDEX_WIDTH as u32) {
        Some(x) => x,
        None => {
            return None;
        },
    };
    let idx_len = match idx_len.checked_add(LENGTH_WIDTH as u32) {
        Some(x) => x,
        None => {
            return None;
        },
    };
    let idx_len = match idx_len.checked_add(METADATA_WIDTH as u32) {
        Some(x) => x,
        None => {
            return None;
        },
    };
    let mut data_len: Option<u32> = Some(0);
    let mut k: usize = 0;
    proof {
        assert(es.take(0) =~= Seq::<Seq<u8>>::empty());
    }
    while k < elements.len()
        invariant
            k <= elements@.len(),
            es == element_bytes(elements@),
            data_len == if es.take(k as int).flatten().len() <= u32::MAX {
                Some(es.take(k as int).flatten().len() as u32)
            } else {
                None::<u32>
            },
        decreases elements@.len() - k,
    {
        let len = elements[k].len();
        proof {
            assert(es.take(k + 1) =~= es.take(k as int).push(es[k as int]));
            es.take(k as int).lemma_flatten_push(es[k as int]);
            assert(es[k as int] == elements@[k as int]@);
        }
        data_len = match data_len {
            Some(s) => if len > u32::MAX as usize {
                None
            } else {
                s.checked_add(len as u32)
            },
            None => None,
        };
        k += 1;
    }
    proof {
        assert(es.take(k as int) =~= es);
        lemma_flatten_nonneg(es);
    }
    match data_len {
        Some(d) => idx_len.checked_add(d),
        None => None,
    }
}

/// Writes the vector of `elements` into `output`, which must be exactly as long as it;
/// the number of elements and the start of each must fit in a `u32`.
pub fn write_serializable_bytes(elements: &[&[u8]], output: &mut [u8])
    requires
        elements@.len() <= u32::MAX,
        forall|k: int|
            0 <= k < elements@.len() ==> offset_of(element_bytes(elements@), k) <= u32::MAX,
        old(output)@.len() == vzv_serial_len(element_bytes(elements@)),
    ensures
        final(output)@ == vzv_serialize(element_bytes(elements@)),
{
    let ghost es = element_bytes(elements@);
    let ghost target = vzv_serialize(es);
    let ghost total = output@.len();
    let out_len = output.len();
    let n = elements.len();
    proof {
        lemma_flatten_nonneg(es);
        assert(target.len() == total);
    }
    write_le4(output, 0, n as u32);
    output[LENGTH_WIDTH] = INDEX_WIDTH as u8;
    let mut idx_offset: usize = LENGTH_WIDTH + METADATA_WIDTH;
    let first_dat_offset: usize = idx_offset + n * INDEX_WIDTH;
    let mut dat_offset: usize = first_dat_offset;
    let mut k: usize = 0;
    proof {
        assert(es.take(0) =~= Seq::<Seq<u8>>::empty());
        assert forall|i: int| 0 <= i < 5 implies output@[i] == target[i] by {}
    }
    while k < n
        invariant
            k <= n == elements@.len() == es.len(),
            es == element_bytes(elements@),
            target == vzv_serialize(es),
            output@.len() == total == target.len() == vzv_serial_len(es),
            n <= u32::MAX,
            total == out_len,
            forall|j: int| 0 <= j < n ==> offset_of(es, j) <= u32::MAX,
            idx_offset == 5 + 4 * k,
            first_dat_offset == 5 + 4 * n,
            dat_offset == first_dat_offset + offset_of(es, k as int),
            forall|i: int| 0 <= i < 5 + 4 * k ==> #[trigger] output@[i] == target[i],
            forall|i: int| first_dat_offset <= i < dat_offset ==> #[trigger] output@[i] == target[i],
        decreases n - k,
    {
        let element = elements[k];
        let element_len = element.len();
        proof {
            assert(es[k as int] == element@);
            crate::lookup::lemma_flatten_slice(es, k as int);
            crate::builder::lemma_offset_step(es, k as int);
            crate::builder::lemma_offset_le_total(es, k as int + 1);
        }
        let idx = dat_offset - first_dat_offset;
        let ghost before = output@;
        write_le4(output, idx_offset, idx as u32);
        proof {
            assert forall|i: int| 0 <= i < 5 + 4 * (k + 1) implies #[trigger] output@[i] == target[i] by {
                if i >= 5 + 4 * k {
                    let j = i - 5;
                    assert(j / 4 == k && j % 4 == i - (5 + 4 * k)) by (nonlinear_arith)
                        requires
                            j == i - 5,
                            5 + 4 * k <= i < 5 + 4 * (k + 1),
                    ;
                    assert(target[i] == index_bytes(es)[j]);
                } else {
                    assert(output@[i] == before[i]);
                }
            }
        }
        let ghost mid = output@;
        let mut m: usize = 0;
        while m < element_len
            invariant
                m <= element_len == es[k as int].len(),
                total == 5 + 4 * n + es.flatten().len(),
                total == out_len,
                es == element_bytes(elements@),
                element@ == es[k as int],
                target == vzv_serialize(es),
                output@.len() == total == target.len(),
                first_dat_offset == 5 + 4 * n,
                dat_offset == first_dat_offset + offset_of(es, k as int),
                offset_of(es, k as int + 1) == offset_of(es, k as int) + es[k as int].len(),
                offset_of(es, k as int + 1) <= es.flatten().len(),
                es.flatten().subrange(offset_of(es, k as int), offset_of(es, k as int + 1)) == es[k as int],
                k < n == es.len(),
                forall|i: int| 0 <= i < 5 + 4 * (k + 1) ==> #[trigger] output@[i] == target[i],
                forall|i: int| first_dat_offset <= i < dat_offset + m ==> #[trigger] output@[i] == target[i],
            decreases element_len - m,
        {
            output[dat_offset + m] = element[m];
            proof {
                let i = dat_offset + m;
                assert(target[i] == es.flatten()[offset_of(es, k as int) + m]);
                assert(es.flatten().subrange(offset_of(es, k as int), offset_of(es, k as int + 1))[m as int]
                    == es[k as int][m as int]);
            }
            m += 1;
        }
        idx_offset += INDEX_WIDTH;
        dat_offset += element_len;
        k += 1;
    }
    proof {
        assert(es.take(n as int) =~= es);
        assert(output@ =~= target);
    }
}

/// The vector of `elements`, or `None` if it does not fit in `u32::MAX` bytes.
pub fn get_serializable_bytes(elements: &[&[u8]]) -> (res: Option<Vec<u8>>)
    ensures
        res is Some <==> vzv_serial_len(element_bytes(elements@)) <= u32::MAX,
        res matches Some(v) ==> v@ == vzv_serialize(element_bytes(elements@)),
{
    let len = match compute_serializable_len(elements) {
        Some(l) => l,
        None => {
            return None;
        },
    };
    let mut output: Vec<u8> = vec![0; len as usize];
    proof {
        let es = element_bytes(elements@);
        lemma_flatten_nonneg(es);
        assert forall|k: int| 0 <= k < elements@.len() implies offset_of(es, k) <= u32::MAX by {
            crate::builder::lemma_offset_le_total(es, k);
        }
    }
    write_serializable_bytes(elements, output.as_mut_slice());
    Some(output)
}

/// The 4 bytes of a number that fits in them read back as that number.
proof fn lemma_le4_roundtrip(v: int)
    requires
        0 <= v <= u32::MAX,
    ensures
        le4(le4_bytes(v), 0) == v,
{
    let x = v as u32;
    assert(((x % 256) as u8) as u32 + 256 * (((x / 256) % 256) as u8) as u32 + 65536 * (((x / 65536)
        % 256) as u8) as u32 + 16777216 * (((x / 16777216) % 256) as u8) as u32 == x) by (bit_vector);
}

/// Reading the start of element `k` of a laid-out vector gives where it starts among the
/// elements' bytes.
proof fn lemma_start_roundtrip(es: Seq<Seq<u8>>, k: int)
    requires
        vzv_serial_len(es) <= u32::MAX,
        0 <= k < es.len(),
    ensures
        vzv_start(vzv_serialize(es), k) == offset_of(es, k),
{
    let b = vzv_serialize(es);
    let ib = index_bytes(es);
    let off = offset_of(es, k);
    crate::builder::lemma_offset_le_total(es, k);
    assert forall|j: int| 0 <= j < 4 implies #[trigger] b[5 + 4 * k + j] == le4_bytes(off)[j] by {
        assert(b[5 + 4 * k + j] == ib[4 * k + j]);
        assert((4 * k + j) / 4 == k && (4 * k + j) % 4 == j) by (nonlinear_arith)
            requires
                0 <= j < 4,
                0 <= k,
        ;
    }
    lemma_le4_roundtrip(off);
    assert(b[5 + 4 * k + 0] == le4_bytes(off)[0]);
    assert(b[5 + 4 * k + 1] == le4_bytes(off)[1]);
    assert(b[5 + 4 * k + 2] == le4_bytes(off)[2]);
    assert(b[5 + 4 * k + 3] == le4_bytes(off)[3]);
}

/// Laying out elements as a vector and reading the vector back gives the elements: the
/// bytes hold exactly those elements, and have the layout of a vector of `T` when every
/// element is a value of `T`.
pub proof fn lemma_serialize_parse<T: VarULE + ?Sized>(es: Seq<Seq<u8>>)
    requires
        vzv_serial_len(es) <= u32::MAX,
    ensures
        vzv_elements(vzv_serialize(es)) == es,
        (forall|k: int| 0 <= k < es.len() ==> T::valid_bytes(#[trigger] es[k])) ==> vzv_valid::<T>(
            vzv_serialize(es),
        ),
{
    let b = vzv_serialize(es);
    let n = es.len() as int;
    let flat = es.flatten();
    lemma_flatten_nonneg(es);
    lemma_le4_roundtrip(n);
    assert(b.len() == vzv_serial_len(es));
    assert(le4(b, 0) == le4(le4_bytes(n), 0));
    assert(vzv_count(b) == n);
    assert(b[4] == 4);
    assert(vzv_data(b) =~= flat);
    assert(es.take(n) =~= es);
    assert(vzv_elements(b) =~= es) by {
        assert forall|k: int| 0 <= k < n implies vzv_elements(b)[k] == es[k] by {
            lemma_element_roundtrip(es, k);
        }
    }
    if forall|k: int| 0 <= k < es.len() ==> T::valid_bytes(#[trigger] es[k]) {
        assert forall|k: int| 0 <= k < vzv_count(b) implies #[trigger] vzv_element_ok::<T>(b, k) by {
            lemma_element_roundtrip(es, k);
            assert(T::valid_bytes(es[k]));
        }
    }
}

/// Element `k` of a laid-out vector lies within its data and is `es[k]`.
proof fn lemma_element_roundtrip(es: Seq<Seq<u8>>, k: int)
    requires
        vzv_serial_len(es) <= u32::MAX,
        0 <= k < es.len(),
    ensures
        vzv_range_ok(vzv_serialize(es), k),
        vzv_element(vzv_serialize(es), k) == es[k],
{
    let b = vzv_serialize(es);
    let n = es.len() as int;
    let flat = es.flatten();
    lemma_flatten_nonneg(es);
    lemma_le4_roundtrip(n);
    assert(le4(b, 0) == le4(le4_bytes(n), 0));
    assert(vzv_count(b) == n);
    assert(vzv_data(b) =~= flat);
    assert(es.take(n) =~= es);
    lemma_start_roundtrip(es, k);
    if k + 1 < n {
        lemma_start_roundtrip(es, k + 1);
    }
    crate::builder::lemma_offset_step(es, k);
    crate::builder::lemma_offset_le_total(es, k + 1);
    crate::lookup::lemma_flatten_slice(es, k);
}

proof fn lemma_flatten_nonneg(es: Seq<Seq<u8>>)
    ensures
        es.flatten().len() >= 0,
{
}

/// The 4 bytes of `value`, the least significant first, put at `at` in `output`.
fn write_le4(output: &mut [u8], at: usize, value: u32)
    requires
        at + 4 <= old(output)@.len(),
    ensures
        final(output)@ == old(output)@.subrange(0, at as int) + le4_bytes(value as int) + old(
            output,
        )@.subrange(at + 4, old(output)@.len() as int),
{
    output[at] = (value % 256) as u8;
    output[at + 1] = ((value / 256) % 256) as u8;
    output[at + 2] = ((value / 65536) % 256) as u8;
    output[at + 3] = ((value / 16777216) % 256) as u8;
    proof {
        assert(final(output)@ =~= old(output)@.subrange(0, at as int) + le4_bytes(value as int) + old(
            output,
        )@.subrange(at + 4, old(output)@.len() as int));
    }
}

/// The number made of the 4 bytes of `bytes` from `at`, the least significant first.
fn read_le4(bytes: &[u8], at: usize) -> (res: u32)
    requires
        at + 4 <= bytes@.len(),
    ensures
        res == le4(bytes@, at as int),
{
    let b0 = bytes[at] as u32;
    let b1 = bytes[at + 1] as u32;
    let b2 = bytes[at + 2] as u32;
    let b3 = bytes[at + 3] as u32;
    b0 + 256 * b1 + 65536 * b2 + 16777216 * b3
}

} // verus!
