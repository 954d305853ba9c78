//! ASCII bytes and borrowed ASCII strings.

use vstd::prelude::*;
use vstd::string::StringSliceAdditionalSpecFns;

verus! {

/// Returned when a byte at or above 0x80 is offered where only ASCII is allowed.
#[derive(Debug, Copy, Clone, PartialEq)]
pub struct NonAsciiError;

/// Every byte of `bytes` is ASCII.
pub open spec fn all_ascii(bytes: Seq<u8>) -> bool {
    forall|i: int| 0 <= i < bytes.len() ==> #[trigger] bytes[i] < 128
}

/// Bytes that are all ASCII are well-formed UTF-8: each is a one-byte scalar.
pub proof fn lemma_ascii_valid_utf8(bytes: Seq<u8>)
    requires
        all_ascii(bytes),
    ensures
        vstd::utf8::valid_utf8(bytes),
    decreases bytes.len(),
{
    if bytes.len() != 0 {
        let rest = vstd::utf8::pop_first_scalar(bytes);
        assert(vstd::utf8::valid_first_scalar(bytes));
        assert(rest =~= bytes.drop_first());
        assert(all_ascii(rest)) by {
            assert forall|i: int| 0 <= i < rest.len() implies #[trigger] rest[i] < 128 by {
                assert(rest[i] == bytes[i + 1]);
            }
        }
        lemma_ascii_valid_utf8(rest);
    }
}

/// `std::str::from_utf8`: the bytes as a string slice when they are well-formed UTF-8, which
/// is what its documentation gives as the condition for `Ok`; the error is dropped.
#[verifier::external_body]
fn str_from_utf8(v: &[u8]) -> (res: Option<&str>)
    ensures
        res is Some <==> vstd::utf8::valid_utf8(v@),
        res matches Some(s) ==> s.spec_bytes() == v@,
{
    std::str::from_utf8(v).ok()
}

/// `a` sorts strictly before `b` in lexicographic byte order.
pub open spec fn seq_less(a: Seq<u8>, b: Seq<u8>) -> bool {
    exists|i: int|
        0 <= i <= a.len() && i <= b.len() && a.take(i) == b.take(i) && ((i < a.len() && i
            < b.len() && a[i] < b[i]) || (i == a.len() && i < b.len()))
}

/// A byte that is always ASCII.
#[derive(Debug, Copy, Clone, PartialEq, Eq, PartialOrd, Ord)]
pub struct AsciiByte(u8);

impl AsciiByte {
    #[verifier::type_invariant]
    spec fn inv(&self) -> bool {
        self.0 < 128
    }

    /// The byte.
    pub closed spec fn view(&self) -> u8 {
        self.0
    }

    /// The byte, as an ASCII byte, or `NonAsciiError` when it is 0x80 or above.
    pub fn try_from_u8(byte: u8) -> (res: Result<Self, NonAsciiError>)
        ensures
            byte < 128 <==> res is Ok,
            res matches Ok(b) ==> b@ == byte,
    {
        if byte >= 0b10000000 {
            return Err(NonAsciiError);
        }
        Ok(Self(byte))
    }

    /// The byte, as an ASCII byte; a non-ASCII byte becomes NUL.
    pub fn debug_from_u8(byte: u8) -> (res: Self)
        ensures
            res@ == if byte < 128 { byte } else { 0 },
    {
        match Self::try_from_u8(byte) {
            Ok(x) => x,
            Err(_) => Self(0),
        }
    }

    /// The NUL byte.
    pub fn nul() -> (res: Self)
        ensures
            res@ == 0,
    {
        Self(0)
    }

    /// The byte.
    pub fn get(self) -> (res: u8)
        ensures
            res == self@,
            res < 128,
    {
        proof {
            use_type_invariant(&self);
        }
        self.0
    }
}

/// A borrowed string of ASCII bytes.
#[derive(Debug, Copy, Clone, PartialEq, Eq, PartialOrd, Ord)]
pub struct AsciiStr<'a> {
    bytes: &'a [u8],
}

impl<'a> AsciiStr<'a> {
    #[verifier::type_invariant]
    spec fn inv(&self) -> bool {
        all_ascii(self.bytes@)
    }

    /// The bytes of the string.
    pub closed spec fn view(&self) -> Seq<u8> {
        self.bytes@
    }

    /// The bytes as an ASCII string, or `NonAsciiError` if one of them is not ASCII.
    pub fn try_from_bytes(bytes: &'a [u8]) -> (res: Result<Self, NonAsciiError>)
        ensures
            all_ascii(bytes@) <==> res is Ok,
            res matches Ok(s) ==> s@ == bytes@,
    {
        let mut i: usize = 0;
        while i < bytes.len()
            invariant
                i <= bytes@.len(),
                all_ascii(bytes@.take(i as int)),
            decreases bytes@.len() - i,
        {
            match AsciiByte::try_from_u8(bytes[i]) {
                Ok(_) => (),
                Err(e) => {
                    return Err(e);
                },
            };
            i += 1;
            proof {
                assert forall|j: int| 0 <= j < i implies #[trigger] bytes@.take(i as int)[j]
                    < 128 by {
                    if j < i - 1 {
                        assert(bytes@.take(i - 1)[j] == bytes@.take(i as int)[j]);
                    }
                }
            }
        }
        proof {
            assert(bytes@.take(i as int) =~= bytes@);
        }
        Ok(Self { bytes })
    }

    /// The UTF-8 bytes of `s` as an ASCII string, or `NonAsciiError` if `s` is not ASCII.
    pub fn try_from_str(s: &'a str) -> (res: Result<Self, NonAsciiError>)
        ensures
            all_ascii(s.spec_bytes()) <==> res is Ok,
            res matches Ok(r) ==> r@ == s.spec_bytes(),
    {
        Self::try_from_bytes(s.as_bytes())
    }

    /// The bytes as an ASCII string; they must be ASCII.
    pub fn from_bytes_or_panic(s: &'a [u8]) -> (res: Self)
        requires
            all_ascii(s@),
        ensures
            res@ == s@,
    {
        match Self::try_from_bytes(s) {
            Ok(s) => s,
            Err(_) => {
                proof {
                    assert(false);
                }
                Self { bytes: s }
            },
        }
    }

    /// The UTF-8 bytes of `s` as an ASCII string; `s` must be ASCII.
    pub fn from_str_or_panic(s: &'a str) -> (res: Self)
        requires
            all_ascii(s.spec_bytes()),
        ensures
            res@ == s.spec_bytes(),
    {
        Self::from_bytes_or_panic(s.as_bytes())
    }

    /// The empty string.
    pub fn empty() -> (res: AsciiStr<'static>)
        ensures
            res@ == Seq::<u8>::empty(),
    {
        let e: &'static [u8] = &[];
        proof {
            assert(e@ =~= Seq::<u8>::empty());
        }
        AsciiStr { bytes: e }
    }

    /// The pair with its bytes made an ASCII string, or `NonAsciiError`.
    pub fn try_from_bytes_with_value<T>(tuple: (&'a [u8], T)) -> (res: Result<(Self, T), NonAsciiError>)
        ensures
            all_ascii(tuple.0@) <==> res is Ok,
            res matches Ok((s, v)) ==> s@ == tuple.0@ && v == tuple.1,
    {
        let s = AsciiStr::try_from_bytes(tuple.0)?;
        Ok((s, tuple.1))
    }

    /// The pair with its string made an ASCII string, or `NonAsciiError`.
    pub fn try_from_str_with_value<T>(tuple: (&'a str, T)) -> (res: Result<(Self, T), NonAsciiError>)
        ensures
            all_ascii(tuple.0.spec_bytes()) <==> res is Ok,
            res matches Ok((s, v)) ==> s@ == tuple.0.spec_bytes() && v == tuple.1,
    {
        let s = AsciiStr::try_from_str(tuple.0)?;
        Ok((s, tuple.1))
    }

    /// The number of bytes fits in a `usize`.
    pub proof fn lemma_len_fits(self)
        ensures
            self@.len() <= usize::MAX,
    {
        vstd::slice::axiom_spec_len(self.bytes);
    }

    /// The number of bytes.
    pub fn len(&self) -> (res: usize)
        ensures
            res == self@.len(),
    {
        self.bytes.len()
    }

    /// Whether the string has no byte.
    pub fn is_empty(&self) -> (res: bool)
        ensures
            res == (self@.len() == 0),
    {
        self.len() == 0
    }

    /// The bytes `range.start..range.end`, or `None` if that range is not within the string.
    pub fn substring(&self, range: core::ops::Range<usize>) -> (res: Option<AsciiStr<'a>>)
        ensures
            (range.start <= range.end <= self@.len()) <==> res is Some,
            res matches Some(s) ==> s@ == self@.subrange(range.start as int, range.end as int),
    {
        proof {
            use_type_invariant(self);
        }
        if range.start <= range.end && range.end <= self.bytes.len() {
            let slice = vstd::slice::slice_subrange(self.bytes, range.start, range.end);
            proof {
                assert forall|j: int| 0 <= j < slice@.len() implies #[trigger] slice@[j] < 128 by {
                    assert(slice@[j] == self.bytes@[range.start + j]);
                }
            }
            Some(AsciiStr { bytes: slice })
        } else {
            None
        }
    }

    /// Whether this string sorts strictly before `other`.
    pub fn is_less_then(&self, other: &Self) -> (res: bool)
        ensures
            res == seq_less(self@, other@),
    {
        bytes_less(self.bytes, other.bytes)
    }

    /// The byte at `index`, or `None` past the end.
    pub fn ascii_at(&self, index: usize) -> (res: Option<AsciiByte>)
        ensures
            index < self@.len() <==> res is Some,
            res matches Some(b) ==> b@ == self@[index as int],
    {
        proof {
            use_type_invariant(self);
        }
        if index < self.bytes.len() {
            Some(AsciiByte(self.bytes[index]))
        } else {
            None
        }
    }

    /// The byte at `index`, which must be within the string.
    pub fn ascii_at_or_panic(&self, index: usize) -> (res: AsciiByte)
        requires
            index < self@.len(),
        ensures
            res@ == self@[index as int],
    {
        proof {
            use_type_invariant(self);
        }
        AsciiByte(self.bytes[index])
    }

    /// The bytes.
    pub fn as_bytes(&self) -> (res: &'a [u8])
        ensures
            res@ == self@,
            all_ascii(res@),
    {
        proof {
            use_type_invariant(self);
        }
        self.bytes
    }

    /// The bytes as a string slice; ASCII bytes are always well-formed UTF-8.
    pub fn as_str(&self) -> (res: &'a str)
        ensures
            res.spec_bytes() == self@,
    {
        proof {
            use_type_invariant(self);
            lemma_ascii_valid_utf8(self.bytes@);
        }
        match str_from_utf8(self.bytes) {
            Some(s) => s,
            None => {
                proof {
                    assert(false);
                }
                ""
            },
        }
    }

    /// An owned copy of the bytes.
    pub fn to_boxed(&self) -> (res: Vec<u8>)
        ensures
            res@ == self@,
    {
        vstd::slice::slice_to_vec(self.bytes)
    }

    /// The first byte and the rest of the string, or `None` if the string is empty.
    pub fn split_first(&self) -> (res: Option<(AsciiByte, AsciiStr<'a>)>)
        ensures
            self@.len() == 0 <==> res is None,
            res matches Some((b, rest)) ==> b@ == self@[0] && rest@ == self@.drop_first(),
    {
        proof {
            use_type_invariant(self);
        }
        if self.bytes.len() == 0 {
            None
        } else {
            let (head, tail) = self.bytes.split_at(1);
            proof {
                assert forall|j: int| 0 <= j < tail@.len() implies #[trigger] tail@[j] < 128 by {
                    assert(tail@[j] == self.bytes@[j + 1]);
                }
                assert(tail@ =~= self@.drop_first());
            }
            Some((AsciiByte(head[0]), AsciiStr { bytes: tail }))
        }
    }
}

} // verus!

verus! {

/// Whether the bytes `x` sort strictly before the bytes `y`: at the first place where they
/// differ, `x` has the smaller byte, or `x` is a proper prefix of `y`.
pub fn bytes_less(x: &[u8], y: &[u8]) -> (res: bool)
    ensures
        res == seq_less(x@, y@),
{
    let a = x;
    let b = y;
    let mut i: usize = 0;
    while i < a.len() && i < b.len()
        invariant
            i <= a@.len(),
            i <= b@.len(),
            a@.take(i as int) == b@.take(i as int),
            a@ == x@,
            b@ == y@,
        decreases a@.len() - i,
    {
        if a[i] < b[i] {
            proof {
                assert(seq_less(x@, y@) == true);
            }
            return true;
        }
        if a[i] > b[i] {
            proof {
                if seq_less(x@, y@) {
                    let k = choose|k: int|
                        0 <= k <= a@.len() && k <= b@.len() && a@.take(k) == b@.take(k) && ((k
                            < a@.len() && k < b@.len() && a@[k] < b@[k]) || (k == a@.len() && k
                            < b@.len()));
                    if k < i {
                        assert(a@.take(i as int)[k] == b@.take(i as int)[k]);
                    } else if k > i {
                        assert(a@.take(k)[i as int] == b@.take(k)[i as int]);
                    }
                }
            }
            return false;
        }
        proof {
            assert(a@.take(i + 1) =~= a@.take(i as int).push(a@[i as int]));
            assert(b@.take(i + 1) =~= b@.take(i as int).push(b@[i as int]));
        }
        i += 1;
    }
    proof {
        if a@.len() < b@.len() {
            assert(i == a@.len());
        } else if seq_less(x@, y@) {
            let k = choose|k: int|
                0 <= k <= a@.len() && k <= b@.len() && a@.take(k) == b@.take(k) && ((k
                    < a@.len() && k < b@.len() && a@[k] < b@[k]) || (k == a@.len() && k
                    < b@.len()));
            if k < i {
                assert(a@.take(i as int)[k] == b@.take(i as int)[k]);
            }
        }
    }
    a.len() < b.len()
}

/// Sorting before is transitive.
pub proof fn lemma_seq_less_trans(a: Seq<u8>, b: Seq<u8>, c: Seq<u8>)
    requires
        seq_less(a, b),
        seq_less(b, c),
    ensures
        seq_less(a, c),
{
    let i = choose|i: int|
        0 <= i <= a.len() && i <= b.len() && a.take(i) == b.take(i) && ((i < a.len() && i < b.len()
            && a[i] < b[i]) || (i == a.len() && i < b.len()));
    let j = choose|j: int|
        0 <= j <= b.len() && j <= c.len() && b.take(j) == c.take(j) && ((j < b.len() && j < c.len()
            && b[j] < c[j]) || (j == b.len() && j < c.len()));
    if i <= j {
        assert(a.take(i) =~= c.take(i)) by {
            assert forall|t: int| 0 <= t < i implies a.take(i)[t] == c.take(i)[t] by {
                assert(a.take(i)[t] == b.take(i)[t]);
                assert(b.take(j)[t] == c.take(j)[t]);
            }
        }
        if i < j {
            assert(b.take(j)[i] == c.take(j)[i]);
        }
    } else {
        assert(a.take(j) =~= c.take(j)) by {
            assert forall|t: int| 0 <= t < j implies a.take(j)[t] == c.take(j)[t] by {
                assert(a.take(i)[t] == b.take(i)[t]);
                assert(b.take(j)[t] == c.take(j)[t]);
            }
        }
        assert(a.take(i)[j] == b.take(i)[j]);
    }
}

/// Two different byte strings are ordered one way or the other; none sorts before itself.
pub proof fn lemma_seq_less_total(a: Seq<u8>, b: Seq<u8>)
    ensures
        a != b ==> seq_less(a, b) || seq_less(b, a),
        !seq_less(a, a),
{
    assert(a.take(0) =~= b.take(0));
    lemma_total_from(a, b, 0);
    if seq_less(a, a) {
        let i = choose|i: int|
            0 <= i <= a.len() && i <= a.len() && a.take(i) == a.take(i) && ((i < a.len() && i
                < a.len() && a[i] < a[i]) || (i == a.len() && i < a.len()));
    }
}

proof fn lemma_total_from(a: Seq<u8>, b: Seq<u8>, i: int)
    requires
        0 <= i <= a.len(),
        i <= b.len(),
        a.take(i) == b.take(i),
    ensures
        a != b ==> seq_less(a, b) || seq_less(b, a),
    decreases a.len() - i,
{
    if i == a.len() || i == b.len() {
        if i == a.len() && i == b.len() {
            assert(a =~= a.take(i));
            assert(b =~= b.take(i));
        } else if i == a.len() {
            assert(seq_less(a, b));
        } else {
            assert(b.take(i) == a.take(i));
            assert(seq_less(b, a));
        }
    } else if a[i] != b[i] {
        if a[i] < b[i] {
            assert(seq_less(a, b));
        } else {
            assert(b.take(i) == a.take(i));
            assert(seq_less(b, a));
        }
    } else {
        assert(a.take(i + 1) =~= a.take(i).push(a[i]));
        assert(b.take(i + 1) =~= b.take(i).push(b[i]));
        lemma_total_from(a, b, i + 1);
    }
}

} // verus!
