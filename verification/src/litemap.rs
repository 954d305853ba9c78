//! Building the three kinds of trie from sorted pairs (the slice of a sorted map), with the
//! options of each kind, and from pairs in any order.

use crate::ascii::AsciiStr;
use crate::builder::entries;
use crate::builder6::{
    build6, build_error, lemma_trie6_errors, trie6_bytes, AsciiMode, CapacityMode, PhfMode, ZeroTrieBuilderOptions,
};
use crate::const_builder::{byte_entries, distinct_keys, sort_pairs, sorted_copy, str_entries};
use crate::const_util::ConstSlice;
use crate::store::ConstAsciiTrieBuilderStore;
use vstd::string::StringSliceAdditionalSpecFns;
use crate::error::Error;
use crate::lookup::{find_value, sorted_entries};
use crate::lookup6::{lemma_trie6_holds_exactly, lemma_trie6_reads_back, lemma_trie6_walk};
use crate::reader6::{spec_get6, walk_items6};
use crate::zerotrie::{ZeroTrieExtendedCapacity, ZeroTriePerfectHash, ZeroTrieSimpleAscii};
use vstd::prelude::*;

verus! {

/// The options of `ZeroTrieSimpleAscii`: no perfect hash, ASCII only, normal capacity.
pub open spec fn simple_options() -> ZeroTrieBuilderOptions {
    ZeroTrieBuilderOptions {
        phf_mode: PhfMode::BinaryOnly,
        ascii_mode: AsciiMode::AsciiOnly,
        capacity_mode: CapacityMode::Normal,
    }
}

/// The options of `ZeroTriePerfectHash`: perfect hashes, byte spans, normal capacity.
pub open spec fn phf_options() -> ZeroTrieBuilderOptions {
    ZeroTrieBuilderOptions {
        phf_mode: PhfMode::UsePhf,
        ascii_mode: AsciiMode::BinarySpans,
        capacity_mode: CapacityMode::Normal,
    }
}

/// The options of `ZeroTrieExtendedCapacity`: as `phf_options`, with any capacity.
pub open spec fn extended_options() -> ZeroTrieBuilderOptions {
    ZeroTrieBuilderOptions {
        phf_mode: PhfMode::UsePhf,
        ascii_mode: AsciiMode::BinarySpans,
        capacity_mode: CapacityMode::Extended,
    }
}

/// The pairs with their ASCII keys as byte slices.
fn ascii_pairs<'a>(items: &[(AsciiStr<'a>, usize)]) -> (res: Vec<(&'a [u8], usize)>)
    ensures
        byte_entries(res@) == entries(items@),
        forall|k: int| 0 <= k < res@.len() ==> crate::ascii::all_ascii(#[trigger] byte_entries(res@)[k].0),
{
    let mut res: Vec<(&'a [u8], usize)> = Vec::new();
    let mut i: usize = 0;
    while i < items.len()
        invariant
            i <= items@.len(),
            byte_entries(res@) == entries(items@).take(i as int),
            forall|k: int| 0 <= k < res@.len() ==> crate::ascii::all_ascii(#[trigger] byte_entries(res@)[k].0),
        decreases items@.len() - i,
    {
        let pair = items[i];
        let key = pair.0.as_bytes();
        let ghost before = res@;
        res.push((key, pair.1));
        proof {
            assert(byte_entries(res@) =~= byte_entries(before).push((key@, pair.1)));
            assert(entries(items@).take(i + 1) =~= entries(items@).take(i as int).push(
                entries(items@)[i as int],
            ));
            assert(pair.0@ == key@);
        }
        i += 1;
    }
    proof {
        assert(entries(items@).take(i as int) =~= entries(items@));
    }
    res
}

impl ZeroTrieSimpleAscii<Vec<u8>> {
    /// The trie of the pairs `items`, whose keys are in strictly increasing order, built
    /// with `simple_options`, or `CapacityExceeded` when a branch's targets take 2^32 bytes
    /// or more. The trie holds exactly the pairs: reading any key gives its value, any
    /// other byte string gives `None`, and a walk of the trie lists the pairs in order.
    pub fn try_from_litemap<'a>(items: &[(AsciiStr<'a>, usize)]) -> (res: Result<Self, Error>)
        requires
            sorted_entries(entries(items@)),
        ensures
            match res {
                Ok(t) => trie6_bytes(entries(items@), simple_options()) == Ok::<Seq<u8>, Error>(t@),
                Err(e) => trie6_bytes(entries(items@), simple_options()) == Err::<Seq<u8>, Error>(e),
            },
            res matches Err(e) ==> build_error(e, simple_options()),
            res matches Ok(t) ==> forall|q: Seq<u8>|
                #[trigger] spec_get6(t@, q, false) == find_value(entries(items@), q),
            res matches Ok(t) ==> walk_items6(t@, Seq::empty(), true, false) == entries(items@),
    {
        proof {
            lemma_trie6_errors(entries(items@), simple_options());
        }
        let pairs = ascii_pairs(items);
        let opts = ZeroTrieBuilderOptions {
            phf_mode: PhfMode::BinaryOnly,
            ascii_mode: AsciiMode::AsciiOnly,
            capacity_mode: CapacityMode::Normal,
        };
        match build6(pairs.as_slice(), opts) {
            Ok(b) => {
                let blen = b.len();
                let t = ZeroTrieSimpleAscii::from_store(b);
                proof {
                    let vs = entries(items@);
                    assert(t@.len() == blen);
                    assert forall|k: int| 0 <= k < vs.len() implies crate::ascii::all_ascii(
                        #[trigger] vs[k].0,
                    ) by {
                        assert(byte_entries(pairs@)[k].0 == vs[k].0);
                    }
                    assert forall|q: Seq<u8>| #[trigger] spec_get6(t@, q, false) == find_value(vs, q) by {
                        lemma_trie6_reads_back(vs, simple_options(), q);
                    }
                    lemma_trie6_walk(vs, simple_options());
                }
                Ok(t)
            },
            Err(e) => Err(e),
        }
    }

    /// The trie of the pairs `items`, in any order, whose keys are distinct: the pairs put
    /// in increasing order of key and built as by `try_from_litemap`.
    pub fn from_asciistr_pairs<'a>(items: Vec<(AsciiStr<'a>, usize)>) -> (res: Result<Self, Error>)
        requires
            distinct_keys(items@),
        ensures
            exists|vs: Seq<(Seq<u8>, usize)>|
                sorted_copy(vs, entries(items@)) && #[trigger] simple_built(res, trie6_bytes(vs, simple_options())),
    {
        let sorted = sort_pairs(&items);
        let r = Self::try_from_litemap(sorted.as_slice());
        proof {
            let vs = entries(sorted@);
            assert(sorted_copy(vs, entries(items@)));
            assert(simple_built(r, trie6_bytes(vs, simple_options())));
        }
        r
    }
}

/// `r` is the trie, or the error, that `expected` gives.
pub open spec fn simple_built(r: Result<ZeroTrieSimpleAscii<Vec<u8>>, Error>, expected: Result<Seq<u8>, Error>) -> bool {
    match r {
        Ok(t) => expected == Ok::<Seq<u8>, Error>(t@),
        Err(e) => expected == Err::<Seq<u8>, Error>(e),
    }
}

impl ZeroTriePerfectHash<Vec<u8>> {
    /// The trie of the pairs `items`, whose byte keys are in strictly increasing order,
    /// built with `phf_options`, or the error that stops it: `CouldNotSolvePerfectHash` or
    /// `CapacityExceeded`. The trie holds exactly the pairs: reading any byte string gives
    /// the value of the key equal to it, or `None`.
    pub fn try_from_litemap<'a>(items: &[(&'a [u8], usize)]) -> (res: Result<Self, Error>)
        requires
            sorted_entries(byte_entries(items@)),
        ensures
            match res {
                Ok(t) => trie6_bytes(byte_entries(items@), phf_options()) == Ok::<Seq<u8>, Error>(t@),
                Err(e) => trie6_bytes(byte_entries(items@), phf_options()) == Err::<Seq<u8>, Error>(e),
            },
            res matches Err(e) ==> build_error(e, phf_options()),
            res matches Ok(t) ==> forall|q: Seq<u8>|
                #[trigger] spec_get6(t@, q, true) == find_value(byte_entries(items@), q),
    {
        proof {
            lemma_trie6_errors(byte_entries(items@), phf_options());
        }
        let opts = ZeroTrieBuilderOptions {
            phf_mode: PhfMode::UsePhf,
            ascii_mode: AsciiMode::BinarySpans,
            capacity_mode: CapacityMode::Normal,
        };
        match build6(items, opts) {
            Ok(b) => {
                let blen = b.len();
                let t = ZeroTriePerfectHash::from_store(b);
                proof {
                    let vs = byte_entries(items@);
                    assert(t@.len() == blen);
                    assert forall|q: Seq<u8>| #[trigger] spec_get6(t@, q, true) == find_value(vs, q) by {
                        lemma_trie6_holds_exactly(vs, phf_options(), q);
                    }
                }
                Ok(t)
            },
            Err(e) => Err(e),
        }
    }
}

impl ZeroTrieExtendedCapacity<Vec<u8>> {
    /// The trie of the pairs `items`, whose byte keys are in strictly increasing order,
    /// built with `extended_options`, or `CouldNotSolvePerfectHash` (never
    /// `CapacityExceeded`). The trie holds exactly the pairs, as for `ZeroTriePerfectHash`.
    pub fn try_from_litemap<'a>(items: &[(&'a [u8], usize)]) -> (res: Result<Self, Error>)
        requires
            sorted_entries(byte_entries(items@)),
        ensures
            match res {
                Ok(t) => trie6_bytes(byte_entries(items@), extended_options()) == Ok::<Seq<u8>, Error>(t@),
                Err(e) => trie6_bytes(byte_entries(items@), extended_options()) == Err::<Seq<u8>, Error>(e),
            },
            res matches Err(e) ==> build_error(e, extended_options()),
            res matches Ok(t) ==> forall|q: Seq<u8>|
                #[trigger] spec_get6(t@, q, true) == find_value(byte_entries(items@), q),
    {
        proof {
            lemma_trie6_errors(byte_entries(items@), extended_options());
        }
        let opts = ZeroTrieBuilderOptions {
            phf_mode: PhfMode::UsePhf,
            ascii_mode: AsciiMode::BinarySpans,
            capacity_mode: CapacityMode::Extended,
        };
        match build6(items, opts) {
            Ok(b) => {
                let blen = b.len();
                let t = ZeroTrieExtendedCapacity::from_store(b);
                proof {
                    let vs = byte_entries(items@);
                    assert(t@.len() == blen);
                    assert forall|q: Seq<u8>| #[trigger] spec_get6(t@, q, true) == find_value(vs, q) by {
                        lemma_trie6_holds_exactly(vs, extended_options(), q);
                    }
                }
                Ok(t)
            },
            Err(e) => Err(e),
        }
    }
}


impl<const N: usize> ZeroTrieSimpleAscii<[u8; N]> {
    /// The trie of the pairs `items`, whose keys must be in strictly increasing order, built
    /// with `simple_options` into exactly `N` bytes.
    pub fn from_asciistr_value_slice<'a>(items: &[(AsciiStr<'a>, usize)]) -> (res: Self)
        requires
            sorted_entries(entries(items@)),
            trie6_bytes(entries(items@), simple_options()) matches Ok(b) && b.len() == N,
        ensures
            trie6_bytes(entries(items@), simple_options()) == Ok::<Seq<u8>, Error>(res@),
            forall|q: Seq<u8>| #[trigger] spec_get6(res@, q, false) == find_value(entries(items@), q),
            walk_items6(res@, Seq::empty(), true, false) == entries(items@),
    {
        let built = match ZeroTrieSimpleAscii::<Vec<u8>>::try_from_litemap(items) {
            Ok(t) => t.take_store(),
            Err(_) => {
                proof {
                    assert(false);
                }
                Vec::new()
            },
        };
        let store = ConstAsciiTrieBuilderStore::<N>::atbs_new_empty();
        let store = store.atbs_extend_front(ConstSlice::from_slice(built.as_slice()));
        ZeroTrieSimpleAscii::from_store(store.take_or_panic())
    }

    /// The trie of the pairs `items`, whose keys must be ASCII and in strictly increasing
    /// order, built with `simple_options` into exactly `N` bytes.
    pub fn from_str_value_array<'a, const M: usize>(items: [(&'a str, usize); M]) -> (res: Self)
        requires
            forall|k: int| 0 <= k < M ==> crate::ascii::all_ascii(#[trigger] items@[k].0.spec_bytes()),
            sorted_entries(str_entries(items@)),
            trie6_bytes(str_entries(items@), simple_options()) matches Ok(b) && b.len() == N,
        ensures
            trie6_bytes(str_entries(items@), simple_options()) == Ok::<Seq<u8>, Error>(res@),
            forall|q: Seq<u8>| #[trigger] spec_get6(res@, q, false) == find_value(str_entries(items@), q),
            walk_items6(res@, Seq::empty(), true, false) == str_entries(items@),
    {
        let mut asciistr_array: Vec<(AsciiStr<'a>, usize)> = Vec::new();
        let mut i: usize = 0;
        while i < M
            invariant
                i <= M == items@.len(),
                forall|k: int| 0 <= k < M ==> crate::ascii::all_ascii(#[trigger] items@[k].0.spec_bytes()),
                entries(asciistr_array@) == str_entries(items@).take(i as int),
            decreases M - i,
        {
            let pair = items[i];
            let s = AsciiStr::from_str_or_panic(pair.0);
            let ghost old_arr = asciistr_array@;
            asciistr_array.push((s, pair.1));
            proof {
                assert(pair == items@[i as int]);
                assert(entries(asciistr_array@) =~= entries(old_arr).push((s@, pair.1)));
                assert(str_entries(items@).take(i + 1) =~= str_entries(items@).take(i as int).push(
                    str_entries(items@)[i as int],
                ));
            }
            i += 1;
        }
        proof {
            assert(str_entries(items@).take(M as int) =~= str_entries(items@));
        }
        Self::from_asciistr_value_slice(asciistr_array.as_slice())
    }
}

} // verus!
