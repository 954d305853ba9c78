//! A cache of perfect byte hash maps, one per set of keys.

use crate::byte_phf::{perfect, phf_bytes, PerfectByteHashMap};
use crate::error::Error;
use vstd::prelude::*;

verus! {

/// The map stored as `m` is one that `PerfectByteHashMap::try_new` gives for `keys`.
pub open spec fn built_for(keys: Seq<u8>, m: Seq<u8>) -> bool {
    let p = m[0];
    let qq = m.subrange(1, keys.len() + 1int);
    &&& m.len() == 2 * keys.len() + 1
    &&& perfect(keys, p, qq)
    &&& m == phf_bytes(keys, p, qq)
}

/// Whether `a` and `b` hold the same bytes.
fn same_bytes(a: &[u8], b: &[u8]) -> (res: bool)
    ensures
        res == (a@ == b@),
{
    if a.len() != b.len() {
        return false;
    }
    let mut i: usize = 0;
    while i < a.len()
        invariant
            a@.len() == b@.len(),
            i <= a@.len(),
            forall|k: int| 0 <= k < i ==> a@[k] == b@[k],
        decreases a@.len() - i,
    {
        if a[i] != b[i] {
            return false;
        }
        i += 1;
    }
    proof {
        assert(a@ =~= b@);
    }
    true
}

/// Perfect byte hash maps built so far, each with the keys it was built for.
pub struct PerfectByteHashMapCacheOwned {
    data: Vec<(Vec<u8>, PerfectByteHashMap<Vec<u8>>)>,
}

impl PerfectByteHashMapCacheOwned {
    /// The key sets held, with their maps' bytes.
    pub closed spec fn view(&self) -> Seq<(Seq<u8>, Seq<u8>)> {
        self.data@.map_values(|e: (Vec<u8>, PerfectByteHashMap<Vec<u8>>)| (e.0@, e.1@))
    }

    /// Each map held is one built for its keys, and no key set is held twice.
    pub open spec fn wf(&self) -> bool {
        &&& forall|i: int| 0 <= i < self@.len() ==> built_for(#[trigger] self@[i].0, self@[i].1)
        &&& forall|i: int, j: int| 0 <= i < j < self@.len() ==> #[trigger] self@[i].0 != #[trigger] self@[j].0
    }

    /// An empty cache.
    pub fn new_empty() -> (res: Self)
        ensures
            res.wf(),
            res@.len() == 0,
    {
        Self { data: Vec::new() }
    }

    fn position(&self, keys: &[u8]) -> (res: Option<usize>)
        ensures
            match res {
                Some(i) => i < self@.len() && self@[i as int].0 == keys@,
                None => forall|i: int| 0 <= i < self@.len() ==> self@[i].0 != keys@,
            },
    {
        let mut i: usize = 0;
        while i < self.data.len()
            invariant
                i <= self@.len(),
                self@.len() == self.data@.len(),
                forall|k: int| 0 <= k < i ==> self@[k].0 != keys@,
            decreases self@.len() - i,
        {
            if same_bytes(self.data[i].0.as_slice(), keys) {
                return Some(i);
            }
            i += 1;
        }
        None
    }

    /// The map held for `keys`, built by `PerfectByteHashMap::try_new` and kept if there is
    /// none yet; `CouldNotSolvePerfectHash` exactly when that build fails.
    pub fn try_get_or_insert(&mut self, keys: Vec<u8>) -> (res: Result<PerfectByteHashMap<&[u8]>, Error>)
        requires
            old(self).wf(),
        ensures
            final(self).wf(),
            res matches Ok(m) ==> built_for(keys@, m@),
            res is Err ==> res == Err::<PerfectByteHashMap<&[u8]>, Error>(Error::CouldNotSolvePerfectHash),
            res is Ok ==> exists|i: int| 0 <= i < final(self)@.len() && final(self)@[i].0 == keys@,
            forall|i: int| 0 <= i < old(self)@.len() ==> final(self)@.contains(#[trigger] old(self)@[i]),
            forall|i: int|
                0 <= i < old(self)@.len() && (#[trigger] old(self)@[i]).0 == keys@ ==> (final(self)@
                    == old(self)@ && (res matches Ok(m) && m@ == old(self)@[i].1)),
            (forall|i: int| 0 <= i < old(self)@.len() ==> (#[trigger] old(self)@[i]).0 != keys@) ==> match res {
                Ok(m) => final(self)@ == old(self)@.push((keys@, m@)),
                Err(_) => final(self)@ == old(self)@,
            },
            (forall|i: int| 0 <= i < old(self)@.len() ==> (#[trigger] old(self)@[i]).0 != keys@) ==> (
            res is Ok <==> crate::byte_phf::spec_find(keys@) is Some),
            (forall|i: int| 0 <= i < old(self)@.len() ==> (#[trigger] old(self)@[i]).0 != keys@) ==> (
            res matches Ok(m) ==> m@ == crate::byte_phf::phf_bytes(
                keys@,
                crate::byte_phf::spec_find(keys@)->Some_0.0,
                crate::byte_phf::spec_find(keys@)->Some_0.1,
            )),
    {
        let idx = match self.position(keys.as_slice()) {
            Some(i) => i,
            None => {
                let m = match PerfectByteHashMap::try_new(keys.as_slice()) {
                    Ok(m) => m,
                    Err(_) => {
                        return Err(Error::CouldNotSolvePerfectHash);
                    },
                };
                let ghost old_view = self@;
                self.data.push((keys, m));
                proof {
                    assert(self@ =~= old_view.push((keys@, m@)));
                    assert forall|i: int| 0 <= i < old_view.len() implies self@.contains(#[trigger] old_view[i]) by {
                        assert(self@[i] == old_view[i]);
                    }
                }
                self.data.len() - 1
            },
        };
        proof {
            assert(self@[idx as int].0 == keys@);
            assert forall|i: int| 0 <= i < old(self)@.len() && (#[trigger] old(self)@[i]).0 == keys@
                implies i == idx as int by {
                if i != idx as int {
                    if i < idx as int {
                        assert(self@[i].0 != self@[idx as int].0);
                    } else {
                        assert(self@[idx as int].0 != self@[i].0);
                    }
                }
            }
        }
        Ok(PerfectByteHashMap::from_store(self.data[idx].1.as_bytes()))
    }

    /// The map held for `keys`, if any.
    pub fn get(&self, keys: &[u8]) -> (res: Option<PerfectByteHashMap<&[u8]>>)
        requires
            self.wf(),
        ensures
            res is Some <==> exists|i: int| 0 <= i < self@.len() && self@[i].0 == keys@,
            res matches Some(m) ==> built_for(keys@, m@),
            res matches Some(m) ==> exists|i: int| 0 <= i < self@.len() && self@[i] == (keys@, m@),
    {
        match self.position(keys) {
            Some(i) => Some(PerfectByteHashMap::from_store(self.data[i].1.as_bytes())),
            None => None,
        }
    }
}

/// Perfect byte hash maps over borrowed bytes, each with the keys it was built for.
pub struct PerfectByteHashMapCacheBorrowed<'a> {
    data: Vec<(&'a [u8], PerfectByteHashMap<&'a [u8]>)>,
}

} // verus!
