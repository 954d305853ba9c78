//! A perfect hash map of bytes: `n` distinct bytes are sent to `n` distinct slots by two
//! small hash functions, the first choosing a bucket and the second, with a parameter
//! chosen per bucket, choosing the slot.
//!
//! The stored form is `[p, q_0 .. q_{n-1}, k_0 .. k_{n-1}]`: the first function's
//! parameter, the per-bucket parameters, and the keys in slot order.

use crate::trie::ByteStore;
use vstd::prelude::*;

verus! {

/// How many times the search for per-bucket parameters may run through all 256 values of
/// one of them before it tries the next first-function parameter.
pub const MAX_L2_SEARCH_MISSES: usize = 24;

/// Why a perfect hash could not be built.
#[derive(Debug, Copy, Clone, PartialEq, Eq)]
pub enum Error {
    /// No parameters were found.
    CouldNotSolve,
}

/// What `wyhash::WyHash::with_seed(seed)` gives from `finish` after `write(first)` and then
/// `write(second)`. The crate reads the written bytes one by one, little end first, and
/// mixes them in 64-bit arithmetic, so the result depends on the seed and the two runs of
/// bytes alone, on every target.
pub uninterp spec fn wyhash_two_writes(seed: u64, first: Seq<u8>, second: Seq<u8>) -> u64;

/// `wyhash::WyHash::with_seed(seed)`, then `Hasher::write(first)`, `Hasher::write(second)`
/// and `Hasher::finish`. The contract names the result as a function of the seed and the
/// two runs of bytes; nothing more of the hash is stated.
#[verifier::external_body]
fn hash_two_writes(seed: u64, first: &[u8], second: &[u8]) -> (res: u64)
    ensures
        res == wyhash_two_writes(seed, first@, second@),
{
    let mut hasher = wyhash::WyHash::with_seed(seed);
    core::hash::Hasher::write(&mut hasher, first);
    core::hash::Hasher::write(&mut hasher, second);
    core::hash::Hasher::finish(&hasher)
}

/// The length prefix that `core::hash::Hash` writes before the one byte of a one-byte
/// array on a 64-bit little-endian target: the number 1 as 8 bytes, little end first.
/// The first hash function writes these bytes on every target, so that a map reads the
/// same on every target.
pub open spec fn one_prefix() -> Seq<u8> {
    seq![1u8, 0u8, 0u8, 0u8, 0u8, 0u8, 0u8, 0u8]
}

/// The first hash function: the bucket of `byte` among `n`, the byte itself reduced when
/// `p` is 0, and otherwise the hash seeded with `p` of the byte (after its length prefix),
/// reduced.
pub open spec fn spec_f1(byte: u8, p: u8, n: usize) -> usize {
    if p == 0 {
        ((byte as usize) % n) as usize
    } else {
        (wyhash_two_writes(p as u64, one_prefix(), seq![byte]) % (n as u64)) as usize
    }
}

/// The second hash function: the slot of `byte` among `n` under the bucket parameter `q`.
pub open spec fn spec_f2(byte: u8, q: u8, n: usize) -> usize {
    (((byte ^ q) as usize) % n) as usize
}

/// The first hash function; `n` must not be 0.
pub fn f1(byte: u8, p: u8, n: usize) -> (res: usize)
    requires
        n > 0,
    ensures
        res == spec_f1(byte, p, n),
        res < n,
{
    if p == 0 {
        byte as usize % n
    } else {
        let prefix: [u8; 8] = [1, 0, 0, 0, 0, 0, 0, 0];
        let one: [u8; 1] = [byte];
        proof {
            assert(prefix@ =~= one_prefix());
            assert(one@ =~= seq![byte]);
        }
        let h = hash_two_writes(p as u64, prefix.as_slice(), one.as_slice());
        (h % (n as u64)) as usize
    }
}

/// The second hash function; `n` must not be 0.
pub fn f2(byte: u8, q: u8, n: usize) -> (res: usize)
    requires
        n > 0,
    ensures
        res == spec_f2(byte, q, n),
        res < n,
{
    ((byte ^ q) as usize) % n
}

/// The slot that `p` and the per-bucket parameters `qq` give `byte`.
pub open spec fn slot(byte: u8, p: u8, qq: Seq<u8>, n: usize) -> usize {
    spec_f2(byte, qq[spec_f1(byte, p, n) as int], n)
}

/// `p` and `qq` send the bytes of `bytes` to distinct slots.
pub open spec fn perfect(bytes: Seq<u8>, p: u8, qq: Seq<u8>) -> bool {
    &&& qq.len() == bytes.len()
    &&& forall|x: int, y: int|
        0 <= x < y < bytes.len() ==> slot(bytes[x], p, qq, bytes.len() as usize) != slot(
            bytes[y],
            p,
            qq,
            bytes.len() as usize,
        )
}

/// The contents of the buckets.
pub open spec fn bucket_seqs(buckets: Seq<Vec<u8>>) -> Seq<Seq<u8>> {
    buckets.map_values(|b: Vec<u8>| b@)
}

/// Entry `m` of the bucket taken at step `l` has been placed: every entry of an earlier
/// step, and entries `lo..hi` of step `i`.
pub open spec fn placed(bs: Seq<Seq<u8>>, order: Seq<usize>, l: int, m: int, i: int, lo: int, hi: int) -> bool {
    &&& 0 <= l < order.len()
    &&& ((l < i && 0 <= m < bs[order[l] as int].len()) || (l == i && lo <= m < hi))
}

/// The slot of entry `m` of the bucket taken at step `l`, under that step's parameter.
pub open spec fn entry_slot(bs: Seq<Seq<u8>>, order: Seq<usize>, bqs: Seq<u8>, n: usize, l: int, m: int) -> int {
    spec_f2(bs[order[l] as int][m], bqs[l], n) as int
}

/// `seen` marks exactly the slots of the placed entries, `owner` tells which entry holds
/// each, and no two placed entries share a slot.
pub open spec fn marks_ok(
    bs: Seq<Seq<u8>>,
    order: Seq<usize>,
    bqs: Seq<u8>,
    n: usize,
    seen: Seq<bool>,
    owner: Map<int, (int, int)>,
    i: int,
    lo: int,
    hi: int,
) -> bool {
    &&& forall|s: int| 0 <= s < n ==> (seen[s] <==> owner.dom().contains(s))
    &&& forall|s: int|
        #[trigger] owner.dom().contains(s) ==> placed(bs, order, owner[s].0, owner[s].1, i, lo, hi)
            && entry_slot(bs, order, bqs, n, owner[s].0, owner[s].1) == s
    &&& forall|l: int, m: int|
        #[trigger] placed(bs, order, l, m, i, lo, hi) ==> owner.dom().contains(
            entry_slot(bs, order, bqs, n, l, m),
        ) && owner[entry_slot(bs, order, bqs, n, l, m)] == (l, m)
}

/// Every entry of every bucket taken gets a slot of its own.
pub open spec fn distinct_slots(bs: Seq<Seq<u8>>, order: Seq<usize>, bqs: Seq<u8>, n: usize) -> bool {
    forall|l1: int, m1: int, l2: int, m2: int|
        #[trigger] placed(bs, order, l1, m1, order.len() as int, 0, 0) && #[trigger] placed(
            bs,
            order,
            l2,
            m2,
            order.len() as int,
            0,
            0,
        ) && (l1, m1) != (l2, m2) ==> entry_slot(bs, order, bqs, n, l1, m1) != entry_slot(
            bs,
            order,
            bqs,
            n,
            l2,
            m2,
        )
}

proof fn lemma_marks_same(
    bs: Seq<Seq<u8>>,
    order: Seq<usize>,
    bqs: Seq<u8>,
    n: usize,
    seen: Seq<bool>,
    owner: Map<int, (int, int)>,
    i: int,
    lo: int,
    hi: int,
    i2: int,
    lo2: int,
    hi2: int,
)
    requires
        marks_ok(bs, order, bqs, n, seen, owner, i, lo, hi),
        forall|l: int, m: int|
            placed(bs, order, l, m, i, lo, hi) == placed(bs, order, l, m, i2, lo2, hi2),
    ensures
        marks_ok(bs, order, bqs, n, seen, owner, i2, lo2, hi2),
{
    assert forall|s: int| #[trigger] owner.dom().contains(s) implies placed(
        bs,
        order,
        owner[s].0,
        owner[s].1,
        i2,
        lo2,
        hi2,
    ) && entry_slot(bs, order, bqs, n, owner[s].0, owner[s].1) == s by {
        assert(placed(bs, order, owner[s].0, owner[s].1, i, lo, hi));
    }
    assert forall|l: int, m: int| #[trigger] placed(bs, order, l, m, i2, lo2, hi2) implies owner.dom().contains(
        entry_slot(bs, order, bqs, n, l, m),
    ) && owner[entry_slot(bs, order, bqs, n, l, m)] == (l, m) by {
        assert(placed(bs, order, l, m, i, lo, hi));
    }
}

/// Changing the parameter of a step none of whose entries is placed keeps the marks.
proof fn lemma_marks_bqs(
    bs: Seq<Seq<u8>>,
    order: Seq<usize>,
    bqs: Seq<u8>,
    bqs2: Seq<u8>,
    n: usize,
    seen: Seq<bool>,
    owner: Map<int, (int, int)>,
    i: int,
)
    requires
        marks_ok(bs, order, bqs, n, seen, owner, i, 0, 0),
        bqs2.len() == bqs.len(),
        forall|l: int| 0 <= l < i ==> bqs2[l] == bqs[l],
    ensures
        marks_ok(bs, order, bqs2, n, seen, owner, i, 0, 0),
{
    assert forall|s: int| #[trigger] owner.dom().contains(s) implies placed(
        bs,
        order,
        owner[s].0,
        owner[s].1,
        i,
        0,
        0,
    ) && entry_slot(bs, order, bqs2, n, owner[s].0, owner[s].1) == s by {
        assert(placed(bs, order, owner[s].0, owner[s].1, i, 0, 0));
        assert(entry_slot(bs, order, bqs, n, owner[s].0, owner[s].1) == s);
    }
    assert forall|l: int, m: int| #[trigger] placed(bs, order, l, m, i, 0, 0) implies owner.dom().contains(
        entry_slot(bs, order, bqs2, n, l, m),
    ) && owner[entry_slot(bs, order, bqs2, n, l, m)] == (l, m) by {
        assert(entry_slot(bs, order, bqs2, n, l, m) == entry_slot(bs, order, bqs, n, l, m));
    }
}

/// Placing entry `hi` of step `i` in a free slot.
proof fn lemma_mark(
    bs: Seq<Seq<u8>>,
    order: Seq<usize>,
    bqs: Seq<u8>,
    n: usize,
    seen: Seq<bool>,
    owner: Map<int, (int, int)>,
    i: int,
    hi: int,
)
    requires
        marks_ok(bs, order, bqs, n, seen, owner, i, 0, hi),
        0 <= i < order.len(),
        0 <= hi < bs[order[i] as int].len(),
        0 <= entry_slot(bs, order, bqs, n, i, hi) < n,
        seen.len() == n,
        !seen[entry_slot(bs, order, bqs, n, i, hi)],
    ensures
        marks_ok(
            bs,
            order,
            bqs,
            n,
            seen.update(entry_slot(bs, order, bqs, n, i, hi), true),
            owner.insert(entry_slot(bs, order, bqs, n, i, hi), (i, hi)),
            i,
            0,
            hi + 1,
        ),
{
    let s0 = entry_slot(bs, order, bqs, n, i, hi);
    let seen2 = seen.update(s0, true);
    let owner2 = owner.insert(s0, (i, hi));
    assert forall|s: int| 0 <= s < n implies (seen2[s] <==> owner2.dom().contains(s)) by {}
    assert forall|s: int| #[trigger] owner2.dom().contains(s) implies placed(
        bs,
        order,
        owner2[s].0,
        owner2[s].1,
        i,
        0,
        hi + 1,
    ) && entry_slot(bs, order, bqs, n, owner2[s].0, owner2[s].1) == s by {
        if s != s0 {
            assert(owner.dom().contains(s));
            assert(placed(bs, order, owner[s].0, owner[s].1, i, 0, hi));
        }
    }
    assert forall|l: int, m: int| #[trigger] placed(bs, order, l, m, i, 0, hi + 1) implies owner2.dom().contains(
        entry_slot(bs, order, bqs, n, l, m),
    ) && owner2[entry_slot(bs, order, bqs, n, l, m)] == (l, m) by {
        if (l, m) != (i, hi) {
            assert(placed(bs, order, l, m, i, 0, hi));
            let e = entry_slot(bs, order, bqs, n, l, m);
            assert(owner.dom().contains(e));
            if e == s0 {
                assert(seen[e]);
            }
        }
    }
}

/// Taking entry `lo` of step `i` off its slot.
proof fn lemma_unmark(
    bs: Seq<Seq<u8>>,
    order: Seq<usize>,
    bqs: Seq<u8>,
    n: usize,
    seen: Seq<bool>,
    owner: Map<int, (int, int)>,
    i: int,
    lo: int,
    hi: int,
)
    requires
        marks_ok(bs, order, bqs, n, seen, owner, i, lo, hi),
        0 <= i < order.len(),
        0 <= lo < hi <= bs[order[i] as int].len(),
        0 <= entry_slot(bs, order, bqs, n, i, lo) < n,
        seen.len() == n,
    ensures
        seen[entry_slot(bs, order, bqs, n, i, lo)],
        marks_ok(
            bs,
            order,
            bqs,
            n,
            seen.update(entry_slot(bs, order, bqs, n, i, lo), false),
            owner.remove(entry_slot(bs, order, bqs, n, i, lo)),
            i,
            lo + 1,
            hi,
        ),
{
    let s0 = entry_slot(bs, order, bqs, n, i, lo);
    assert(placed(bs, order, i, lo, i, lo, hi));
    let seen2 = seen.update(s0, false);
    let owner2 = owner.remove(s0);
    assert forall|s: int| 0 <= s < n implies (seen2[s] <==> owner2.dom().contains(s)) by {}
    assert forall|s: int| #[trigger] owner2.dom().contains(s) implies placed(
        bs,
        order,
        owner2[s].0,
        owner2[s].1,
        i,
        lo + 1,
        hi,
    ) && entry_slot(bs, order, bqs, n, owner2[s].0, owner2[s].1) == s by {
        assert(owner.dom().contains(s));
        assert(placed(bs, order, owner[s].0, owner[s].1, i, lo, hi));
        if owner[s] == (i, lo) {
            assert(s == s0);
        }
    }
    assert forall|l: int, m: int| #[trigger] placed(bs, order, l, m, i, lo + 1, hi) implies owner2.dom().contains(
        entry_slot(bs, order, bqs, n, l, m),
    ) && owner2[entry_slot(bs, order, bqs, n, l, m)] == (l, m) by {
        assert(placed(bs, order, l, m, i, lo, hi));
        let e = entry_slot(bs, order, bqs, n, l, m);
        if e == s0 {
            assert(owner[e] == (i, lo));
        }
    }
}

/// The slot of entry `j` of the bucket `e` under the parameter `q`.
pub open spec fn entry_at(e: Seq<u8>, q: u8, n: usize, j: int) -> int {
    spec_f2(e[j], q, n) as int
}

/// `seen` with the slots of the first `j` entries of `e` under `q` set to `val`, one after
/// the other.
pub open spec fn mark_slots(seen: Seq<bool>, e: Seq<u8>, q: u8, n: usize, j: int, val: bool) -> Seq<bool>
    decreases j,
{
    if j <= 0 {
        seen
    } else {
        mark_slots(seen, e, q, n, j - 1, val).update(entry_at(e, q, n, j - 1), val)
    }
}

/// Entry `j` of `e` under `q` finds its slot taken: marked in `seen`, or the slot of an
/// earlier entry of the same bucket.
pub open spec fn clashes(seen: Seq<bool>, e: Seq<u8>, q: u8, n: usize, j: int) -> bool {
    seen[entry_at(e, q, n, j)] || exists|m: int| 0 <= m < j && entry_at(e, q, n, m) == entry_at(e, q, n, j)
}

/// Every entry of `e` under `q` finds a free slot.
pub open spec fn fits(seen: Seq<bool>, e: Seq<u8>, q: u8, n: usize) -> bool {
    forall|j: int| 0 <= j < e.len() ==> !#[trigger] clashes(seen, e, q, n, j)
}

/// Moving on from a parameter of step `i` that does not fit: the next value of it, or,
/// after its last value, back to 0 with one more miss counted and a step back, taking the
/// bucket of that step off its slots; `None` when there is no step to go back to or the
/// misses exceed `MAX_L2_SEARCH_MISSES`.
pub open spec fn bump(
    bs: Seq<Seq<u8>>,
    order: Seq<usize>,
    n: usize,
    i: int,
    bqs: Seq<u8>,
    seen: Seq<bool>,
    nmq: int,
) -> Option<(int, Seq<u8>, Seq<bool>, int)>
    decreases i,
{
    if bqs[i] < 255 {
        Some((i, bqs.update(i, (bqs[i] + 1) as u8), seen, nmq))
    } else {
        let bqs2 = bqs.update(i, 0u8);
        if i <= 0 || nmq + 1 > MAX_L2_SEARCH_MISSES {
            None
        } else {
            let e = bs[order[i - 1] as int];
            bump(
                bs,
                order,
                n,
                i - 1,
                bqs2,
                mark_slots(seen, e, bqs2[i - 1], n, e.len() as int, false),
                nmq + 1,
            )
        }
    }
}

/// A bump stays at or before the step it starts from, keeps the number of parameters, and
/// either counts a miss within the limit or only raises the parameter of that same step.
pub proof fn lemma_bump(
    bs: Seq<Seq<u8>>,
    order: Seq<usize>,
    n: usize,
    i: int,
    bqs: Seq<u8>,
    seen: Seq<bool>,
    nmq: int,
)
    requires
        0 <= i < bqs.len(),
    ensures
        bump(bs, order, n, i, bqs, seen, nmq) matches Some((i2, b2, s2, m2)) ==> {
            &&& 0 <= i2 <= i
            &&& b2.len() == bqs.len()
            &&& nmq <= m2 <= MAX_L2_SEARCH_MISSES || (m2 == nmq && i2 == i)
            &&& m2 == nmq ==> i2 == i && b2[i] == bqs[i] + 1
        },
    decreases i,
{
    if bqs[i] >= 255 && !(i <= 0 || nmq + 1 > MAX_L2_SEARCH_MISSES) {
        let bqs2 = bqs.update(i, 0u8);
        let e = bs[order[i - 1] as int];
        lemma_bump(bs, order, n, i - 1, bqs2, mark_slots(seen, e, bqs2[i - 1], n, e.len() as int, false), nmq + 1);
    }
}

/// The search of `solve` from the state of step `i`, parameters `bqs`, taken slots `seen`
/// and `nmq` misses: the parameters it ends with, or `None` when it gives up.
pub open spec fn search_run(
    bs: Seq<Seq<u8>>,
    order: Seq<usize>,
    n: usize,
    i: int,
    bqs: Seq<u8>,
    seen: Seq<bool>,
    nmq: int,
) -> Option<Seq<u8>>
    decreases MAX_L2_SEARCH_MISSES - nmq, (order.len() - i) * 256 + 255 - bqs[i],
{
    if !(0 <= i <= order.len() && 0 <= nmq <= MAX_L2_SEARCH_MISSES && bqs.len() == order.len()) {
        None
    } else if i == order.len() {
        Some(bqs)
    } else {
        let e = bs[order[i] as int];
        if fits(seen, e, bqs[i], n) {
            search_run(bs, order, n, i + 1, bqs, mark_slots(seen, e, bqs[i], n, e.len() as int, true), nmq)
        } else {
            match bump(bs, order, n, i, bqs, seen, nmq) {
                None => None,
                Some((i2, b2, s2, m2)) => {
                    proof {
                        lemma_bump(bs, order, n, i, bqs, seen, nmq);
                    }
                    search_run(bs, order, n, i2, b2, s2, m2)
                },
            }
        }
    }
}

/// Where the search goes after the parameter of step `i` does not fit.
pub open spec fn after_bump(
    bs: Seq<Seq<u8>>,
    order: Seq<usize>,
    n: usize,
    i: int,
    bqs: Seq<u8>,
    seen: Seq<bool>,
    nmq: int,
) -> Option<Seq<u8>> {
    match bump(bs, order, n, i, bqs, seen, nmq) {
        None => None,
        Some((i2, b2, s2, m2)) => search_run(bs, order, n, i2, b2, s2, m2),
    }
}

/// A slot after marking: `val` where one of the first `j` entries lands, else as before.
proof fn lemma_mark_at(seen: Seq<bool>, e: Seq<u8>, q: u8, n: usize, j: int, val: bool, s: int)
    requires
        0 <= j <= e.len(),
        n > 0,
        seen.len() == n,
    ensures
        mark_slots(seen, e, q, n, j, val).len() == n,
        0 <= s < n ==> mark_slots(seen, e, q, n, j, val)[s] == if exists|m: int|
            0 <= m < j && entry_at(e, q, n, m) == s {
            val
        } else {
            seen[s]
        },
    decreases j,
{
    if j > 0 {
        lemma_mark_at(seen, e, q, n, j - 1, val, s);
        if 0 <= s < n {
            if entry_at(e, q, n, j - 1) != s && exists|m: int| 0 <= m < j && entry_at(e, q, n, m) == s {
                let m = choose|m: int| 0 <= m < j && entry_at(e, q, n, m) == s;
                assert(m < j - 1);
            }
        }
    }
}

/// Every bucket taken holds at most one byte, no more buckets are taken than there are
/// slots, and there are at most 256 slots.
pub open spec fn singles(bs: Seq<Seq<u8>>, order: Seq<usize>, n: usize) -> bool {
    &&& n <= 256
    &&& order.len() <= n
    &&& forall|l: int| 0 <= l < order.len() ==> (#[trigger] bs[order[l] as int]).len() <= 1
}

/// With single-byte buckets, when every parameter sends a byte to a taken slot, every slot
/// is taken by the byte of an earlier step, so there are at least as many earlier steps as
/// slots.
proof fn lemma_no_free_slot(
    bs: Seq<Seq<u8>>,
    order: Seq<usize>,
    bqs: Seq<u8>,
    n: usize,
    seen: Seq<bool>,
    owner: Map<int, (int, int)>,
    i: int,
    e: u8,
)
    requires
        singles(bs, order, n),
        marks_ok(bs, order, bqs, n, seen, owner, i, 0, 0),
        0 <= i < order.len(),
        seen.len() == n,
        n > 0,
        forall|q2: u8| seen[#[trigger] spec_f2(e, q2, n) as int],
    ensures
        n <= i,
{
    assert forall|s: int| 0 <= s < n implies #[trigger] owner.dom().contains(s) by {
        let sb = s as u8;
        let q2 = e ^ sb;
        assert(e ^ (e ^ sb) == sb) by (bit_vector);
        assert(sb as int == s);
        assert((e ^ q2) == sb);
        vstd::arithmetic::div_mod::lemma_small_mod(s as nat, n as nat);
        assert(((e ^ q2) as usize) % n == s);
        assert(spec_f2(e, q2, n) == s);
        assert(seen[spec_f2(e, q2, n) as int]);
    }
    assert forall|s: int| 0 <= s < n implies owner[s].1 == 0 && 0 <= #[trigger] owner[s].0 < i
        && entry_slot(bs, order, bqs, n, owner[s].0, 0) == s by {
        assert(owner.dom().contains(s));
        let l = owner[s].0;
        assert(placed(bs, order, l, owner[s].1, i, 0, 0));
        assert(bs[order[l] as int].len() <= 1);
    }
    let f = |s: int| owner[s].0;
    assert forall|x: int, y: int| 0 <= x < n && 0 <= y < n && #[trigger] f(x) == #[trigger] f(y)
        implies x == y by {
        assert(owner[x].1 == 0 && owner[y].1 == 0);
        assert(owner[x] == owner[y]);
    }
    lemma_pigeonhole(f, n as int, i);
}

/// Chooses per-bucket parameters for the buckets in the order `order`, each step's bucket
/// sent to free slots, stepping back when a parameter runs through all 256 values; gives
/// up after stepping back past the first bucket or more than `MAX_L2_SEARCH_MISSES` times.
/// On success every entry of every bucket has a slot of its own. It succeeds whenever
/// each bucket taken holds at most one byte, at most one bucket per slot is taken and
/// there are at most 256 slots.
fn solve(
    buckets: &Vec<Vec<u8>>,
    order: &Vec<usize>,
    bqs: &mut Vec<u8>,
    seen: &mut Vec<bool>,
    n: usize,
) -> (ok: bool)
    requires
        old(bqs)@.len() == order@.len(),
        old(seen)@.len() == n,
        forall|l: int| 0 <= l < order@.len() ==> order@[l] < buckets@.len(),
        order@.len() > 0 ==> n > 0,
        forall|l: int| 0 <= l < order@.len() ==> old(bqs)@[l] == 0,
        forall|s: int| 0 <= s < n ==> !old(seen)@[s],
    ensures
        final(bqs)@.len() == order@.len(),
        ok ==> distinct_slots(bucket_seqs(buckets@), order@, final(bqs)@, n),
        singles(bucket_seqs(buckets@), order@, n) ==> ok,
        ok == search_run(bucket_seqs(buckets@), order@, n, 0, old(bqs)@, old(seen)@, 0) is Some,
        ok ==> search_run(bucket_seqs(buckets@), order@, n, 0, old(bqs)@, old(seen)@, 0) == Some(
            final(bqs)@,
        ),
{
    let ghost bs = bucket_seqs(buckets@);
    let ghost init = search_run(bs, order@, n, 0, bqs@, seen@, 0);
    let len = order.len();
    let mut i: usize = 0;
    let mut num_max_q: usize = 0;
    let ghost mut owner: Map<int, (int, int)> = Map::empty();
    proof {
        assert forall|l: int, m: int| #[trigger] placed(bs, order@, l, m, 0, 0, 0) implies false by {}
    }
    loop
        invariant
            len == order@.len(),
            bqs@.len() == len,
            seen@.len() == n,
            bs == bucket_seqs(buckets@),
            forall|l: int| 0 <= l < len ==> order@[l] < buckets@.len(),
            len > 0 ==> n > 0,
            i <= len,
            num_max_q <= MAX_L2_SEARCH_MISSES,
            forall|l: int| i < l < len ==> bqs@[l] == 0,
            marks_ok(bs, order@, bqs@, n, seen@, owner, i as int, 0, 0),
            init == search_run(bucket_seqs(buckets@), order@, n, 0, old(bqs)@, old(seen)@, 0),
            search_run(bs, order@, n, i as int, bqs@, seen@, num_max_q as int) == init,
            singles(bs, order@, n) && i < len && bs[order@[i as int] as int].len() == 1 ==> forall|
                q2: u8,
            |
                q2 < bqs@[i as int] ==> seen@[#[trigger] spec_f2(
                    bs[order@[i as int] as int][0],
                    q2,
                    n,
                ) as int],
        decreases MAX_L2_SEARCH_MISSES - num_max_q, (len - i) * 256 + 255 - (if i < len {
            bqs@[i as int] as int
        } else {
            0
        }),
    {
        if i == len {
            proof {
                assert forall|l1: int, m1: int, l2: int, m2: int|
                    #[trigger] placed(bs, order@, l1, m1, len as int, 0, 0) && #[trigger] placed(
                        bs,
                        order@,
                        l2,
                        m2,
                        len as int,
                        0,
                        0,
                    ) && (l1, m1) != (l2, m2) implies entry_slot(bs, order@, bqs@, n, l1, m1)
                    != entry_slot(bs, order@, bqs@, n, l2, m2) by {}
            }
            return true;
        }
        let bucket = &buckets[order[i]];
        let q = bqs[i];
        proof {
            assert(bucket@ == bs[order@[i as int] as int]);
        }
        let mut j: usize = 0;
        let mut collided = false;
        let ghost seen0 = seen@;
        while j < bucket.len() && !collided
            invariant
                j == 0 ==> seen@ == seen0,
                seen0.len() == n,
                seen@ == mark_slots(seen0, bucket@, q, n, j as int, true),
                forall|m: int| 0 <= m < j ==> !#[trigger] clashes(seen0, bucket@, q, n, m),
                collided ==> clashes(seen0, bucket@, q, n, j as int),
                len == order@.len(),
                i < len,
                bqs@.len() == len,
                seen@.len() == n,
                n > 0,
                bs == bucket_seqs(buckets@),
                bucket@ == bs[order@[i as int] as int],
                q == bqs@[i as int],
                j <= bucket@.len(),
                marks_ok(bs, order@, bqs@, n, seen@, owner, i as int, 0, j as int),
                collided ==> seen@[entry_slot(bs, order@, bqs@, n, i as int, j as int)] && j
                    < bucket@.len(),
            decreases bucket@.len() - j + (if collided {
                0int
            } else {
                1
            }),
        {
            let s = f2(bucket[j], q, n);
            proof {
                lemma_mark_at(seen0, bucket@, q, n, j as int, true, s as int);
                assert(entry_at(bucket@, q, n, j as int) == s);
            }
            if seen[s] {
                collided = true;
            } else {
                proof {
                    lemma_mark(bs, order@, bqs@, n, seen@, owner, i as int, j as int);
                    owner = owner.insert(s as int, (i as int, j as int));
                }
                seen.set(s, true);
                j += 1;
            }
        }
        if !collided {
            proof {
                lemma_marks_same(bs, order@, bqs@, n, seen@, owner, i as int, 0, j as int, i + 1, 0, 0);
                assert(fits(seen0, bucket@, q, n));
            }
            i += 1;
            continue ;
        }
        let ghost marked = seen@;
        let mut k: usize = 0;
        while k < j
            invariant
                len == order@.len(),
                i < len,
                bqs@.len() == len,
                seen@.len() == n,
                n > 0,
                bs == bucket_seqs(buckets@),
                bucket@ == bs[order@[i as int] as int],
                q == bqs@[i as int],
                k <= j < bucket@.len(),
                marks_ok(bs, order@, bqs@, n, seen@, owner, i as int, k as int, j as int),
                j == 0 ==> seen@ == seen0,
                marked == mark_slots(seen0, bucket@, q, n, j as int, true),
                seen@ == mark_slots(marked, bucket@, q, n, k as int, false),
            decreases j - k,
        {
            let s = f2(bucket[k], q, n);
            proof {
                lemma_unmark(bs, order@, bqs@, n, seen@, owner, i as int, k as int, j as int);
                owner = owner.remove(s as int);
            }
            seen.set(s, false);
            k += 1;
        }
        proof {
            lemma_marks_same(bs, order@, bqs@, n, seen@, owner, i as int, j as int, j as int, i as int, 0, 0);
            assert forall|x: int| 0 <= x < n implies seen@[x] == seen0[x] by {
                lemma_mark_at(marked, bucket@, q, n, j as int, false, x);
                lemma_mark_at(seen0, bucket@, q, n, j as int, true, x);
                if exists|m: int| 0 <= m < j && entry_at(bucket@, q, n, m) == x {
                    let m = choose|m: int| 0 <= m < j && entry_at(bucket@, q, n, m) == x;
                    assert(!clashes(seen0, bucket@, q, n, m));
                }
            }
            lemma_mark_at(marked, bucket@, q, n, j as int, false, 0);
            assert(seen@ =~= seen0);
            assert(!fits(seen0, bucket@, q, n));
            assert(after_bump(bs, order@, n, i as int, bqs@, seen@, num_max_q as int) == init);
        }
        let ghost i0 = i;
        let ghost nq0 = num_max_q;
        let ghost b0 = bqs@[i as int];
        proof {
            if singles(bs, order@, n) {
                assert(bs[order@[i as int] as int].len() <= 1);
                assert(j == 0);
                assert forall|q2: u8| q2 <= bqs@[i as int] implies seen@[#[trigger] spec_f2(
                    bs[order@[i as int] as int][0],
                    q2,
                    n,
                ) as int] by {
                    if q2 == bqs@[i as int] {
                        assert(entry_slot(bs, order@, bqs@, n, i as int, 0) == spec_f2(
                            bs[order@[i as int] as int][0],
                            q2,
                            n,
                        ));
                    }
                }
            }
        }
        loop
            invariant_except_break
                (num_max_q == nq0 && i == i0 && bqs@[i as int] == b0) || num_max_q > nq0,
                singles(bs, order@, n) ==> i == i0 && bs[order@[i as int] as int].len() == 1 && forall|
                    q2: u8,
                |
                    q2 <= bqs@[i as int] ==> seen@[#[trigger] spec_f2(
                        bs[order@[i as int] as int][0],
                        q2,
                        n,
                    ) as int],
                after_bump(bs, order@, n, i as int, bqs@, seen@, num_max_q as int) == init,
            invariant
                init == search_run(bucket_seqs(buckets@), order@, n, 0, old(bqs)@, old(seen)@, 0),
                len == order@.len(),
                i < len,
                bqs@.len() == len,
                seen@.len() == n,
                n > 0,
                bs == bucket_seqs(buckets@),
                forall|l: int| 0 <= l < len ==> order@[l] < buckets@.len(),
                num_max_q <= MAX_L2_SEARCH_MISSES,
                forall|l: int| i < l < len ==> bqs@[l] == 0,
                marks_ok(bs, order@, bqs@, n, seen@, owner, i as int, 0, 0),
                nq0 <= MAX_L2_SEARCH_MISSES,
                i0 < len,
            ensures
                i < len,
                bqs@.len() == len,
                seen@.len() == n,
                num_max_q <= MAX_L2_SEARCH_MISSES,
                forall|l: int| i < l < len ==> bqs@[l] == 0,
                marks_ok(bs, order@, bqs@, n, seen@, owner, i as int, 0, 0),
                (num_max_q == nq0 && i == i0 && bqs@[i as int] == b0 + 1) || num_max_q > nq0,
                search_run(bs, order@, n, i as int, bqs@, seen@, num_max_q as int) == init,
                singles(bs, order@, n) ==> bs[order@[i as int] as int].len() == 1 && forall|q2: u8|
                    q2 < bqs@[i as int] ==> seen@[#[trigger] spec_f2(
                        bs[order@[i as int] as int][0],
                        q2,
                        n,
                    ) as int],
            decreases i,
        {
            let b = bqs[i];
            let ghost bump_from = (i as int, bqs@, seen@, num_max_q as int);
            if b < 255 {
                proof {
                    lemma_marks_bqs(bs, order@, bqs@, bqs@.update(i as int, (b + 1) as u8), n, seen@, owner, i as int);
                }
                bqs.set(i, b + 1);
                proof {
                    assert(bump(bs, order@, n, bump_from.0, bump_from.1, bump_from.2, bump_from.3) == Some(
                        (i as int, bqs@, seen@, num_max_q as int),
                    ));
                }
                break;
            }
            proof {
                if singles(bs, order@, n) {
                    lemma_no_free_slot(
                        bs,
                        order@,
                        bqs@,
                        n,
                        seen@,
                        owner,
                        i as int,
                        bs[order@[i as int] as int][0],
                    );
                }
            }
            num_max_q += 1;
            proof {
                lemma_marks_bqs(bs, order@, bqs@, bqs@.update(i as int, 0u8), n, seen@, owner, i as int);
            }
            bqs.set(i, 0);
            if i == 0 || num_max_q > MAX_L2_SEARCH_MISSES {
                return false;
            }
            i -= 1;
            let prev = &buckets[order[i]];
            let pq = bqs[i];
            let ghost seen_b = seen@;
            proof {
                assert(prev@ == bs[order@[i as int] as int]);
                lemma_marks_same(bs, order@, bqs@, n, seen@, owner, i + 1, 0, 0, i as int, 0, prev@.len() as int);
            }
            let mut k: usize = 0;
            while k < prev.len()
                invariant
                    len == order@.len(),
                    i < len,
                    bqs@.len() == len,
                    seen@.len() == n,
                    n > 0,
                    bs == bucket_seqs(buckets@),
                    prev@ == bs[order@[i as int] as int],
                    pq == bqs@[i as int],
                    k <= prev@.len(),
                    marks_ok(bs, order@, bqs@, n, seen@, owner, i as int, k as int, prev@.len() as int),
                    seen@ == mark_slots(seen_b, prev@, pq, n, k as int, false),
                decreases prev@.len() - k,
            {
                let s = f2(prev[k], pq, n);
                proof {
                    lemma_unmark(bs, order@, bqs@, n, seen@, owner, i as int, k as int, prev@.len() as int);
                    owner = owner.remove(s as int);
                }
                seen.set(s, false);
                k += 1;
            }
            proof {
                lemma_marks_same(bs, order@, bqs@, n, seen@, owner, i as int, k as int, k as int, i as int, 0, 0);
                assert(bump(bs, order@, n, bump_from.0, bump_from.1, bump_from.2, bump_from.3) == bump(
                    bs,
                    order@,
                    n,
                    i as int,
                    bqs@,
                    seen@,
                    num_max_q as int,
                ));
            }
        }
    }
}

/// How many of the first `upto` bytes the first hash function sends to bucket `r`.
pub open spec fn count_in(bytes: Seq<u8>, p: u8, n: usize, r: int, upto: int) -> nat
    decreases upto,
{
    if upto <= 0 {
        0
    } else {
        count_in(bytes, p, n, r, upto - 1) + if spec_f1(bytes[upto - 1], p, n) == r {
            1nat
        } else {
            0nat
        }
    }
}

proof fn lemma_count_in_mono(bytes: Seq<u8>, p: u8, n: usize, r: int, a: int, b: int)
    requires
        0 <= a <= b,
    ensures
        count_in(bytes, p, n, r, a) <= count_in(bytes, p, n, r, b),
        count_in(bytes, p, n, r, b) <= b,
        a < b && spec_f1(bytes[a], p, n) == r ==> count_in(bytes, p, n, r, a) < count_in(
            bytes,
            p,
            n,
            r,
            b,
        ),
    decreases b - a,
{
    if a < b {
        lemma_count_in_mono(bytes, p, n, r, a, b - 1);
        if a == b - 1 {
        }
    } else {
        lemma_count_le(bytes, p, n, r, b);
    }
}

proof fn lemma_count_le(bytes: Seq<u8>, p: u8, n: usize, r: int, b: int)
    requires
        0 <= b,
    ensures
        count_in(bytes, p, n, r, b) <= b,
    decreases b,
{
    if b > 0 {
        lemma_count_le(bytes, p, n, r, b - 1);
    }
}

/// The bytes among the first `upto` that the first hash function under `p` sends to
/// bucket `r`, in their order.
pub open spec fn bucket_of(bytes: Seq<u8>, p: u8, n: usize, r: int, upto: int) -> Seq<u8>
    decreases upto,
{
    if upto <= 0 {
        Seq::empty()
    } else if spec_f1(bytes[upto - 1], p, n) == r {
        bucket_of(bytes, p, n, r, upto - 1).push(bytes[upto - 1])
    } else {
        bucket_of(bytes, p, n, r, upto - 1)
    }
}

/// The bytes cut into `n` buckets by the first hash function under `p`, each bucket
/// keeping the order of the bytes.
fn make_buckets(bytes: &[u8], p: u8) -> (res: Vec<Vec<u8>>)
    ensures
        res@.len() == bytes@.len(),
        forall|r: int|
            0 <= r < bytes@.len() ==> (#[trigger] res@[r])@ == bucket_of(
                bytes@,
                p,
                bytes@.len() as usize,
                r,
                bytes@.len() as int,
            ),
        forall|r: int|
            0 <= r < bytes@.len() ==> (#[trigger] res@[r])@.len() == count_in(
                bytes@,
                p,
                bytes@.len() as usize,
                r,
                bytes@.len() as int,
            ),
        forall|x: int|
            0 <= x < bytes@.len() ==> res@[spec_f1(bytes@[x], p, bytes@.len() as usize) as int]@[count_in(
                bytes@,
                p,
                bytes@.len() as usize,
                spec_f1(bytes@[x], p, bytes@.len() as usize) as int,
                x,
            ) as int] == bytes@[x],
{
    let n = bytes.len();
    let mut l1: Vec<usize> = Vec::new();
    let mut x: usize = 0;
    while x < n
        invariant
            n == bytes@.len(),
            x <= n,
            l1@.len() == x,
            forall|y: int| 0 <= y < x ==> l1@[y] == spec_f1(bytes@[y], p, n),
        decreases n - x,
    {
        l1.push(f1(bytes[x], p, n));
        x += 1;
    }
    let mut res: Vec<Vec<u8>> = Vec::new();
    let mut r: usize = 0;
    while r < n
        invariant
            n == bytes@.len(),
            r <= n,
            l1@.len() == n,
            forall|y: int| 0 <= y < n ==> l1@[y] == spec_f1(bytes@[y], p, n),
            res@.len() == r,
            forall|r2: int| 0 <= r2 < r ==> (#[trigger] res@[r2])@.len() == count_in(bytes@, p, n, r2, n as int),
            forall|r2: int| 0 <= r2 < r ==> (#[trigger] res@[r2])@ == bucket_of(bytes@, p, n, r2, n as int),
            forall|y: int|
                0 <= y < n && spec_f1(bytes@[y], p, n) < r ==> res@[spec_f1(bytes@[y], p, n) as int]@[count_in(
                    bytes@,
                    p,
                    n,
                    spec_f1(bytes@[y], p, n) as int,
                    y,
                ) as int] == bytes@[y],
        decreases n - r,
    {
        let mut b: Vec<u8> = Vec::new();
        let mut x: usize = 0;
        while x < n
            invariant
                n == bytes@.len(),
                x <= n,
                r < n,
                l1@.len() == n,
                forall|y: int| 0 <= y < n ==> l1@[y] == spec_f1(bytes@[y], p, n),
                b@.len() == count_in(bytes@, p, n, r as int, x as int),
                b@ == bucket_of(bytes@, p, n, r as int, x as int),
                forall|y: int|
                    0 <= y < x && spec_f1(bytes@[y], p, n) == r ==> b@[count_in(bytes@, p, n, r as int, y) as int]
                        == bytes@[y],
            decreases n - x,
        {
            if l1[x] == r {
                proof {
                    assert forall|y: int| 0 <= y < x && spec_f1(bytes@[y], p, n) == r implies count_in(
                        bytes@,
                        p,
                        n,
                        r as int,
                        y,
                    ) < count_in(bytes@, p, n, r as int, x as int) by {
                        lemma_count_in_mono(bytes@, p, n, r as int, y, x as int);
                    }
                }
                b.push(bytes[x]);
            }
            x += 1;
        }
        res.push(b);
        proof {
            assert forall|y: int|
                0 <= y < n && spec_f1(bytes@[y], p, n) < r + 1 implies res@[spec_f1(bytes@[y], p, n) as int]@[count_in(
                bytes@,
                p,
                n,
                spec_f1(bytes@[y], p, n) as int,
                y,
            ) as int] == bytes@[y] by {
                if spec_f1(bytes@[y], p, n) == r {
                    assert(res@[r as int] == b);
                }
            }
        }
        r += 1;
    }
    res
}

/// The indices below `r` of the buckets of exactly `l` bytes, in increasing order.
pub open spec fn level_upto(bs: Seq<Seq<u8>>, l: int, r: int) -> Seq<usize>
    decreases r,
{
    if r <= 0 {
        Seq::empty()
    } else if bs[r - 1].len() == l {
        level_upto(bs, l, r - 1).push((r - 1) as usize)
    } else {
        level_upto(bs, l, r - 1)
    }
}

/// The indices of the buckets longer than `l` bytes (up to `bs.len()` bytes), longest
/// first, buckets of equal length in increasing index.
pub open spec fn levels_above(bs: Seq<Seq<u8>>, l: int) -> Seq<usize>
    decreases bs.len() - l,
{
    if l >= bs.len() {
        Seq::empty()
    } else {
        levels_above(bs, l + 1) + level_upto(bs, l + 1, bs.len() as int)
    }
}

/// The order in which the search takes the buckets: the longest first, buckets of equal
/// length in increasing index.
pub open spec fn order_spec(bs: Seq<Seq<u8>>) -> Seq<usize> {
    levels_above(bs, -1)
}

/// The bucket indices from the longest bucket to the shortest, buckets of equal length in
/// increasing index.
fn bucket_order(buckets: &Vec<Vec<u8>>) -> (res: Vec<usize>)
    requires
        forall|r: int| 0 <= r < buckets@.len() ==> (#[trigger] buckets@[r])@.len() <= buckets@.len(),
    ensures
        forall|l: int| 0 <= l < res@.len() ==> res@[l] < buckets@.len(),
        forall|r: usize| r < buckets@.len() ==> #[trigger] res@.contains(r),
        forall|k1: int, k2: int| 0 <= k1 < k2 < res@.len() ==> res@[k1] != res@[k2],
        res@.len() <= buckets@.len(),
        res@ == order_spec(bucket_seqs(buckets@)),
{
    let ghost bs = bucket_seqs(buckets@);
    let n = buckets.len();
    let mut order: Vec<usize> = Vec::new();
    let mut l: usize = n;
    loop
        invariant_except_break
            forall|k: int| 0 <= k < order@.len() ==> buckets@[order@[k] as int]@.len() > l,
            order@ == levels_above(bs, l as int),
        invariant
            bs == bucket_seqs(buckets@),
            n == buckets@.len(),
            l <= n,
            forall|r: int| 0 <= r < n ==> (#[trigger] buckets@[r])@.len() <= n,
            forall|k: int| 0 <= k < order@.len() ==> order@[k] < n,
            forall|r: usize| r < n && buckets@[r as int]@.len() > l ==> #[trigger] order@.contains(r),
            forall|k1: int, k2: int| 0 <= k1 < k2 < order@.len() ==> order@[k1] != order@[k2],
        ensures
            order@ == levels_above(bs, -1),
            forall|k: int| 0 <= k < order@.len() ==> order@[k] < n,
            forall|r: usize| r < n ==> #[trigger] order@.contains(r),
            forall|k1: int, k2: int| 0 <= k1 < k2 < order@.len() ==> order@[k1] != order@[k2],
        decreases l,
    {
        let mut r: usize = 0;
        while r < n
            invariant
                n == buckets@.len(),
                r <= n,
                l <= n,
                forall|k: int| 0 <= k < order@.len() ==> order@[k] < n,
                forall|r2: usize| r2 < n && buckets@[r2 as int]@.len() > l ==> #[trigger] order@.contains(r2),
                forall|r2: usize| r2 < r && buckets@[r2 as int]@.len() == l ==> #[trigger] order@.contains(r2),
                forall|k: int|
                    0 <= k < order@.len() ==> buckets@[order@[k] as int]@.len() > l || (
                    buckets@[order@[k] as int]@.len() == l && order@[k] < r),
                forall|k1: int, k2: int| 0 <= k1 < k2 < order@.len() ==> order@[k1] != order@[k2],
                bs == bucket_seqs(buckets@),
                order@ == levels_above(bs, l as int) + level_upto(bs, l as int, r as int),
            decreases n - r,
        {
            if buckets[r].len() == l {
                proof {
                    assert forall|r2: usize| order@.contains(r2) implies #[trigger] order@.push(
                        r,
                    ).contains(r2) by {
                        let k = choose|k: int| 0 <= k < order@.len() && order@[k] == r2;
                        assert(order@.push(r)[k] == r2);
                    }
                    assert(order@.push(r)[order@.len() as int] == r);
                }
                order.push(r);
            }
            proof {
                assert(bs[r as int] == buckets@[r as int]@);
                assert((levels_above(bs, l as int) + level_upto(bs, l as int, r as int)).push(r) =~= levels_above(
                    bs,
                    l as int,
                ) + level_upto(bs, l as int, r as int).push(r));
            }
            r += 1;
        }
        proof {
            assert(levels_above(bs, l - 1) == levels_above(bs, l as int) + level_upto(bs, l as int, n as int));
        }
        if l == 0 {
            break;
        }
        l -= 1;
    }
    proof {
        lemma_pigeonhole(|k: int| order@[k] as int, order@.len() as int, n as int);
    }
    order
}

/// A map from `0..a` into `0..b` that sends no two numbers to the same one needs
/// `a <= b`.
proof fn lemma_pigeonhole(f: spec_fn(int) -> int, a: int, b: int)
    requires
        0 <= a,
        0 <= b,
        forall|x: int| 0 <= x < a ==> 0 <= #[trigger] f(x) < b,
        forall|x: int, y: int| 0 <= x < a && 0 <= y < a && #[trigger] f(x) == #[trigger] f(y) ==> x == y,
    ensures
        a <= b,
{
    let xs = vstd::set_lib::set_int_range(0, a);
    let zs = vstd::set_lib::set_int_range(0, b);
    let ys = xs.map(f);
    vstd::set_lib::lemma_int_range(0, a);
    vstd::set_lib::lemma_int_range(0, b);
    assert(vstd::relations::injective_on(f, xs));
    vstd::set_lib::lemma_map_size(xs, ys, f);
    assert forall|y: int| ys.contains(y) implies zs.contains(y) by {
        let x = choose|x: int| xs.contains(x) && y == f(x);
    }
    vstd::set_lib::lemma_len_subset(ys, zs);
}

/// Some byte occurs twice in `bytes`.
pub open spec fn has_repeat(bytes: Seq<u8>) -> bool {
    exists|x: int, y: int| 0 <= x < y < bytes.len() && bytes[x] == bytes[y]
}

/// The bytes leave distinct remainders when divided by their number.
pub open spec fn residues_distinct(bytes: Seq<u8>) -> bool {
    forall|x: int, y: int|
        0 <= x < y < bytes.len() ==> (bytes[x] as int) % (bytes.len() as int) != (bytes[y] as int) % (
        bytes.len() as int)
}

/// Perfect parameters send no two bytes to one slot, so no byte occurs twice.
proof fn lemma_perfect_no_repeat(bytes: Seq<u8>, p: u8, qq: Seq<u8>)
    requires
        perfect(bytes, p, qq),
    ensures
        !has_repeat(bytes),
{
    if has_repeat(bytes) {
        let (x, y) = choose|x: int, y: int| 0 <= x < y < bytes.len() && bytes[x] == bytes[y];
        assert(slot(bytes[x], p, qq, bytes.len() as usize) == slot(bytes[y], p, qq, bytes.len() as usize));
    }
}

/// Under the first parameter 0, bytes with distinct remainders leave at most one byte in
/// each bucket.
proof fn lemma_count_single(bytes: Seq<u8>, n: usize, r: int, upto: int)
    requires
        n == bytes.len(),
        n > 0,
        residues_distinct(bytes),
        0 <= upto <= n,
    ensures
        count_in(bytes, 0, n, r, upto) <= 1,
        count_in(bytes, 0, n, r, upto) == 1 ==> exists|x: int| 0 <= x < upto && spec_f1(bytes[x], 0, n) == r,
    decreases upto,
{
    if upto > 0 {
        lemma_count_single(bytes, n, r, upto - 1);
        if count_in(bytes, 0, n, r, upto - 1) == 1 && spec_f1(bytes[upto - 1], 0, n) == r {
            let x = choose|x: int| 0 <= x < upto - 1 && spec_f1(bytes[x], 0, n) == r;
            assert((bytes[x] as int) % (n as int) != (bytes[upto - 1] as int) % (n as int));
        }
    }
}

/// Bytes with distinct remainders are distinct, so there are at most 256 of them.
proof fn lemma_residues_few(bytes: Seq<u8>)
    requires
        residues_distinct(bytes),
    ensures
        bytes.len() <= 256,
{
    let f = |x: int| bytes[x] as int;
    assert forall|x: int, y: int| 0 <= x < bytes.len() && 0 <= y < bytes.len() && #[trigger] f(x)
        == #[trigger] f(y) implies x == y by {
        if x < y {
            assert((bytes[x] as int) % (bytes.len() as int) != (bytes[y] as int) % (bytes.len() as int));
        } else if y < x {
            assert((bytes[y] as int) % (bytes.len() as int) != (bytes[x] as int) % (bytes.len() as int));
        }
    }
    lemma_pigeonhole(f, bytes.len() as int, 256);
}

/// A step at which bucket `r` was taken and whose parameter `qq` kept for it.
pub open spec fn step_of(order: Seq<usize>, bqs: Seq<u8>, qq: Seq<u8>, r: int) -> int {
    choose|l: int| 0 <= l < order.len() && order[l] == r && qq[r] == bqs[l]
}

/// The per-bucket parameters that the parameters `bqs` of the steps give: bucket `r` takes
/// the parameter of the step at which it was taken.
pub open spec fn qq_of(order: Seq<usize>, bqs: Seq<u8>, n: usize) -> Seq<u8> {
    Seq::new(n as nat, |r: int| bqs[choose|k: int| 0 <= k < order.len() && order[k] == r])
}

/// The search from the first-function parameter `p` on: for each `p` in turn, the bytes
/// cut into buckets, the buckets taken longest first, and `search_run` from the start;
/// the first `p` whose run ends gives the parameters, and `None` past 255.
pub open spec fn search_from(bytes: Seq<u8>, p: int) -> Option<(u8, Seq<u8>)>
    decreases 256 - p,
{
    if !(0 <= p <= 255) {
        None
    } else {
        let n = bytes.len() as usize;
        let bs = Seq::new(bytes.len(), |r: int| bucket_of(bytes, p as u8, n, r, bytes.len() as int));
        let order = order_spec(bs);
        match search_run(
            bs,
            order,
            n,
            0,
            Seq::new(order.len(), |k: int| 0u8),
            Seq::new(bytes.len(), |x: int| false),
            0,
        ) {
            Some(bqs) => Some((p as u8, qq_of(order, bqs, n))),
            None => search_from(bytes, p + 1),
        }
    }
}

/// What `find` gives for `bytes`: the first parameter and the per-bucket parameters, or
/// `None` when it gives up.
pub open spec fn spec_find(bytes: Seq<u8>) -> Option<(u8, Seq<u8>)> {
    search_from(bytes, 0)
}

/// Searches for a first-function parameter `p` and per-bucket parameters `qq` that send
/// the bytes to distinct slots, trying `p` from 0 up; for each `p` the buckets are taken
/// from the longest to the shortest. On success the parameters are perfect for the bytes.
/// It fails when a byte occurs twice, and succeeds with `p` equal to 0 when the bytes
/// leave distinct remainders divided by their number.
#[verifier::rlimit(50)]
pub fn find(bytes: &[u8]) -> (res: Result<(u8, Vec<u8>), Error>)
    ensures
        res matches Ok((p, qq)) ==> spec_find(bytes@) == Some((p, qq@)),
        res is Err <==> spec_find(bytes@) is None,
        res matches Ok((p, qq)) ==> perfect(bytes@, p, qq@),
        has_repeat(bytes@) ==> res is Err,
        residues_distinct(bytes@) ==> (res matches Ok((p, _)) && p == 0),
{
    let n = bytes.len();
    let mut p: u8 = 0;
    let mut qq: Vec<u8> = Vec::new();
    let mut x: usize = 0;
    while x < n
        invariant
            x <= n,
            qq@.len() == x,
        decreases n - x,
    {
        qq.push(0);
        x += 1;
    }
    loop
        invariant
            n == bytes@.len(),
            qq@.len() == n,
            residues_distinct(bytes@) ==> p == 0,
            search_from(bytes@, p as int) == spec_find(bytes@),
        decreases 255 - p,
    {
        let buckets = make_buckets(bytes, p);
        let ghost bs = bucket_seqs(buckets@);
        proof {
            assert(bs =~= Seq::new(bytes@.len(), |r: int| bucket_of(bytes@, p, n, r, n as int)));
        }
        proof {
            assert forall|r: int| 0 <= r < buckets@.len() implies (#[trigger] buckets@[r])@.len() <= buckets@.len() by {
                lemma_count_le(bytes@, p, n, r, n as int);
            }
        }
        let order = bucket_order(&buckets);
        let mut bqs: Vec<u8> = Vec::new();
        let mut l: usize = 0;
        while l < order.len()
            invariant
                l <= order@.len(),
                bqs@.len() == l,
                forall|k: int| 0 <= k < l ==> bqs@[k] == 0,
            decreases order@.len() - l,
        {
            bqs.push(0);
            l += 1;
        }
        let mut seen: Vec<bool> = Vec::new();
        let mut s: usize = 0;
        while s < n
            invariant
                s <= n,
                seen@.len() == s,
                forall|k: int| 0 <= k < s ==> !seen@[k],
            decreases n - s,
        {
            seen.push(false);
            s += 1;
        }
        proof {
            if order@.len() > 0 {
                assert(order@[0] < n);
            }
            if residues_distinct(bytes@) && n > 0 {
                lemma_residues_few(bytes@);
                assert forall|l: int| 0 <= l < order@.len() implies (#[trigger] bs[order@[l] as int]).len()
                    <= 1 by {
                    lemma_count_single(bytes@, n, order@[l] as int, n as int);
                    assert(bs[order@[l] as int] == buckets@[order@[l] as int]@);
                }
                assert(singles(bs, order@, n));
            }
            if n == 0 {
                assert(order@.len() == 0);
                assert(singles(bs, order@, n));
            }
            assert(bqs@ =~= Seq::new(order@.len(), |k: int| 0u8));
            assert(seen@ =~= Seq::new(bytes@.len(), |x: int| false));
        }
        let ghost run = search_run(bs, order@, n, 0, bqs@, seen@, 0);
        proof {
            assert(search_from(bytes@, p as int) == match run {
                Some(b) => Some((p, qq_of(order@, b, n))),
                None => search_from(bytes@, p + 1),
            });
        }
        if solve(&buckets, &order, &mut bqs, &mut seen, n) {
            let mut l: usize = 0;
            while l < order.len()
                invariant
                    l <= order@.len(),
                    bqs@.len() == order@.len(),
                    qq@.len() == n,
                    forall|k: int| 0 <= k < order@.len() ==> order@[k] < n,
                    forall|r: int|
                        0 <= r < n && (exists|k: int| 0 <= k < l && order@[k] == r) ==> exists|k: int|
                            0 <= k < l && order@[k] == r && #[trigger] qq@[r] == bqs@[k],
                decreases order@.len() - l,
            {
                let r = order[l];
                qq.set(r, bqs[l]);
                proof {
                    assert forall|r2: int|
                        0 <= r2 < n && (exists|k: int| 0 <= k < l + 1 && order@[k] == r2) implies exists|k: int|
                        0 <= k < l + 1 && order@[k] == r2 && #[trigger] qq@[r2] == bqs@[k] by {
                        if r2 == r {
                            assert(order@[l as int] == r2 && qq@[r2] == bqs@[l as int]);
                        } else {
                            let k = choose|k: int| 0 <= k < l + 1 && order@[k] == r2;
                            assert(k < l);
                        }
                    }
                }
                l += 1;
            }
            proof {
                lemma_find_perfect(bytes@, p, n, buckets@, order@, bqs@, qq@);
                lemma_perfect_no_repeat(bytes@, p, qq@);
                lemma_qq_of(order@, bqs@, qq@, n);
            }
            return Ok((p, qq));
        }
        if p == 255 {
            return Err(Error::CouldNotSolve);
        }
        p += 1;
    }
}

/// Parameters set bucket by bucket, each from the step that took it, are `qq_of`.
proof fn lemma_qq_of(order: Seq<usize>, bqs: Seq<u8>, qq: Seq<u8>, n: usize)
    requires
        qq.len() == n,
        forall|r: usize| r < n ==> #[trigger] order.contains(r),
        forall|k1: int, k2: int| 0 <= k1 < k2 < order.len() ==> order[k1] != order[k2],
        forall|r: int|
            0 <= r < n && (exists|k: int| 0 <= k < order.len() && order[k] == r) ==> exists|k: int|
                0 <= k < order.len() && order[k] == r && #[trigger] qq[r] == bqs[k],
    ensures
        qq == qq_of(order, bqs, n),
{
    assert forall|r: int| 0 <= r < n implies qq[r] == qq_of(order, bqs, n)[r] by {
        assert(order.contains(r as usize));
        assert(exists|k: int| 0 <= k < order.len() && order[k] == r);
        let k0 = choose|k: int| 0 <= k < order.len() && order[k] == r;
        let k1 = choose|k: int| 0 <= k < order.len() && order[k] == r && qq[r] == bqs[k];
        if k0 < k1 {
            assert(order[k0] != order[k1]);
        } else if k1 < k0 {
            assert(order[k1] != order[k0]);
        }
    }
    assert(qq =~= qq_of(order, bqs, n));
}

proof fn lemma_find_perfect(
    bytes: Seq<u8>,
    p: u8,
    n: usize,
    buckets: Seq<Vec<u8>>,
    order: Seq<usize>,
    bqs: Seq<u8>,
    qq: Seq<u8>,
)
    requires
        n == bytes.len(),
        qq.len() == n,
        buckets.len() == n,
        forall|r: int|
            0 <= r < n ==> (#[trigger] buckets[r])@.len() == count_in(bytes, p, n, r, n as int),
        forall|x: int|
            0 <= x < n ==> buckets[spec_f1(bytes[x], p, n) as int]@[count_in(
                bytes,
                p,
                n,
                spec_f1(bytes[x], p, n) as int,
                x,
            ) as int] == bytes[x],
        forall|k: int| 0 <= k < order.len() ==> order[k] < n,
        forall|r: usize| r < n ==> #[trigger] order.contains(r),
        forall|r: int|
            0 <= r < n && (exists|k: int| 0 <= k < order.len() && order[k] == r) ==> exists|k: int|
                0 <= k < order.len() && order[k] == r && #[trigger] qq[r] == bqs[k],
        distinct_slots(bucket_seqs(buckets), order, bqs, n),
    ensures
        perfect(bytes, p, qq),
{
    let bs = bucket_seqs(buckets);
    assert forall|x: int, y: int| 0 <= x < y < bytes.len() implies slot(bytes[x], p, qq, n) != slot(
        bytes[y],
        p,
        qq,
        n,
    ) by {
        let rx = spec_f1(bytes[x], p, n) as int;
        let ry = spec_f1(bytes[y], p, n) as int;
        let mx = count_in(bytes, p, n, rx, x) as int;
        let my = count_in(bytes, p, n, ry, y) as int;
        assert(order.contains(rx as usize));
        assert(order.contains(ry as usize));
        assert(exists|k: int| 0 <= k < order.len() && order[k] == rx);
        assert(exists|k: int| 0 <= k < order.len() && order[k] == ry);
        assert(qq[rx] == qq[rx]);
        assert(qq[ry] == qq[ry]);
        let lx = step_of(order, bqs, qq, rx);
        let ly = step_of(order, bqs, qq, ry);
        lemma_count_in_mono(bytes, p, n, rx, x, n as int);
        lemma_count_in_mono(bytes, p, n, ry, y, n as int);
        lemma_count_in_mono(bytes, p, n, rx, x, y);
        assert(bs[rx] == buckets[rx]@);
        assert(bs[ry] == buckets[ry]@);
        assert(placed(bs, order, lx, mx, order.len() as int, 0, 0));
        assert(placed(bs, order, ly, my, order.len() as int, 0, 0));
        assert(entry_slot(bs, order, bqs, n, lx, mx) == slot(bytes[x], p, qq, n) as int);
        assert(entry_slot(bs, order, bqs, n, ly, my) == slot(bytes[y], p, qq, n) as int);
    }
}

/// The keys written in slot order: key `k` at its slot, for the first `k` keys, over
/// zeros.
pub open spec fn permuted(keys: Seq<u8>, p: u8, qq: Seq<u8>, k: int) -> Seq<u8>
    decreases k,
{
    if k <= 0 {
        Seq::new(keys.len(), |i: int| 0u8)
    } else {
        permuted(keys, p, qq, k - 1).update(
            slot(keys[k - 1], p, qq, keys.len() as usize) as int,
            keys[k - 1],
        )
    }
}

/// The stored form of the map for `keys` under the parameters `p` and `qq`.
pub open spec fn phf_bytes(keys: Seq<u8>, p: u8, qq: Seq<u8>) -> Seq<u8> {
    seq![p] + qq + permuted(keys, p, qq, keys.len() as int)
}

/// The slot that the map stored as `bytes` gives `key`, if the key stored there is `key`.
pub open spec fn phf_get(bytes: Seq<u8>, key: u8) -> Option<usize> {
    if bytes.len() == 0 {
        None
    } else {
        let p = bytes[0];
        let buffer = bytes.drop_first();
        let n = (buffer.len() / 2) as usize;
        if n == 0 {
            None
        } else {
            let qq = buffer.take(n as int);
            let eks = buffer.skip(n as int);
            let l2 = spec_f2(key, qq[spec_f1(key, p, n) as int], n);
            if eks[l2 as int] == key {
                Some(l2)
            } else {
                None
            }
        }
    }
}

/// The keys of the map stored as `bytes`, in slot order.
pub open spec fn phf_keys(bytes: Seq<u8>) -> Seq<u8> {
    let n = bytes.len() / 2;
    if 1 + n <= bytes.len() {
        bytes.skip(1 + n as int)
    } else {
        Seq::empty()
    }
}

/// The map stored as `bytes` finds exactly its keys.
pub open spec fn phf_consistent_at(bytes: Seq<u8>, b: u8) -> bool {
    phf_keys(bytes).contains(b) <==> phf_get(bytes, b) is Some
}

/// A perfect hash map of bytes to their slots, held in a store of bytes.
#[derive(Debug)]
pub struct PerfectByteHashMap<S>(S);

impl<S> PerfectByteHashMap<S> {
    /// The store.
    pub closed spec fn store(&self) -> S {
        self.0
    }

    /// A map over the given store.
    pub fn from_store(store: S) -> (res: Self)
        ensures
            res.store() == store,
    {
        Self(store)
    }

    /// The store, given back.
    pub fn take_store(self) -> (res: S)
        ensures
            res == self.store(),
    {
        self.0
    }
}

/// Whether `b` is among `s`.
fn contains_byte(s: &[u8], b: u8) -> (res: bool)
    ensures
        res == s@.contains(b),
{
    let mut i: usize = 0;
    while i < s.len()
        invariant
            i <= s@.len(),
            forall|k: int| 0 <= k < i ==> s@[k] != b,
        decreases s@.len() - i,
    {
        if s[i] == b {
            return true;
        }
        i += 1;
    }
    false
}

impl<S: ByteStore> PerfectByteHashMap<S> {
    /// The stored bytes.
    pub open spec fn view(&self) -> Seq<u8> {
        self.store().spec_bytes()
    }

    /// The slot of `key`, if `key` is in the map.
    pub fn get(&self, key: u8) -> (res: Option<usize>)
        ensures
            res == phf_get(self@, key),
            res matches Some(i) ==> i < self@.len() / 2,
            self@.len() % 2 == 1 ==> (res matches Some(i) ==> i < phf_keys(self@).len()
                && phf_keys(self@)[i as int] == key),
    {
        let bytes = self.0.store_bytes();
        if bytes.len() == 0 {
            return None;
        }
        let p = bytes[0];
        let buffer = vstd::slice::slice_subrange(bytes, 1, bytes.len());
        let n = buffer.len() / 2;
        if n == 0 {
            return None;
        }
        let (qq, eks) = buffer.split_at(n);
        proof {
            assert(buffer@ =~= bytes@.drop_first());
            assert(qq@ =~= buffer@.take(n as int));
            assert(eks@ =~= buffer@.skip(n as int));
            if bytes@.len() % 2 == 1 {
                assert(eks@ =~= phf_keys(bytes@));
            }
        }
        let q = qq[f1(key, p, n)];
        let l2 = f2(key, q, n);
        let ek = eks[l2];
        if ek == key {
            Some(l2)
        } else {
            None
        }
    }

    /// The number of keys.
    pub fn len(&self) -> (res: usize)
        ensures
            res == self@.len() / 2,
    {
        self.0.store_bytes().len() / 2
    }

    /// The keys, in slot order.
    pub fn keys(&self) -> (res: &[u8])
        ensures
            res@ == phf_keys(self@),
    {
        let bytes = self.0.store_bytes();
        let n = bytes.len() / 2;
        if 1 + n <= bytes.len() {
            vstd::slice::slice_subrange(bytes, 1 + n, bytes.len())
        } else {
            vstd::slice::slice_subrange(bytes, 0, 0)
        }
    }

    /// The stored bytes.
    pub fn as_bytes(&self) -> (res: &[u8])
        ensures
            res@ == self@,
    {
        self.0.store_bytes()
    }

    /// Checks that the map finds exactly its keys: `Ok` when for every byte, being a key
    /// and being found agree; otherwise the first byte for which they do not, with what
    /// went wrong: "expected to find" for a key that is not found, "did not expect to
    /// find" for a byte that is found and is not a key.
    pub fn check(&self) -> (res: Result<(), (&'static str, u8)>)
        ensures
            res is Ok <==> forall|b: u8| phf_consistent_at(self@, b),
            res matches Err((_, b)) ==> !phf_consistent_at(self@, b) && forall|b2: u8|
                b2 < b ==> phf_consistent_at(self@, b2),
            res matches Err((m, b)) ==> m@ == (if phf_keys(self@).contains(b) {
                "expected to find"@
            } else {
                "did not expect to find"@
            }),
    {
        let len = self.len();
        let keys = self.keys();
        let mut seen: Vec<bool> = Vec::new();
        let mut k: usize = 0;
        while k < len
            invariant
                k <= len,
                seen@.len() == k,
                forall|i: int| 0 <= i < k ==> !seen@[i],
            decreases len - k,
        {
            seen.push(false);
            k += 1;
        }
        let mut b: u16 = 0;
        while b < 256
            invariant
                b <= 256,
                len == self@.len() / 2,
                keys@ == phf_keys(self@),
                seen@.len() == len,
                forall|b2: u8| b2 < b ==> phf_consistent_at(self@, b2),
                forall|i: int|
                    0 <= i < len && #[trigger] seen@[i] ==> exists|b2: u8|
                        b2 < b && phf_get(self@, b2) == Some(i as usize),
            decreases 256 - b,
        {
            let byte = b as u8;
            let get_result = self.get(byte);
            if contains_byte(keys, byte) {
                let i = match get_result {
                    Some(i) => i,
                    None => {
                        proof {
                            assert(!phf_consistent_at(self@, byte));
                        }
                        return Err(("expected to find", byte));
                    },
                };
                if seen[i] {
                    proof {
                        let b2 = choose|b2: u8| b2 < b && phf_get(self@, b2) == Some(i);
                        assert(false);
                    }
                    return Err(("seen", byte));
                }
                seen.set(i, true);
                proof {
                    assert forall|i2: int|
                        0 <= i2 < len && #[trigger] seen@[i2] implies exists|b2: u8|
                            b2 < b + 1 && phf_get(self@, b2) == Some(i2 as usize) by {
                        if i2 == i {
                            assert(phf_get(self@, byte) == Some(i2 as usize));
                        } else {
                            let b2 = choose|b2: u8| b2 < b && phf_get(self@, b2) == Some(i2 as usize);
                            assert(b2 < b + 1);
                        }
                    }
                }
            } else {
                if get_result.is_some() {
                    proof {
                        assert(!phf_consistent_at(self@, byte));
                    }
                    return Err(("did not expect to find", byte));
                }
            }
            b += 1;
        }
        proof {
            assert forall|b2: u8| phf_consistent_at(self@, b2) by {
                assert(b2 < 256);
            }
        }
        Ok(())
    }
}

impl PerfectByteHashMap<Vec<u8>> {
    /// The map for the bytes `keys`, which must be distinct: the parameters that `find`
    /// gives (`spec_find`), then the keys in slot order; `CouldNotSolve` exactly when `find`
    /// gives up, as it does when a key occurs twice. Keys with distinct remainders divided by their number always
    /// get a map, with first parameter 0.
    pub fn try_new(keys: &[u8]) -> (res: Result<Self, Error>)
        ensures
            res matches Ok(m) ==> ({
                let p = m@[0];
                let qq = m@.subrange(1, keys@.len() + 1int);
                &&& m@.len() == 2 * keys@.len() + 1
                &&& perfect(keys@, p, qq)
                &&& m@ == phf_bytes(keys@, p, qq)
            }),
            has_repeat(keys@) ==> res == Err::<Self, Error>(Error::CouldNotSolve),
            residues_distinct(keys@) ==> (res matches Ok(m) && m@[0] == 0),
            res is Ok <==> spec_find(keys@) is Some,
            res is Err ==> res == Err::<Self, Error>(Error::CouldNotSolve),
            res matches Ok(m) ==> m@ == phf_bytes(
                keys@,
                spec_find(keys@)->Some_0.0,
                spec_find(keys@)->Some_0.1,
            ),
    {
        let n = keys.len();
        let (p, mut qq) = match find(keys) {
            Ok(r) => r,
            Err(e) => {
                return Err(e);
            },
        };
        let mut keys_permuted: Vec<u8> = Vec::new();
        let mut k: usize = 0;
        while k < n
            invariant
                k <= n,
                keys_permuted@.len() == k,
                forall|i: int| 0 <= i < k ==> keys_permuted@[i] == 0,
            decreases n - k,
        {
            keys_permuted.push(0);
            k += 1;
        }
        proof {
            assert(keys_permuted@ =~= permuted(keys@, p, qq@, 0));
        }
        k = 0;
        while k < n
            invariant
                n == keys@.len(),
                k <= n,
                qq@.len() == n,
                keys_permuted@ == permuted(keys@, p, qq@, k as int),
                keys_permuted@.len() == n,
            decreases n - k,
        {
            let key = keys[k];
            let l1 = f1(key, p, n);
            let q = qq[l1];
            let l2 = f2(key, q, n);
            keys_permuted.set(l2, key);
            k += 1;
        }
        let ghost qs = qq@;
        let ghost ks = keys_permuted@;
        let mut result: Vec<u8> = Vec::new();
        result.push(p);
        result.append(&mut qq);
        result.append(&mut keys_permuted);
        proof {
            assert(result@ =~= seq![p] + qs + ks);
            assert(result@.subrange(1, n + 1) =~= qs);
        }
        Ok(Self(result))
    }
}

pub(crate) proof fn lemma_permuted(keys: Seq<u8>, p: u8, qq: Seq<u8>, k: int)
    requires
        perfect(keys, p, qq),
        0 <= k <= keys.len(),
        0 < keys.len() <= usize::MAX,
    ensures
        permuted(keys, p, qq, k).len() == keys.len(),
        forall|x: int|
            0 <= x < k ==> permuted(keys, p, qq, k)[slot(keys[x], p, qq, keys.len() as usize) as int]
                == keys[x],
    decreases k,
{
    let n = keys.len() as usize;
    if k > 0 {
        lemma_permuted(keys, p, qq, k - 1);
        assert(slot(keys[k - 1], p, qq, n) < n);
        assert forall|x: int| 0 <= x < k implies permuted(keys, p, qq, k)[slot(
            keys[x],
            p,
            qq,
            n,
        ) as int] == keys[x] by {
            if x < k - 1 {
                assert(slot(keys[x], p, qq, n) != slot(keys[k - 1], p, qq, n));
                assert(slot(keys[x], p, qq, n) < n);
            }
        }
    }
}

/// `n` keys sent to distinct slots among `n` fill every slot.
proof fn lemma_slots_cover(keys: Seq<u8>, p: u8, qq: Seq<u8>, s: int)
    requires
        perfect(keys, p, qq),
        0 < keys.len() <= usize::MAX,
        0 <= s < keys.len(),
    ensures
        exists|x: int| 0 <= x < keys.len() && slot(keys[x], p, qq, keys.len() as usize) == s,
{
    let n = keys.len() as usize;
    let dom = vstd::set_lib::set_int_range(0, keys.len() as int);
    let f = |x: int| slot(keys[x], p, qq, n) as int;
    vstd::set_lib::lemma_int_range(0, keys.len() as int);
    assert(vstd::relations::injective_on(f, dom)) by {
        assert forall|x: int, y: int| dom.contains(x) && dom.contains(y) && #[trigger] f(x) == #[trigger] f(y) implies x == y by {
            if x < y {
                assert(slot(keys[x], p, qq, n) != slot(keys[y], p, qq, n));
            } else if y < x {
                assert(slot(keys[y], p, qq, n) != slot(keys[x], p, qq, n));
            }
        }
    }
    let img = dom.map(f);
    vstd::set_lib::lemma_map_size(dom, img, f);
    assert(img.subset_of(dom)) by {
        assert forall|t: int| img.contains(t) implies dom.contains(t) by {
            let x = choose|x: int| dom.contains(x) && f(x) == t;
            assert(slot(keys[x], p, qq, n) < n);
        }
    }
    vstd::set_lib::lemma_subset_equality(img, dom);
    assert(dom.contains(s));
    assert(img.contains(s));
    let x = choose|x: int| dom.contains(x) && f(x) == s;
    assert(0 <= x < keys.len() && slot(keys[x], p, qq, n) == s);
}

/// The map that `try_new` stores for keys sent to distinct slots finds each key at its
/// slot, and finds no other byte.
pub proof fn lemma_phf_get(keys: Seq<u8>, p: u8, qq: Seq<u8>, b: u8)
    requires
        perfect(keys, p, qq),
        2 * keys.len() + 1 <= usize::MAX,
    ensures
        phf_get(phf_bytes(keys, p, qq), b) == if keys.contains(b) {
            Some(slot(b, p, qq, keys.len() as usize))
        } else {
            None
        },
{
    let n = keys.len() as usize;
    let bytes = phf_bytes(keys, p, qq);
    let buffer = bytes.drop_first();
    if keys.len() == 0 {
        assert(permuted(keys, p, qq, 0).len() == 0);
        assert(buffer.len() == 0);
    } else {
        lemma_permuted(keys, p, qq, keys.len() as int);
        let perm = permuted(keys, p, qq, keys.len() as int);
        assert(buffer =~= qq + perm);
        assert(buffer.len() / 2 == n);
        assert(buffer.take(n as int) =~= qq);
        assert(buffer.skip(n as int) =~= perm);
        let l2 = slot(b, p, qq, n);
        assert(l2 < n);
        if keys.contains(b) {
            let x = choose|x: int| 0 <= x < keys.len() && keys[x] == b;
            assert(perm[slot(keys[x], p, qq, n) as int] == keys[x]);
        } else {
            lemma_slots_cover(keys, p, qq, l2 as int);
            let x = choose|x: int| 0 <= x < keys.len() && slot(keys[x], p, qq, n) == l2;
            assert(perm[l2 as int] == keys[x]);
            assert(keys[x] != b);
        }
    }
}


/// The map that `try_new` stores for keys under parameters that make a perfect hash
/// passes `check`: each byte is found exactly when it is one of the keys.
pub proof fn lemma_phf_checks(keys: Seq<u8>, p: u8, qq: Seq<u8>)
    requires
        perfect(keys, p, qq),
        2 * keys.len() + 1 <= usize::MAX,
    ensures
        forall|b: u8| #[trigger] phf_consistent_at(phf_bytes(keys, p, qq), b),
        phf_keys(phf_bytes(keys, p, qq)).to_set() == keys.to_set(),
{
    let n = keys.len() as usize;
    let bytes = phf_bytes(keys, p, qq);
    let perm = permuted(keys, p, qq, keys.len() as int);
    if keys.len() > 0 {
        lemma_permuted(keys, p, qq, keys.len() as int);
    }
    assert(perm.len() == keys.len()) by {
        if keys.len() == 0 {
            assert(permuted(keys, p, qq, 0).len() == 0);
        }
    }
    assert(bytes.len() / 2 == n);
    assert(phf_keys(bytes) =~= perm);
    assert forall|b: u8| perm.contains(b) <==> keys.contains(b) by {
        if keys.contains(b) {
            let x = choose|x: int| 0 <= x < keys.len() && keys[x] == b;
            assert(perm[slot(keys[x], p, qq, n) as int] == b);
        }
        if perm.contains(b) {
            let s = choose|s: int| 0 <= s < perm.len() && perm[s] == b;
            lemma_slots_cover(keys, p, qq, s);
            let x = choose|x: int| 0 <= x < keys.len() && slot(keys[x], p, qq, n) == s;
            assert(perm[s] == keys[x]);
        }
    }
    assert forall|b: u8| #[trigger] phf_consistent_at(bytes, b) by {
        lemma_phf_get(keys, p, qq, b);
    }
    assert(perm.to_set() =~= keys.to_set());
}


/// Under perfect parameters every slot holds one of the keys: the keys, sent to distinct
/// slots among as many, fill them all.
#[verifier::spinoff_prover]
#[verifier::rlimit(60)]
pub proof fn lemma_phf_slots_onto(keys: Seq<u8>, p: u8, qq: Seq<u8>)
    requires
        perfect(keys, p, qq),
        0 < keys.len() <= 256,
    ensures
        phf_bytes(keys, p, qq).len() == 2 * keys.len() + 1,
        forall|s: int|
            0 <= s < keys.len() ==> keys.contains(#[trigger] phf_bytes(keys, p, qq)[1 + keys.len() + s]),
{
    let n = keys.len() as usize;
    let ni = n as int;
    lemma_permuted(keys, p, qq, ni);
    let f = |x: int| slot(keys[x], p, qq, n) as int;
    let xs = vstd::set_lib::set_int_range(0, ni);
    let zs = vstd::set_lib::set_int_range(0, ni);
    let ys = xs.map(f);
    vstd::set_lib::lemma_int_range(0, ni);
    assert forall|x: int| 0 <= x < ni implies 0 <= #[trigger] f(x) < ni by {
        assert(slot(keys[x], p, qq, n) < n);
    }
    assert(vstd::relations::injective_on(f, xs)) by {
        assert forall|x: int, y: int| xs.contains(x) && xs.contains(y) && #[trigger] f(x) == #[trigger] f(y) implies x == y by {
            if x < y {
                assert(slot(keys[x], p, qq, n) != slot(keys[y], p, qq, n));
            } else if y < x {
                assert(slot(keys[y], p, qq, n) != slot(keys[x], p, qq, n));
            }
        }
    }
    vstd::set_lib::lemma_map_size(xs, ys, f);
    assert(ys.subset_of(zs)) by {
        assert forall|y: int| ys.contains(y) implies zs.contains(y) by {
            let x = choose|x: int| xs.contains(x) && y == f(x);
        }
    }
    vstd::set_lib::lemma_subset_equality(ys, zs);
    let pb = phf_bytes(keys, p, qq);
    let perm = permuted(keys, p, qq, ni);
    assert(pb =~= seq![p] + qq + perm);
    assert forall|s: int| 0 <= s < ni implies keys.contains(#[trigger] pb[1 + ni + s]) by {
        assert(zs.contains(s));
        assert(ys.contains(s));
        let x = choose|x: int| xs.contains(x) && s == f(x);
        assert(perm[slot(keys[x], p, qq, n) as int] == keys[x]);
        assert(pb[1 + ni + s] == perm[s]);
    }
}


/// The slots hold as many bytes as there are keys.
pub proof fn lemma_permuted_len(keys: Seq<u8>, p: u8, qq: Seq<u8>, k: int)
    requires
        0 < keys.len() <= 256,
        k <= keys.len(),
    ensures
        permuted(keys, p, qq, k).len() == keys.len(),
    decreases k,
{
    if k > 0 {
        lemma_permuted_len(keys, p, qq, k - 1);
        assert(slot(keys[k - 1], p, qq, keys.len() as usize) < keys.len());
    }
}

} // verus!
