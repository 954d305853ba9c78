//! Lookup in a trie of ASCII keys whose nodes are: ASCII bytes to match, value nodes
//! (`0b10` lead) and branch nodes (`0b11` lead) followed by a sorted search table and an
//! offset table.

use crate::ascii::AsciiByte;
use crate::varint::{lemma_read_varint_suffix, read_varint, spec_read_varint, usize_range};
use vstd::prelude::*;

verus! {

/// The kinds of trie byte, by their top two bits.
pub enum ByteType {
    Ascii,
    Value,
    Match,
}

/// The kind of the trie byte `b`.
pub open spec fn spec_byte_type(b: u8) -> ByteType {
    if b / 64 == 2 {
        ByteType::Value
    } else if b / 64 == 3 {
        ByteType::Match
    } else {
        ByteType::Ascii
    }
}

/// The bytes are in non-decreasing order.
pub open spec fn sorted(s: Seq<u8>) -> bool {
    forall|i: int, j: int| 0 <= i <= j < s.len() ==> s[i] <= s[j]
}

/// Binary search for `c` in the window of `size` bytes of `s` starting at `base`: the
/// window is halved, keeping the upper half while its first byte is not greater than `c`,
/// until one byte is left. That byte is `c` (`Ok` with its index), or `c` belongs just
/// after it (`Err(base + 1)`) or just before it (`Err(base)`).
pub open spec fn search_window(s: Seq<u8>, c: u8, base: int, size: int) -> Result<usize, usize>
    decreases size,
{
    if size > 1 {
        let half = size / 2;
        let mid = base + half;
        let next = if s[mid] > c {
            base
        } else {
            mid
        };
        search_window(s, c, next, size - half)
    } else if s[base] == c {
        Ok(base as usize)
    } else if s[base] < c {
        Err((base + 1) as usize)
    } else {
        Err(base as usize)
    }
}

/// Binary search for `c` in `s`. In a sorted `s`, `Ok` holds the index of a byte equal to
/// `c`, and `Err` the index at which `c` would keep the order.
pub open spec fn spec_binary_search(s: Seq<u8>, c: u8) -> Result<usize, usize> {
    if s.len() == 0 {
        Err(0)
    } else {
        search_window(s, c, 0, s.len() as int)
    }
}

proof fn lemma_search_window(s: Seq<u8>, c: u8, base: int, size: int)
    requires
        sorted(s),
        s.len() <= usize::MAX,
        size >= 1,
        0 <= base,
        base + size <= s.len(),
        forall|k: int| 0 <= k < base ==> s[k] <= c,
        forall|k: int| base + size <= k < s.len() ==> s[k] > c,
        base == 0 || s[base] <= c,
    ensures
        search_window(s, c, base, size) matches Ok(i) ==> i < s.len() && s[i as int] == c,
        search_window(s, c, base, size) matches Err(j) ==> j <= s.len() && (forall|k: int|
            0 <= k < j ==> s[k] < c) && (forall|k: int| j <= k < s.len() ==> s[k] > c),
    decreases size,
{
    if size > 1 {
        let half = size / 2;
        let mid = base + half;
        if s[mid] > c {
            assert forall|k: int| base + (size - half) <= k < s.len() implies s[k] > c by {
                assert(s[mid] <= s[k]);
            }
            lemma_search_window(s, c, base, size - half);
        } else {
            assert forall|k: int| 0 <= k < mid implies s[k] <= c by {
                assert(s[k] <= s[mid]);
            }
            lemma_search_window(s, c, mid, size - half);
        }
    } else if s[base] < c {
        assert forall|k: int| 0 <= k < base + 1 implies s[k] < c by {
            assert(s[k] <= s[base]);
        }
    } else if s[base] > c {
        assert(base == 0);
    }
}

/// In a sorted `s`, the search gives `Ok` exactly when `c` occurs, with the index of an
/// occurrence, and otherwise `Err` with the index that splits the bytes below `c` from
/// those above it.
pub proof fn lemma_binary_search_sorted(s: Seq<u8>, c: u8)
    requires
        sorted(s),
        s.len() <= usize::MAX,
    ensures
        spec_binary_search(s, c) is Ok <==> s.contains(c),
        spec_binary_search(s, c) matches Ok(i) ==> i < s.len() && s[i as int] == c,
        spec_binary_search(s, c) matches Err(j) ==> j <= s.len() && (forall|k: int|
            0 <= k < j ==> s[k] < c) && (forall|k: int| j <= k < s.len() ==> s[k] > c),
{
    if s.len() > 0 {
        lemma_search_window(s, c, 0, s.len() as int);
    }
    if spec_binary_search(s, c) is Ok {
        let i = spec_binary_search(s, c)->Ok_0;
        assert(s[i as int] == c);
    }
}

/// Binary search for `c` in `s`, as `spec_binary_search` describes it.
pub fn binary_search_bytes(s: &[u8], c: u8) -> (res: Result<usize, usize>)
    ensures
        res == spec_binary_search(s@, c),
{
    let mut size = s.len();
    if size == 0 {
        return Err(0);
    }
    let mut base: usize = 0;
    while size > 1
        invariant
            size >= 1,
            base + size <= s@.len(),
            s@.len() <= usize::MAX,
            search_window(s@, c, base as int, size as int) == spec_binary_search(s@, c),
        decreases size,
    {
        let half = size / 2;
        let mid = base + half;
        if s[mid] <= c {
            base = mid;
        }
        size -= half;
    }
    if s[base] == c {
        Ok(base)
    } else if s[base] < c {
        Err(base + 1)
    } else {
        Err(base)
    }
}

/// The wrapping product and sum of `a * 256 + b` for `usize` values.
pub open spec fn shift_in(a: int, b: int) -> int {
    (a * 256) % usize_range() + b
}

/// The offset table layers read by `get_branch`: each layer is `x` bytes; `p` and `q`
/// gather the bytes at `i` and `i + 1` (or the length of what follows, for the last
/// target); layers continue while what follows is longer than `h`. Returns `p`, `q` and
/// the number of bytes the layers take.
pub open spec fn branch_layers(trie: Seq<u8>, i: int, x: int, p: int, q: int, h: int) -> Option<
    (int, int, int),
>
    decreases trie.len(),
{
    if x <= 0 || x > trie.len() || i < 0 || i >= x {
        None
    } else {
        let indices = trie.take(x);
        let rest = trie.skip(x);
        let p2 = shift_in(p, indices[i] as int);
        let q2 = if i + 1 < x {
            shift_in(q, indices[i + 1] as int)
        } else {
            rest.len() as int
        };
        let h2 = shift_in(h, 255);
        if rest.len() <= h2 {
            Some((p2, q2, x))
        } else {
            match branch_layers(rest, i, x, p2, q2, h2) {
                Some((pp, qq, used)) => Some((pp, qq, used + x)),
                None => None,
            }
        }
    }
}

/// The bytes of target `i` of a branch with `x` targets, given the bytes after its search
/// table: the offset table is skipped and the target's range within what follows is taken.
pub open spec fn spec_get_branch(trie: Seq<u8>, i: int, x: int) -> Option<Seq<u8>> {
    match branch_layers(trie, i, x, 0, 0, 0) {
        Some((p, q, used)) => if 0 <= used <= trie.len() && 0 <= p <= q <= trie.len() - used {
            Some(trie.skip(used).subrange(p, q))
        } else {
            None
        },
        None => None,
    }
}

/// The value the trie `trie` holds for the key `key`, as `get` computes it.
pub open spec fn spec_get(trie: Seq<u8>, key: Seq<u8>) -> Option<usize>
    decreases trie.len(),
{
    if trie.len() == 0 {
        None
    } else {
        let b = trie[0];
        let t = trie.drop_first();
        let bt = spec_byte_type(b);
        let read = if bt is Ascii {
            Some((0usize, t))
        } else {
            spec_read_varint(b, t)
        };
        match read {
            None => None,
            Some((x, t2)) => {
                proof {
                    lemma_read_varint_suffix(b, t);
                }
                if key.len() > 0 {
                    let c = key[0];
                    if b == c {
                        spec_get(t2, key.drop_first())
                    } else if bt is Ascii {
                        None
                    } else if bt is Value {
                        spec_get(t2, key)
                    } else if x <= 1 || x > t2.len() {
                        None
                    } else {
                        let search = t2.take(x as int);
                        let after = t2.skip(x as int);
                        match spec_binary_search(search, c) {
                            Err(_) => None,
                            Ok(i) => match branch_layers(after, i as int, x as int, 0, 0, 0) {
                                Some((p, q, used)) => if 0 <= used <= after.len() && 0 <= p <= q
                                    <= after.len() - used {
                                    spec_get(after.skip(used).subrange(p, q), key.drop_first())
                                } else {
                                    None
                                },
                                None => None,
                            },
                        }
                    }
                } else if bt is Value {
                    Some(x)
                } else {
                    None
                }
            },
        }
    }
}

} // verus!

verus! {

/// The kind of the trie byte `b`.
pub fn byte_type(b: u8) -> (res: ByteType)
    ensures
        res == spec_byte_type(b),
{
    match b / 64 {
        2 => ByteType::Value,
        3 => ByteType::Match,
        _ => ByteType::Ascii,
    }
}

/// `slice` split at `mid`, or `None` if `mid` is past its end.
pub fn debug_split_at(slice: &[u8], mid: usize) -> (res: Option<(&[u8], &[u8])>)
    ensures
        mid <= slice@.len() <==> res is Some,
        res matches Some((a, b)) ==> a@ == slice@.take(mid as int) && b@ == slice@.skip(
            mid as int,
        ),
{
    if mid > slice.len() {
        None
    } else {
        let (a, b) = slice.split_at(mid);
        proof {
            assert(a@ =~= slice@.take(mid as int));
            assert(b@ =~= slice@.skip(mid as int));
        }
        Some((a, b))
    }
}

/// The byte at `index`, or `None` past the end.
pub fn debug_get(slice: &[u8], index: usize) -> (res: Option<u8>)
    ensures
        index < slice@.len() <==> res is Some,
        res matches Some(b) ==> b == slice@[index as int],
{
    if index < slice.len() {
        Some(slice[index])
    } else {
        None
    }
}

/// The bytes `start..end`, or `None` if that is not a range within the slice.
pub fn debug_get_range(slice: &[u8], start: usize, end: usize) -> (res: Option<&[u8]>)
    ensures
        (start <= end <= slice@.len()) <==> res is Some,
        res matches Some(r) ==> r@ == slice@.subrange(start as int, end as int),
{
    if start <= end && end <= slice.len() {
        Some(vstd::slice::slice_subrange(slice, start, end))
    } else {
        None
    }
}

proof fn lemma_range_facts()
    ensures
        usize_range() % 256 == 0,
        usize_range() >= 0x1_0000_0000,
{
    crate::varint::lemma_usize_bounds();
}

proof fn lemma_shift_in(a: int, b: int)
    requires
        0 <= a,
        0 <= b < 256,
    ensures
        0 <= shift_in(a, b) <= usize::MAX,
{
    let m = usize_range();
    lemma_range_facts();
    vstd::arithmetic::div_mod::lemma_mod_mod(a * 256, 256, m / 256);
    vstd::arithmetic::div_mod::lemma_mod_multiples_basic(a, 256);
    let r = (a * 256) % m;
    vstd::arithmetic::div_mod::lemma_mod_bound(a * 256, m);
    assert(256 * (m / 256) == m) by {
        vstd::arithmetic::div_mod::lemma_fundamental_div_mod(m, 256);
    }
    assert(r % 256 == 0);
    assert(r + 256 <= m) by {
        vstd::arithmetic::div_mod::lemma_fundamental_div_mod(r, 256);
        assert(r == 256 * (r / 256));
        assert(r / 256 < m / 256) by (nonlinear_arith)
            requires
                r == 256 * (r / 256),
                r < m,
                m == 256 * (m / 256),
        ;
        assert(256 * (r / 256) + 256 <= 256 * (m / 256)) by (nonlinear_arith)
            requires
                r / 256 < m / 256,
        ;
    }
}

fn shift_in_exec(a: usize, b: u8) -> (res: usize)
    ensures
        res == shift_in(a as int, b as int),
{
    proof {
        lemma_shift_in(a as int, b as int);
        crate::varint::lemma_wrapping_mul(a, 256);
    }
    a.wrapping_mul(256) + b as usize
}

/// Given the bytes after a branch node's search table, returns the bytes of target `i` of
/// the `x` targets, or `None` when the offset table or the range it gives does not fit.
pub fn get_branch(trie: &[u8], i: usize, x: usize) -> (res: Option<&[u8]>)
    ensures
        match spec_get_branch(trie@, i as int, x as int) {
            Some(s) => res matches Some(r) && r@ == s,
            None => res is None,
        },
{
    let ghost orig = trie@;
    let mut cur = trie;
    let mut p: usize = 0;
    let mut q: usize = 0;
    let mut h: usize = 0;
    let ghost mut used: int = 0;
    loop
        invariant_except_break
            branch_layers(orig, i as int, x as int, 0, 0, 0) == match branch_layers(
                cur@,
                i as int,
                x as int,
                p as int,
                q as int,
                h as int,
            ) {
                Some((pp, qq, u)) => Some((pp, qq, u + used)),
                None => None,
            },
        invariant
            0 <= used <= orig.len(),
            cur@ == orig.skip(used),
            orig == trie@,
        ensures
            branch_layers(orig, i as int, x as int, 0, 0, 0) == Some(
                (p as int, q as int, used),
            ),
        decreases cur@.len(),
    {
        let (indices, rest) = match debug_split_at(cur, x) {
            Some(t) => t,
            None => {
                return None;
            },
        };
        if x == 0 {
            return None;
        }
        let pi = match debug_get(indices, i) {
            Some(b) => b,
            None => {
                return None;
            },
        };
        let p2 = shift_in_exec(p, pi);
        let q2 = if i + 1 < x {
            shift_in_exec(q, indices[i + 1])
        } else {
            rest.len()
        };
        let h2 = shift_in_exec(h, 255);
        proof {
            assert(rest@ =~= orig.skip(used + x));
            assert(indices@ =~= cur@.take(x as int));
            assert(rest@ =~= cur@.skip(x as int));
        }
        p = p2;
        q = q2;
        h = h2;
        cur = rest;
        proof {
            used = used + x;
        }
        if cur.len() <= h {
            break;
        }
    }
    debug_get_range(cur, p, q)
}

/// Looks up `ascii` in the trie `trie`: follows matching ASCII bytes, passes over value
/// nodes that the key has not reached the end at, and at a branch node descends into the
/// target for the key's next byte. Returns the value of the value node reached when the key
/// is used up, or `None`.
pub fn get(trie: &[u8], ascii: &[u8]) -> (res: Option<usize>)
    ensures
        res == spec_get(trie@, ascii@),
{
    let mut cur = trie;
    let mut key = ascii;
    loop
        invariant
            spec_get(cur@, key@) == spec_get(trie@, ascii@),
        decreases cur@.len(),
    {
        if cur.len() == 0 {
            return None;
        }
        let b = cur[0];
        let t = vstd::slice::slice_subrange(cur, 1, cur.len());
        proof {
            assert(t@ =~= cur@.drop_first());
            lemma_read_varint_suffix(b, t@);
        }
        let bt = byte_type(b);
        let (x, t2) = match bt {
            ByteType::Ascii => (0usize, t),
            _ => match read_varint(b, t) {
                Some(r) => r,
                None => {
                    return None;
                },
            },
        };
        if key.len() == 0 {
            return match bt {
                ByteType::Value => Some(x),
                _ => None,
            };
        }
        let c = key[0];
        let rest = vstd::slice::slice_subrange(key, 1, key.len());
        proof {
            assert(rest@ =~= key@.drop_first());
        }
        if b == c {
            cur = t2;
            key = rest;
            continue ;
        }
        match bt {
            ByteType::Ascii => {
                return None;
            },
            ByteType::Value => {
                cur = t2;
                continue ;
            },
            ByteType::Match => {},
        }
        if x <= 1 {
            return None;
        }
        let (search, after) = match debug_split_at(t2, x) {
            Some(r) => r,
            None => {
                return None;
            },
        };
        let i = match binary_search_bytes(search, c) {
            Ok(i) => i,
            Err(_) => {
                return None;
            },
        };
        cur = match get_branch(after, i, x) {
            Some(r) => r,
            None => {
                return None;
            },
        };
        key = rest;
    }
}

} // verus!

verus! {

/// The key and value pairs that a walk of the trie `trie` yields in depth-first order,
/// starting with the key bytes `s` gathered so far and at target `bidx` of a branch node
/// that `trie` starts with; `None` where the walk meets bytes it cannot read.
pub open spec fn trie_items(trie: Seq<u8>, s: Seq<u8>, bidx: usize) -> Option<
    Seq<(Seq<u8>, usize)>,
>
    decreases trie.len(), usize::MAX - bidx,
{
    if trie.len() == 0 {
        Some(Seq::empty())
    } else {
        let b = trie[0];
        let t = trie.drop_first();
        if spec_byte_type(b) is Ascii {
            trie_items(t, s.push(b), bidx)
        } else {
            match spec_read_varint(b, t) {
                None => None,
                Some((x, t2)) => {
                    proof {
                        lemma_read_varint_suffix(b, t);
                    }
                    if spec_byte_type(b) is Value {
                        match trie_items(t2, s, 0) {
                            Some(rest) => Some(seq![(s, x)] + rest),
                            None => None,
                        }
                    } else if x > t2.len() || bidx >= x {
                        None
                    } else {
                        let a = t2[bidx as int];
                        match spec_get_branch(t2.skip(x as int), bidx as int, x as int) {
                            None => None,
                            Some(child) => {
                                let first = trie_items(
                                    child,
                                    s.push(if a < 128 { a } else { 0 }),
                                    0,
                                );
                                let more = if bidx + 1 < x {
                                    trie_items(trie, s, (bidx + 1) as usize)
                                } else {
                                    Some(Seq::empty())
                                };
                                match (first, more) {
                                    (Some(f), Some(m)) => Some(f + m),
                                    _ => None,
                                }
                            },
                        }
                    }
                },
            }
        }
    }
}

/// The number of steps a walk of `trie` from target `bidx` takes: one per byte read,
/// node passed or walk ended.
pub open spec fn walk_steps(trie: Seq<u8>, bidx: usize) -> nat
    decreases trie.len(), usize::MAX - bidx,
{
    if trie.len() == 0 {
        1
    } else {
        let b = trie[0];
        let t = trie.drop_first();
        if spec_byte_type(b) is Ascii {
            1 + walk_steps(t, bidx)
        } else {
            match spec_read_varint(b, t) {
                None => 1,
                Some((x, t2)) => {
                    proof {
                        lemma_read_varint_suffix(b, t);
                    }
                    if spec_byte_type(b) is Value || x > t2.len() || bidx >= x {
                        1
                    } else {
                        match spec_get_branch(t2.skip(x as int), bidx as int, x as int) {
                            None => 1,
                            Some(child) => 1 + walk_steps(child, 0) + if bidx + 1 < x {
                                walk_steps(trie, (bidx + 1) as usize)
                            } else {
                                0
                            },
                        }
                    }
                },
            }
        }
    }
}

/// The steps of the walks still to be taken.
pub open spec fn stack_steps(state: Seq<(Seq<u8>, Seq<u8>, usize)>) -> nat
    decreases state.len(),
{
    if state.len() == 0 {
        0
    } else {
        walk_steps(state.last().0, state.last().2) + stack_steps(state.drop_last())
    }
}

/// The frames of a walk's stack, as bytes.
pub open spec fn frames<'a>(state: Seq<(&'a [u8], Vec<u8>, usize)>) -> Seq<(Seq<u8>, Seq<u8>, usize)> {
    state.map_values(|f: (&'a [u8], Vec<u8>, usize)| (f.0@, f.1@, f.2))
}

/// The pairs that the walks still to be taken yield: the last one first.
pub open spec fn stack_items(state: Seq<(Seq<u8>, Seq<u8>, usize)>) -> Option<
    Seq<(Seq<u8>, usize)>,
>
    decreases state.len(),
{
    if state.len() == 0 {
        Some(Seq::empty())
    } else {
        let top = state.last();
        match (trie_items(top.0, top.1, top.2), stack_items(state.drop_last())) {
            (Some(a), Some(b)) => Some(a + b),
            _ => None,
        }
    }
}

/// A walk over the key and value pairs of a trie, in depth-first order.
pub struct AsciiTrieIterator<'a> {
    state: Vec<(&'a [u8], Vec<u8>, usize)>,
}

impl<'a> AsciiTrieIterator<'a> {
    /// The pairs still to come, or `None` if the walk will meet bytes it cannot read.
    pub closed spec fn view(&self) -> Option<Seq<(Seq<u8>, usize)>> {
        stack_items(frames(self.state@))
    }

    /// A walk over the trie `trie`.
    pub fn new(trie: &'a [u8]) -> (res: Self)
        ensures
            res@ == trie_items(trie@, Seq::empty(), 0),
    {
        let mut state: Vec<(&'a [u8], Vec<u8>, usize)> = Vec::new();
        state.push((trie, Vec::new(), 0));
        let res = AsciiTrieIterator { state };
        proof {
            let frames = frames(res.state@);
            assert(frames.drop_last() =~= Seq::<(Seq<u8>, Seq<u8>, usize)>::empty());
            assert(frames.last() == (trie@, Seq::<u8>::empty(), 0usize));
            assert(stack_items(frames.drop_last()) == Some(Seq::<(Seq<u8>, usize)>::empty()));
            assert(res@ == stack_items(frames));
            match trie_items(trie@, Seq::empty(), 0) {
                Some(a) => {
                    assert(a + Seq::<(Seq<u8>, usize)>::empty() =~= a);
                },
                None => {},
            }
        }
        res
    }

    /// The next pair, or `None` at the end of the walk.
    pub fn next(&mut self) -> (res: Option<(Vec<u8>, usize)>)
        ensures
            old(self)@ matches Some(items) ==> if items.len() == 0 {
                res is None && final(self)@ == Some(items)
            } else {
                &&& res matches Some((k, v)) && k@ == items[0].0 && v == items[0].1
                &&& final(self)@ == Some(items.drop_first())
            },
    {
        let ghost v0 = self@;
        let ghost s0 = frames(self.state@);
        let popped = self.state.pop();
        let (mut trie, mut string, mut branch_idx) = match popped {
            Some(f) => f,
            None => {
                return None;
            },
        };
        proof {
            assert(frames(self.state@) =~= s0.drop_last());
            assert(frames(self.state@).push((trie@, string@, branch_idx)) =~= s0);
        }
        loop
            invariant
                stack_items(frames(self.state@).push((trie@, string@, branch_idx))) == v0,
                v0 == old(self)@,
            decreases walk_steps(trie@, branch_idx) + stack_steps(frames(self.state@)),
        {
            let ghost before = frames(self.state@).push((trie@, string@, branch_idx));
            let outcome = self.step(trie, string, branch_idx);
            proof {
                assert(stack_items(before) == v0);
            }
            match outcome {
                Step::Next(t, s, bi) => {
                    trie = t;
                    string = s;
                    branch_idx = bi;
                },
                Step::Done(r) => {
                    return r;
                },
            }
        }
    }

    /// One step of the walk from the frame `(trie, string, branch_idx)`: the frame to go on
    /// with, or what `next` returns.
    #[verifier::spinoff_prover]
    #[verifier::rlimit(30)]
    fn step(&mut self, trie: &'a [u8], string: Vec<u8>, branch_idx: usize) -> (res: Step<'a>)
        ensures
            ({
                let v = stack_items(frames(old(self).state@).push((trie@, string@, branch_idx)));
                match res {
                    Step::Next(t, s, bi) => {
                        &&& stack_items(frames(final(self).state@).push((t@, s@, bi))) == v
                        &&& walk_steps(t@, bi) + stack_steps(frames(final(self).state@))
                            < walk_steps(trie@, branch_idx) + stack_steps(frames(old(self).state@))
                    },
                    Step::Done(r) => v matches Some(items) ==> if items.len() == 0 {
                        r is None && final(self)@ == Some(items)
                    } else {
                        &&& r matches Some((k, x)) && k@ == items[0].0 && x == items[0].1
                        &&& final(self)@ == Some(items.drop_first())
                    },
                }
            }),
    {
        let mut string = string;
        let ghost st = frames(self.state@);
        let ghost cur = (trie@, string@, branch_idx);
        proof {
            lemma_stack_push(st, cur);
        }
        if trie.len() == 0 {
            let popped = self.state.pop();
            match popped {
                Some(f) => {
                    proof {
                        assert(frames(self.state@) =~= st.drop_last());
                        lemma_stack_push(st.drop_last(), st.last());
                        assert(st.drop_last().push(st.last()) =~= st);
                        assert(frames(self.state@).push((f.0@, f.1@, f.2)) =~= st);
                        match stack_items(st) {
                            Some(b) => {
                                assert(Seq::<(Seq<u8>, usize)>::empty() + b =~= b);
                            },
                            None => {},
                        }
                    }
                    return Step::Next(f.0, f.1, f.2);
                },
                None => {
                    proof {
                        assert(frames(self.state@) =~= st);
                        assert(st =~= Seq::<(Seq<u8>, Seq<u8>, usize)>::empty());
                        assert(Seq::<(Seq<u8>, usize)>::empty() + Seq::<(Seq<u8>, usize)>::empty()
                            =~= Seq::<(Seq<u8>, usize)>::empty());
                    }
                    return Step::Done(None);
                },
            }
        }
        let return_trie = trie;
        let b = trie[0];
        let rest = vstd::slice::slice_subrange(trie, 1, trie.len());
        proof {
            assert(rest@ =~= trie@.drop_first());
            lemma_read_varint_suffix(b, rest@);
            lemma_items_head(cur.0, cur.1, branch_idx);
        }
        let bt = byte_type(b);
        if let ByteType::Ascii = bt {
            string.push(AsciiByte::debug_from_u8(b).get());
            proof {
                assert(b < 128);
                lemma_stack_push(st, (rest@, string@, branch_idx));
            }
            return Step::Next(rest, string, branch_idx);
        }
        let (x, after_head) = match read_varint(b, rest) {
            Some(r) => r,
            None => {
                return Step::Done(None);
            },
        };
        if let ByteType::Value = bt {
            let retval = string.clone();
            proof {
                assert(retval@ =~= string@);
            }
            let ghost after = after_head@;
            self.state.push((after_head, string, 0));
            proof {
                assert(frames(self.state@) =~= st.push((after, cur.1, 0usize)));
                lemma_stack_push(st, (after, cur.1, 0usize));
                match (trie_items(after, cur.1, 0), stack_items(st)) {
                    (Some(a), Some(bb)) => {
                        assert(seq![(cur.1, x)] + a + bb =~= seq![(cur.1, x)] + (a + bb));
                        assert((seq![(cur.1, x)] + (a + bb)).drop_first() =~= a + bb);
                    },
                    _ => {},
                }
            }
            return Step::Done(Some((retval, x)));
        }
        if x > 0 && branch_idx < x - 1 {
            let copy = string.clone();
            proof {
                assert(copy@ =~= string@);
            }
            self.state.push((return_trie, copy, branch_idx + 1));
            proof {
                assert(frames(self.state@) =~= st.push((cur.0, cur.1, (branch_idx + 1) as usize)));
            }
        }
        let ghost st2 = frames(self.state@);
        let (search, after_search) = match debug_split_at(after_head, x) {
            Some(t) => t,
            None => {
                return Step::Done(None);
            },
        };
        let ascii = match debug_get(search, branch_idx) {
            Some(a) => a,
            None => {
                return Step::Done(None);
            },
        };
        string.push(AsciiByte::debug_from_u8(ascii).get());
        let child = match get_branch(after_search, branch_idx, x) {
            Some(c) => c,
            None => {
                return Step::Done(None);
            },
        };
        proof {
            let s2 = cur.1.push(if ascii < 128 { ascii } else { 0 });
            assert(string@ == s2);
            lemma_stack_push(st2, (child@, s2, 0usize));
            if branch_idx + 1 < x {
                lemma_stack_push(st, (cur.0, cur.1, (branch_idx + 1) as usize));
                match (
                    trie_items(child@, s2, 0),
                    trie_items(cur.0, cur.1, (branch_idx + 1) as usize),
                    stack_items(st),
                ) {
                    (Some(a), Some(m), Some(r)) => {
                        assert(a + m + r =~= a + (m + r));
                    },
                    _ => {},
                }
            } else {
                assert(st2 =~= st);
                match (trie_items(child@, s2, 0), stack_items(st)) {
                    (Some(a), Some(r)) => {
                        assert(a + Seq::<(Seq<u8>, usize)>::empty() =~= a);
                    },
                    _ => {},
                }
            }
        }
        Step::Next(child, string, 0)
    }
}

/// What one step of a walk gives: the frame to go on with, or what the walk returns.
pub enum Step<'a> {
    Next(&'a [u8], Vec<u8>, usize),
    Done(Option<(Vec<u8>, usize)>),
}

/// What a walk does with the first byte of `trie`.
proof fn lemma_items_head(trie: Seq<u8>, s: Seq<u8>, bidx: usize)
    requires
        trie.len() > 0,
    ensures
        ({
            let b = trie[0];
            let t = trie.drop_first();
            if spec_byte_type(b) is Ascii {
                &&& trie_items(trie, s, bidx) == trie_items(t, s.push(b), bidx)
                &&& walk_steps(trie, bidx) == 1 + walk_steps(t, bidx)
            } else {
                match spec_read_varint(b, t) {
                    None => trie_items(trie, s, bidx) is None,
                    Some((x, t2)) => if spec_byte_type(b) is Value {
                        trie_items(trie, s, bidx) == match trie_items(t2, s, 0) {
                            Some(rest) => Some(seq![(s, x)] + rest),
                            None => None,
                        }
                    } else if x > t2.len() || bidx >= x {
                        trie_items(trie, s, bidx) is None
                    } else {
                        let a = t2[bidx as int];
                        match spec_get_branch(t2.skip(x as int), bidx as int, x as int) {
                            None => trie_items(trie, s, bidx) is None,
                            Some(child) => {
                                &&& trie_items(trie, s, bidx) == match (
                                    trie_items(child, s.push(if a < 128 { a } else { 0 }), 0),
                                    if bidx + 1 < x {
                                        trie_items(trie, s, (bidx + 1) as usize)
                                    } else {
                                        Some(Seq::empty())
                                    },
                                ) {
                                    (Some(f), Some(m)) => Some(f + m),
                                    _ => None,
                                }
                                &&& walk_steps(trie, bidx) == 1 + walk_steps(child, 0) + if bidx + 1 < x {
                                    walk_steps(trie, (bidx + 1) as usize)
                                } else {
                                    0
                                }
                            },
                        }
                    },
                }
            }
        }),
{
}

/// Pushing a walk onto the stack puts its pairs and steps first.
proof fn lemma_stack_push(st: Seq<(Seq<u8>, Seq<u8>, usize)>, f: (Seq<u8>, Seq<u8>, usize))
    ensures
        stack_items(st.push(f)) == match (trie_items(f.0, f.1, f.2), stack_items(st)) {
            (Some(a), Some(b)) => Some(a + b),
            _ => None,
        },
        stack_steps(st.push(f)) == walk_steps(f.0, f.2) + stack_steps(st),
{
    assert(st.push(f).drop_last() =~= st);
}

} // verus!
