//! Lookup in the tries that `builder6` lays out: ASCII bytes, value nodes, byte spans and
//! branch nodes whose targets are found by their byte, among bytes in increasing order or
//! through a perfect hash, and reached through an offset table.

use crate::byte_phf::{phf_get, PerfectByteHashMap};
use crate::varint::{lemma_read_varint_suffix, read_varint, spec_read_varint};
use crate::varinta::{lemma_read_varint2_suffix, read_varint2, spec_read_varint2};
use vstd::prelude::*;

verus! {

/// The first position of `c` in `ks` from `i` on.
pub open spec fn find_byte(ks: Seq<u8>, c: u8, i: int) -> Option<usize>
    decreases ks.len() - i,
{
    if i < 0 || i >= ks.len() {
        None
    } else if ks[i] == c {
        Some(i as usize)
    } else {
        find_byte(ks, c, i + 1)
    }
}

/// The start of target `i` (from 1) in an offset table of `l` layers of `n1` bytes, the
/// most significant layer first.
pub open spec fn table_offset(tab: Seq<u8>, n1: int, i: int, l: nat) -> int
    decreases l,
{
    if l == 0 {
        0
    } else {
        table_offset(tab, n1, i, (l - 1) as nat) * 256 + tab[(l - 1) * n1 + i - 1] as int
    }
}

/// The number of targets of a branch node holding `x`.
pub open spec fn branch_count(x: usize) -> int {
    if x % 256 == 0 {
        256
    } else {
        (x % 256) as int
    }
}

/// Whether a branch with `n` targets is read through a perfect hash.
pub open spec fn reads_phf(phf: bool, n: int) -> bool {
    phf && n > 15
}

/// The value the trie `trie` holds for `key`, as `get` computes it; `phf` says whether
/// branches with more than 15 targets hold a perfect hash.
pub open spec fn spec_get6(trie: Seq<u8>, key: Seq<u8>, phf: bool) -> Option<usize>
    decreases trie.len(),
{
    if trie.len() == 0 {
        None
    } else {
        let b = trie[0];
        let t = trie.drop_first();
        if b < 0x80 {
            if key.len() > 0 && key[0] == b {
                spec_get6(t, key.drop_first(), phf)
            } else {
                None
            }
        } else if b < 0xA0 {
            proof {
                lemma_read_varint2_suffix(b, t);
            }
            match spec_read_varint2(b, t) {
                None => None,
                Some((x, t2)) => if key.len() == 0 {
                    Some(x)
                } else {
                    spec_get6(t2, key, phf)
                },
            }
        } else if b < 0xC0 {
            proof {
                lemma_read_varint2_suffix(b, t);
            }
            match spec_read_varint2(b, t) {
                None => None,
                Some((l, t2)) => if l <= t2.len() && l <= key.len() && key.take(l as int) == t2.take(l as int) {
                    spec_get6(t2.skip(l as int), key.skip(l as int), phf)
                } else {
                    None
                },
            }
        } else {
            proof {
                lemma_read_varint_suffix(b, t);
            }
            match spec_read_varint(b, t) {
                None => None,
                Some((x, t2)) => if key.len() == 0 {
                    None
                } else {
                    let n = branch_count(x);
                    let layers = x / 256 + 1;
                    let klen = if reads_phf(phf, n) { 2 * n + 1 } else { n };
                    if klen > t2.len() || layers > 8 {
                        None
                    } else {
                        let ks = t2.take(klen);
                        let t3 = t2.skip(klen);
                        let idx = if reads_phf(phf, n) { phf_get(ks, key[0]) } else { find_byte(ks, key[0], 0) };
                        let tlen = layers * (n - 1);
                        match idx {
                            None => None,
                            Some(i) => if tlen > t3.len() || i >= n {
                                None
                            } else {
                                let tab = t3.take(tlen);
                                let rest = t3.skip(tlen);
                                let start = if i == 0 { 0 } else { table_offset(tab, n - 1, i as int, layers as nat) };
                                let end = if i + 1 == n { rest.len() as int } else { table_offset(tab, n - 1, i + 1, layers as nat) };
                                if 0 <= start <= end <= rest.len() {
                                    spec_get6(rest.subrange(start, end), key.drop_first(), phf)
                                } else {
                                    None
                                }
                            },
                        }
                    }
                },
            }
        }
    }
}

/// The part of the trie that a branch node, whose head holds `x` and is followed by `t2`,
/// gives for the byte `c`: the target found for `c` (through the perfect hash when `phf`
/// is set and there are more than 15 targets), cut out of the tries by the offset table.
pub open spec fn branch_child6(x: usize, t2: Seq<u8>, c: u8, phf: bool) -> Option<Seq<u8>> {
    let n = branch_count(x);
    let layers = x / 256 + 1;
    let klen = if reads_phf(phf, n) { 2 * n + 1 } else { n };
    if klen > t2.len() || layers > 8 {
        None
    } else {
        let ks = t2.take(klen);
        let t3 = t2.skip(klen);
        let idx = if reads_phf(phf, n) { phf_get(ks, c) } else { find_byte(ks, c, 0) };
        let tlen = layers * (n - 1);
        match idx {
            None => None,
            Some(i) => if tlen > t3.len() || i >= n {
                None
            } else {
                let tab = t3.take(tlen);
                let rest = t3.skip(tlen);
                let start = if i == 0 { 0 } else { table_offset(tab, n - 1, i as int, layers as nat) };
                let end = if i + 1 == n { rest.len() as int } else { table_offset(tab, n - 1, i + 1, layers as nat) };
                if 0 <= start <= end <= rest.len() {
                    Some(rest.subrange(start, end))
                } else {
                    None
                }
            },
        }
    }
}

/// The first position of `c` in `ks`, or `None`.
fn find_byte_exec(ks: &[u8], c: u8) -> (res: Option<usize>)
    ensures
        res == find_byte(ks@, c, 0),
{
    let mut i: usize = 0;
    while i < ks.len()
        invariant
            i <= ks@.len(),
            find_byte(ks@, c, 0) == find_byte(ks@, c, i as int),
        decreases ks@.len() - i,
    {
        if ks[i] == c {
            return Some(i);
        }
        i += 1;
    }
    None
}

/// The start of target `i` in the offset table `tab`.
fn table_offset_exec(tab: &[u8], n1: usize, i: usize, layers: usize) -> (res: u128)
    requires
        1 <= i <= n1,
        layers <= 8,
        layers * n1 <= tab@.len(),
    ensures
        res == table_offset(tab@, n1 as int, i as int, layers as nat),
{
    let tl = tab.len();
    let mut acc: u128 = 0;
    let mut l: usize = 0;
    while l < layers
        invariant
            tl == tab@.len(),
            l <= layers <= 8,
            1 <= i <= n1,
            layers * n1 <= tab@.len(),
            acc == table_offset(tab@, n1 as int, i as int, l as nat),
            acc < crate::varintx::pow256(l as nat),
        decreases layers - l,
    {
        proof {
            assert(l * n1 + i - 1 < layers * n1) by (nonlinear_arith)
                requires
                    l < layers,
                    1 <= i <= n1,
            ;
            reveal_with_fuel(crate::varintx::pow256, 9);
            assert(crate::varintx::pow256(8) == 0x1_0000_0000_0000_0000);
            crate::offsets::lemma_pow256_mono((l + 1) as nat, 8);
            assert(crate::varintx::pow256((l + 1) as nat) == 256 * crate::varintx::pow256(l as nat));
            assert(acc * 256 + 255 < crate::varintx::pow256((l + 1) as nat)) by (nonlinear_arith)
                requires
                    acc < crate::varintx::pow256(l as nat),
                    crate::varintx::pow256((l + 1) as nat) == 256 * crate::varintx::pow256(l as nat),
            ;
            assert(acc * 256 + 255 < 0x1_0000_0000_0000_0000);
        }
        let b = tab[l * n1 + i - 1];
        acc = acc * 256 + b as u128;
        l += 1;
    }
    acc
}


/// What one step of the lookup leads to: the answer, or the rest of the trie and key.
pub enum Step6<'a, 'b> {
    Stop(Option<usize>),
    Next(&'a [u8], &'b [u8]),
}

/// One step at a branch node whose lead byte `b` is followed by `t`.
#[verifier::spinoff_prover]
#[verifier::rlimit(60)]
fn branch_step<'a, 'b>(b: u8, t: &'a [u8], k: &'b [u8], phf: bool) -> (res: Option<(&'a [u8], &'b [u8])>)
    requires
        b >= 0xC0,
    ensures
        spec_get6(seq![b] + t@, k@, phf) == match res {
            None => None,
            Some((c2, k2)) => spec_get6(c2@, k2@, phf),
        },
        res matches Some((c2, k2)) ==> c2@.len() <= t@.len(),
        k@.len() > 0 ==> match spec_read_varint(b, t@) {
            None => res is None,
            Some((x, t2)) => match branch_child6(x, t2, k@[0], phf) {
                None => res is None,
                Some(ch) => res matches Some((c2, k2)) && c2@ == ch,
            },
        },
        res matches Some((c2, k2)) ==> k@.len() > 0 && (forall|s: Seq<u8>|
            s.len() > 0 && s[0] == k@[0] ==> #[trigger] spec_get6(seq![b] + t@, s, phf) == spec_get6(
                c2@,
                s.drop_first(),
                phf,
            )),
{
    let ghost whole = seq![b] + t@;
    proof {
        assert(whole[0] == b);
        assert(whole.drop_first() =~= t@);
    }
    proof {
        lemma_read_varint_suffix(b, t@);
    }
    let (x, t2) = match read_varint(b, t) {
        Some(r) => r,
        None => {
            return None;
        },
    };
    if k.len() == 0 {
        return None;
    }
    let n: usize = if x % 256 == 0 {
        256
    } else {
        x % 256
    };
    let layers = x / 256 + 1;
    let use_phf = phf && n > 15;
    let klen = if use_phf {
        2 * n + 1
    } else {
        n
    };
    if klen > t2.len() || layers > 8 {
        return None;
    }
    let ks = vstd::slice::slice_subrange(t2, 0, klen);
    let t3 = vstd::slice::slice_subrange(t2, klen, t2.len());
    proof {
        assert(ks@ =~= t2@.take(klen as int));
        assert(t3@ =~= t2@.skip(klen as int));
    }
    let idx = if use_phf {
        PerfectByteHashMap::from_store(ks).get(k[0])
    } else {
        find_byte_exec(ks, k[0])
    };
    let i = match idx {
        Some(i) => i,
        None => {
            return None;
        },
    };
    let n1 = n - 1;
    proof {
        assert(layers * n1 <= 8 * 255) by (nonlinear_arith)
            requires
                layers <= 8,
                n1 <= 255,
        ;
    }
    let tlen = layers * n1;
    if tlen > t3.len() || i >= n {
        return None;
    }
    let tab = vstd::slice::slice_subrange(t3, 0, tlen);
    let rest = vstd::slice::slice_subrange(t3, tlen, t3.len());
    proof {
        assert(tab@ =~= t3@.take(tlen as int));
        assert(rest@ =~= t3@.skip(tlen as int));
    }
    let start: u128 = if i == 0 {
        0
    } else {
        table_offset_exec(tab, n1, i, layers)
    };
    let end: u128 = if i + 1 == n {
        rest.len() as u128
    } else {
        table_offset_exec(tab, n1, i + 1, layers)
    };
    if !(start <= end && end <= rest.len() as u128) {
        return None;
    }
    let sub = vstd::slice::slice_subrange(rest, start as usize, end as usize);
    let k2 = vstd::slice::slice_subrange(k, 1, k.len());
    proof {
        assert(k2@ =~= k@.drop_first());
        assert(sub@ =~= rest@.subrange(start as int, end as int));
        assert forall|s: Seq<u8>| s.len() > 0 && s[0] == k@[0] implies #[trigger] spec_get6(
            whole,
            s,
            phf,
        ) == spec_get6(sub@, s.drop_first(), phf) by {
            assert(whole[0] == b);
            assert(whole.drop_first() =~= t@);
        }
    }
    Some((sub, k2))
}

/// One step of the lookup from `cur` with the key `k`.
fn step6<'a, 'b>(cur: &'a [u8], k: &'b [u8], phf: bool) -> (res: Step6<'a, 'b>)
    ensures
        match res {
            Step6::Stop(r) => r == spec_get6(cur@, k@, phf),
            Step6::Next(c2, k2) => spec_get6(c2@, k2@, phf) == spec_get6(cur@, k@, phf) && c2@.len() < cur@.len(),
        },
{
    if cur.len() == 0 {
        return Step6::Stop(None);
    }
    let b = cur[0];
    let t = vstd::slice::slice_subrange(cur, 1, cur.len());
    proof {
        assert(t@ =~= cur@.drop_first());
        assert(cur@ =~= seq![b] + t@);
    }
    if b < 0x80 {
        if k.len() > 0 && k[0] == b {
            let rest = vstd::slice::slice_subrange(k, 1, k.len());
            proof {
                assert(rest@ =~= k@.drop_first());
            }
            return Step6::Next(t, rest);
        }
        Step6::Stop(None)
    } else if b < 0xA0 {
        proof {
            lemma_read_varint2_suffix(b, t@);
        }
        let (x, t2) = match read_varint2(b, t) {
            Some(r) => r,
            None => {
                return Step6::Stop(None);
            },
        };
        if k.len() == 0 {
            return Step6::Stop(Some(x));
        }
        Step6::Next(t2, k)
    } else if b < 0xC0 {
        proof {
            lemma_read_varint2_suffix(b, t@);
        }
        let (l, t2) = match read_varint2(b, t) {
            Some(r) => r,
            None => {
                return Step6::Stop(None);
            },
        };
        if l > t2.len() || l > k.len() {
            return Step6::Stop(None);
        }
        let mut j: usize = 0;
        while j < l
            invariant
                j <= l <= t2@.len(),
                l <= k@.len(),
                forall|m: int| 0 <= m < j ==> t2@[m] == k@[m],
                spec_read_varint2(b, t@) == Some((l, t2@)),
                cur@ == seq![b] + t@,
                t@ == cur@.drop_first(),
                0xA0 <= b < 0xC0,
            decreases l - j,
        {
            if t2[j] != k[j] {
                proof {
                    assert(k@.take(l as int)[j as int] != t2@.take(l as int)[j as int]);
                    assert(k@.take(l as int) != t2@.take(l as int));
                    assert(spec_read_varint2(b, t@) == Some((l, t2@)));
                    assert(spec_get6(cur@, k@, phf) == None::<usize>);
                }
                return Step6::Stop(None);
            }
            j += 1;
        }
        proof {
            assert(k@.take(l as int) =~= t2@.take(l as int));
        }
        let c2 = vstd::slice::slice_subrange(t2, l, t2.len());
        let k2 = vstd::slice::slice_subrange(k, l, k.len());
        proof {
            assert(c2@ =~= t2@.skip(l as int));
            assert(k2@ =~= k@.skip(l as int));
        }
        Step6::Next(c2, k2)
    } else {
        match branch_step(b, t, k, phf) {
            Some((c2, k2)) => Step6::Next(c2, k2),
            None => Step6::Stop(None),
        }
    }
}

/// Looks up `key` in the trie `trie`: ASCII bytes and spans are matched, value nodes give
/// their value when the key is used up, and at a branch node the key's next byte picks
/// the target (through the perfect hash when `phf` is set and the branch has more than 15
/// targets). Returns the value, or `None`.
pub fn get6(trie: &[u8], key: &[u8], phf: bool) -> (res: Option<usize>)
    ensures
        res == spec_get6(trie@, key@, phf),
{
    let mut cur = trie;
    let mut k = key;
    loop
        invariant
            spec_get6(cur@, k@, phf) == spec_get6(trie@, key@, phf),
        decreases cur@.len(),
    {
        match step6(cur, k, phf) {
            Step6::Stop(r) => {
                return r;
            },
            Step6::Next(c2, k2) => {
                cur = c2;
                k = k2;
            },
        }
    }
}


/// A branch's target part is no longer than what follows the branch head.
pub proof fn lemma_branch_child6_len(x: usize, t2: Seq<u8>, c: u8, phf: bool)
    ensures
        branch_child6(x, t2, c, phf) matches Some(ch) ==> ch.len() <= t2.len(),
{
}

/// The byte of target `i` of a branch node whose head holds `x` and is followed by `t2`.
pub open spec fn target_byte6(x: usize, t2: Seq<u8>, phf: bool, i: int) -> u8 {
    let n = branch_count(x);
    if reads_phf(phf, n) {
        t2[n + 1 + i]
    } else {
        t2[i]
    }
}

/// The pairs of the part `cur` of a trie, reached with the key `pre`, in the order in
/// which its bytes hold them; `whole` says whether a value node first in `cur` is reached
/// by `pre` alone.
pub open spec fn walk_items6(cur: Seq<u8>, pre: Seq<u8>, whole: bool, phf: bool) -> Seq<(Seq<u8>, usize)>
    decreases cur.len(), 1nat, 0int,
{
    if cur.len() == 0 {
        Seq::empty()
    } else {
        let b = cur[0];
        let t = cur.drop_first();
        if b < 0x80 {
            walk_items6(t, pre.push(b), true, phf)
        } else if b < 0xA0 {
            proof {
                lemma_read_varint2_suffix(b, t);
            }
            match spec_read_varint2(b, t) {
                None => Seq::empty(),
                Some((x, t2)) => (if whole { seq![(pre, x)] } else { Seq::empty() }) + walk_items6(
                    t2,
                    pre,
                    false,
                    phf,
                ),
            }
        } else if b < 0xC0 {
            proof {
                lemma_read_varint2_suffix(b, t);
            }
            match spec_read_varint2(b, t) {
                None => Seq::empty(),
                Some((l, t2)) => if l > t2.len() {
                    Seq::empty()
                } else {
                    walk_items6(t2.skip(l as int), pre + t2.take(l as int), whole || l > 0, phf)
                },
            }
        } else {
            match spec_read_varint(b, t) {
                None => Seq::empty(),
                Some((x, t2)) => {
                    let n = branch_count(x);
                    let klen = if reads_phf(phf, n) { 2 * n + 1 } else { n };
                    if klen > t2.len() {
                        Seq::empty()
                    } else {
                        walk_targets6(cur, x, t2, pre, phf, 0)
                    }
                },
            }
        }
    }
}

/// The pairs of the targets from `i` on of the branch node `cur`, whose head holds `x` and
/// is followed by `t2`, one target after the other.
pub open spec fn walk_targets6(cur: Seq<u8>, x: usize, t2: Seq<u8>, pre: Seq<u8>, phf: bool, i: int) -> Seq<
    (Seq<u8>, usize),
>
    decreases cur.len(), 0nat, branch_count(x) - i,
{
    if i < 0 || i >= branch_count(x) || t2.len() >= cur.len() {
        Seq::empty()
    } else {
        let c = target_byte6(x, t2, phf, i);
        (match branch_child6(x, t2, c, phf) {
            None => Seq::empty(),
            Some(ch) => {
                proof {
                    lemma_branch_child6_len(x, t2, c, phf);
                }
                walk_items6(ch, pre.push(c), true, phf)
            },
        }) + walk_targets6(cur, x, t2, pre, phf, i + 1)
    }
}

/// The pairs held in `out`, each key by its bytes.
pub open spec fn pairs_view(out: Seq<(Vec<u8>, usize)>) -> Seq<(Seq<u8>, usize)> {
    out.map_values(|e: (Vec<u8>, usize)| (e.0@, e.1))
}

/// Every pair of `out` is found in the trie `trie`: its key reads back its value.
pub open spec fn pairs_read_back(out: Seq<(Vec<u8>, usize)>, trie: Seq<u8>, phf: bool) -> bool {
    forall|i: int| 0 <= i < out.len() ==> #[trigger] spec_get6(trie, out[i].0@, phf) == Some(out[i].1)
}

/// `prefix` followed by `tail`.
fn extended(prefix: &Vec<u8>, tail: &[u8]) -> (res: Vec<u8>)
    ensures
        res@ == prefix@ + tail@,
{
    let mut res: Vec<u8> = Vec::new();
    let mut i: usize = 0;
    while i < prefix.len()
        invariant
            i <= prefix@.len(),
            res@ == prefix@.take(i as int),
        decreases prefix@.len() - i,
    {
        res.push(prefix[i]);
        proof {
            assert(prefix@.take(i + 1) =~= prefix@.take(i as int).push(prefix@[i as int]));
        }
        i += 1;
    }
    let mut j: usize = 0;
    while j < tail.len()
        invariant
            i == prefix@.len(),
            j <= tail@.len(),
            res@ == prefix@ + tail@.take(j as int),
        decreases tail@.len() - j,
    {
        res.push(tail[j]);
        proof {
            assert(tail@.take(j + 1) =~= tail@.take(j as int).push(tail@[j as int]));
        }
        j += 1;
    }
    proof {
        assert(prefix@.take(prefix@.len() as int) =~= prefix@);
        assert(tail@.take(tail@.len() as int) =~= tail@);
    }
    res
}

/// Appends to `out` the pairs of the part `cur` of the trie `trie`, reached with the key
/// `prefix`; `whole` says whether `cur` is also reached by `prefix` alone (else only keys
/// that go on past `prefix` reach it).
#[verifier::spinoff_prover]
#[verifier::rlimit(40)]
fn walk6(
    Ghost(trie): Ghost<Seq<u8>>,
    cur: &[u8],
    prefix: Vec<u8>,
    whole: bool,
    phf: bool,
    out: &mut Vec<(Vec<u8>, usize)>,
)
    requires
        forall|s: Seq<u8>|
            (whole || s.len() > 0) ==> #[trigger] spec_get6(cur@, s, phf) == spec_get6(trie, prefix@ + s, phf),
        pairs_read_back(old(out)@, trie, phf),
    ensures
        pairs_read_back(final(out)@, trie, phf),
        pairs_view(final(out)@) == pairs_view(old(out)@) + walk_items6(cur@, prefix@, whole, phf),
    decreases cur@.len(),
{
    let ghost start = pairs_view(out@);
    if cur.len() == 0 {
        proof {
            assert(start + Seq::<(Seq<u8>, usize)>::empty() =~= start);
        }
        return;
    }
    let b = cur[0];
    let t = vstd::slice::slice_subrange(cur, 1, cur.len());
    proof {
        assert(t@ =~= cur@.drop_first());
        assert(cur@ =~= seq![b] + t@);
    }
    if b < 0x80 {
        let one = [b];
        let p2 = extended(&prefix, one.as_slice());
        proof {
            assert forall|s: Seq<u8>| true implies #[trigger] spec_get6(t@, s, phf) == spec_get6(
                trie,
                p2@ + s,
                phf,
            ) by {
                let s1 = seq![b] + s;
                assert(s1[0] == b);
                assert(s1.drop_first() =~= s);
                assert(spec_get6(cur@, s1, phf) == spec_get6(trie, prefix@ + s1, phf));
                assert(prefix@ + s1 =~= p2@ + s);
            }
        }
        proof {
            assert(prefix@.push(b) =~= p2@);
        }
        walk6(Ghost(trie), t, p2, true, phf, out);
    } else if b < 0xA0 {
        proof {
            lemma_read_varint2_suffix(b, t@);
        }
        let (x, t2) = match read_varint2(b, t) {
            Some(r) => r,
            None => {
                proof {
                    assert(start + Seq::<(Seq<u8>, usize)>::empty() =~= start);
                }
                return;
            },
        };
        if whole {
            let ghost e = Seq::<u8>::empty();
            proof {
                assert(spec_get6(cur@, e, phf) == Some(x));
                assert(prefix@ + e =~= prefix@);
            }
            let ghost before = out@;
            let pc = prefix.clone();
            out.push((pc, x));
            proof {
                assert(pairs_view(out@) =~= pairs_view(before).push((prefix@, x)));
                assert forall|i: int| 0 <= i < out@.len() implies #[trigger] spec_get6(
                    trie,
                    out@[i].0@,
                    phf,
                ) == Some(out@[i].1) by {
                    if i < before.len() {
                        assert(out@[i] == before[i]);
                    }
                }
            }
        }
        proof {
            assert forall|s: Seq<u8>| s.len() > 0 implies #[trigger] spec_get6(t2@, s, phf) == spec_get6(
                trie,
                prefix@ + s,
                phf,
            ) by {
                assert(spec_get6(cur@, s, phf) == spec_get6(t2@, s, phf));
            }
        }
        let ghost mid = pairs_view(out@);
        proof {
            if whole {
                assert(mid == start + seq![(prefix@, x)]);
            } else {
                assert(mid =~= start + Seq::<(Seq<u8>, usize)>::empty());
            }
        }
        walk6(Ghost(trie), t2, prefix, false, phf, out);
        proof {
            let first: Seq<(Seq<u8>, usize)> = if whole { seq![(prefix@, x)] } else { Seq::empty() };
            assert(mid == start + first);
            assert(walk_items6(cur@, prefix@, whole, phf) == first + walk_items6(t2@, prefix@, false, phf));
            assert(start + first + walk_items6(t2@, prefix@, false, phf) =~= start + (first + walk_items6(
                t2@,
                prefix@,
                false,
                phf,
            )));
        }
    } else if b < 0xC0 {
        proof {
            lemma_read_varint2_suffix(b, t@);
        }
        let (l, t2) = match read_varint2(b, t) {
            Some(r) => r,
            None => {
                proof {
                    assert(start + Seq::<(Seq<u8>, usize)>::empty() =~= start);
                }
                return;
            },
        };
        if l > t2.len() {
            proof {
                assert(start + Seq::<(Seq<u8>, usize)>::empty() =~= start);
            }
            return;
        }
        let span = vstd::slice::slice_subrange(t2, 0, l);
        let rest = vstd::slice::slice_subrange(t2, l, t2.len());
        let p2 = extended(&prefix, span);
        proof {
            assert(span@ =~= t2@.take(l as int));
            assert(rest@ =~= t2@.skip(l as int));
            assert forall|s: Seq<u8>| (whole || l > 0 || s.len() > 0) implies #[trigger] spec_get6(
                rest@,
                s,
                phf,
            ) == spec_get6(trie, p2@ + s, phf) by {
                let s1 = span@ + s;
                assert(s1.take(l as int) =~= t2@.take(l as int));
                assert(s1.skip(l as int) =~= s);
                assert(spec_get6(cur@, s1, phf) == spec_get6(rest@, s, phf));
                assert(prefix@ + s1 =~= p2@ + s);
            }
        }
        walk6(Ghost(trie), rest, p2, whole || l > 0, phf, out);
    } else {
        proof {
            lemma_read_varint_suffix(b, t@);
        }
        let (x, t2) = match read_varint(b, t) {
            Some(r) => r,
            None => {
                proof {
                    assert(start + Seq::<(Seq<u8>, usize)>::empty() =~= start);
                }
                return;
            },
        };
        let n: usize = if x % 256 == 0 {
            256
        } else {
            x % 256
        };
        let use_phf = phf && n > 15;
        let klen = if use_phf {
            2 * n + 1
        } else {
            n
        };
        if klen > t2.len() {
            proof {
                assert(start + Seq::<(Seq<u8>, usize)>::empty() =~= start);
            }
            return;
        }
        proof {
            assert(n == branch_count(x));
            assert(walk_items6(cur@, prefix@, whole, phf) == walk_targets6(cur@, x, t2@, prefix@, phf, 0));
        }
        let mut i: usize = 0;
        while i < n
            invariant
                n == branch_count(x),
                use_phf == reads_phf(phf, n as int),
                spec_read_varint(b, t@) == Some((x, t2@)),
                t2@.len() < cur@.len(),
                pairs_view(out@) + walk_targets6(cur@, x, t2@, prefix@, phf, i as int) == start
                    + walk_targets6(cur@, x, t2@, prefix@, phf, 0),
                1 <= n <= 256,
                klen == (if use_phf { 2 * n + 1 } else { n as int }),
                klen <= t2@.len(),
                b >= 0xC0,
                t@.len() < cur@.len(),
                forall|s: Seq<u8>|
                    (whole || s.len() > 0) ==> #[trigger] spec_get6(cur@, s, phf) == spec_get6(
                        trie,
                        prefix@ + s,
                        phf,
                    ),
                cur@ == seq![b] + t@,
                pairs_read_back(out@, trie, phf),
            decreases n - i,
        {
            let c = if use_phf {
                t2[n + 1 + i]
            } else {
                t2[i]
            };
            let one = [c];
            let ghost before = pairs_view(out@);
            proof {
                assert(c == target_byte6(x, t2@, phf, i as int));
                assert(one@[0] == c);
            }
            match branch_step(b, t, one.as_slice(), phf) {
                None => {
                    proof {
                        assert(branch_child6(x, t2@, c, phf) is None);
                        assert(walk_targets6(cur@, x, t2@, prefix@, phf, i as int) =~= walk_targets6(
                            cur@,
                            x,
                            t2@,
                            prefix@,
                            phf,
                            i + 1,
                        ));
                    }
                },
                Some((c2, _k2)) => {
                    let p2 = extended(&prefix, one.as_slice());
                    proof {
                        assert(one@[0] == c);
                        assert forall|s: Seq<u8>| true implies #[trigger] spec_get6(c2@, s, phf) == spec_get6(
                            trie,
                            p2@ + s,
                            phf,
                        ) by {
                            let s1 = seq![c] + s;
                            assert(s1[0] == c);
                            assert(s1.drop_first() =~= s);
                            assert(spec_get6(seq![b] + t@, s1, phf) == spec_get6(c2@, s, phf));
                            assert(spec_get6(cur@, s1, phf) == spec_get6(trie, prefix@ + s1, phf));
                            assert(prefix@ + s1 =~= p2@ + s);
                        }
                    }
                    walk6(Ghost(trie), c2, p2, true, phf, out);
                    proof {
                        assert(branch_child6(x, t2@, c, phf) == Some(c2@));
                        assert(prefix@.push(c) =~= p2@);
                        let part = walk_items6(c2@, p2@, true, phf);
                        assert(walk_targets6(cur@, x, t2@, prefix@, phf, i as int) == part + walk_targets6(
                            cur@,
                            x,
                            t2@,
                            prefix@,
                            phf,
                            i + 1,
                        ));
                        assert(before + part + walk_targets6(cur@, x, t2@, prefix@, phf, i + 1) =~= before
                            + (part + walk_targets6(cur@, x, t2@, prefix@, phf, i + 1)));
                    }
                },
            }
            i += 1;
        }
        proof {
            assert(walk_targets6(cur@, x, t2@, prefix@, phf, n as int) == Seq::<(Seq<u8>, usize)>::empty());
            assert(pairs_view(out@) + Seq::<(Seq<u8>, usize)>::empty() =~= pairs_view(out@));
        }
    }
}

/// The pairs of the trie `trie`, in the order in which its bytes hold them (at a branch
/// node, in the order of its targets); `phf` as for `get6`. Each pair's key reads back its
/// value.
pub fn iter6(trie: &[u8], phf: bool) -> (res: Vec<(Vec<u8>, usize)>)
    ensures
        pairs_read_back(res@, trie@, phf),
        pairs_view(res@) == walk_items6(trie@, Seq::empty(), true, phf),
{
    let mut out: Vec<(Vec<u8>, usize)> = Vec::new();
    let prefix: Vec<u8> = Vec::new();
    proof {
        assert forall|s: Seq<u8>| true implies #[trigger] spec_get6(trie@, s, phf) == spec_get6(
            trie@,
            prefix@ + s,
            phf,
        ) by {
            assert(prefix@ + s =~= s);
        }
    }
    walk6(Ghost(trie@), trie, prefix, true, phf, &mut out);
    proof {
        assert(pairs_view(Seq::<(Vec<u8>, usize)>::empty()) =~= Seq::<(Seq<u8>, usize)>::empty());
        assert(prefix@ =~= Seq::<u8>::empty());
    }
    out
}

} // verus!
