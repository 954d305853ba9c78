//! A builder of the layout that `reader3::get` reads, where a node with several targets is
//! a search tree of branch nodes placed in line with the targets' tries.
//!
//! A value node is a varint whose lead byte holds three value bits under the top bits
//! `0b100` (more keys go on) or `0b101` (the key is the only one left). A node over the
//! targets `lo..hi`, in increasing order of byte, is the target's byte and trie when there
//! is one; otherwise, with `mid` the middle target, a branch node whose varint is the
//! length of the part for `lo..mid`, then the byte of `mid`, that part, and the part for
//! `mid..hi`. When `mid..hi` is one target its part is its trie alone and the branch node
//! is a final one (top bits `0b111`, else `0b110`): a reader that jumps there takes the
//! key's byte along.
//!
//! Every key of the pairs reads back as its value (`lemma_trie3_reads_back`), as long as
//! the values and the trie's size stay below 2^27, the most a node head holds. A key that
//! is not among the pairs may still be read as another key's value: past a final branch
//! the reader does not look at the byte it takes along. It is never read as the value of
//! a key of another length (`lemma_trie3_value_key_length`): in particular a query that
//! goes on past a final value node reads as `None`.

use crate::ascii::AsciiStr;
use crate::builder::{entries, groups_from, lemma_run_end_at, max_key_len};
use crate::const_util::ConstSlice;
use crate::lookup::{share_prefix, sorted_entries};
use crate::tstore::TrieBuilderStore;
use crate::varintx::{
    counted_bytes, is_byte_count, pow256, spec_read_varint2, write_varint2, MAX_VARINT_LENGTH,
};
use std::collections::VecDeque;
use vstd::prelude::*;

verus! {

/// The number of trail bytes of the varint of `v` whose lead holds three value bits.
pub open spec fn trail_count2(v: int) -> nat {
    choose|t: nat| is_byte_count(v, 8, t)
}

/// The head of a node: the varint of `v` with three value bits in its lead, and the
/// metadata bits `meta` set in that lead.
pub open spec fn head3(v: int, meta: u8) -> Seq<u8> {
    counted_bytes(v, 8, trail_count2(v)).update(0, counted_bytes(v, 8, trail_count2(v))[0] | meta)
}

/// The trie for the entries `vs`, all of whose keys start with the same `p` bytes and are
/// at most `p + fuel` long: the value node of a key of exactly `p` bytes (a final one when
/// it is the only entry), then the node over the other entries.
pub open spec fn trie3(vs: Seq<(Seq<u8>, usize)>, p: int, fuel: nat) -> Seq<u8>
    decreases fuel, 2nat, 0int,
{
    if vs.len() == 0 {
        Seq::empty()
    } else if vs[0].0.len() == p {
        head3(vs[0].1 as int, if vs.len() == 1 { 0xA0u8 } else { 0x80u8 }) + body3(
            vs.drop_first(),
            p,
            fuel,
        )
    } else {
        body3(vs, p, fuel)
    }
}

/// The node over entries whose keys are all longer than `p` bytes: the search tree over
/// the runs of keys with the same byte at `p`.
pub open spec fn body3(vs: Seq<(Seq<u8>, usize)>, p: int, fuel: nat) -> Seq<u8>
    decreases fuel, 1nat, 0int,
{
    if vs.len() == 0 || fuel == 0 {
        Seq::empty()
    } else {
        let gs = groups_from(vs, p, 0);
        tree3(gs, p + 1, fuel, 0, gs.len() as int)
    }
}

/// The search tree over the runs `gs[lo..hi]`, each run's keys laid out past `p` bytes.
pub open spec fn tree3(gs: Seq<(u8, Seq<(Seq<u8>, usize)>)>, p: int, fuel: nat, lo: int, hi: int) -> Seq<
    u8,
>
    decreases fuel, 0nat, hi - lo,
{
    if fuel == 0 || lo < 0 || hi > gs.len() || hi - lo <= 0 {
        Seq::empty()
    } else if hi - lo == 1 {
        seq![gs[lo].0] + trie3(gs[lo].1, p, (fuel - 1) as nat)
    } else if hi - lo == 2 {
        let left = tree3(gs, p, fuel, lo, lo + 1);
        head3(left.len() as int, 0xE0) + seq![gs[lo + 1].0] + left + trie3(
            gs[lo + 1].1,
            p,
            (fuel - 1) as nat,
        )
    } else {
        let mid = lo + (hi - lo) / 2;
        let left = tree3(gs, p, fuel, lo, mid);
        head3(left.len() as int, 0xC0) + seq![gs[mid].0] + left + tree3(gs, p, fuel, mid, hi)
    }
}

/// The bytes of the trie of the entries `vs`.
pub open spec fn trie3_bytes(vs: Seq<(Seq<u8>, usize)>) -> Seq<u8> {
    trie3(vs, 0, max_key_len(vs) + 1)
}

proof fn lemma_pow256_mono(a: nat, b: nat)
    requires
        a <= b,
    ensures
        1 <= pow256(a) <= pow256(b),
    decreases b,
{
    if b > a {
        lemma_pow256_mono(a, (b - 1) as nat);
    } else if a > 0 {
        lemma_pow256_mono((a - 1) as nat, (a - 1) as nat);
    }
}

/// A value has one trail count.
proof fn lemma_trail_count(v: int, t: nat)
    requires
        is_byte_count(v, 8, t),
    ensures
        trail_count2(v) == t,
{
    let u = trail_count2(v);
    assert(is_byte_count(v, 8, u));
    if u < t {
        lemma_pow256_mono(u, (t - 1) as nat);
        assert(8 * pow256(u) <= 8 * pow256((t - 1) as nat));
    } else if t < u {
        lemma_pow256_mono(t, (u - 1) as nat);
        assert(8 * pow256(t) <= 8 * pow256((u - 1) as nat));
    }
}

/// Puts the head of a node for `v` with the metadata bits `meta` in front.
fn prepend_head3(data: &mut VecDeque<u8>, v: usize, meta: u8) -> (len: usize)
    ensures
        final(data)@ == head3(v as int, meta) + old(data)@,
        len == head3(v as int, meta).len(),
        1 <= len <= MAX_VARINT_LENGTH,
{
    let arr = write_varint2(v);
    let s = arr.as_slice();
    proof {
        lemma_trail_count(v as int, (arr.view().len() - 1) as nat);
    }
    let ghost before = data@;
    data.atbs_extend_front(s);
    data.atbs_bitor_assign(0, meta);
    proof {
        assert(data@ =~= head3(v as int, meta) + before);
    }
    s.len()
}


/// What the runs `gs` of the entries `vs` at byte `p` look like in the arrays of a builder:
/// run `t` holds the entries `starts[t]..starts[t + 1]`, all with the byte `keys[t]` at `p`.
#[verifier::opaque]
pub open spec fn runs_at(
    vs: Seq<(Seq<u8>, usize)>,
    p: int,
    gs: Seq<(u8, Seq<(Seq<u8>, usize)>)>,
    starts: Seq<usize>,
    keys: Seq<u8>,
) -> bool {
    &&& starts.len() == gs.len() + 1
    &&& keys.len() == gs.len()
    &&& starts[0] == 0
    &&& starts[gs.len() as int] == vs.len()
    &&& forall|t: int| 0 <= t < gs.len() ==> #[trigger] starts[t] < starts[t + 1]
    &&& forall|t: int|
        0 <= t < gs.len() ==> #[trigger] gs[t] == (keys[t], vs.subrange(
            starts[t] as int,
            starts[t + 1] as int,
        ))
    &&& forall|t: int, k: int|
        #![trigger keys[t], vs[k]]
        0 <= t < gs.len() && starts[t] <= k < starts[t + 1] ==> vs[k].0[p] == keys[t]
}

/// The entries `vs` can be laid out past the `p` bytes `pre`: sorted, all starting with
/// `pre` and at most `p + fuel` bytes long.
pub open spec fn ready3(vs: Seq<(Seq<u8>, usize)>, p: int, pre: Seq<u8>, fuel: nat) -> bool {
    &&& pre.len() == p
    &&& sorted_entries(vs)
    &&& share_prefix(vs, pre)
    &&& forall|k: int| 0 <= k < vs.len() ==> (#[trigger] vs[k].0).len() <= p + fuel
}

/// The entries `s..e` of `vs`, all with the byte `c` at `p` and longer than `p` bytes,
/// can be laid out past `pre` and `c`.
pub(crate) proof fn lemma_run_ready(vs: Seq<(Seq<u8>, usize)>, p: int, pre: Seq<u8>, fuel: nat, s: int, e: int, c: u8)
    requires
        ready3(vs, p, pre, fuel),
        fuel >= 1,
        0 <= s < e <= vs.len(),
        forall|k: int| s <= k < e ==> (#[trigger] vs[k].0).len() > p && vs[k].0[p] == c,
    ensures
        ready3(vs.subrange(s, e), p + 1, pre.push(c), (fuel - 1) as nat),
{
    reveal(ready3);
    let g = vs.subrange(s, e);
    assert forall|i: int, j: int| 0 <= i < j < g.len() implies crate::ascii::seq_less(
        #[trigger] g[i].0,
        #[trigger] g[j].0,
    ) by {
        assert(g[i] == vs[s + i]);
        assert(g[j] == vs[s + j]);
    }
    assert forall|i: int| 0 <= i < g.len() implies (#[trigger] g[i].0).len() >= pre.push(c).len()
        && g[i].0.take(pre.push(c).len() as int) == pre.push(c) by {
        assert(g[i] == vs[s + i]);
        let k = g[i].0;
        assert(k.take(p) == pre);
        assert(k.take(p + 1) =~= k.take(p).push(k[p]));
    }
    assert forall|i: int| 0 <= i < g.len() implies (#[trigger] g[i].0).len() <= p + 1 + (fuel - 1) as nat by {
        assert(g[i] == vs[s + i]);
    }
}

/// Puts the trie of the entries `items` (see `trie3`) in front of `data`; returns its size.
fn create3<'a>(
    data: &mut VecDeque<u8>,
    items: &[(AsciiStr<'a>, usize)],
    prefix_len: usize,
    Ghost(pre): Ghost<Seq<u8>>,
    Ghost(fuel): Ghost<nat>,
) -> (size: usize)
    requires
        ready3(entries(items@), prefix_len as int, pre, fuel),
        old(data)@.len() + trie3(entries(items@), prefix_len as int, fuel).len() <= usize::MAX,
    ensures
        final(data)@ == trie3(entries(items@), prefix_len as int, fuel) + old(data)@,
        size == trie3(entries(items@), prefix_len as int, fuel).len(),
    decreases fuel, 2nat, 0int,
{
    let ghost vs = entries(items@);
    let ghost p = prefix_len as int;
    proof {
        reveal(ready3);
    }
    if items.len() == 0 {
        proof {
            assert(Seq::<u8>::empty() + old(data)@ =~= old(data)@);
        }
        return 0;
    }
    proof {
        crate::const_builder::lemma_keys_longer(vs, pre);
        assert(vs[0].0 == items@[0].0@);
    }
    let exact = items[0].0.len() == prefix_len;
    let rest = if exact {
        vstd::slice::slice_subrange(items, 1, items.len())
    } else {
        vstd::slice::slice_subrange(items, 0, items.len())
    };
    let ghost rs = entries(rest@);
    proof {
        if exact {
            assert(rs =~= vs.drop_first());
        } else {
            assert(rs =~= vs);
        }
        assert forall|k: int| 0 <= k < rs.len() implies (#[trigger] rs[k].0).len() > p by {
            if exact {
                assert(rs[k] == vs[k + 1]);
            } else {
                assert(rs[k] == vs[k]);
                if k == 0 {
                    assert(vs[0].0.len() >= p);
                }
            }
        }
        assert(ready3(rs, p, pre, fuel)) by {
            assert forall|i: int, j: int| 0 <= i < j < rs.len() implies crate::ascii::seq_less(
                #[trigger] rs[i].0,
                #[trigger] rs[j].0,
            ) by {
                if exact {
                    assert(rs[i] == vs[i + 1] && rs[j] == vs[j + 1]);
                } else {
                    assert(rs[i] == vs[i] && rs[j] == vs[j]);
                }
            }
            assert forall|i: int| 0 <= i < rs.len() implies (#[trigger] rs[i].0).len() >= pre.len()
                && rs[i].0.take(pre.len() as int) == pre && rs[i].0.len() <= p + fuel by {
                if exact {
                    assert(rs[i] == vs[i + 1]);
                } else {
                    assert(rs[i] == vs[i]);
                }
            }
        }
    }
    let mut size: usize = 0;
    if rest.len() > 0 {
        size = body3_exec(data, rest, prefix_len, Ghost(pre), Ghost(fuel));
    } else {
        proof {
            assert(Seq::<u8>::empty() + old(data)@ =~= old(data)@);
        }
    }
    if exact {
        let meta: u8 = if items.len() == 1 {
            0xA0
        } else {
            0x80
        };
        let len = prepend_head3(data, items[0].1, meta);
        proof {
            assert(data@ =~= head3(vs[0].1 as int, meta) + body3(rs, p, fuel) + old(data)@);
        }
        size = size + len;
    }
    size
}

/// Puts the node over the entries `items`, at least one and all longer than `prefix_len`
/// bytes (see `body3`), in front of `data`; returns its size.
#[verifier::spinoff_prover]
#[verifier::rlimit(40)]
fn body3_exec<'a>(
    data: &mut VecDeque<u8>,
    items: &[(AsciiStr<'a>, usize)],
    prefix_len: usize,
    Ghost(pre): Ghost<Seq<u8>>,
    Ghost(fuel): Ghost<nat>,
) -> (size: usize)
    requires
        items@.len() > 0,
        ready3(entries(items@), prefix_len as int, pre, fuel),
        forall|k: int| 0 <= k < items@.len() ==> (#[trigger] entries(items@)[k].0).len() > prefix_len,
        old(data)@.len() + body3(entries(items@), prefix_len as int, fuel).len() <= usize::MAX,
    ensures
        final(data)@ == body3(entries(items@), prefix_len as int, fuel) + old(data)@,
        size == body3(entries(items@), prefix_len as int, fuel).len(),
    decreases fuel, 1nat, 0int,
{
    let ghost vs = entries(items@);
    let ghost p = prefix_len as int;
    let n = items.len();
    proof {
        reveal(ready3);
        assert(vs[0].0.len() > p);
        assert(vs[0].0.len() <= p + fuel);
    }
    let mut starts: Vec<usize> = Vec::new();
    starts.push(0);
    let mut keys: Vec<u8> = Vec::new();
    let ghost mut done: Seq<(u8, Seq<(Seq<u8>, usize)>)> = Seq::empty();
    let mut i: usize = 0;
    while i < n
        invariant
            i <= n == items@.len() == vs.len(),
            vs == entries(items@),
            p == prefix_len,
            forall|k: int| 0 <= k < n ==> (#[trigger] vs[k].0).len() > p,
            done + groups_from(vs, p, i as int) == groups_from(vs, p, 0),
            starts@.len() == done.len() + 1,
            keys@.len() == done.len(),
            starts@[0] == 0,
            starts@[done.len() as int] == i,
            forall|t: int| 0 <= t < done.len() ==> #[trigger] starts@[t] < starts@[t + 1],
            forall|t: int|
                0 <= t < done.len() ==> #[trigger] done[t] == (keys@[t], vs.subrange(
                    starts@[t] as int,
                    starts@[t + 1] as int,
                )),
            forall|t: int, k: int|
                #![trigger keys@[t], vs[k]]
                0 <= t < done.len() && starts@[t] <= k < starts@[t + 1] ==> vs[k].0[p] == keys@[t],
        decreases n - i,
    {
        proof {
            assert(vs[i as int].0 == items@[i as int].0@);
        }
        let c = items[i].0.as_bytes()[prefix_len];
        let mut j: usize = i + 1;
        while j < n
            invariant
                i < j <= n == items@.len() == vs.len(),
                vs == entries(items@),
                p == prefix_len,
                forall|k: int| 0 <= k < n ==> (#[trigger] vs[k].0).len() > p,
                c == vs[i as int].0[p],
                forall|k: int| i <= k < j ==> #[trigger] vs[k].0[p] == c,
            ensures
                i < j <= n,
                forall|k: int| i <= k < j ==> #[trigger] vs[k].0[p] == c,
                j < n ==> vs[j as int].0[p] != c,
            decreases n - j,
        {
            proof {
                assert(vs[j as int].0 == items@[j as int].0@);
            }
            if items[j].0.as_bytes()[prefix_len] != c {
                break;
            }
            j += 1;
        }
        proof {
            lemma_run_end_at(vs, p, i as int, j as int);
            assert(groups_from(vs, p, i as int) == seq![(c, vs.subrange(i as int, j as int))]
                + groups_from(vs, p, j as int));
            let d2 = done.push((c, vs.subrange(i as int, j as int)));
            assert(d2 + groups_from(vs, p, j as int) =~= done + groups_from(vs, p, i as int));
        }
        let ghost old_starts = starts@;
        let ghost old_keys = keys@;
        let ghost old_done = done;
        starts.push(j);
        keys.push(c);
        proof {
            done = done.push((c, vs.subrange(i as int, j as int)));
            assert forall|t: int| 0 <= t < done.len() implies #[trigger] starts@[t] < starts@[t + 1] by {
                if t < old_done.len() {
                    assert(starts@[t] == old_starts[t] && starts@[t + 1] == old_starts[t + 1]);
                }
            }
            assert forall|t: int| 0 <= t < done.len() implies #[trigger] done[t] == (keys@[t], vs.subrange(
                starts@[t] as int,
                starts@[t + 1] as int,
            )) by {
                if t < old_done.len() {
                    assert(done[t] == old_done[t]);
                    assert(starts@[t] == old_starts[t] && starts@[t + 1] == old_starts[t + 1]);
                }
            }
            assert forall|t: int, k: int|
                #![trigger keys@[t], vs[k]]
                0 <= t < done.len() && starts@[t] <= k < starts@[t + 1] implies vs[k].0[p]
                == keys@[t] by {
                if t < old_done.len() {
                    assert(starts@[t] == old_starts[t] && starts@[t + 1] == old_starts[t + 1]);
                    assert(keys@[t] == old_keys[t]);
                }
            }
        }
        i = j;
    }
    let ghost gs = groups_from(vs, p, 0);
    proof {
        assert(groups_from(vs, p, n as int) =~= Seq::<(u8, Seq<(Seq<u8>, usize)>)>::empty());
        assert(done =~= gs);
        reveal(runs_at);
        assert(runs_at(vs, p, gs, starts@, keys@));
        assert(fuel >= 1);
    }
    let g = keys.len();
    tree3_exec(data, items, &starts, &keys, 0, g, prefix_len, Ghost(pre), Ghost(fuel), Ghost(gs))
}

/// Puts the search tree over the runs `lo..hi` of the entries `items` (see `tree3`) in
/// front of `data`; returns its size.
#[verifier::spinoff_prover]
#[verifier::rlimit(60)]
fn tree3_exec<'a>(
    data: &mut VecDeque<u8>,
    items: &[(AsciiStr<'a>, usize)],
    starts: &Vec<usize>,
    keys: &Vec<u8>,
    lo: usize,
    hi: usize,
    prefix_len: usize,
    Ghost(pre): Ghost<Seq<u8>>,
    Ghost(fuel): Ghost<nat>,
    Ghost(gs): Ghost<Seq<(u8, Seq<(Seq<u8>, usize)>)>>,
) -> (size: usize)
    requires
        fuel >= 1,
        ready3(entries(items@), prefix_len as int, pre, fuel),
        forall|k: int| 0 <= k < items@.len() ==> (#[trigger] entries(items@)[k].0).len() > prefix_len,
        runs_at(entries(items@), prefix_len as int, gs, starts@, keys@),
        lo < hi <= gs.len(),
        old(data)@.len() + tree3(gs, prefix_len + 1, fuel, lo as int, hi as int).len() <= usize::MAX,
    ensures
        final(data)@ == tree3(gs, prefix_len + 1, fuel, lo as int, hi as int) + old(data)@,
        size == tree3(gs, prefix_len + 1, fuel, lo as int, hi as int).len(),
    decreases fuel, 0nat, hi - lo,
{
    let ghost vs = entries(items@);
    let ghost p = prefix_len as int;
    let ghost p1 = p + 1;
    proof {
        assert(keys@.len() == gs.len() && forall|t: int| 0 <= t < gs.len() ==> #[trigger] gs[t].0 == keys@[t]) by {
            reveal(runs_at);
            assert forall|t: int| 0 <= t < gs.len() implies #[trigger] gs[t].0 == keys@[t] by {
                assert(gs[t] == (keys@[t], vs.subrange(starts@[t] as int, starts@[t + 1] as int)));
            }
        }
    }
    if hi - lo == 1 {
        let size = run3_exec(data, items, starts, keys, lo, prefix_len, Ghost(pre), Ghost(fuel), Ghost(gs));
        data.atbs_push_front(keys[lo]);
        proof {
            assert(data@ =~= tree3(gs, p1, fuel, lo as int, hi as int) + old(data)@);
        }
        size + 1
    } else if hi - lo == 2 {
        let right = run3_exec(data, items, starts, keys, lo + 1, prefix_len, Ghost(pre), Ghost(fuel), Ghost(gs));
        let left = tree3_exec(data, items, starts, keys, lo, lo + 1, prefix_len, Ghost(pre), Ghost(fuel), Ghost(gs));
        data.atbs_push_front(keys[lo + 1]);
        let h = prepend_head3(data, left, 0xE0);
        proof {
            assert(data@ =~= tree3(gs, p1, fuel, lo as int, hi as int) + old(data)@);
        }
        h + 1 + left + right
    } else {
        let mid = lo + (hi - lo) / 2;
        let right = tree3_exec(data, items, starts, keys, mid, hi, prefix_len, Ghost(pre), Ghost(fuel), Ghost(gs));
        let left = tree3_exec(data, items, starts, keys, lo, mid, prefix_len, Ghost(pre), Ghost(fuel), Ghost(gs));
        data.atbs_push_front(keys[mid]);
        let h = prepend_head3(data, left, 0xC0);
        proof {
            assert(data@ =~= tree3(gs, p1, fuel, lo as int, hi as int) + old(data)@);
        }
        h + 1 + left + right
    }
}

/// Puts the trie of run `t` of the entries `items` in front of `data`; returns its size.
#[verifier::spinoff_prover]
#[verifier::rlimit(60)]
fn run3_exec<'a>(
    data: &mut VecDeque<u8>,
    items: &[(AsciiStr<'a>, usize)],
    starts: &Vec<usize>,
    keys: &Vec<u8>,
    t: usize,
    prefix_len: usize,
    Ghost(pre): Ghost<Seq<u8>>,
    Ghost(fuel): Ghost<nat>,
    Ghost(gs): Ghost<Seq<(u8, Seq<(Seq<u8>, usize)>)>>,
) -> (size: usize)
    requires
        fuel >= 1,
        ready3(entries(items@), prefix_len as int, pre, fuel),
        forall|k: int| 0 <= k < items@.len() ==> (#[trigger] entries(items@)[k].0).len() > prefix_len,
        runs_at(entries(items@), prefix_len as int, gs, starts@, keys@),
        t < gs.len(),
        old(data)@.len() + trie3(gs[t as int].1, prefix_len + 1, (fuel - 1) as nat).len() <= usize::MAX,
    ensures
        final(data)@ == trie3(gs[t as int].1, prefix_len + 1, (fuel - 1) as nat) + old(data)@,
        size == trie3(gs[t as int].1, prefix_len + 1, (fuel - 1) as nat).len(),
    decreases fuel, 0nat, 0int,
{
    let ghost vs = entries(items@);
    let ghost p = prefix_len as int;
    let ns = starts.len();
    proof {
        lemma_run_slice(vs, p, pre, fuel, gs, starts@, keys@, t as int);
    }
    let s = starts[t];
    let e = starts[t + 1];
    proof {
        assert(vs[s as int].0 == items@[s as int].0@);
        items@[s as int].0.lemma_len_fits();
    }
    let child = vstd::slice::slice_subrange(items, s, e);
    proof {
        assert(entries(child@) =~= vs.subrange(s as int, e as int));
    }
    create3(data, child, prefix_len + 1, Ghost(pre.push(keys@[t as int])), Ghost((fuel - 1) as nat))
}


/// Run `t` of `vs` as the builder's arrays give it, ready to be laid out past `p + 1` bytes.
pub(crate) proof fn lemma_run_slice(
    vs: Seq<(Seq<u8>, usize)>,
    p: int,
    pre: Seq<u8>,
    fuel: nat,
    gs: Seq<(u8, Seq<(Seq<u8>, usize)>)>,
    starts: Seq<usize>,
    keys: Seq<u8>,
    t: int,
)
    requires
        fuel >= 1,
        ready3(vs, p, pre, fuel),
        forall|k: int| 0 <= k < vs.len() ==> (#[trigger] vs[k].0).len() > p,
        runs_at(vs, p, gs, starts, keys),
        0 <= t < gs.len(),
    ensures
        starts.len() == gs.len() + 1,
        keys.len() == gs.len(),
        starts[t] < starts[t + 1] <= vs.len(),
        gs[t] == (keys[t], vs.subrange(starts[t] as int, starts[t + 1] as int)),
        vs[starts[t] as int].0.len() > p,
        ready3(vs.subrange(starts[t] as int, starts[t + 1] as int), p + 1, pre.push(keys[t]), (fuel - 1) as nat),
{
    reveal(runs_at);
    assert(starts[t] < starts[t + 1]);
    let s = starts[t] as int;
    let e = starts[t + 1] as int;
    assert(gs[t] == (keys[t], vs.subrange(s, e)));
    assert(e <= vs.len()) by {
        if e > vs.len() {
            lemma_starts_bound(vs, gs, starts, t + 1);
        }
    }
    assert forall|k: int| s <= k < e implies (#[trigger] vs[k].0).len() > p && vs[k].0[p] == keys[t] by {
        assert(vs[k].0[p] == keys[t]);
    }
    lemma_run_ready(vs, p, pre, fuel, s, e, keys[t]);
}

/// The run starts never pass the number of entries.
proof fn lemma_starts_bound(
    vs: Seq<(Seq<u8>, usize)>,
    gs: Seq<(u8, Seq<(Seq<u8>, usize)>)>,
    starts: Seq<usize>,
    t: int,
)
    requires
        starts.len() == gs.len() + 1,
        starts[gs.len() as int] == vs.len(),
        forall|u: int| 0 <= u < gs.len() ==> #[trigger] starts[u] < starts[u + 1],
        0 <= t <= gs.len(),
    ensures
        starts[t] <= vs.len(),
    decreases gs.len() - t,
{
    if t < gs.len() {
        assert(starts[t] < starts[t + 1]);
        lemma_starts_bound(vs, gs, starts, t + 1);
    }
}


/// A builder of the trie that `reader3::get` reads, in a growable buffer.
pub struct AsciiTrieBuilder3 {
    data: VecDeque<u8>,
}

impl AsciiTrieBuilder3 {
    /// The bytes built.
    pub closed spec fn view(&self) -> Seq<u8> {
        self.data@
    }

    /// A copy of the bytes built.
    pub fn as_bytes(&self) -> (res: Vec<u8>)
        ensures
            res@ == self@,
    {
        self.data.atbs_to_bytes()
    }

    /// An empty builder.
    pub fn new() -> (res: Self)
        ensures
            res@ == Seq::<u8>::empty(),
    {
        AsciiTrieBuilder3 { data: VecDeque::new() }
    }

    /// The builder holding the trie of the pairs `items`, whose keys must be in strictly
    /// increasing order.
    pub fn from_tuple_slice<'a>(items: &[(AsciiStr<'a>, usize)]) -> (res: Self)
        requires
            sorted_entries(entries(items@)),
            trie3_bytes(entries(items@)).len() <= usize::MAX,
        ensures
            res@ == trie3_bytes(entries(items@)),
            small_values(entries(items@)) && res@.len() < 0x800_0000 ==> forall|k: int|
                0 <= k < items@.len() ==> crate::reader3::spec_get(res@, #[trigger] entries(items@)[k].0, false, 0)
                    == Some(entries(items@)[k].1),
            small_values(entries(items@)) && res@.len() < 0x800_0000 ==> forall|q: Seq<u8>|
                #[trigger] crate::reader3::spec_get(res@, q, false, 0) matches Some(v) ==> has_entry_of_len(
                    entries(items@),
                    v,
                    q.len() as int,
                ),
    {
        Self::from_sorted_const_tuple_slice(ConstSlice::from_slice(items))
    }

    /// The builder holding the trie of the pairs `items`, whose keys are in strictly
    /// increasing order.
    pub fn from_sorted_const_tuple_slice<'a>(items: ConstSlice<'_, (AsciiStr<'a>, usize)>) -> (res: Self)
        requires
            items.spec_wf(),
            sorted_entries(entries(items@)),
            trie3_bytes(entries(items@)).len() <= usize::MAX,
        ensures
            res@ == trie3_bytes(entries(items@)),
            small_values(entries(items@)) && res@.len() < 0x800_0000 ==> forall|k: int|
                0 <= k < items@.len() ==> crate::reader3::spec_get(res@, #[trigger] entries(items@)[k].0, false, 0)
                    == Some(entries(items@)[k].1),
            small_values(entries(items@)) && res@.len() < 0x800_0000 ==> forall|q: Seq<u8>|
                #[trigger] crate::reader3::spec_get(res@, q, false, 0) matches Some(v) ==> has_entry_of_len(
                    entries(items@),
                    v,
                    q.len() as int,
                ),
    {
        let slice = items.as_slice();
        let ghost vs = entries(slice@);
        let mut m: usize = 0;
        while m < slice.len()
            invariant
                m <= slice@.len(),
                vs == entries(slice@),
                forall|q: int| 0 <= q < m ==> crate::ascii::all_ascii(#[trigger] vs[q].0),
            decreases slice@.len() - m,
        {
            let key = slice[m].0.as_bytes();
            proof {
                assert(key@ == vs[m as int].0);
            }
            m += 1;
        }
        proof {
            crate::const_builder::lemma_max_key_len(vs);
            reveal(ready3);
            assert(share_prefix(vs, Seq::empty())) by {
                assert forall|i: int| 0 <= i < vs.len() implies (#[trigger] vs[i].0).len() >= 0
                    && vs[i].0.take(0) == Seq::<u8>::empty() by {
                    assert(vs[i].0.take(0) =~= Seq::<u8>::empty());
                }
            }
            assert(ready3(vs, 0, Seq::empty(), max_key_len(vs) + 1));
        }
        let mut data: VecDeque<u8> = VecDeque::new();
        let _size = create3(&mut data, slice, 0, Ghost(Seq::empty()), Ghost(max_key_len(vs) + 1));
        proof {
            assert(data@ =~= trie3_bytes(vs));
            if small_values(vs) && data@.len() < 0x800_0000 {
                assert forall|k: int| 0 <= k < items@.len() implies crate::reader3::spec_get(
                    data@,
                    #[trigger] entries(items@)[k].0,
                    false,
                    0,
                ) == Some(entries(items@)[k].1) by {
                    lemma_trie3_reads_back(vs, k);
                }
                assert forall|q: Seq<u8>| #[trigger] crate::reader3::spec_get(data@, q, false, 0) is Some
                    implies has_entry_of_len(
                    vs,
                    crate::reader3::spec_get(data@, q, false, 0)->Some_0,
                    q.len() as int,
                ) by {
                    lemma_trie3_value_key_length(vs, q);
                }
            }
        }
        AsciiTrieBuilder3 { data }
    }
}


/// A node head for a value below 2^27 reads back as that value, whatever follows it, and
/// its lead has the top bits of `meta`.
pub proof fn lemma_head3_read(v: int, meta: u8, tail: Seq<u8>)
    requires
        0 <= v < 0x800_0000,
        meta == 0x80 || meta == 0xA0 || meta == 0xC0 || meta == 0xE0,
    ensures
        head3(v, meta).len() >= 1,
        head3(v, meta)[0] / 32 == meta / 32,
        spec_read_varint2(head3(v, meta)[0], head3(v, meta).drop_first() + tail) == Some((v, tail)),
{
    reveal_with_fuel(pow256, 4);
    let t: nat = if v < 8 {
        0
    } else if v < 0x800 {
        1
    } else if v < 0x8_0000 {
        2
    } else {
        3
    };
    assert(is_byte_count(v, 8, t));
    lemma_trail_count(v, t);
    let cb = counted_bytes(v, 8, t);
    let h = head3(v, meta);
    let q = v / pow256(t);
    assert(0 <= q < 8) by (nonlinear_arith)
        requires
            v < 8 * pow256(t),
            0 <= v,
            pow256(t) >= 1,
            q == v / pow256(t),
    ;
    let lead: u8 = (q + (t * 8) % 256) as u8;
    assert(cb[0] == lead);
    assert(lead as int == q + 8 * t);
    assert(lead < 32);
    let hl = lead | meta;
    assert((lead | meta) == lead + meta && (lead | meta) / 32 == meta / 32 && (lead | meta) % 8 == lead % 8
        && ((lead | meta) / 8) % 4 == (lead / 8) % 4) by (bit_vector)
        requires
            lead < 32,
            meta == 0x80 || meta == 0xA0 || meta == 0xC0 || meta == 0xE0,
    ;
    assert(h[0] == hl);
    assert(lead % 8 == q && (lead / 8) % 4 == t);
    let s = cb.drop_first();
    assert(h.drop_first() =~= s);
    assert forall|m: int| 0 <= m < t implies #[trigger] s[m] == (v / pow256((t - 1 - m) as nat)) % 256 by {
        assert(s[m] == cb[m + 1]);
    }
    crate::varintx::lemma_big_endian_digits(v, t, s, t);
    assert(s.take(t as int) =~= s);
    let rem = h.drop_first() + tail;
    assert(rem.take(t as int) =~= s);
    assert(rem.skip(t as int) =~= tail);
}


/// Two keys that agree on their first `p` bytes and sort one before the other have their
/// bytes at `p` in the same order.
proof fn lemma_byte_mono(a: Seq<u8>, b: Seq<u8>, pre: Seq<u8>, p: int)
    requires
        crate::ascii::seq_less(a, b),
        a.len() > p,
        b.len() > p,
        pre.len() == p,
        a.take(p) == pre,
        b.take(p) == pre,
    ensures
        a[p] <= b[p],
{
    let i = choose|i: int|
        0 <= i <= a.len() && i <= b.len() && a.take(i) == b.take(i) && ((i < a.len() && i < b.len()
            && a[i] < b[i]) || (i == a.len() && i < b.len()));
    if i < p {
        assert(a.take(p)[i] == b.take(p)[i]);
    } else if i > p {
        assert(a.take(i)[p] == b.take(i)[p]);
    }
}

/// Each run from entry `i` on is a nonempty stretch of entries with one byte at `p`.
pub(crate) proof fn lemma_groups_shape(vs: Seq<(Seq<u8>, usize)>, p: int, i: int)
    requires
        forall|k: int| 0 <= k < vs.len() ==> (#[trigger] vs[k].0).len() > p,
        0 <= i <= vs.len(),
    ensures
        forall|t: int|
            0 <= t < groups_from(vs, p, i).len() ==> exists|s: int, e: int|
                i <= s < e <= vs.len() && #[trigger] groups_from(vs, p, i)[t] == (vs[s].0[p], vs.subrange(s, e))
                    && forall|k: int| s <= k < e ==> #[trigger] vs[k].0[p] == vs[s].0[p],
    decreases vs.len() - i,
{
    if i < vs.len() {
        let e = crate::builder::run_end(vs, p, i);
        crate::builder::lemma_run_end(vs, p, i);
        lemma_groups_shape(vs, p, e);
        let g = groups_from(vs, p, i);
        let ge = groups_from(vs, p, e);
        assert(g == seq![(vs[i].0[p], vs.subrange(i, e))] + ge);
        assert forall|t: int| 0 <= t < g.len() implies exists|s: int, e2: int|
            i <= s < e2 <= vs.len() && #[trigger] g[t] == (vs[s].0[p], vs.subrange(s, e2)) && forall|k: int|
                s <= k < e2 ==> #[trigger] vs[k].0[p] == vs[s].0[p] by {
            if t == 0 {
                assert(g[0] == (vs[i].0[p], vs.subrange(i, e)));
            } else {
                assert(g[t] == ge[t - 1]);
            }
        }
    }
}

/// The bytes of the runs from entry `i` on increase, from the byte of entry `i`.
pub(crate) proof fn lemma_groups_order(vs: Seq<(Seq<u8>, usize)>, p: int, pre: Seq<u8>, i: int)
    requires
        sorted_entries(vs),
        pre.len() == p,
        share_prefix(vs, pre),
        forall|k: int| 0 <= k < vs.len() ==> (#[trigger] vs[k].0).len() > p,
        0 <= i <= vs.len(),
    ensures
        forall|t: int, u: int|
            0 <= t < u < groups_from(vs, p, i).len() ==> (#[trigger] groups_from(vs, p, i)[t]).0
                < (#[trigger] groups_from(vs, p, i)[u]).0,
        forall|t: int|
            0 <= t < groups_from(vs, p, i).len() ==> i < vs.len() && vs[i].0[p] <= (
            #[trigger] groups_from(vs, p, i)[t]).0,
    decreases vs.len() - i,
{
    if i < vs.len() {
        let e = crate::builder::run_end(vs, p, i);
        crate::builder::lemma_run_end(vs, p, i);
        lemma_groups_order(vs, p, pre, e);
        let g = groups_from(vs, p, i);
        let ge = groups_from(vs, p, e);
        let c = vs[i].0[p];
        assert(g == seq![(c, vs.subrange(i, e))] + ge);
        if e < vs.len() {
            assert(vs[e].0[p] != c);
            lemma_byte_mono(vs[i].0, vs[e].0, pre, p);
        }
        assert forall|t: int| 0 <= t < g.len() implies i < vs.len() && vs[i].0[p] <= (#[trigger] g[t]).0 by {
            if t > 0 {
                assert(g[t] == ge[t - 1]);
            }
        }
        assert forall|t: int, u: int| 0 <= t < u < g.len() implies (#[trigger] g[t]).0 < (#[trigger] g[u]).0 by {
            assert(g[u] == ge[u - 1]);
            if t > 0 {
                assert(g[t] == ge[t - 1]);
            }
        }
    }
}

/// Every entry from `i` on is in one of the runs from `i`.
proof fn lemma_groups_cover(vs: Seq<(Seq<u8>, usize)>, p: int, i: int, k: int)
    requires
        forall|m: int| 0 <= m < vs.len() ==> (#[trigger] vs[m].0).len() > p,
        0 <= i <= k < vs.len(),
    ensures
        exists|t: int, j: int|
            0 <= t < groups_from(vs, p, i).len() && 0 <= j < groups_from(vs, p, i)[t].1.len()
                && #[trigger] groups_from(vs, p, i)[t].1[j] == vs[k],
    decreases vs.len() - i,
{
    let e = crate::builder::run_end(vs, p, i);
    crate::builder::lemma_run_end(vs, p, i);
    let g = groups_from(vs, p, i);
    let ge = groups_from(vs, p, e);
    assert(g == seq![(vs[i].0[p], vs.subrange(i, e))] + ge);
    if k < e {
        assert(g[0].1[k - i] == vs[k]);
    } else {
        lemma_groups_cover(vs, p, e, k);
        let (t1, j1) = choose|t1: int, j1: int|
            0 <= t1 < ge.len() && 0 <= j1 < ge[t1].1.len() && #[trigger] ge[t1].1[j1] == vs[k];
        assert(g[t1 + 1] == ge[t1]);
        assert(g[t1 + 1].1[j1] == vs[k]);
    }
}


/// Every value is below 2^27, which a node head can hold.
pub open spec fn small_values(vs: Seq<(Seq<u8>, usize)>) -> bool {
    forall|k: int| 0 <= k < vs.len() ==> (#[trigger] vs[k]).1 < 0x800_0000
}

/// Run `t` of entries ready past `p` bytes is ready past `p + 1`, with ASCII keys and
/// small values when the entries have them, and each of its keys has the run's byte at `p`.
proof fn lemma_group_ready(vs: Seq<(Seq<u8>, usize)>, p: int, pre: Seq<u8>, fuel: nat, t: int)
    requires
        ready3(vs, p, pre, fuel),
        fuel >= 1,
        crate::lookup::ascii_entries(vs),
        small_values(vs),
        forall|k: int| 0 <= k < vs.len() ==> (#[trigger] vs[k].0).len() > p,
        0 <= t < groups_from(vs, p, 0).len(),
    ensures
        ({
            let g = groups_from(vs, p, 0)[t];
            &&& ready3(g.1, p + 1, pre.push(g.0), (fuel - 1) as nat)
            &&& crate::lookup::ascii_entries(g.1)
            &&& small_values(g.1)
            &&& g.1.len() > 0
            &&& forall|j: int| 0 <= j < g.1.len() ==> (#[trigger] g.1[j]).0.len() > p && g.1[j].0[p] == g.0
        }),
{
    lemma_groups_shape(vs, p, 0);
    let g = groups_from(vs, p, 0)[t];
    let (s, e) = choose|s: int, e: int|
        0 <= s < e <= vs.len() && #[trigger] groups_from(vs, p, 0)[t] == (vs[s].0[p], vs.subrange(s, e))
            && forall|k: int| s <= k < e ==> #[trigger] vs[k].0[p] == vs[s].0[p];
    lemma_run_ready(vs, p, pre, fuel, s, e, g.0);
    assert forall|j: int| 0 <= j < g.1.len() implies (#[trigger] g.1[j]).0.len() > p && g.1[j].0[p] == g.0 by {
        assert(g.1[j] == vs[s + j]);
    }
    assert forall|j: int| 0 <= j < g.1.len() implies crate::ascii::all_ascii(#[trigger] g.1[j].0) by {
        assert(g.1[j] == vs[s + j]);
    }
    assert forall|j: int| 0 <= j < g.1.len() implies (#[trigger] g.1[j]).1 < 0x800_0000 by {
        assert(g.1[j] == vs[s + j]);
    }
}

/// A reader at an ASCII byte with no pending jump takes it when the key's byte matches.
proof fn lemma_step_ascii(c: u8, tail: Seq<u8>, key: Seq<u8>, bf: bool)
    requires
        c < 128,
        key.len() > 0,
        key[0] == c,
    ensures
        crate::reader3::spec_get(seq![c] + tail, key, bf, 0) == crate::reader3::spec_get(
            tail,
            key.drop_first(),
            bf,
            0,
        ),
{
    let x = seq![c] + tail;
    assert(x[0] == c);
    assert(x.drop_first() =~= tail);
}

/// A reader at a branch head takes its jump and whether it is a final one.
proof fn lemma_step_branch(v: int, meta: u8, after: Seq<u8>, key: Seq<u8>, bf: bool)
    requires
        0 <= v < 0x800_0000,
        meta == 0xC0 || meta == 0xE0,
        key.len() > 0,
    ensures
        crate::reader3::spec_get(head3(v, meta) + after, key, bf, 0) == crate::reader3::spec_get(
            after,
            key,
            meta == 0xE0,
            v,
        ),
{
    let h = head3(v, meta);
    lemma_head3_read(v, meta, after);
    let x = h + after;
    assert(x[0] == h[0]);
    assert(x.drop_first() =~= h.drop_first() + after);
}

/// A reader at an ASCII byte with a pending jump goes on when the key's byte sorts before
/// it, and otherwise jumps, taking the key's byte along after a final branch.
proof fn lemma_step_jump(c: u8, tail: Seq<u8>, key: Seq<u8>, bf: bool, jump: int)
    requires
        c < 128,
        key.len() > 0,
        0 < jump <= tail.len(),
    ensures
        key[0] < c ==> crate::reader3::spec_get(seq![c] + tail, key, bf, jump) == crate::reader3::spec_get(
            tail,
            key,
            bf,
            0,
        ),
        key[0] >= c && bf ==> crate::reader3::spec_get(seq![c] + tail, key, bf, jump)
            == crate::reader3::spec_get(tail.skip(jump), key.drop_first(), bf, 0),
        key[0] >= c && !bf ==> crate::reader3::spec_get(seq![c] + tail, key, bf, jump)
            == crate::reader3::spec_get(tail.skip(jump), key, bf, 0),
{
    let x = seq![c] + tail;
    assert(x[0] == c);
    assert(x.drop_first() =~= tail);
}

/// The byte of run `t` is ASCII.
proof fn lemma_group_ascii(vs: Seq<(Seq<u8>, usize)>, p: int, pre: Seq<u8>, fuel: nat, t: int)
    requires
        ready3(vs, p, pre, fuel),
        fuel >= 1,
        crate::lookup::ascii_entries(vs),
        small_values(vs),
        forall|k: int| 0 <= k < vs.len() ==> (#[trigger] vs[k].0).len() > p,
        0 <= t < groups_from(vs, p, 0).len(),
    ensures
        groups_from(vs, p, 0)[t].0 < 128,
{
    lemma_group_ready(vs, p, pre, fuel, t);
    let g = groups_from(vs, p, 0)[t];
    assert(crate::ascii::all_ascii(g.1[0].0));
    assert(g.1[0].0[p] < 128);
}

/// The bytes of runs `t` and `u`, `t` first, are in increasing order.
proof fn lemma_group_less(vs: Seq<(Seq<u8>, usize)>, p: int, pre: Seq<u8>, t: int, u: int)
    requires
        sorted_entries(vs),
        pre.len() == p,
        share_prefix(vs, pre),
        forall|k: int| 0 <= k < vs.len() ==> (#[trigger] vs[k].0).len() > p,
        0 <= t < u < groups_from(vs, p, 0).len(),
    ensures
        groups_from(vs, p, 0)[t].0 < groups_from(vs, p, 0)[u].0,
{
    lemma_groups_order(vs, p, pre, 0);
}

/// Looking up a key of run `t` in the search tree over the runs `lo..hi`, followed by
/// anything, gives the key's value.
#[verifier::spinoff_prover]
#[verifier::rlimit(60)]
proof fn lemma_tree3_get(
    vs: Seq<(Seq<u8>, usize)>,
    p: int,
    pre: Seq<u8>,
    fuel: nat,
    lo: int,
    hi: int,
    t: int,
    j: int,
    rest: Seq<u8>,
    bf: bool,
)
    requires
        fuel >= 1,
        ready3(vs, p, pre, fuel),
        crate::lookup::ascii_entries(vs),
        small_values(vs),
        forall|k: int| 0 <= k < vs.len() ==> (#[trigger] vs[k].0).len() > p,
        0 <= lo <= t < hi <= groups_from(vs, p, 0).len(),
        0 <= j < groups_from(vs, p, 0)[t].1.len(),
        tree3(groups_from(vs, p, 0), p + 1, fuel, lo, hi).len() < 0x800_0000,
    ensures
        crate::reader3::spec_get(
            tree3(groups_from(vs, p, 0), p + 1, fuel, lo, hi) + rest,
            groups_from(vs, p, 0)[t].1[j].0.skip(p),
            bf,
            0,
        ) == Some(groups_from(vs, p, 0)[t].1[j].1),
    decreases fuel, 0nat, hi - lo,
{
    let gs = groups_from(vs, p, 0);
    let f1 = (fuel - 1) as nat;
    let e = gs[t].1[j];
    let key = e.0.skip(p);
    lemma_group_ready(vs, p, pre, fuel, t);
    assert(key.len() > 0 && key[0] == gs[t].0);
    assert(key.drop_first() =~= e.0.skip(p + 1));
    assert(ready3(vs, p, pre, fuel) ==> sorted_entries(vs) && share_prefix(vs, pre) && pre.len() == p) by {
        reveal(ready3);
    }
    if hi - lo == 1 {
        let c = gs[lo].0;
        let tt = trie3(gs[lo].1, p + 1, f1);
        lemma_group_ascii(vs, p, pre, fuel, lo);
        assert(tree3(gs, p + 1, fuel, lo, hi) + rest =~= seq![c] + (tt + rest));
        lemma_step_ascii(c, tt + rest, key, bf);
        lemma_trie3_get(gs[t].1, p + 1, pre.push(c), f1, rest, j, bf);
    } else if hi - lo == 2 {
        let left = tree3(gs, p + 1, fuel, lo, lo + 1);
        let c1 = gs[lo + 1].0;
        let tt = trie3(gs[lo + 1].1, p + 1, f1);
        let tail = left + (tt + rest);
        assert(left.len() >= 1) by {
            lemma_tree3_nonempty(gs, p + 1, fuel, lo, lo + 1);
        }
        assert(tree3(gs, p + 1, fuel, lo, hi) + rest =~= head3(left.len() as int, 0xE0) + (seq![c1] + tail));
        lemma_step_branch(left.len() as int, 0xE0, seq![c1] + tail, key, bf);
        lemma_group_ascii(vs, p, pre, fuel, lo + 1);
        lemma_step_jump(c1, tail, key, true, left.len() as int);
        if t == lo {
            lemma_group_less(vs, p, pre, lo, lo + 1);
            lemma_tree3_get(vs, p, pre, fuel, lo, lo + 1, t, j, tt + rest, true);
        } else {
            assert(tail.skip(left.len() as int) =~= tt + rest);
            lemma_trie3_get(gs[t].1, p + 1, pre.push(c1), f1, rest, j, true);
        }
    } else {
        let mid = lo + (hi - lo) / 2;
        let left = tree3(gs, p + 1, fuel, lo, mid);
        let right = tree3(gs, p + 1, fuel, mid, hi);
        let cm = gs[mid].0;
        let tail = left + (right + rest);
        assert(left.len() >= 1) by {
            lemma_tree3_nonempty(gs, p + 1, fuel, lo, mid);
        }
        assert(tree3(gs, p + 1, fuel, lo, hi) + rest =~= head3(left.len() as int, 0xC0) + (seq![cm] + tail));
        lemma_step_branch(left.len() as int, 0xC0, seq![cm] + tail, key, bf);
        lemma_group_ascii(vs, p, pre, fuel, mid);
        lemma_step_jump(cm, tail, key, false, left.len() as int);
        if t < mid {
            lemma_group_less(vs, p, pre, t, mid);
            lemma_tree3_get(vs, p, pre, fuel, lo, mid, t, j, right + rest, false);
        } else {
            if t > mid {
                lemma_group_less(vs, p, pre, mid, t);
            }
            assert(tail.skip(left.len() as int) =~= right + rest);
            lemma_tree3_get(vs, p, pre, fuel, mid, hi, t, j, rest, false);
        }
    }
}

/// A search tree over at least one run is not empty.
proof fn lemma_tree3_nonempty(gs: Seq<(u8, Seq<(Seq<u8>, usize)>)>, p: int, fuel: nat, lo: int, hi: int)
    requires
        fuel >= 1,
        0 <= lo < hi <= gs.len(),
    ensures
        tree3(gs, p, fuel, lo, hi).len() >= 1,
{
}

/// Looking up a key of the entries in their trie, followed by anything, gives its value.
#[verifier::spinoff_prover]
#[verifier::rlimit(40)]
proof fn lemma_trie3_get(
    vs: Seq<(Seq<u8>, usize)>,
    p: int,
    pre: Seq<u8>,
    fuel: nat,
    rest: Seq<u8>,
    k: int,
    bf: bool,
)
    requires
        ready3(vs, p, pre, fuel),
        crate::lookup::ascii_entries(vs),
        small_values(vs),
        0 <= k < vs.len(),
        trie3(vs, p, fuel).len() < 0x800_0000,
    ensures
        crate::reader3::spec_get(trie3(vs, p, fuel) + rest, vs[k].0.skip(p), bf, 0) == Some(vs[k].1),
    decreases fuel, 2nat, 0int,
{
    reveal(ready3);
    crate::const_builder::lemma_keys_longer(vs, pre);
    if vs[0].0.len() == p {
        let meta: u8 = if vs.len() == 1 { 0xA0 } else { 0x80 };
        let h = head3(vs[0].1 as int, meta);
        let rs = vs.drop_first();
        let b = body3(rs, p, fuel);
        lemma_head3_read(vs[0].1 as int, meta, b + rest);
        let x = trie3(vs, p, fuel) + rest;
        assert(x =~= h + (b + rest));
        assert(x[0] == h[0]);
        assert(x.drop_first() =~= h.drop_first() + (b + rest));
        if k == 0 {
            assert(vs[0].0.skip(p).len() == 0);
        } else {
            assert(vs.len() > 1);
            assert(vs[k].0.skip(p).len() > 0);
            assert(crate::reader3::spec_get(x, vs[k].0.skip(p), bf, 0) == crate::reader3::spec_get(
                b + rest,
                vs[k].0.skip(p),
                bf,
                0,
            ));
            lemma_body3_get(rs, p, pre, fuel, rest, k - 1, bf);
            assert(rs[k - 1] == vs[k]);
        }
    } else {
        lemma_body3_get(vs, p, pre, fuel, rest, k, bf);
    }
}

/// Looking up a key of entries all longer than `p` bytes in their node, followed by
/// anything, gives its value.
#[verifier::spinoff_prover]
#[verifier::rlimit(40)]
proof fn lemma_body3_get(
    vs: Seq<(Seq<u8>, usize)>,
    p: int,
    pre: Seq<u8>,
    fuel: nat,
    rest: Seq<u8>,
    k: int,
    bf: bool,
)
    requires
        ready3(vs, p, pre, fuel),
        crate::lookup::ascii_entries(vs),
        small_values(vs),
        0 <= k < vs.len(),
        forall|m: int| 0 <= m < vs.len() ==> (#[trigger] vs[m].0).len() > p,
        body3(vs, p, fuel).len() < 0x800_0000,
    ensures
        crate::reader3::spec_get(body3(vs, p, fuel) + rest, vs[k].0.skip(p), bf, 0) == Some(vs[k].1),
    decreases fuel, 1nat, 0int,
{
    assert(fuel >= 1) by {
        reveal(ready3);
        assert(vs[0].0.len() > p);
    }
    let gs = groups_from(vs, p, 0);
    lemma_groups_cover(vs, p, 0, k);
    let (t, j) = choose|t: int, j: int|
        0 <= t < gs.len() && 0 <= j < gs[t].1.len() && #[trigger] gs[t].1[j] == vs[k];
    lemma_tree3_get(vs, p, pre, fuel, 0, gs.len() as int, t, j, rest, bf);
}


/// Each key of pairs with ASCII keys in strictly increasing order reads back through
/// `reader3::get` as its value from the trie laid out for them, when the values and the
/// trie's size are below 2^27, what a node head holds.
pub proof fn lemma_trie3_reads_back(vs: Seq<(Seq<u8>, usize)>, k: int)
    requires
        sorted_entries(vs),
        crate::lookup::ascii_entries(vs),
        small_values(vs),
        trie3_bytes(vs).len() < 0x800_0000,
        0 <= k < vs.len(),
    ensures
        crate::reader3::spec_get(trie3_bytes(vs), vs[k].0, false, 0) == Some(vs[k].1),
{
    let fuel = max_key_len(vs) + 1;
    crate::const_builder::lemma_max_key_len(vs);
    assert(ready3(vs, 0, Seq::empty(), fuel)) by {
        reveal(ready3);
        assert forall|i: int| 0 <= i < vs.len() implies (#[trigger] vs[i].0).len() >= 0
            && vs[i].0.take(0) == Seq::<u8>::empty() by {
            assert(vs[i].0.take(0) =~= Seq::<u8>::empty());
        }
    }
    lemma_trie3_get(vs, 0, Seq::empty(), fuel, Seq::empty(), k, false);
    assert(vs[k].0.skip(0) =~= vs[k].0);
    assert(trie3_bytes(vs) + Seq::<u8>::empty() =~= trie3_bytes(vs));
}


/// Some entry of `vs` has the value `v` and a key of `len` bytes.
pub open spec fn has_entry_of_len(vs: Seq<(Seq<u8>, usize)>, v: usize, len: int) -> bool {
    exists|k: int| 0 <= k < vs.len() && (#[trigger] vs[k]).1 == v && vs[k].0.len() == len
}

/// An entry of a run is an entry of the whole.
proof fn lemma_group_entry(vs: Seq<(Seq<u8>, usize)>, p: int, t: int, v: usize, len: int)
    requires
        forall|k: int| 0 <= k < vs.len() ==> (#[trigger] vs[k].0).len() > p,
        0 <= t < groups_from(vs, p, 0).len(),
        has_entry_of_len(groups_from(vs, p, 0)[t].1, v, len),
    ensures
        has_entry_of_len(vs, v, len),
{
    lemma_groups_shape(vs, p, 0);
    let g = groups_from(vs, p, 0)[t];
    let (s, e) = choose|s: int, e: int|
        0 <= s < e <= vs.len() && #[trigger] groups_from(vs, p, 0)[t] == (vs[s].0[p], vs.subrange(s, e))
            && forall|k: int| s <= k < e ==> #[trigger] vs[k].0[p] == vs[s].0[p];
    let j = choose|j: int| 0 <= j < g.1.len() && (#[trigger] g.1[j]).1 == v && g.1[j].0.len() == len;
    assert(g.1[j] == vs[s + j]);
}

/// A lookup in the search tree over the runs `lo..hi`, followed by anything, that gives a
/// value gives the value of an entry whose key is as long as the query's.
#[verifier::spinoff_prover]
#[verifier::rlimit(60)]
proof fn lemma_tree3_len(
    vs: Seq<(Seq<u8>, usize)>,
    p: int,
    pre: Seq<u8>,
    fuel: nat,
    lo: int,
    hi: int,
    rest: Seq<u8>,
    r: Seq<u8>,
    bf: bool,
)
    requires
        fuel >= 1,
        ready3(vs, p, pre, fuel),
        crate::lookup::ascii_entries(vs),
        small_values(vs),
        forall|k: int| 0 <= k < vs.len() ==> (#[trigger] vs[k].0).len() > p,
        0 <= lo < hi <= groups_from(vs, p, 0).len(),
        tree3(groups_from(vs, p, 0), p + 1, fuel, lo, hi).len() < 0x800_0000,
    ensures
        crate::reader3::spec_get(tree3(groups_from(vs, p, 0), p + 1, fuel, lo, hi) + rest, r, bf, 0) matches Some(v)
            ==> has_entry_of_len(vs, v, p + r.len()),
    decreases fuel, 0nat, hi - lo,
{
    let gs = groups_from(vs, p, 0);
    let f1 = (fuel - 1) as nat;
    let x = tree3(gs, p + 1, fuel, lo, hi) + rest;
    if hi - lo == 1 {
        let c = gs[lo].0;
        let tt = trie3(gs[lo].1, p + 1, f1);
        lemma_group_ascii(vs, p, pre, fuel, lo);
        lemma_group_ready(vs, p, pre, fuel, lo);
        assert(x =~= seq![c] + (tt + rest));
        assert(x[0] == c);
        assert(x.drop_first() =~= tt + rest);
        if r.len() > 0 && r[0] == c {
            lemma_step_ascii(c, tt + rest, r, bf);
            lemma_trie3_len(gs[lo].1, p + 1, pre.push(c), f1, rest, r.drop_first(), bf);
            if crate::reader3::spec_get(x, r, bf, 0) is Some {
                lemma_group_entry(vs, p, lo, crate::reader3::spec_get(x, r, bf, 0)->Some_0, p + r.len());
            }
        }
    } else if hi - lo == 2 {
        let left = tree3(gs, p + 1, fuel, lo, lo + 1);
        let c1 = gs[lo + 1].0;
        let tt = trie3(gs[lo + 1].1, p + 1, f1);
        let tail = left + (tt + rest);
        assert(left.len() >= 1) by {
            lemma_tree3_nonempty(gs, p + 1, fuel, lo, lo + 1);
        }
        let h = head3(left.len() as int, 0xE0);
        assert(x =~= h + (seq![c1] + tail));
        lemma_head3_read(left.len() as int, 0xE0, seq![c1] + tail);
        assert(x[0] == h[0]);
        assert(x.drop_first() =~= h.drop_first() + (seq![c1] + tail));
        if r.len() > 0 {
            lemma_step_branch(left.len() as int, 0xE0, seq![c1] + tail, r, bf);
            lemma_group_ascii(vs, p, pre, fuel, lo + 1);
            lemma_group_ready(vs, p, pre, fuel, lo + 1);
            lemma_step_jump(c1, tail, r, true, left.len() as int);
            if r[0] < c1 {
                lemma_tree3_len(vs, p, pre, fuel, lo, lo + 1, tt + rest, r, true);
            } else {
                assert(tail.skip(left.len() as int) =~= tt + rest);
                lemma_trie3_len(gs[lo + 1].1, p + 1, pre.push(c1), f1, rest, r.drop_first(), true);
                if crate::reader3::spec_get(x, r, bf, 0) is Some {
                    lemma_group_entry(vs, p, lo + 1, crate::reader3::spec_get(x, r, bf, 0)->Some_0, p + r.len());
                }
            }
        }
    } else {
        let mid = lo + (hi - lo) / 2;
        let left = tree3(gs, p + 1, fuel, lo, mid);
        let right = tree3(gs, p + 1, fuel, mid, hi);
        let cm = gs[mid].0;
        let tail = left + (right + rest);
        assert(left.len() >= 1) by {
            lemma_tree3_nonempty(gs, p + 1, fuel, lo, mid);
        }
        let h = head3(left.len() as int, 0xC0);
        assert(x =~= h + (seq![cm] + tail));
        lemma_head3_read(left.len() as int, 0xC0, seq![cm] + tail);
        assert(x[0] == h[0]);
        assert(x.drop_first() =~= h.drop_first() + (seq![cm] + tail));
        if r.len() > 0 {
            lemma_step_branch(left.len() as int, 0xC0, seq![cm] + tail, r, bf);
            lemma_group_ascii(vs, p, pre, fuel, mid);
            lemma_step_jump(cm, tail, r, false, left.len() as int);
            if r[0] < cm {
                lemma_tree3_len(vs, p, pre, fuel, lo, mid, right + rest, r, false);
            } else {
                assert(tail.skip(left.len() as int) =~= right + rest);
                lemma_tree3_len(vs, p, pre, fuel, mid, hi, rest, r, false);
            }
        }
    }
}

/// A lookup in the trie of the entries, followed by anything, that gives a value gives
/// the value of an entry whose key is as long as the query's.
#[verifier::spinoff_prover]
#[verifier::rlimit(40)]
proof fn lemma_trie3_len(
    vs: Seq<(Seq<u8>, usize)>,
    p: int,
    pre: Seq<u8>,
    fuel: nat,
    rest: Seq<u8>,
    r: Seq<u8>,
    bf: bool,
)
    requires
        ready3(vs, p, pre, fuel),
        crate::lookup::ascii_entries(vs),
        small_values(vs),
        vs.len() > 0,
        trie3(vs, p, fuel).len() < 0x800_0000,
    ensures
        crate::reader3::spec_get(trie3(vs, p, fuel) + rest, r, bf, 0) matches Some(v) ==> has_entry_of_len(
            vs,
            v,
            p + r.len(),
        ),
    decreases fuel, 2nat, 0int,
{
    reveal(ready3);
    crate::const_builder::lemma_keys_longer(vs, pre);
    if vs[0].0.len() == p {
        let meta: u8 = if vs.len() == 1 { 0xA0 } else { 0x80 };
        let h = head3(vs[0].1 as int, meta);
        let rs = vs.drop_first();
        let b = body3(rs, p, fuel);
        lemma_head3_read(vs[0].1 as int, meta, b + rest);
        let x = trie3(vs, p, fuel) + rest;
        assert(x =~= h + (b + rest));
        assert(x[0] == h[0]);
        assert(x.drop_first() =~= h.drop_first() + (b + rest));
        if r.len() == 0 {
            assert(vs[0].1 == vs[0].1 && vs[0].0.len() == p + r.len());
        } else if vs.len() > 1 {
            assert(crate::reader3::spec_get(x, r, bf, 0) == crate::reader3::spec_get(b + rest, r, bf, 0));
            lemma_ready_sub(vs, p, pre, fuel, 1, vs.len() as int);
            assert(rs =~= vs.subrange(1, vs.len() as int));
            assert forall|m: int| 0 <= m < rs.len() implies (#[trigger] rs[m].0).len() > p by {
                assert(rs[m] == vs[m + 1]);
            }
            assert forall|m: int| 0 <= m < rs.len() implies crate::ascii::all_ascii(#[trigger] rs[m].0) by {
                assert(rs[m] == vs[m + 1]);
            }
            assert forall|m: int| 0 <= m < rs.len() implies (#[trigger] rs[m]).1 < 0x800_0000 by {
                assert(rs[m] == vs[m + 1]);
            }
            lemma_body3_len(rs, p, pre, fuel, rest, r, bf);
            if crate::reader3::spec_get(x, r, bf, 0) is Some {
                let v = crate::reader3::spec_get(x, r, bf, 0)->Some_0;
                let k = choose|k: int| 0 <= k < rs.len() && (#[trigger] rs[k]).1 == v && rs[k].0.len() == p + r.len();
                assert(rs[k] == vs[k + 1]);
            }
        }
    } else {
        assert forall|m: int| 0 <= m < vs.len() implies (#[trigger] vs[m].0).len() > p by {
            if m == 0 {
                assert(vs[0].0.len() >= p);
            }
        }
        lemma_body3_len(vs, p, pre, fuel, rest, r, bf);
    }
}

/// A lookup in the node of entries all longer than `p` bytes, followed by anything, that
/// gives a value gives the value of an entry whose key is as long as the query's.
proof fn lemma_body3_len(
    vs: Seq<(Seq<u8>, usize)>,
    p: int,
    pre: Seq<u8>,
    fuel: nat,
    rest: Seq<u8>,
    r: Seq<u8>,
    bf: bool,
)
    requires
        ready3(vs, p, pre, fuel),
        crate::lookup::ascii_entries(vs),
        small_values(vs),
        vs.len() > 0,
        forall|m: int| 0 <= m < vs.len() ==> (#[trigger] vs[m].0).len() > p,
        body3(vs, p, fuel).len() < 0x800_0000,
    ensures
        crate::reader3::spec_get(body3(vs, p, fuel) + rest, r, bf, 0) matches Some(v) ==> has_entry_of_len(
            vs,
            v,
            p + r.len(),
        ),
    decreases fuel, 1nat, 0int,
{
    assert(fuel >= 1) by {
        reveal(ready3);
        assert(vs[0].0.len() > p);
    }
    let gs = groups_from(vs, p, 0);
    crate::lookup::lemma_groups_cover(vs, p, 0);
    lemma_tree3_len(vs, p, pre, fuel, 0, gs.len() as int, rest, r, bf);
}

/// A query that reads as a value in the trie laid out for pairs with ASCII keys in
/// strictly increasing order (values and size below 2^27) reads as the value of a pair
/// whose key is as long as the query: the reader never stops short of a key, nor returns
/// a value with bytes of the query left over (a final value node with bytes left reads as
/// `None`).
pub proof fn lemma_trie3_value_key_length(vs: Seq<(Seq<u8>, usize)>, q: Seq<u8>)
    requires
        sorted_entries(vs),
        crate::lookup::ascii_entries(vs),
        small_values(vs),
        trie3_bytes(vs).len() < 0x800_0000,
    ensures
        crate::reader3::spec_get(trie3_bytes(vs), q, false, 0) matches Some(v) ==> exists|k: int|
            0 <= k < vs.len() && (#[trigger] vs[k]).1 == v && vs[k].0.len() == q.len(),
{
    if vs.len() > 0 {
        let fuel = max_key_len(vs) + 1;
        crate::const_builder::lemma_max_key_len(vs);
        assert(ready3(vs, 0, Seq::empty(), fuel)) by {
            reveal(ready3);
            assert forall|i: int| 0 <= i < vs.len() implies (#[trigger] vs[i].0).len() >= 0
                && vs[i].0.take(0) == Seq::<u8>::empty() by {
                assert(vs[i].0.take(0) =~= Seq::<u8>::empty());
            }
        }
        lemma_trie3_len(vs, 0, Seq::empty(), fuel, Seq::empty(), q, false);
        assert(trie3_bytes(vs) + Seq::<u8>::empty() =~= trie3_bytes(vs));
    }
}

/// What `ready3` says, spelled out.
pub proof fn reveal_ready3(vs: Seq<(Seq<u8>, usize)>, p: int, pre: Seq<u8>, fuel: nat)
    requires
        ready3(vs, p, pre, fuel),
    ensures
        pre.len() == p,
        sorted_entries(vs),
        share_prefix(vs, pre),
        forall|k: int| 0 <= k < vs.len() ==> (#[trigger] vs[k].0).len() <= p + fuel,
{
    reveal(ready3);
}

/// A stretch of entries ready past `p` bytes is ready too.
pub proof fn lemma_ready_sub(vs: Seq<(Seq<u8>, usize)>, p: int, pre: Seq<u8>, fuel: nat, s: int, e: int)
    requires
        ready3(vs, p, pre, fuel),
        0 <= s <= e <= vs.len(),
    ensures
        ready3(vs.subrange(s, e), p, pre, fuel),
{
    reveal(ready3);
    let g = vs.subrange(s, e);
    assert forall|i: int, j: int| 0 <= i < j < g.len() implies crate::ascii::seq_less(
        #[trigger] g[i].0,
        #[trigger] g[j].0,
    ) by {
        assert(g[i] == vs[s + i]);
        assert(g[j] == vs[s + j]);
    }
    assert forall|i: int| 0 <= i < g.len() implies (#[trigger] g[i].0).len() >= pre.len() && g[i].0.take(
        pre.len() as int,
    ) == pre && g[i].0.len() <= p + fuel by {
        assert(g[i] == vs[s + i]);
    }
}

} // verus!
