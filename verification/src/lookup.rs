//! What the tries that `AsciiTrieBuilder` lays out give back when read by `reader::get`.

use crate::ascii::{all_ascii, seq_less};
use crate::builder::{
    branch_bytes, branch_fits, branch_header, build, build_all, build_body, groups_from,
    lemma_branch_header, lemma_build_all, lemma_offset_le_total, lemma_offset_step, lemma_run_end,
    lemma_value_byte, max_key_len, offset_of, run_end, spec_build, value_byte,
};
use crate::reader::{branch_layers, lemma_binary_search_sorted, shift_in, sorted, spec_binary_search, spec_byte_type, spec_get, ByteType};
use crate::varint::{lead_bits, lead_extends, spec_read_varint, usize_range};
use vstd::prelude::*;

verus! {

/// The value paired with the first key equal to `key`, or `None`.
pub open spec fn find_value(vs: Seq<(Seq<u8>, usize)>, key: Seq<u8>) -> Option<usize>
    decreases vs.len(),
{
    if vs.len() == 0 {
        None
    } else if vs[0].0 == key {
        Some(vs[0].1)
    } else {
        find_value(vs.drop_first(), key)
    }
}

/// The keys are in strictly increasing order.
pub open spec fn sorted_entries(vs: Seq<(Seq<u8>, usize)>) -> bool {
    forall|i: int, j: int| 0 <= i < j < vs.len() ==> seq_less(#[trigger] vs[i].0, #[trigger] vs[j].0)
}

/// Every key is ASCII.
pub open spec fn ascii_entries(vs: Seq<(Seq<u8>, usize)>) -> bool {
    forall|i: int| 0 <= i < vs.len() ==> all_ascii(#[trigger] vs[i].0)
}

/// Every key starts with `pre`.
pub open spec fn share_prefix(vs: Seq<(Seq<u8>, usize)>, pre: Seq<u8>) -> bool {
    forall|i: int|
        0 <= i < vs.len() ==> (#[trigger] vs[i].0).len() >= pre.len() && vs[i].0.take(
            pre.len() as int,
        ) == pre
}

pub proof fn lemma_find_concat(a: Seq<(Seq<u8>, usize)>, b: Seq<(Seq<u8>, usize)>, key: Seq<u8>)
    ensures
        find_value(a + b, key) == match find_value(a, key) {
            Some(v) => Some(v),
            None => find_value(b, key),
        },
    decreases a.len(),
{
    if a.len() == 0 {
        assert(a + b =~= b);
    } else {
        assert((a + b).drop_first() =~= a.drop_first() + b);
        lemma_find_concat(a.drop_first(), b, key);
    }
}

pub proof fn lemma_find_absent(a: Seq<(Seq<u8>, usize)>, key: Seq<u8>)
    requires
        forall|i: int| 0 <= i < a.len() ==> #[trigger] a[i].0 != key,
    ensures
        find_value(a, key) is None,
    decreases a.len(),
{
    if a.len() > 0 {
        assert forall|i: int| 0 <= i < a.drop_first().len() implies #[trigger] a.drop_first()[i].0
            != key by {
            assert(a.drop_first()[i] == a[i + 1]);
        }
        lemma_find_absent(a.drop_first(), key);
    }
}

/// The keys of sorted entries that agree on their first `p` bytes have non-decreasing
/// bytes at `p`.
pub proof fn lemma_sorted_bytes(vs: Seq<(Seq<u8>, usize)>, p: int, pre: Seq<u8>)
    requires
        sorted_entries(vs),
        share_prefix(vs, pre),
        pre.len() == p,
        forall|k: int| 0 <= k < vs.len() ==> #[trigger] vs[k].0.len() > p,
    ensures
        forall|a: int, b: int| 0 <= a <= b < vs.len() ==> #[trigger] vs[a].0[p] <= #[trigger] vs[b].0[p],
{
    assert forall|a: int, b: int| 0 <= a <= b < vs.len() implies #[trigger] vs[a].0[p]
        <= #[trigger] vs[b].0[p] by {
        if a < b {
            let x = vs[a].0;
            let y = vs[b].0;
            assert(seq_less(x, y));
            let i = choose|i: int|
                0 <= i <= x.len() && i <= y.len() && x.take(i) == y.take(i) && ((i < x.len() && i
                    < y.len() && x[i] < y[i]) || (i == x.len() && i < y.len()));
            assert(x.take(p) == pre && y.take(p) == pre);
            if i < p {
                assert(x.take(p)[i] == y.take(p)[i]);
            } else if i > p {
                assert(x.take(i)[p] == y.take(i)[p]);
            }
        }
    }
}

/// The groups that `groups_from` cuts: each nonempty, each key in a group with that
/// group's byte at `p`, and the groups laid end to end giving back the entries from `i`.
pub proof fn lemma_groups_cover(vs: Seq<(Seq<u8>, usize)>, p: int, i: int)
    requires
        0 <= i <= vs.len(),
    ensures
        forall|k: int|
            0 <= k < groups_from(vs, p, i).len() ==> (#[trigger] groups_from(vs, p, i)[k]).1.len()
                > 0,
        forall|k: int, m: int|
            0 <= k < groups_from(vs, p, i).len() && 0 <= m < groups_from(vs, p, i)[k].1.len()
                ==> #[trigger] groups_from(vs, p, i)[k].1[m].0[p] == groups_from(vs, p, i)[k].0,
        forall|k: int|
            0 <= k < groups_from(vs, p, i).len() ==> exists|a: int, b: int|
                i <= a < b <= vs.len() && (#[trigger] groups_from(vs, p, i)[k]).1 == vs.subrange(a, b),
        i < vs.len() ==> groups_from(vs, p, i).len() > 0 && groups_from(vs, p, i)[0].0 == vs[i].0[p],
    decreases vs.len() - i,
{
    if i < vs.len() {
        let e = run_end(vs, p, i);
        lemma_run_end(vs, p, i);
        lemma_groups_cover(vs, p, e);
        let gs = groups_from(vs, p, i);
        let tail = groups_from(vs, p, e);
        assert(gs == seq![(vs[i].0[p], vs.subrange(i, e))] + tail);
        assert forall|k: int, m: int|
            0 <= k < gs.len() && 0 <= m < gs[k].1.len() implies #[trigger] gs[k].1[m].0[p]
            == gs[k].0 by {
            if k == 0 {
                assert(gs[0].1[m] == vs[i + m]);
            } else {
                assert(gs[k] == tail[k - 1]);
            }
        }
        assert forall|k: int| 0 <= k < gs.len() implies exists|a: int, b: int|
            i <= a < b <= vs.len() && (#[trigger] gs[k]).1 == vs.subrange(a, b) by {
            if k == 0 {
                assert(gs[0].1 == vs.subrange(i, e));
            } else {
                assert(gs[k] == tail[k - 1]);
            }
        }
        assert forall|k: int| 0 <= k < gs.len() implies (#[trigger] gs[k]).1.len() > 0 by {
            if k > 0 {
                assert(gs[k] == tail[k - 1]);
            }
        }
    }
}

/// With bytes at `p` non-decreasing, the groups' bytes are strictly increasing.
pub proof fn lemma_groups_increasing(vs: Seq<(Seq<u8>, usize)>, p: int, i: int)
    requires
        0 <= i <= vs.len(),
        forall|a: int, b: int| 0 <= a <= b < vs.len() ==> #[trigger] vs[a].0[p] <= #[trigger] vs[b].0[p],
    ensures
        forall|k: int, l: int|
            0 <= k < l < groups_from(vs, p, i).len() ==> #[trigger] groups_from(vs, p, i)[k].0
                < #[trigger] groups_from(vs, p, i)[l].0,
        forall|k: int|
            0 <= k < groups_from(vs, p, i).len() ==> #[trigger] groups_from(vs, p, i)[k].0
                >= vs[i].0[p],
    decreases vs.len() - i,
{
    if i < vs.len() {
        let e = run_end(vs, p, i);
        lemma_run_end(vs, p, i);
        lemma_groups_increasing(vs, p, e);
        lemma_groups_cover(vs, p, e);
        let gs = groups_from(vs, p, i);
        let tail = groups_from(vs, p, e);
        assert(gs == seq![(vs[i].0[p], vs.subrange(i, e))] + tail);
        if e < vs.len() {
            assert(vs[i].0[p] <= vs[e].0[p]);
        }
        assert forall|k: int| 0 <= k < gs.len() implies #[trigger] gs[k].0 >= vs[i].0[p] by {
            if k > 0 {
                assert(gs[k] == tail[k - 1]);
                assert(vs[i].0[p] <= vs[e].0[p]);
            }
        }
        assert forall|k: int, l: int| 0 <= k < l < gs.len() implies #[trigger] gs[k].0
            < #[trigger] gs[l].0 by {
            assert(gs[l] == tail[l - 1]);
            if k > 0 {
                assert(gs[k] == tail[k - 1]);
            } else {
                assert(tail[l - 1].0 >= vs[e].0[p]);
                assert(vs[i].0[p] <= vs[e].0[p]);
            }
        }
    }
}

/// Looking a key up among the entries from `i` finds it in the one group whose byte is
/// the key's byte at `p`, or nowhere if no group has that byte.
pub proof fn lemma_find_groups(vs: Seq<(Seq<u8>, usize)>, p: int, i: int, key: Seq<u8>)
    requires
        0 <= i <= vs.len(),
        0 <= p < key.len(),
        forall|k: int| 0 <= k < vs.len() ==> #[trigger] vs[k].0.len() > p,
    ensures
        (forall|l: int|
            0 <= l < groups_from(vs, p, i).len() ==> #[trigger] groups_from(vs, p, i)[l].0
                != key[p]) ==> find_value(vs.skip(i), key) is None,
        forall|l: int|
            0 <= l < groups_from(vs, p, i).len() && #[trigger] groups_from(vs, p, i)[l].0 == key[p]
                && (forall|l2: int|
                0 <= l2 < groups_from(vs, p, i).len() && l2 != l ==> groups_from(vs, p, i)[l2].0
                    != key[p]) ==> find_value(vs.skip(i), key) == find_value(
                groups_from(vs, p, i)[l].1,
                key,
            ),
    decreases vs.len() - i,
{
    if i == vs.len() {
        assert(vs.skip(i).len() == 0);
    } else {
        let e = run_end(vs, p, i);
        lemma_run_end(vs, p, i);
        lemma_find_groups(vs, p, e, key);
        let gs = groups_from(vs, p, i);
        let tail = groups_from(vs, p, e);
        let g0 = vs.subrange(i, e);
        assert(gs == seq![(vs[i].0[p], g0)] + tail);
        assert(vs.skip(i) =~= g0 + vs.skip(e));
        lemma_find_concat(g0, vs.skip(e), key);
        if vs[i].0[p] != key[p] {
            assert forall|m: int| 0 <= m < g0.len() implies #[trigger] g0[m].0 != key by {
                assert(g0[m] == vs[i + m]);
                assert(g0[m].0[p] == vs[i].0[p]);
            }
            lemma_find_absent(g0, key);
        }
        assert forall|l: int|
            0 <= l < gs.len() && #[trigger] gs[l].0 == key[p] && (forall|l2: int|
                0 <= l2 < gs.len() && l2 != l ==> gs[l2].0 != key[p]) implies find_value(
            vs.skip(i),
            key,
        ) == find_value(gs[l].1, key) by {
            if l == 0 {
                assert forall|l2: int| 0 <= l2 < tail.len() implies #[trigger] tail[l2].0
                    != key[p] by {
                    assert(tail[l2] == gs[l2 + 1]);
                }
            } else {
                assert(gs[0].0 != key[p]);
                assert(gs[l] == tail[l - 1]);
                assert forall|l2: int| 0 <= l2 < tail.len() && l2 != l - 1 implies #[trigger] tail[l2].0
                    != key[p] by {
                    assert(tail[l2] == gs[l2 + 1]);
                }
            }
        }
        if forall|l: int| 0 <= l < gs.len() ==> #[trigger] gs[l].0 != key[p] {
            assert(gs[0].0 != key[p]);
            assert forall|l2: int| 0 <= l2 < tail.len() implies #[trigger] tail[l2].0 != key[p] by {
                assert(tail[l2] == gs[l2 + 1]);
            }
        }
    }
}

/// Target `i`'s trie among the targets' tries laid end to end.
pub proof fn lemma_flatten_slice(tries: Seq<Seq<u8>>, i: int)
    requires
        0 <= i < tries.len(),
    ensures
        tries.flatten().subrange(offset_of(tries, i), offset_of(tries, i + 1)) == tries[i],
        offset_of(tries, i + 1) <= tries.flatten().len(),
{
    let a = tries.take(i);
    let b = tries.skip(i + 1);
    assert(tries =~= a + (seq![tries[i]] + b));
    vstd::seq_lib::lemma_flatten_concat(a, seq![tries[i]] + b);
    vstd::seq_lib::lemma_flatten_concat(seq![tries[i]], b);
    seq![tries[i]].lemma_flatten_one_element();
    lemma_offset_step(tries, i);
    lemma_offset_le_total(tries, i + 1);
    assert(tries.flatten().subrange(offset_of(tries, i), offset_of(tries, i + 1)) =~= tries[i]);
}

pub proof fn lemma_sub_entries(vs: Seq<(Seq<u8>, usize)>, a: int, b: int)
    requires
        0 <= a <= b <= vs.len(),
        sorted_entries(vs),
        ascii_entries(vs),
    ensures
        sorted_entries(vs.subrange(a, b)),
        ascii_entries(vs.subrange(a, b)),
{
    let w = vs.subrange(a, b);
    assert forall|i: int, j: int| 0 <= i < j < w.len() implies seq_less(
        #[trigger] w[i].0,
        #[trigger] w[j].0,
    ) by {
        assert(w[i] == vs[a + i] && w[j] == vs[a + j]);
    }
    assert forall|i: int| 0 <= i < w.len() implies all_ascii(#[trigger] w[i].0) by {
        assert(w[i] == vs[a + i]);
    }
}

/// The trie that `build` lays out for sorted ASCII keys sharing the prefix `pre` gives,
/// for each ASCII query `q`, the value of the key `pre + q`, or `None` if there is none.
proof fn lemma_build_get(vs: Seq<(Seq<u8>, usize)>, p: int, fuel: nat, pre: Seq<u8>, q: Seq<u8>)
    requires
        p == pre.len(),
        sorted_entries(vs),
        ascii_entries(vs),
        share_prefix(vs, pre),
        all_ascii(q),
        build(vs, p, fuel, 255) is Some,
    ensures
        spec_get(build(vs, p, fuel, 255)->Some_0, q) == find_value(vs, pre + q),
    decreases fuel, 2nat,
{
    if vs.len() > 0 && vs[0].0.len() == p {
        let v = vs[0].1;
        let rest = vs.drop_first();
        let b = build_body(rest, p, fuel, 255)->Some_0;
        let t = build(vs, p, fuel, 255)->Some_0;
        lemma_value_byte(v);
        assert(t == seq![value_byte(v)] + b);
        assert(t.drop_first() =~= b);
        assert(vs[0].0 =~= pre) by {
            assert(vs[0].0.take(p) == pre);
        }
        assert(!lead_extends(value_byte(v)));
        assert(spec_read_varint(value_byte(v), b) == Some((v, b)));
        assert(spec_byte_type(value_byte(v)) == ByteType::Value);
        assert forall|i: int, j: int| 0 <= i < j < rest.len() implies seq_less(
            #[trigger] rest[i].0,
            #[trigger] rest[j].0,
        ) by {
            assert(rest[i] == vs[i + 1] && rest[j] == vs[j + 1]);
        }
        assert forall|i: int| 0 <= i < rest.len() implies all_ascii(#[trigger] rest[i].0) by {
            assert(rest[i] == vs[i + 1]);
        }
        assert forall|i: int| 0 <= i < rest.len() implies (#[trigger] rest[i].0).len() >= pre.len()
            && rest[i].0.take(pre.len() as int) == pre by {
            assert(rest[i] == vs[i + 1]);
        }
        if q.len() == 0 {
            assert(pre + q =~= pre);
        } else {
            assert(q[0] < 128);
            lemma_body_get(rest, p, fuel, pre, q);
            assert(vs[0].0 != pre + q) by {
                assert((pre + q).len() > pre.len());
            }
        }
    } else if vs.len() > 0 {
        lemma_body_get(vs, p, fuel, pre, q);
    }
}

proof fn lemma_body_get(vs: Seq<(Seq<u8>, usize)>, p: int, fuel: nat, pre: Seq<u8>, q: Seq<u8>)
    requires
        p == pre.len(),
        sorted_entries(vs),
        ascii_entries(vs),
        share_prefix(vs, pre),
        all_ascii(q),
        build_body(vs, p, fuel, 255) is Some,
    ensures
        spec_get(build_body(vs, p, fuel, 255)->Some_0, q) == find_value(vs, pre + q),
    decreases fuel, 1nat,
{
    if vs.len() == 0 {
        return;
    }
    let key = pre + q;
    assert(forall|k: int| 0 <= k < vs.len() ==> #[trigger] vs[k].0.len() > p);
    if q.len() == 0 {
        assert forall|k: int| 0 <= k < vs.len() implies #[trigger] vs[k].0 != key by {
            assert(key =~= pre);
        }
        lemma_find_absent(vs, key);
    }
    if groups_from(vs, p, 0).len() == 1 {
        lemma_single_get(vs, p, fuel, pre, q);
    } else {
        lemma_branch_get(vs, p, fuel, pre, q);
    }
}

proof fn lemma_single_get(vs: Seq<(Seq<u8>, usize)>, p: int, fuel: nat, pre: Seq<u8>, q: Seq<u8>)
    requires
        p == pre.len(),
        vs.len() > 0,
        sorted_entries(vs),
        ascii_entries(vs),
        share_prefix(vs, pre),
        all_ascii(q),
        build_body(vs, p, fuel, 255) is Some,
        groups_from(vs, p, 0).len() == 1,
        forall|k: int| 0 <= k < vs.len() ==> #[trigger] vs[k].0.len() > p,
        q.len() == 0 ==> find_value(vs, pre + q) is None,
    ensures
        spec_get(build_body(vs, p, fuel, 255)->Some_0, q) == find_value(vs, pre + q),
    decreases fuel, 0nat,
{
    let key = pre + q;
    let t = build_body(vs, p, fuel, 255)->Some_0;
    let a = vs[0].0[p];
    let t1 = build(vs, p + 1, (fuel - 1) as nat, 255)->Some_0;
    assert(t == seq![a] + t1);
    assert(t.drop_first() =~= t1);
    lemma_run_end(vs, p, 0);
    assert(run_end(vs, p, 0) == vs.len()) by {
        if run_end(vs, p, 0) < vs.len() {
            lemma_groups_cover(vs, p, run_end(vs, p, 0));
        }
    }
    assert(all_ascii(vs[0].0));
    assert(a < 128);
    assert(spec_byte_type(a) == ByteType::Ascii);
    if q.len() > 0 {
        let c = q[0];
        assert(key[p] == c);
        if c == a {
            let pre2 = pre.push(a);
            assert forall|i: int| 0 <= i < vs.len() implies (#[trigger] vs[i].0).len() >= pre2.len()
                && vs[i].0.take(pre2.len() as int) == pre2 by {
                assert(vs[i].0[p] == a);
                assert(vs[i].0.take(p) == pre);
                assert(vs[i].0.take(p + 1) =~= vs[i].0.take(p).push(vs[i].0[p]));
            }
            lemma_build_get(vs, p + 1, (fuel - 1) as nat, pre2, q.drop_first());
            assert(pre2 + q.drop_first() =~= key);
        } else {
            assert forall|k: int| 0 <= k < vs.len() implies #[trigger] vs[k].0 != key by {
                assert(vs[k].0[p] == a);
            }
            lemma_find_absent(vs, key);
        }
    }
}

#[verifier::spinoff_prover]
#[verifier::rlimit(30)]
proof fn lemma_branch_get(vs: Seq<(Seq<u8>, usize)>, p: int, fuel: nat, pre: Seq<u8>, q: Seq<u8>)
    requires
        p == pre.len(),
        vs.len() > 0,
        sorted_entries(vs),
        ascii_entries(vs),
        share_prefix(vs, pre),
        all_ascii(q),
        build_body(vs, p, fuel, 255) is Some,
        groups_from(vs, p, 0).len() != 1,
        forall|k: int| 0 <= k < vs.len() ==> #[trigger] vs[k].0.len() > p,
        q.len() == 0 ==> find_value(vs, pre + q) is None,
    ensures
        spec_get(build_body(vs, p, fuel, 255)->Some_0, q) == find_value(vs, pre + q),
    decreases fuel, 0nat,
{
    let key = pre + q;
    let t = build_body(vs, p, fuel, 255)->Some_0;
    lemma_sorted_bytes(vs, p, pre);
    lemma_groups_cover(vs, p, 0);
    lemma_groups_increasing(vs, p, 0);
    let gs = groups_from(vs, p, 0);
    assert(vs.skip(0) =~= vs);
    let tries = build_all(gs, p + 1, (fuel - 1) as nat, 255)->Some_0;
    let asciis = gs.map_values(|g: (u8, Seq<(Seq<u8>, usize)>)| g.0);
    lemma_build_all(gs, p + 1, (fuel - 1) as nat, 255);
    let n = gs.len() as int;
    assert(branch_fits(tries, 255));
    assert(n <= 31);
    lemma_branch_header(n as usize);
    assert(branch_header(n as usize as int) == branch_header(n));
    let offs = Seq::new(tries.len(), |k: int| offset_of(tries, k) as u8);
    let flat = tries.flatten();
    let tt = asciis + offs + flat;
    assert(t == branch_bytes(asciis, tries));
    assert(t.drop_first() =~= tt);
    assert(spec_byte_type(branch_header(n)) == ByteType::Match);
    assert(spec_read_varint(branch_header(n), tt) == Some((n as usize, tt)));
    if q.len() > 0 {
        let c = q[0];
        assert(key[p] == c);
        assert(c < 128);
        assert(tt.take(n) =~= asciis);
        let after = tt.skip(n);
        assert(after =~= offs + flat);
        assert(sorted(asciis)) by {
            assert forall|i: int, j: int| 0 <= i <= j < asciis.len() implies asciis[i]
                <= asciis[j] by {
                if i < j {
                    assert(gs[i].0 < gs[j].0);
                }
            }
        }
        lemma_binary_search_sorted(asciis, c);
        match spec_binary_search(asciis, c) {
            Err(_) => {
                assert forall|l: int| 0 <= l < gs.len() implies #[trigger] gs[l].0 != key[p] by {
                    assert(asciis[l] == gs[l].0);
                }
                lemma_find_groups(vs, p, 0, key);
            },
            Ok(i) => {
                let i = i as int;
                assert(gs[i].0 == c);
                lemma_branch_target(tries, i, after);
                let g = gs[i].1;
                let (lo, hi) = choose|lo: int, hi: int|
                    0 <= lo < hi <= vs.len() && g == vs.subrange(lo, hi);
                lemma_sub_entries(vs, lo, hi);
                let pre2 = pre.push(c);
                assert forall|m: int| 0 <= m < g.len() implies (#[trigger] g[m].0).len()
                    >= pre2.len() && g[m].0.take(pre2.len() as int) == pre2 by {
                    assert(g[m] == vs[lo + m]);
                    assert(g[m].0[p] == c);
                    assert(g[m].0.take(p) == pre);
                    assert(g[m].0.take(p + 1) =~= g[m].0.take(p).push(g[m].0[p]));
                }
                assert(build(g, p + 1, (fuel - 1) as nat, 255) == Some(tries[i]));
                lemma_build_get(g, p + 1, (fuel - 1) as nat, pre2, q.drop_first());
                assert(pre2 + q.drop_first() =~= key);
                assert forall|l2: int| 0 <= l2 < gs.len() && l2 != i implies gs[l2].0 != key[p] by {
                    if l2 < i {
                        assert(gs[l2].0 < gs[i].0);
                    } else {
                        assert(gs[i].0 < gs[l2].0);
                    }
                }
                lemma_find_groups(vs, p, 0, key);
            },
        }
    }
}

/// Reading target `i` of a branch node whose offset table is followed by the targets'
/// tries gives back that target's trie.
#[verifier::spinoff_prover]
proof fn lemma_branch_target(tries: Seq<Seq<u8>>, i: int, after: Seq<u8>)
    requires
        0 <= i < tries.len(),
        branch_fits(tries, 255),
        after == Seq::new(tries.len(), |k: int| offset_of(tries, k) as u8) + tries.flatten(),
    ensures
        ({
            let n = tries.len() as int;
            &&& branch_layers(after, i, n, 0, 0, 0) == Some(
                (offset_of(tries, i), offset_of(tries, i + 1), n),
            )
            &&& 0 <= n <= after.len()
            &&& 0 <= offset_of(tries, i) <= offset_of(tries, i + 1) <= after.len() - n
            &&& after.skip(n).subrange(offset_of(tries, i), offset_of(tries, i + 1)) == tries[i]
        }),
{
    let n = tries.len() as int;
    let offs = Seq::new(tries.len(), |k: int| offset_of(tries, k) as u8);
    let flat = tries.flatten();
    assert(after.take(n) =~= offs);
    assert(after.skip(n) =~= flat);
    lemma_flatten_slice(tries, i);
    lemma_offset_step(tries, i);
    assert(offset_of(tries, i) <= 255);
    assert(offs[i] == offset_of(tries, i));
    crate::varint::lemma_usize_bounds();
    vstd::arithmetic::div_mod::lemma_small_mod(0, usize_range() as nat);
    assert(0int * 256 == 0);
    assert(shift_in(0, offs[i] as int) == offs[i]);
    assert(shift_in(0, 255) == 255);
    if i + 1 < n {
        assert(offset_of(tries, i + 1) <= 255);
        assert(offs[i + 1] == offset_of(tries, i + 1));
        assert(shift_in(0, offs[i + 1] as int) == offs[i + 1]);
    } else {
        assert(tries.take(n) =~= tries);
    }
}

/// The tries that `AsciiTrieBuilder::try_from_litemap` builds give back what was put in:
/// for keys in strictly increasing order, all ASCII, and a layout whose every branch holds
/// at most 255 bytes of tries, reading any ASCII query gives the value of that key, or
/// `None` when no key equals it. Such a layout is also the one built with the limit of
/// 256 bytes that `try_from_litemap` checks.
pub proof fn lemma_built_trie_lookup(vs: Seq<(Seq<u8>, usize)>, q: Seq<u8>)
    requires
        sorted_entries(vs),
        ascii_entries(vs),
        all_ascii(q),
        spec_build(vs, 255) is Some,
    ensures
        spec_build(vs, 256) == spec_build(vs, 255),
        spec_get(spec_build(vs, 255)->Some_0, q) == find_value(vs, q),
{
    let pre = Seq::<u8>::empty();
    assert forall|i: int| 0 <= i < vs.len() implies (#[trigger] vs[i].0).len() >= pre.len()
        && vs[i].0.take(pre.len() as int) == pre by {
        assert(vs[i].0.take(0) =~= pre);
    }
    lemma_build_get(vs, 0, max_key_len(vs) + 1, pre, q);
    assert(pre + q =~= q);
    lemma_build_limit(vs, 0, max_key_len(vs) + 1);
}

/// A layout built within 255 bytes per branch is the same within 256.
proof fn lemma_build_limit(vs: Seq<(Seq<u8>, usize)>, p: int, fuel: nat)
    requires
        build(vs, p, fuel, 255) is Some,
    ensures
        build(vs, p, fuel, 256) == build(vs, p, fuel, 255),
    decreases fuel, 1nat,
{
    if vs.len() > 0 {
        if vs[0].0.len() == p {
            lemma_body_limit(vs.drop_first(), p, fuel);
        } else {
            lemma_body_limit(vs, p, fuel);
        }
    }
}

proof fn lemma_body_limit(vs: Seq<(Seq<u8>, usize)>, p: int, fuel: nat)
    requires
        build_body(vs, p, fuel, 255) is Some,
    ensures
        build_body(vs, p, fuel, 256) == build_body(vs, p, fuel, 255),
    decreases fuel, 0nat,
{
    if vs.len() > 0 && fuel > 0 {
        let gs = groups_from(vs, p, 0);
        if gs.len() == 1 {
            lemma_build_limit(vs, p + 1, (fuel - 1) as nat);
        } else {
            lemma_all_limit(gs, p + 1, (fuel - 1) as nat);
        }
    }
}

proof fn lemma_all_limit(gs: Seq<(u8, Seq<(Seq<u8>, usize)>)>, p: int, fuel: nat)
    requires
        build_all(gs, p, fuel, 255) is Some,
    ensures
        build_all(gs, p, fuel, 256) == build_all(gs, p, fuel, 255),
    decreases fuel, gs.len() + 1,
{
    if gs.len() > 0 {
        lemma_build_limit(gs[0].1, p, fuel);
        lemma_all_limit(gs.drop_first(), p, fuel);
    }
}

} // verus!
