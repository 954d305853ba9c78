//! What the tries that `builder6` lays out with the options of `ZeroTrieSimpleAscii` read
//! back through `reader6`: for keys in strictly increasing order, every query gives the
//! value of the key equal to it, or `None`, and a walk of the trie lists the pairs in
//! order.

use crate::ascii::all_ascii;
use crate::builder6::{
    body6, body_phf6, branch6, branch_bytes6, branch_phf6, head6, lemma_span_le, node6, node_phf6,
    phf_found6, pos_in, span_len, tries6, tries_phf6, uses_phf, AsciiMode, PhfMode,
    ZeroTrieBuilderOptions, trie6_bytes,
};
use crate::byte_phf::{perfect, permuted, phf_bytes, phf_get, slot, spec_find};
use crate::builder::{groups_from, lemma_offset_le_total, lemma_run_end, max_key_len, offset_of, run_end};
use crate::const_builder::node_head;
use crate::lookup::{
    ascii_entries, find_value, lemma_find_absent, lemma_find_groups, lemma_flatten_slice,
    lemma_groups_cover, lemma_groups_increasing, lemma_sorted_bytes, lemma_sub_entries, share_prefix,
    sorted_entries,
};
use crate::offsets::{digits256, lemma_digits256, lemma_table_len, offset_layer, offset_table};
use crate::reader6::{
    branch_child6, branch_count, find_byte, reads_phf, spec_get6, table_offset, target_byte6, walk_items6,
    walk_targets6,
};
use crate::represents::{concat_runs, lemma_concat_runs};
use crate::varint::{lemma_varint_read, spec_read_varint, varint_bytes};
use crate::varinta::{lemma_varint2_read, varint2_bytes};
use crate::varintx::pow256;
use vstd::arithmetic::div_mod::*;
use vstd::prelude::*;

verus! {

/// The options of a trie of ASCII keys with branches searched by their bytes.
pub open spec fn simple_layout(opts: ZeroTrieBuilderOptions) -> bool {
    opts.phf_mode == PhfMode::BinaryOnly && opts.ascii_mode == AsciiMode::AsciiOnly
}

/// The byte at `(m * j) + k` of an offset table of `l` layers over `m` offsets is digit
/// `l - 1 - j` of offset `k`.
proof fn lemma_table_digit(offs: Seq<int>, l: nat, j: int, k: int)
    requires
        0 <= j < l,
        0 <= k < offs.len(),
    ensures
        offset_table(offs, l).len() == l * offs.len(),
        offset_table(offs, l)[offs.len() * j + k] == ((offs[k] / pow256((l - 1 - j) as nat)) % 256) as u8,
    decreases l,
{
    let m = offs.len() as int;
    lemma_table_len(offs, l);
    let lower = (l - 1) as nat;
    lemma_table_len(offs, lower);
    let layer = offset_layer(offs, lower);
    assert(offset_table(offs, l) == layer + offset_table(offs, lower));
    if j == 0 {
        assert(m * 0 + k == k);
        assert(layer[k] == ((offs[k] / pow256(lower)) % 256) as u8);
    } else {
        lemma_table_digit(offs, lower, j - 1, k);
        assert(m * j + k == m + (m * (j - 1) + k)) by (nonlinear_arith);
        assert(m * (j - 1) + k < lower * m) by (nonlinear_arith)
            requires
                0 <= k < m,
                0 <= j - 1 < lower,
        ;
    }
}

/// Reading `r` layers of an offset table of `l` layers gives the offset's top `r` digits.
proof fn lemma_table_read(offs: Seq<int>, l: nat, i: int, r: nat)
    requires
        1 <= i <= offs.len(),
        r <= l,
        forall|k: int| 0 <= k < offs.len() ==> 0 <= #[trigger] offs[k] < pow256(l),
    ensures
        table_offset(offset_table(offs, l), offs.len() as int, i, r) == offs[i - 1] / pow256(
            (l - r) as nat,
        ),
    decreases r,
{
    let x = offs[i - 1];
    let m = offs.len() as int;
    crate::offsets::lemma_pow256_pos((l - r) as nat);
    if r == 0 {
        lemma_basic_div(x, pow256(l));
    } else {
        lemma_table_read(offs, l, i, (r - 1) as nat);
        lemma_table_digit(offs, l, (r - 1) as int, i - 1);
        assert((r - 1) * m + i - 1 == m * (r - 1) + (i - 1)) by (nonlinear_arith);
        let p = pow256((l - r) as nat);
        assert(pow256((l - (r - 1)) as nat) == 256 * p);
        lemma_div_denominator(x, p, 256);
        let y = x / p;
        lemma_div_pos_is_pos(x, p);
        lemma_fundamental_div_mod(y, 256);
        assert(((y % 256) as u8) as int == y % 256);
    }
}

/// The first place of `c` in `ks` from `i` on, for bytes in strictly increasing order, is
/// its only place, or there is none.
proof fn lemma_find_byte(ks: Seq<u8>, c: u8, i: int)
    requires
        0 <= i <= ks.len(),
        ks.len() <= usize::MAX,
    ensures
        match find_byte(ks, c, i) {
            Some(j) => i <= j < ks.len() && ks[j as int] == c,
            None => forall|j: int| i <= j < ks.len() ==> ks[j] != c,
        },
    decreases ks.len() - i,
{
    if i < ks.len() && ks[i] != c {
        lemma_find_byte(ks, c, i + 1);
    }
}

/// Bytes in strictly increasing order below 128 are at most 128.
proof fn lemma_increasing_below(gs: Seq<(u8, Seq<(Seq<u8>, usize)>)>, k: int)
    requires
        0 <= k < gs.len(),
        forall|a: int, b: int| 0 <= a < b < gs.len() ==> #[trigger] gs[a].0 < #[trigger] gs[b].0,
    ensures
        gs[k].0 >= k,
    decreases k,
{
    if k > 0 {
        lemma_increasing_below(gs, k - 1);
        assert(gs[k - 1].0 < gs[k].0);
    }
}

/// `tries6` gives one trie per run, each the node of that run.
proof fn lemma_tries6_each(
    gs: Seq<(u8, Seq<(Seq<u8>, usize)>)>,
    p: int,
    fuel: nat,
    opts: ZeroTrieBuilderOptions,
    n: int,
)
    requires
        0 <= n <= gs.len(),
        tries6(gs, p, fuel, opts, n) is Ok,
    ensures
        tries6(gs, p, fuel, opts, n)->Ok_0.len() == n,
        forall|j: int|
            0 <= j < n ==> node6(gs[j].1, p, fuel, opts) == Ok::<Seq<u8>, crate::error::Error>(
                #[trigger] tries6(gs, p, fuel, opts, n)->Ok_0[j],
            ),
    decreases n,
{
    if n > 0 {
        lemma_tries6_each(gs, p, fuel, opts, n - 1);
    }
}

/// The node that `node6` lays out for sorted ASCII keys sharing the prefix `pre`, with
/// the simple options, gives for each query `q` the value of the key `pre + q`.
proof fn lemma_node6_get(
    vs: Seq<(Seq<u8>, usize)>,
    p: int,
    fuel: nat,
    opts: ZeroTrieBuilderOptions,
    pre: Seq<u8>,
    q: Seq<u8>,
)
    requires
        simple_layout(opts),
        p == pre.len(),
        sorted_entries(vs),
        ascii_entries(vs),
        share_prefix(vs, pre),
        forall|k: int| 0 <= k < vs.len() ==> #[trigger] vs[k].0.len() < p + fuel,
        node6(vs, p, fuel, opts) is Ok,
        node6(vs, p, fuel, opts)->Ok_0.len() <= usize::MAX,
    ensures
        spec_get6(node6(vs, p, fuel, opts)->Ok_0, q, false) == find_value(vs, pre + q),
    decreases fuel, 2nat,
{
    if vs.len() == 0 {
        return;
    }
    if vs[0].0.len() == p {
        let v = vs[0].1;
        let rest = vs.drop_first();
        let b = body6(rest, p, fuel, opts)->Ok_0;
        let t = node6(vs, p, fuel, opts)->Ok_0;
        let h = head6(v as int, 0x80);
        lemma_varint2_read(v as int, 0x80, b);
        assert(t == h + b);
        assert(t[0] == varint2_bytes(v as int)[0] | 0x80);
        assert(t.drop_first() =~= varint2_bytes(v as int).drop_first() + b);
        assert(vs[0].0 =~= pre) by {
            assert(vs[0].0.take(p) == pre);
        }
        assert forall|i: int, j: int| 0 <= i < j < rest.len() implies crate::ascii::seq_less(
            #[trigger] rest[i].0,
            #[trigger] rest[j].0,
        ) by {
            assert(rest[i] == vs[i + 1] && rest[j] == vs[j + 1]);
        }
        assert forall|i: int| 0 <= i < rest.len() implies all_ascii(#[trigger] rest[i].0) by {
            assert(rest[i] == vs[i + 1]);
        }
        assert forall|i: int| 0 <= i < rest.len() implies (#[trigger] rest[i].0).len() >= pre.len()
            && rest[i].0.take(pre.len() as int) == pre by {
            assert(rest[i] == vs[i + 1]);
        }
        crate::const_builder::lemma_keys_longer(vs, pre);
        assert forall|i: int| 0 <= i < rest.len() implies (#[trigger] rest[i].0).len() > p by {
            assert(rest[i] == vs[i + 1]);
        }
        assert forall|i: int| 0 <= i < rest.len() implies #[trigger] rest[i].0.len() < p + fuel by {
            assert(rest[i] == vs[i + 1]);
        }
        if q.len() == 0 {
            assert(pre + q =~= pre);
        } else {
            lemma_body6_get(rest, p, fuel, opts, pre, q);
            assert(vs[0].0 != pre + q) by {
                assert((pre + q).len() > pre.len());
            }
        }
    } else {
        crate::const_builder::lemma_keys_longer(vs, pre);
        assert(vs[0].0.len() >= p);
        assert forall|i: int| 0 <= i < vs.len() implies (#[trigger] vs[i].0).len() > p by {
            if i == 0 {
                assert(vs[0].0.len() != p);
            }
        }
        lemma_body6_get(vs, p, fuel, opts, pre, q);
    }
}

/// `body6` for keys all longer than `pre` gives, for each query, the value of its key.
proof fn lemma_body6_get(
    vs: Seq<(Seq<u8>, usize)>,
    p: int,
    fuel: nat,
    opts: ZeroTrieBuilderOptions,
    pre: Seq<u8>,
    q: Seq<u8>,
)
    requires
        simple_layout(opts),
        p == pre.len(),
        sorted_entries(vs),
        ascii_entries(vs),
        share_prefix(vs, pre),
        forall|k: int| 0 <= k < vs.len() ==> #[trigger] vs[k].0.len() < p + fuel,
        forall|k: int| 0 <= k < vs.len() ==> #[trigger] vs[k].0.len() > p,
        body6(vs, p, fuel, opts) is Ok,
        body6(vs, p, fuel, opts)->Ok_0.len() <= usize::MAX,
    ensures
        spec_get6(body6(vs, p, fuel, opts)->Ok_0, q, false) == find_value(vs, pre + q),
    decreases fuel, 1nat,
{
    if vs.len() == 0 {
        return;
    }
    assert(vs[0].0.len() > p && vs[0].0.len() < p + fuel);
    let key = pre + q;
    if q.len() == 0 {
        assert forall|k: int| 0 <= k < vs.len() implies #[trigger] vs[k].0 != key by {
            assert(key =~= pre);
        }
        lemma_find_absent(vs, key);
    }
    let gs = groups_from(vs, p, 0);
    lemma_groups_cover(vs, p, 0);
    if gs.len() == 1 {
        let t = body6(vs, p, fuel, opts)->Ok_0;
        let a = gs[0].0;
        assert(a == vs[0].0[p]);
        assert(all_ascii(vs[0].0));
        assert(a < 128);
        let t1 = node6(vs, p + 1, (fuel - 1) as nat, opts)->Ok_0;
        assert(t == seq![a] + t1);
        assert(t[0] == a);
        assert(t.drop_first() =~= t1);
        lemma_run_end(vs, p, 0);
        assert(run_end(vs, p, 0) == vs.len()) by {
            if run_end(vs, p, 0) < vs.len() {
                lemma_groups_cover(vs, p, run_end(vs, p, 0));
            }
        }
        if q.len() > 0 {
            let c = q[0];
            assert(key[p] == c);
            if c == a {
                let pre2 = pre.push(a);
                assert forall|i: int| 0 <= i < vs.len() implies (#[trigger] vs[i].0).len()
                    >= pre2.len() && vs[i].0.take(pre2.len() as int) == pre2 by {
                    assert(vs[i].0[p] == a);
                    assert(vs[i].0.take(p) == pre);
                    assert(vs[i].0.take(p + 1) =~= vs[i].0.take(p).push(vs[i].0[p]));
                }
                lemma_node6_get(vs, p + 1, (fuel - 1) as nat, opts, pre2, q.drop_first());
                assert(pre2 + q.drop_first() =~= key);
            } else {
                assert forall|k: int| 0 <= k < vs.len() implies #[trigger] vs[k].0 != key by {
                    assert(vs[k].0[p] == a);
                }
                lemma_find_absent(vs, key);
            }
        }
    } else {
        lemma_branch6_get(vs, p, fuel, opts, pre, q);
    }
}

/// The bytes of a branch node over the target bytes `keys`, in increasing order, with
/// their tries, searched by their bytes.
pub open spec fn branch_node6(keys: Seq<u8>, tries: Seq<Seq<u8>>) -> Seq<u8> {
    let n = keys.len() as int;
    let flat = tries.flatten();
    let w = digits256(flat.len()) - 1;
    node_head(w * 256 + n % 256, 0xC0) + keys + offset_table(branch_offsets6(tries), (w + 1) as nat)
        + flat
}

/// Where the tries of a branch node's targets but the first start.
pub open spec fn branch_offsets6(tries: Seq<Seq<u8>>) -> Seq<int> {
    Seq::new((tries.len() - 1) as nat, |k: int| offset_of(tries, k + 1))
}

/// Each target's trie starts where the tries before it end.
proof fn lemma_offset_step6(tries: Seq<Seq<u8>>, i: int)
    requires
        0 <= i < tries.len(),
    ensures
        offset_of(tries, i + 1) == offset_of(tries, i) + tries[i].len(),
{
    assert(tries.take(i + 1) =~= tries.take(i).push(tries[i]));
    tries.take(i).lemma_flatten_push(tries[i]);
}

/// The offset table of a branch node gives where target `i`'s trie starts and ends among
/// the tries that follow it.
#[verifier::spinoff_prover]
#[verifier::rlimit(40)]
proof fn lemma_branch6_target(tries: Seq<Seq<u8>>, i: int)
    requires
        2 <= tries.len(),
        0 <= i < tries.len(),
        digits256(tries.flatten().len()) <= 8,
    ensures
        ({
            let n = tries.len() as int;
            let flat = tries.flatten();
            let l = digits256(flat.len());
            let offs = branch_offsets6(tries);
            let table = offset_table(offs, l);
            &&& table.len() == l * (n - 1)
            &&& (if i == 0 { 0 } else { table_offset(table, n - 1, i, l) }) == offset_of(tries, i)
            &&& (if i + 1 == n { flat.len() as int } else { table_offset(table, n - 1, i + 1, l) })
                == offset_of(tries, i + 1)
            &&& 0 <= offset_of(tries, i) <= offset_of(tries, i + 1) <= flat.len()
            &&& flat.subrange(offset_of(tries, i), offset_of(tries, i + 1)) == tries[i]
        }),
{
    let n = tries.len() as int;
    let flat = tries.flatten();
    let total = flat.len();
    let l = digits256(total);
    let offs = branch_offsets6(tries);
    lemma_table_len(offs, l);
    assert forall|k: int| 0 <= k < offs.len() implies 0 <= #[trigger] offs[k] < pow256(l) by {
        lemma_offset_le_total(tries, k + 1);
        if total >= 1 {
            lemma_digits256(total);
        } else {
            reveal_with_fuel(pow256, 2);
        }
    }
    lemma_flatten_slice(tries, i);
    lemma_offset_step6(tries, i);
    if i > 0 {
        lemma_table_read(offs, l, i, l);
        assert(offs[i - 1] == offset_of(tries, i));
    } else {
        assert(tries.take(0) =~= Seq::<Seq<u8>>::empty());
    }
    if i + 1 < n {
        lemma_table_read(offs, l, i + 1, l);
        assert(offs[i] == offset_of(tries, i + 1));
    } else {
        assert(tries.take(n) =~= tries);
    }
    assert(pow256(0) == 1);
}

/// Reading a branch node: the query's first byte picks the target of that byte, and the
/// rest of the query is read in its trie; no target, or no byte, gives `None`.
#[verifier::spinoff_prover]
#[verifier::rlimit(80)]
proof fn lemma_read_branch6(keys: Seq<u8>, tries: Seq<Seq<u8>>, q: Seq<u8>)
    requires
        2 <= keys.len() <= 128,
        tries.len() == keys.len(),
        branch_node6(keys, tries).len() <= usize::MAX,
    ensures
        spec_get6(branch_node6(keys, tries), q, false) == if q.len() == 0 {
            None
        } else {
            match find_byte(keys, q[0], 0) {
                None => None,
                Some(i) => spec_get6(tries[i as int], q.drop_first(), false),
            }
        },
{
    let t = branch_node6(keys, tries);
    let n = keys.len() as int;
    let flat = tries.flatten();
    let total = flat.len();
    let w = digits256(total) - 1;
    let offs = branch_offsets6(tries);
    let table = offset_table(offs, (w + 1) as nat);
    let hv = w * 256 + n % 256;
    let hb = node_head(hv, 0xC0);
    let after = keys + table + flat;
    assert(t == hb + after);
    lemma_table_len(offs, (w + 1) as nat);
    assert(total <= t.len());
    if total >= 1 {
        lemma_digits256(total);
        crate::offsets::lemma_digits_fit(total);
        crate::varint::lemma_usize_bounds();
        reveal_with_fuel(pow256, 9);
        if digits256(total) > 8 {
            crate::offsets::lemma_pow256_mono(9, digits256(total));
        }
    }
    assert(digits256(total) <= 8);
    assert(1 <= digits256(total));
    assert(0 <= hv <= 7 * 256 + 255);
    lemma_varint_read(hv, 0xC0, after);
    assert(hb[0] == varint_bytes(hv)[0] | 0xC0);
    assert(t[0] == hb[0]);
    assert(t.drop_first() =~= varint_bytes(hv).drop_first() + after);
    assert(spec_read_varint(t[0], t.drop_first()) == Some((hv as usize, after)));
    assert(t[0] >= 0xC0);
    assert(hv % 256 == n % 256);
    assert(branch_count(hv as usize) == n);
    assert((hv as usize) / 256 == w);
    if q.len() > 0 {
        let c = q[0];
        assert(after.take(n) =~= keys);
        let t3 = after.skip(n);
        assert(t3 =~= table + flat);
        assert(!reads_phf(false, n));
        lemma_find_byte(keys, c, 0);
        match find_byte(keys, c, 0) {
            None => {},
            Some(i) => {
                let i = i as int;
                let tlen = (w + 1) * (n - 1);
                assert(t3.take(tlen) =~= table);
                assert(t3.skip(tlen) =~= flat);
                lemma_branch6_target(tries, i);
            },
        }
    }
}

/// Without a perfect hash, a branch node is laid out as `branch_node6` says.
proof fn lemma_simple_branch_bytes(keys: Seq<u8>, tries: Seq<Seq<u8>>, opts: ZeroTrieBuilderOptions)
    requires
        !uses_phf(keys.len() as int, opts),
        tries.len() == keys.len(),
        branch_bytes6(keys, tries, opts) is Ok,
    ensures
        branch_bytes6(keys, tries, opts)->Ok_0 == branch_node6(keys, tries),
{
    let n = keys.len() as int;
    assert(Seq::new((n - 1) as nat, |k: int| offset_of(tries, k + 1)) =~= branch_offsets6(tries));
}

/// A branch node over the runs of keys after `pre` gives, for each query, the value of
/// its key.
#[verifier::spinoff_prover]
#[verifier::rlimit(60)]
proof fn lemma_branch6_get(
    vs: Seq<(Seq<u8>, usize)>,
    p: int,
    fuel: nat,
    opts: ZeroTrieBuilderOptions,
    pre: Seq<u8>,
    q: Seq<u8>,
)
    requires
        simple_layout(opts),
        p == pre.len(),
        vs.len() > 0,
        sorted_entries(vs),
        ascii_entries(vs),
        share_prefix(vs, pre),
        forall|k: int| 0 <= k < vs.len() ==> #[trigger] vs[k].0.len() < p + fuel,
        forall|k: int| 0 <= k < vs.len() ==> #[trigger] vs[k].0.len() > p,
        groups_from(vs, p, 0).len() != 1,
        body6(vs, p, fuel, opts) is Ok,
        body6(vs, p, fuel, opts)->Ok_0.len() <= usize::MAX,
        q.len() == 0 ==> find_value(vs, pre + q) is None,
    ensures
        spec_get6(body6(vs, p, fuel, opts)->Ok_0, q, false) == find_value(vs, pre + q),
    decreases fuel, 0nat,
{
    let key = pre + q;
    let t = body6(vs, p, fuel, opts)->Ok_0;
    lemma_sorted_bytes(vs, p, pre);
    lemma_groups_cover(vs, p, 0);
    lemma_groups_increasing(vs, p, 0);
    let gs = groups_from(vs, p, 0);
    let n = gs.len() as int;
    assert(n >= 2);
    assert(vs.skip(0) =~= vs);
    let f1 = (fuel - 1) as nat;
    assert(body6(vs, p, fuel, opts) == branch6(gs, p + 1, fuel, opts));
    let tries = tries6(gs, p + 1, f1, opts, n)->Ok_0;
    lemma_tries6_each(gs, p + 1, f1, opts, n);
    let keys = gs.map_values(|g: (u8, Seq<(Seq<u8>, usize)>)| g.0);
    assert(branch6(gs, p + 1, fuel, opts) == branch_bytes6(keys, tries, opts));
    assert(!uses_phf(n, opts));
    lemma_simple_branch_bytes(keys, tries, opts);
    assert(t == branch_node6(keys, tries));
    // The target bytes are ASCII and in strictly increasing order: at most 128 of them.
    assert forall|k: int| 0 <= k < n implies #[trigger] gs[k].0 < 128 by {
        let m = 0int;
        assert(gs[k].1[m].0[p] == gs[k].0);
        let (a, b) = choose|a: int, b: int| 0 <= a < b <= vs.len() && gs[k].1 == vs.subrange(a, b);
        assert(gs[k].1[m] == vs[a]);
        assert(all_ascii(vs[a].0));
    }
    lemma_increasing_below(gs, n - 1);
    lemma_read_branch6(keys, tries, q);
    if q.len() > 0 {
        let c = q[0];
        assert(key[p] == c);
        lemma_find_byte(keys, c, 0);
        match find_byte(keys, c, 0) {
            None => {
                assert forall|l: int| 0 <= l < gs.len() implies #[trigger] gs[l].0 != key[p] by {
                    assert(keys[l] == gs[l].0);
                }
                lemma_find_groups(vs, p, 0, key);
            },
            Some(i) => {
                let i = i as int;
                assert(gs[i].0 == c);
                let g = gs[i].1;
                let (lo, hi) = choose|lo: int, hi: int|
                    0 <= lo < hi <= vs.len() && g == vs.subrange(lo, hi);
                lemma_sub_entries(vs, lo, hi);
                let pre2 = pre.push(c);
                assert forall|m: int| 0 <= m < g.len() implies (#[trigger] g[m].0).len()
                    >= pre2.len() && g[m].0.take(pre2.len() as int) == pre2 by {
                    assert(g[m] == vs[lo + m]);
                    assert(g[m].0[p] == c);
                    assert(g[m].0.take(p) == pre);
                    assert(g[m].0.take(p + 1) =~= g[m].0.take(p).push(g[m].0[p]));
                }
                assert forall|m: int| 0 <= m < g.len() implies #[trigger] g[m].0.len() < (p + 1)
                    + f1 by {
                    assert(g[m] == vs[lo + m]);
                }
                assert(node6(g, p + 1, f1, opts) == Ok::<Seq<u8>, crate::error::Error>(tries[i]));
                lemma_flatten_slice(tries, i);
                lemma_offset_step6(tries, i);
                assert(tries[i].len() <= tries.flatten().len());
                assert(tries.flatten().len() <= t.len());
                lemma_node6_get(g, p + 1, f1, opts, pre2, q.drop_first());
                assert(pre2 + q.drop_first() =~= key);
                assert forall|l2: int| 0 <= l2 < gs.len() && l2 != i implies gs[l2].0 != key[p] by {
                    if l2 < i {
                        assert(gs[l2].0 < gs[i].0);
                    } else {
                        assert(gs[i].0 < gs[l2].0);
                    }
                }
                lemma_find_groups(vs, p, 0, key);
            },
        }
    }
}

/// The head of a branch node reads as the number of its targets and its layers, followed
/// by its target bytes, its offset table and its targets' tries.
#[verifier::spinoff_prover]
#[verifier::rlimit(40)]
proof fn lemma_branch6_head(keys: Seq<u8>, tries: Seq<Seq<u8>>)
    requires
        2 <= keys.len() <= 128,
        tries.len() == keys.len(),
        branch_node6(keys, tries).len() <= usize::MAX,
    ensures
        ({
            let t = branch_node6(keys, tries);
            let n = keys.len() as int;
            let flat = tries.flatten();
            let w = digits256(flat.len()) - 1;
            let x = (w * 256 + n) as usize;
            let t2 = keys + offset_table(branch_offsets6(tries), (w + 1) as nat) + flat;
            &&& t.len() >= 1
            &&& t[0] >= 0xC0
            &&& spec_read_varint(t[0], t.drop_first()) == Some((x, t2))
            &&& branch_count(x) == n
            &&& x / 256 + 1 == digits256(flat.len()) <= 8
            &&& t2.len() < t.len()
        }),
{
    let t = branch_node6(keys, tries);
    let n = keys.len() as int;
    let flat = tries.flatten();
    let total = flat.len();
    let w = digits256(total) - 1;
    let offs = branch_offsets6(tries);
    let table = offset_table(offs, (w + 1) as nat);
    let hv = w * 256 + n % 256;
    let hb = node_head(hv, 0xC0);
    let after = keys + table + flat;
    assert(t == hb + after);
    assert(total <= t.len());
    if total >= 1 {
        lemma_digits256(total);
        crate::offsets::lemma_digits_fit(total);
        crate::varint::lemma_usize_bounds();
        reveal_with_fuel(pow256, 9);
        if digits256(total) > 8 {
            crate::offsets::lemma_pow256_mono(9, digits256(total));
        }
    }
    assert(digits256(total) <= 8);
    assert(1 <= digits256(total));
    assert(0 <= hv <= 7 * 256 + 255);
    assert(n % 256 == n);
    lemma_varint_read(hv, 0xC0, after);
    assert(hb[0] == varint_bytes(hv)[0] | 0xC0);
    assert(t[0] == hb[0]);
    assert(t.drop_first() =~= varint_bytes(hv).drop_first() + after);
    assert(hv % 256 == n);
    assert(branch_count(hv as usize) == n);
}

/// In a branch node over bytes in strictly increasing order, the byte of target `j` finds
/// target `j`'s trie.
#[verifier::spinoff_prover]
#[verifier::rlimit(40)]
proof fn lemma_branch6_child(keys: Seq<u8>, tries: Seq<Seq<u8>>, j: int)
    requires
        2 <= keys.len() <= 128,
        tries.len() == keys.len(),
        0 <= j < keys.len(),
        forall|a: int, b: int| 0 <= a < b < keys.len() ==> #[trigger] keys[a] < #[trigger] keys[b],
        digits256(tries.flatten().len()) <= 8,
    ensures
        ({
            let n = keys.len() as int;
            let flat = tries.flatten();
            let w = digits256(flat.len()) - 1;
            let x = (w * 256 + n) as usize;
            let t2 = keys + offset_table(branch_offsets6(tries), (w + 1) as nat) + flat;
            &&& target_byte6(x, t2, false, j) == keys[j]
            &&& branch_child6(x, t2, keys[j], false) == Some(tries[j])
        }),
{
    let n = keys.len() as int;
    let flat = tries.flatten();
    let w = digits256(flat.len()) - 1;
    let x = (w * 256 + n) as usize;
    let offs = branch_offsets6(tries);
    let table = offset_table(offs, (w + 1) as nat);
    let t2 = keys + table + flat;
    assert(x % 256 == n % 256 == n);
    assert(branch_count(x) == n);
    assert(x / 256 == w);
    assert(!reads_phf(false, n));
    assert(t2[j] == keys[j]);
    assert(t2.take(n) =~= keys);
    let t3 = t2.skip(n);
    assert(t3 =~= table + flat);
    lemma_find_byte(keys, keys[j], 0);
    let i = find_byte(keys, keys[j], 0)->Some_0 as int;
    assert(i == j) by {
        if i < j {
            assert(keys[i] < keys[j]);
        } else if j < i {
            assert(keys[j] < keys[i]);
        }
    }
    let tlen = (w + 1) * (n - 1);
    lemma_branch6_target(tries, j);
    assert(t3.take(tlen) =~= table);
    assert(t3.skip(tlen) =~= flat);
}

/// The targets from `i` on of a branch node list their tries' pairs one after the other.
proof fn lemma_walk_targets6(keys: Seq<u8>, tries: Seq<Seq<u8>>, pre: Seq<u8>, i: int)
    requires
        2 <= keys.len() <= 128,
        tries.len() == keys.len(),
        0 <= i <= keys.len(),
        forall|a: int, b: int| 0 <= a < b < keys.len() ==> #[trigger] keys[a] < #[trigger] keys[b],
        branch_node6(keys, tries).len() <= usize::MAX,
    ensures
        ({
            let t = branch_node6(keys, tries);
            let n = keys.len() as int;
            let flat = tries.flatten();
            let w = digits256(flat.len()) - 1;
            let x = (w * 256 + n) as usize;
            let t2 = keys + offset_table(branch_offsets6(tries), (w + 1) as nat) + flat;
            walk_targets6(t, x, t2, pre, false, i) == concat_walks6(keys, tries, pre, i)
        }),
    decreases keys.len() - i,
{
    lemma_branch6_head(keys, tries);
    if i < keys.len() {
        lemma_branch6_child(keys, tries, i);
        lemma_walk_targets6(keys, tries, pre, i + 1);
    }
}

/// The pairs of the tries `tries[i..]`, the one of byte `keys[j]` reached with
/// `pre.push(keys[j])`, one after the other.
pub open spec fn concat_walks6(keys: Seq<u8>, tries: Seq<Seq<u8>>, pre: Seq<u8>, i: int) -> Seq<
    (Seq<u8>, usize),
>
    decreases tries.len() - i,
{
    if i < 0 || i >= tries.len() {
        Seq::empty()
    } else {
        walk_items6(tries[i], pre.push(keys[i]), true, false) + concat_walks6(keys, tries, pre, i + 1)
    }
}

/// A walk of the node that `node6` lays out for sorted ASCII keys sharing the prefix `pre`,
/// with the simple options, lists exactly its entries, in order.
proof fn lemma_node6_walk(vs: Seq<(Seq<u8>, usize)>, p: int, fuel: nat, opts: ZeroTrieBuilderOptions, pre: Seq<u8>)
    requires
        simple_layout(opts),
        p == pre.len(),
        sorted_entries(vs),
        ascii_entries(vs),
        share_prefix(vs, pre),
        forall|k: int| 0 <= k < vs.len() ==> #[trigger] vs[k].0.len() < p + fuel,
        node6(vs, p, fuel, opts) is Ok,
        node6(vs, p, fuel, opts)->Ok_0.len() <= usize::MAX,
    ensures
        walk_items6(node6(vs, p, fuel, opts)->Ok_0, pre, true, false) == vs,
    decreases fuel, 2nat,
{
    if vs.len() == 0 {
        return;
    }
    if vs[0].0.len() == p {
        let v = vs[0].1;
        let rest = vs.drop_first();
        let b = body6(rest, p, fuel, opts)->Ok_0;
        let t = node6(vs, p, fuel, opts)->Ok_0;
        let h = head6(v as int, 0x80);
        lemma_varint2_read(v as int, 0x80, b);
        assert(t == h + b);
        assert(t[0] == varint2_bytes(v as int)[0] | 0x80);
        assert(t.drop_first() =~= varint2_bytes(v as int).drop_first() + b);
        assert(vs[0].0 =~= pre) by {
            assert(vs[0].0.take(p) == pre);
        }
        assert forall|i: int, j: int| 0 <= i < j < rest.len() implies crate::ascii::seq_less(
            #[trigger] rest[i].0,
            #[trigger] rest[j].0,
        ) by {
            assert(rest[i] == vs[i + 1] && rest[j] == vs[j + 1]);
        }
        assert forall|i: int| 0 <= i < rest.len() implies all_ascii(#[trigger] rest[i].0) by {
            assert(rest[i] == vs[i + 1]);
        }
        assert forall|i: int| 0 <= i < rest.len() implies (#[trigger] rest[i].0).len() >= pre.len()
            && rest[i].0.take(pre.len() as int) == pre by {
            assert(rest[i] == vs[i + 1]);
        }
        crate::const_builder::lemma_keys_longer(vs, pre);
        assert forall|i: int| 0 <= i < rest.len() implies (#[trigger] rest[i].0).len() > p by {
            assert(rest[i] == vs[i + 1]);
        }
        assert forall|i: int| 0 <= i < rest.len() implies #[trigger] rest[i].0.len() < p + fuel by {
            assert(rest[i] == vs[i + 1]);
        }
        lemma_body6_walk(rest, p, fuel, opts, pre, false);
        assert(walk_items6(t, pre, true, false) == seq![(pre, v)] + walk_items6(b, pre, false, false));
        assert(seq![(pre, v)] + rest =~= vs);
    } else {
        crate::const_builder::lemma_keys_longer(vs, pre);
        assert(vs[0].0.len() >= p);
        assert forall|i: int| 0 <= i < vs.len() implies (#[trigger] vs[i].0).len() > p by {
            if i == 0 {
                assert(vs[0].0.len() != p);
            }
        }
        lemma_body6_walk(vs, p, fuel, opts, pre, true);
    }
}

/// A walk of `body6` for keys all longer than `pre` lists exactly its entries, in order.
proof fn lemma_body6_walk(
    vs: Seq<(Seq<u8>, usize)>,
    p: int,
    fuel: nat,
    opts: ZeroTrieBuilderOptions,
    pre: Seq<u8>,
    whole: bool,
)
    requires
        simple_layout(opts),
        p == pre.len(),
        sorted_entries(vs),
        ascii_entries(vs),
        share_prefix(vs, pre),
        forall|k: int| 0 <= k < vs.len() ==> #[trigger] vs[k].0.len() < p + fuel,
        forall|k: int| 0 <= k < vs.len() ==> #[trigger] vs[k].0.len() > p,
        body6(vs, p, fuel, opts) is Ok,
        body6(vs, p, fuel, opts)->Ok_0.len() <= usize::MAX,
    ensures
        walk_items6(body6(vs, p, fuel, opts)->Ok_0, pre, whole, false) == vs,
    decreases fuel, 1nat,
{
    if vs.len() == 0 {
        return;
    }
    assert(vs[0].0.len() > p && vs[0].0.len() < p + fuel);
    let gs = groups_from(vs, p, 0);
    lemma_groups_cover(vs, p, 0);
    if gs.len() == 1 {
        let t = body6(vs, p, fuel, opts)->Ok_0;
        let a = gs[0].0;
        assert(a == vs[0].0[p]);
        assert(all_ascii(vs[0].0));
        assert(a < 128);
        let t1 = node6(vs, p + 1, (fuel - 1) as nat, opts)->Ok_0;
        assert(t == seq![a] + t1);
        assert(t[0] == a);
        assert(t.drop_first() =~= t1);
        lemma_run_end(vs, p, 0);
        assert(run_end(vs, p, 0) == vs.len()) by {
            if run_end(vs, p, 0) < vs.len() {
                lemma_groups_cover(vs, p, run_end(vs, p, 0));
            }
        }
        let pre2 = pre.push(a);
        assert forall|i: int| 0 <= i < vs.len() implies (#[trigger] vs[i].0).len() >= pre2.len()
            && vs[i].0.take(pre2.len() as int) == pre2 by {
            assert(vs[i].0[p] == a);
            assert(vs[i].0.take(p) == pre);
            assert(vs[i].0.take(p + 1) =~= vs[i].0.take(p).push(vs[i].0[p]));
        }
        lemma_node6_walk(vs, p + 1, (fuel - 1) as nat, opts, pre2);
    } else {
        lemma_branch6_walk(vs, p, fuel, opts, pre, whole);
    }
}

/// A walk of a branch node over the runs of keys after `pre` lists exactly its entries.
#[verifier::spinoff_prover]
#[verifier::rlimit(60)]
proof fn lemma_branch6_walk(
    vs: Seq<(Seq<u8>, usize)>,
    p: int,
    fuel: nat,
    opts: ZeroTrieBuilderOptions,
    pre: Seq<u8>,
    whole: bool,
)
    requires
        simple_layout(opts),
        p == pre.len(),
        vs.len() > 0,
        sorted_entries(vs),
        ascii_entries(vs),
        share_prefix(vs, pre),
        forall|k: int| 0 <= k < vs.len() ==> #[trigger] vs[k].0.len() < p + fuel,
        forall|k: int| 0 <= k < vs.len() ==> #[trigger] vs[k].0.len() > p,
        groups_from(vs, p, 0).len() != 1,
        body6(vs, p, fuel, opts) is Ok,
        body6(vs, p, fuel, opts)->Ok_0.len() <= usize::MAX,
    ensures
        walk_items6(body6(vs, p, fuel, opts)->Ok_0, pre, whole, false) == vs,
    decreases fuel, 0nat,
{
    let t = body6(vs, p, fuel, opts)->Ok_0;
    lemma_sorted_bytes(vs, p, pre);
    lemma_groups_cover(vs, p, 0);
    lemma_groups_increasing(vs, p, 0);
    let gs = groups_from(vs, p, 0);
    let n = gs.len() as int;
    assert(n >= 2);
    assert(vs.skip(0) =~= vs);
    let f1 = (fuel - 1) as nat;
    assert(body6(vs, p, fuel, opts) == branch6(gs, p + 1, fuel, opts));
    let tries = tries6(gs, p + 1, f1, opts, n)->Ok_0;
    lemma_tries6_each(gs, p + 1, f1, opts, n);
    let keys = gs.map_values(|g: (u8, Seq<(Seq<u8>, usize)>)| g.0);
    assert(branch6(gs, p + 1, fuel, opts) == branch_bytes6(keys, tries, opts));
    assert(!uses_phf(n, opts));
    lemma_simple_branch_bytes(keys, tries, opts);
    assert(t == branch_node6(keys, tries));
    assert forall|k: int| 0 <= k < n implies #[trigger] gs[k].0 < 128 by {
        let m = 0int;
        assert(gs[k].1[m].0[p] == gs[k].0);
        let (a, b) = choose|a: int, b: int| 0 <= a < b <= vs.len() && gs[k].1 == vs.subrange(a, b);
        assert(gs[k].1[m] == vs[a]);
        assert(all_ascii(vs[a].0));
    }
    lemma_increasing_below(gs, n - 1);
    assert forall|a: int, b: int| 0 <= a < b < n implies #[trigger] keys[a] < #[trigger] keys[b] by {
        assert(gs[a].0 < gs[b].0);
    }
    lemma_branch6_head(keys, tries);
    lemma_walk_targets6(keys, tries, pre, 0);
    lemma_walks_runs6(vs, p, fuel, opts, pre, keys, tries, 0);
    lemma_concat_runs(vs, p, 0);
    let flat = tries.flatten();
    let w = digits256(flat.len()) - 1;
    let x = (w * 256 + n) as usize;
    let t2 = keys + offset_table(branch_offsets6(tries), (w + 1) as nat) + flat;
    assert(t2.len() >= n);
    assert(!reads_phf(false, n));
    assert(walk_items6(t, pre, whole, false) == walk_targets6(t, x, t2, pre, false, 0));
    assert(gs.skip(0) =~= gs);
    assert(concat_walks6(keys, tries, pre, 0) == vs);
}

/// The walks of the targets from `i` on, each listing its run, list the runs from `i` on.
proof fn lemma_walks_runs6(
    vs: Seq<(Seq<u8>, usize)>,
    p: int,
    fuel: nat,
    opts: ZeroTrieBuilderOptions,
    pre: Seq<u8>,
    keys: Seq<u8>,
    tries: Seq<Seq<u8>>,
    i: int,
)
    requires
        simple_layout(opts),
        p == pre.len(),
        vs.len() > 0,
        fuel >= 1,
        sorted_entries(vs),
        ascii_entries(vs),
        share_prefix(vs, pre),
        forall|k: int| 0 <= k < vs.len() ==> #[trigger] vs[k].0.len() < p + fuel,
        forall|k: int| 0 <= k < vs.len() ==> #[trigger] vs[k].0.len() > p,
        keys == groups_from(vs, p, 0).map_values(|g: (u8, Seq<(Seq<u8>, usize)>)| g.0),
        tries.len() == groups_from(vs, p, 0).len(),
        forall|j: int|
            0 <= j < tries.len() ==> node6(groups_from(vs, p, 0)[j].1, p + 1, (fuel - 1) as nat, opts)
                == Ok::<Seq<u8>, crate::error::Error>(#[trigger] tries[j]),
        tries.flatten().len() <= usize::MAX,
        0 <= i <= tries.len(),
    ensures
        concat_walks6(keys, tries, pre, i) == concat_runs(groups_from(vs, p, 0).skip(i)),
    decreases fuel, 0nat, tries.len() - i,
{
    let gs = groups_from(vs, p, 0);
    lemma_groups_cover(vs, p, 0);
    if i == tries.len() {
        assert(gs.skip(i).len() == 0);
    } else {
        let f1 = (fuel - 1) as nat;
        let c = gs[i].0;
        assert(keys[i] == c);
        let g = gs[i].1;
        let (lo, hi) = choose|lo: int, hi: int| 0 <= lo < hi <= vs.len() && g == vs.subrange(lo, hi);
        lemma_sub_entries(vs, lo, hi);
        let pre2 = pre.push(c);
        assert forall|m: int| 0 <= m < g.len() implies (#[trigger] g[m].0).len() >= pre2.len()
            && g[m].0.take(pre2.len() as int) == pre2 by {
            assert(g[m] == vs[lo + m]);
            assert(g[m].0[p] == c);
            assert(g[m].0.take(p) == pre);
            assert(g[m].0.take(p + 1) =~= g[m].0.take(p).push(g[m].0[p]));
        }
        assert forall|m: int| 0 <= m < g.len() implies #[trigger] g[m].0.len() < (p + 1) + f1 by {
            assert(g[m] == vs[lo + m]);
        }
        lemma_flatten_slice(tries, i);
        lemma_offset_step6(tries, i);
        assert(tries[i].len() <= tries.flatten().len());
        lemma_node6_walk(g, p + 1, f1, opts, pre2);
        lemma_walks_runs6(vs, p, fuel, opts, pre, keys, tries, i + 1);
        let gk = gs.skip(i);
        assert(gk[0] == gs[i]);
        assert(gk.drop_first() =~= gs.skip(i + 1));
    }
}

/// A walk of the trie that `trie6_bytes` lays out with the options of
/// `ZeroTrieSimpleAscii`, for ASCII keys in strictly increasing order, lists exactly the
/// given pairs, in order.
pub proof fn lemma_trie6_walk(vs: Seq<(Seq<u8>, usize)>, opts: ZeroTrieBuilderOptions)
    requires
        simple_layout(opts),
        sorted_entries(vs),
        ascii_entries(vs),
        trie6_bytes(vs, opts) is Ok,
        trie6_bytes(vs, opts)->Ok_0.len() <= usize::MAX,
    ensures
        walk_items6(trie6_bytes(vs, opts)->Ok_0, Seq::empty(), true, false) == vs,
{
    let pre = Seq::<u8>::empty();
    assert forall|i: int| 0 <= i < vs.len() implies (#[trigger] vs[i].0).len() >= pre.len()
        && vs[i].0.take(pre.len() as int) == pre by {
        assert(vs[i].0.take(0) =~= pre);
    }
    crate::const_builder::lemma_max_key_len(vs);
    lemma_node6_walk(vs, 0, max_key_len(vs) + 1, opts, pre);
}

/// Whether the reader of a trie built with `opts` reads branches of more than 15 targets
/// through a perfect hash.
pub open spec fn phf_flag(opts: ZeroTrieBuilderOptions) -> bool {
    opts.phf_mode == PhfMode::UsePhf
}

/// A branch node whose targets' tries are `tries`, with the table `tbl` (the target bytes,
/// or the bytes of a perfect hash map of them) after its head.
pub open spec fn branch_node6t(tbl: Seq<u8>, tries: Seq<Seq<u8>>) -> Seq<u8> {
    let n = tries.len() as int;
    let flat = tries.flatten();
    let w = digits256(flat.len()) - 1;
    node_head(w * 256 + n % 256, 0xC0) + tbl + offset_table(branch_offsets6(tries), (w + 1) as nat)
        + flat
}

/// The target that the table `tbl` of a branch of `n` targets gives the byte `c`.
pub open spec fn branch_index6(tbl: Seq<u8>, n: int, c: u8, phf: bool) -> Option<usize> {
    if reads_phf(phf, n) {
        phf_get(tbl, c)
    } else {
        find_byte(tbl, c, 0)
    }
}

/// The head of a branch node with any table reads as the number of its targets and its
/// layers, followed by the table, the offset table and the targets' tries.
#[verifier::spinoff_prover]
#[verifier::rlimit(40)]
proof fn lemma_branch6t_head(tbl: Seq<u8>, tries: Seq<Seq<u8>>)
    requires
        2 <= tries.len() <= 256,
        branch_node6t(tbl, tries).len() <= usize::MAX,
    ensures
        ({
            let t = branch_node6t(tbl, tries);
            let n = tries.len() as int;
            let flat = tries.flatten();
            let w = digits256(flat.len()) - 1;
            let x = (w * 256 + n % 256) as usize;
            let after = tbl + offset_table(branch_offsets6(tries), (w + 1) as nat) + flat;
            &&& t.len() >= 1
            &&& t[0] >= 0xC0
            &&& spec_read_varint(t[0], t.drop_first()) == Some((x, after))
            &&& branch_count(x) == n
            &&& x / 256 == w
            &&& digits256(flat.len()) <= 8
            &&& after.len() < t.len()
        }),
{
    let t = branch_node6t(tbl, tries);
    let n = tries.len() as int;
    let flat = tries.flatten();
    let total = flat.len();
    let w = digits256(total) - 1;
    let offs = branch_offsets6(tries);
    let table = offset_table(offs, (w + 1) as nat);
    let hv = w * 256 + n % 256;
    let hb = node_head(hv, 0xC0);
    let after = tbl + table + flat;
    assert(t == hb + after);
    assert(total <= t.len());
    if total >= 1 {
        lemma_digits256(total);
        crate::offsets::lemma_digits_fit(total);
        crate::varint::lemma_usize_bounds();
        reveal_with_fuel(pow256, 9);
        if digits256(total) > 8 {
            crate::offsets::lemma_pow256_mono(9, digits256(total));
        }
    }
    assert(digits256(total) <= 8);
    assert(1 <= digits256(total));
    assert(0 <= hv <= 7 * 256 + 255);
    lemma_varint_read(hv, 0xC0, after);
    assert(hb[0] == varint_bytes(hv)[0] | 0xC0);
    assert(t[0] == hb[0]);
    assert(t.drop_first() =~= varint_bytes(hv).drop_first() + after);
    assert(hv % 256 == n % 256);
    assert(branch_count(hv as usize) == n);
}

/// Reading a branch node with any table: the table gives the query's first byte a target,
/// whose trie reads the rest of the query; no target, or no byte, gives `None`.
#[verifier::spinoff_prover]
#[verifier::rlimit(80)]
proof fn lemma_read_branch6t(tbl: Seq<u8>, tries: Seq<Seq<u8>>, q: Seq<u8>, phf: bool)
    requires
        2 <= tries.len() <= 256,
        tbl.len() == (if reads_phf(phf, tries.len() as int) { 2 * (tries.len() as int) + 1 } else { tries.len() as int }),
        branch_node6t(tbl, tries).len() <= usize::MAX,
    ensures
        spec_get6(branch_node6t(tbl, tries), q, phf) == if q.len() == 0 {
            None
        } else {
            match branch_index6(tbl, tries.len() as int, q[0], phf) {
                None => None,
                Some(i) => if (i as int) < tries.len() {
                    spec_get6(tries[i as int], q.drop_first(), phf)
                } else {
                    None
                },
            }
        },
{
    let t = branch_node6t(tbl, tries);
    let n = tries.len() as int;
    let flat = tries.flatten();
    let total = flat.len();
    let w = digits256(total) - 1;
    let offs = branch_offsets6(tries);
    let table = offset_table(offs, (w + 1) as nat);
    let after = tbl + table + flat;
    lemma_table_len(offs, (w + 1) as nat);
    lemma_branch6t_head(tbl, tries);
    if q.len() > 0 {
        let c = q[0];
        let klen = tbl.len() as int;
        assert(after.take(klen) =~= tbl);
        let t3 = after.skip(klen);
        assert(t3 =~= table + flat);
        match branch_index6(tbl, n, c, phf) {
            None => {},
            Some(i) => {
                let i = i as int;
                if i < n {
                    let tlen = (w + 1) * (n - 1);
                    assert(t3.take(tlen) =~= table);
                    assert(t3.skip(tlen) =~= flat);
                    lemma_branch6_target(tries, i);
                }
            },
        }
    }
}

/// Each key of the entries has the byte at `r` of the first key, for `r` within the span
/// from `p` on, and is longer than `r`.
proof fn lemma_span_at(vs: Seq<(Seq<u8>, usize)>, p: int, fuel: nat, k: int, r: int)
    requires
        0 <= k < vs.len(),
        p <= r < p + span_len(vs, p, fuel),
    ensures
        vs[k].0.len() > r,
        vs[k].0[r] == vs[0].0[r],
    decreases fuel,
{
    if fuel > 0 && vs.len() > 0 && (forall|k2: int| 0 <= k2 < vs.len() ==> (#[trigger] vs[k2].0).len() > p
        && vs[k2].0[p] == vs[0].0[p]) && vs[0].0[p] >= 128 {
        assert(vs[k].0.len() > p && vs[k].0[p] == vs[0].0[p]);
        if r > p {
            lemma_span_at(vs, p + 1, (fuel - 1) as nat, k, r);
        }
    }
}

/// `tries_phf6` holds of each run it covers.
proof fn lemma_tries_phf6_each(
    gs: Seq<(u8, Seq<(Seq<u8>, usize)>)>,
    p: int,
    fuel: nat,
    opts: ZeroTrieBuilderOptions,
    n: int,
)
    requires
        0 <= n <= gs.len(),
        tries_phf6(gs, p, fuel, opts, n),
    ensures
        forall|j: int| 0 <= j < n ==> #[trigger] node_phf6(gs[j].1, p, fuel, opts),
    decreases n,
{
    if n > 0 {
        lemma_tries_phf6_each(gs, p, fuel, opts, n - 1);
    }
}

/// The node that `node6` lays out for sorted keys sharing the prefix `pre`, under any
/// options, gives for each query `q` the value of the key `pre + q`, when the perfect hashes
/// of its branches are perfect.
proof fn lemma_node6_get_any(
    vs: Seq<(Seq<u8>, usize)>,
    p: int,
    fuel: nat,
    opts: ZeroTrieBuilderOptions,
    pre: Seq<u8>,
    q: Seq<u8>,
)
    requires
        p == pre.len(),
        sorted_entries(vs),
        share_prefix(vs, pre),
        forall|k: int| 0 <= k < vs.len() ==> #[trigger] vs[k].0.len() < p + fuel,
        node6(vs, p, fuel, opts) is Ok,
        node6(vs, p, fuel, opts)->Ok_0.len() <= usize::MAX,
        node_phf6(vs, p, fuel, opts),
    ensures
        spec_get6(node6(vs, p, fuel, opts)->Ok_0, q, phf_flag(opts)) == find_value(vs, pre + q),
    decreases fuel, 2nat,
{
    if vs.len() == 0 {
        return;
    }
    crate::const_builder::lemma_keys_longer(vs, pre);
    if vs[0].0.len() == p {
        let v = vs[0].1;
        let rest = vs.drop_first();
        let b = body6(rest, p, fuel, opts)->Ok_0;
        let t = node6(vs, p, fuel, opts)->Ok_0;
        let h = head6(v as int, 0x80);
        lemma_varint2_read(v as int, 0x80, b);
        assert(t == h + b);
        assert(t[0] == varint2_bytes(v as int)[0] | 0x80);
        assert(t.drop_first() =~= varint2_bytes(v as int).drop_first() + b);
        assert(vs[0].0 =~= pre) by {
            assert(vs[0].0.take(p) == pre);
        }
        assert forall|i: int, j: int| 0 <= i < j < rest.len() implies crate::ascii::seq_less(
            #[trigger] rest[i].0,
            #[trigger] rest[j].0,
        ) by {
            assert(rest[i] == vs[i + 1] && rest[j] == vs[j + 1]);
        }
        assert forall|i: int| 0 <= i < rest.len() implies (#[trigger] rest[i].0).len() >= pre.len()
            && rest[i].0.take(pre.len() as int) == pre by {
            assert(rest[i] == vs[i + 1]);
        }
        assert forall|i: int| 0 <= i < rest.len() implies (#[trigger] rest[i].0).len() > p by {
            assert(rest[i] == vs[i + 1]);
        }
        assert forall|i: int| 0 <= i < rest.len() implies #[trigger] rest[i].0.len() < p + fuel by {
            assert(rest[i] == vs[i + 1]);
        }
        if q.len() == 0 {
            assert(pre + q =~= pre);
        } else {
            lemma_body6_get_any(rest, p, fuel, opts, pre, q);
            assert(vs[0].0 != pre + q) by {
                assert((pre + q).len() > pre.len());
            }
        }
    } else {
        assert(vs[0].0.len() >= p);
        assert forall|i: int| 0 <= i < vs.len() implies (#[trigger] vs[i].0).len() > p by {
            if i == 0 {
                assert(vs[0].0.len() != p);
            }
        }
        lemma_body6_get_any(vs, p, fuel, opts, pre, q);
    }
}

/// `body6` for keys all longer than `pre`, under any options, gives for each query the
/// value of its key.
proof fn lemma_body6_get_any(
    vs: Seq<(Seq<u8>, usize)>,
    p: int,
    fuel: nat,
    opts: ZeroTrieBuilderOptions,
    pre: Seq<u8>,
    q: Seq<u8>,
)
    requires
        p == pre.len(),
        sorted_entries(vs),
        share_prefix(vs, pre),
        forall|k: int| 0 <= k < vs.len() ==> #[trigger] vs[k].0.len() < p + fuel,
        forall|k: int| 0 <= k < vs.len() ==> #[trigger] vs[k].0.len() > p,
        body6(vs, p, fuel, opts) is Ok,
        body6(vs, p, fuel, opts)->Ok_0.len() <= usize::MAX,
        body_phf6(vs, p, fuel, opts),
    ensures
        spec_get6(body6(vs, p, fuel, opts)->Ok_0, q, phf_flag(opts)) == find_value(vs, pre + q),
    decreases fuel, 1nat,
{
    if vs.len() == 0 {
        return;
    }
    assert(vs[0].0.len() > p && vs[0].0.len() < p + fuel);
    let key = pre + q;
    if q.len() == 0 {
        assert forall|k: int| 0 <= k < vs.len() implies #[trigger] vs[k].0 != key by {
            assert(key =~= pre);
        }
        lemma_find_absent(vs, key);
    }
    let gs = groups_from(vs, p, 0);
    lemma_groups_cover(vs, p, 0);
    if gs.len() == 1 {
        let a = gs[0].0;
        assert(a == vs[0].0[p]);
        lemma_run_end(vs, p, 0);
        assert(run_end(vs, p, 0) == vs.len()) by {
            if run_end(vs, p, 0) < vs.len() {
                lemma_groups_cover(vs, p, run_end(vs, p, 0));
            }
        }
        if a < 128 {
            let t = body6(vs, p, fuel, opts)->Ok_0;
            let t1 = node6(vs, p + 1, (fuel - 1) as nat, opts)->Ok_0;
            assert(t == seq![a] + t1);
            assert(t[0] == a);
            assert(t.drop_first() =~= t1);
            if q.len() > 0 {
                let c = q[0];
                assert(key[p] == c);
                if c == a {
                    let pre2 = pre.push(a);
                    assert forall|i: int| 0 <= i < vs.len() implies (#[trigger] vs[i].0).len()
                        >= pre2.len() && vs[i].0.take(pre2.len() as int) == pre2 by {
                        assert(vs[i].0[p] == a);
                        assert(vs[i].0.take(p) == pre);
                        assert(vs[i].0.take(p + 1) =~= vs[i].0.take(p).push(vs[i].0[p]));
                    }
                    lemma_node6_get_any(vs, p + 1, (fuel - 1) as nat, opts, pre2, q.drop_first());
                    assert(pre2 + q.drop_first() =~= key);
                } else {
                    assert forall|k: int| 0 <= k < vs.len() implies #[trigger] vs[k].0 != key by {
                        assert(vs[k].0[p] == a);
                    }
                    lemma_find_absent(vs, key);
                }
            }
        } else {
            lemma_span6_get(vs, p, fuel, opts, pre, q);
        }
    } else {
        lemma_branch6_get_any(vs, p, fuel, opts, pre, q);
    }
}

/// A span of the non-ASCII bytes that all keys share, followed by the node past them,
/// gives each query the value of its key: a query that does not have those bytes there
/// reads as `None`.
#[verifier::spinoff_prover]
#[verifier::rlimit(60)]
proof fn lemma_span6_get(
    vs: Seq<(Seq<u8>, usize)>,
    p: int,
    fuel: nat,
    opts: ZeroTrieBuilderOptions,
    pre: Seq<u8>,
    q: Seq<u8>,
)
    requires
        p == pre.len(),
        vs.len() > 0,
        sorted_entries(vs),
        share_prefix(vs, pre),
        forall|k: int| 0 <= k < vs.len() ==> #[trigger] vs[k].0.len() < p + fuel,
        forall|k: int| 0 <= k < vs.len() ==> #[trigger] vs[k].0.len() > p,
        groups_from(vs, p, 0).len() == 1,
        groups_from(vs, p, 0)[0].0 >= 128,
        forall|k: int| 0 <= k < vs.len() ==> #[trigger] vs[k].0[p] == groups_from(vs, p, 0)[0].0,
        body6(vs, p, fuel, opts) is Ok,
        body6(vs, p, fuel, opts)->Ok_0.len() <= usize::MAX,
        body_phf6(vs, p, fuel, opts),
        q.len() == 0 ==> find_value(vs, pre + q) is None,
    ensures
        spec_get6(body6(vs, p, fuel, opts)->Ok_0, q, phf_flag(opts)) == find_value(vs, pre + q),
    decreases fuel, 0nat,
{
    let key = pre + q;
    let gs = groups_from(vs, p, 0);
    let c = gs[0].0;
    assert(fuel >= 1);
    assert(forall|k: int| 0 <= k < vs.len() ==> (#[trigger] vs[k].0).len() > p && vs[k].0[p] == vs[0].0[p]);
    let l = span_len(vs, p, fuel);
    assert(l >= 1);
    lemma_span_le(vs, p, fuel);
    lemma_span_at(vs, p, fuel, 0, p + l - 1);
    let span = vs[0].0.subrange(p, p + l);
    let f2 = (fuel - l) as nat;
    let t1 = node6(vs, p + l, f2, opts)->Ok_0;
    let t = body6(vs, p, fuel, opts)->Ok_0;
    assert(t == head6(l as int, 0xA0) + span + t1);
    assert(l <= t.len());
    lemma_varint2_read(l as int, 0xA0, span + t1);
    assert(t[0] == varint2_bytes(l as int)[0] | 0xA0);
    assert(t.drop_first() =~= varint2_bytes(l as int).drop_first() + (span + t1));
    let t2 = span + t1;
    assert(t2.take(l as int) =~= span);
    assert(t2.skip(l as int) =~= t1);
    let pre2 = pre + span;
    assert forall|k: int| 0 <= k < vs.len() implies (#[trigger] vs[k].0).len() >= pre2.len()
        && vs[k].0.take(pre2.len() as int) == pre2 by {
        lemma_span_at(vs, p, fuel, k, p + l - 1);
        assert forall|i: int| 0 <= i < p + l implies vs[k].0[i] == pre2[i] by {
            if i < p {
                assert(vs[k].0.take(p)[i] == pre[i]);
            } else {
                lemma_span_at(vs, p, fuel, k, i);
            }
        }
        assert(vs[k].0.take(pre2.len() as int) =~= pre2);
    }
    if q.len() >= l && q.take(l as int) == span {
        lemma_node6_get_any(vs, p + l, f2, opts, pre2, q.skip(l as int));
        assert(pre2 + q.skip(l as int) =~= key) by {
            assert(q =~= q.take(l as int) + q.skip(l as int));
        }
        assert(key.take(l as int) == q.take(l as int) || true);
    } else {
        assert forall|k: int| 0 <= k < vs.len() implies #[trigger] vs[k].0 != key by {
            if vs[k].0 == key {
                lemma_span_at(vs, p, fuel, k, p + l - 1);
                assert(q.len() >= l);
                assert forall|m: int| 0 <= m < l implies q.take(l as int)[m] == span[m] by {
                    lemma_span_at(vs, p, fuel, k, p + m);
                    assert(key[p + m] == q[m]);
                }
                assert(q.take(l as int) =~= span);
            }
        }
        lemma_find_absent(vs, key);
    }
}

/// A stretch of entries in strictly increasing order is in strictly increasing order.
proof fn lemma_sub_sorted(vs: Seq<(Seq<u8>, usize)>, a: int, b: int)
    requires
        0 <= a <= b <= vs.len(),
        sorted_entries(vs),
    ensures
        sorted_entries(vs.subrange(a, b)),
{
    let w = vs.subrange(a, b);
    assert forall|i: int, j: int| 0 <= i < j < w.len() implies crate::ascii::seq_less(
        #[trigger] w[i].0,
        #[trigger] w[j].0,
    ) by {
        assert(w[i] == vs[a + i] && w[j] == vs[a + j]);
    }
}

/// Under perfect parameters, the slot of a key holds that key in the stored map, and the
/// slot is one of the `n` slots.
proof fn lemma_phf_slot_holds(keys: Seq<u8>, pp: u8, qq: Seq<u8>, j: int)
    requires
        perfect(keys, pp, qq),
        0 < keys.len() <= 256,
        0 <= j < keys.len(),
    ensures
        slot(keys[j], pp, qq, keys.len() as usize) < keys.len(),
        phf_bytes(keys, pp, qq)[1 + keys.len() + slot(keys[j], pp, qq, keys.len() as usize)] == keys[j],
{
    let n = keys.len() as usize;
    let c = keys[j];
    let x = (c ^ qq[crate::byte_phf::spec_f1(c, pp, n) as int]) as usize;
    lemma_mod_bound(x as int, n as int);
    crate::byte_phf::lemma_permuted(keys, pp, qq, keys.len() as int);
    let perm = permuted(keys, pp, qq, keys.len() as int);
    let tbl = phf_bytes(keys, pp, qq);
    assert(tbl[1 + keys.len() + slot(c, pp, qq, n)] == perm[slot(c, pp, qq, n) as int]);
}

/// A branch node over the runs of keys after `pre`, under any options, gives each query
/// the value of its key, when its perfect hash, if any, is perfect.
#[verifier::spinoff_prover]
#[verifier::rlimit(80)]
proof fn lemma_branch6_get_any(
    vs: Seq<(Seq<u8>, usize)>,
    p: int,
    fuel: nat,
    opts: ZeroTrieBuilderOptions,
    pre: Seq<u8>,
    q: Seq<u8>,
)
    requires
        p == pre.len(),
        vs.len() > 0,
        sorted_entries(vs),
        share_prefix(vs, pre),
        forall|k: int| 0 <= k < vs.len() ==> #[trigger] vs[k].0.len() < p + fuel,
        forall|k: int| 0 <= k < vs.len() ==> #[trigger] vs[k].0.len() > p,
        groups_from(vs, p, 0).len() != 1,
        body6(vs, p, fuel, opts) is Ok,
        body6(vs, p, fuel, opts)->Ok_0.len() <= usize::MAX,
        body_phf6(vs, p, fuel, opts),
        q.len() == 0 ==> find_value(vs, pre + q) is None,
    ensures
        spec_get6(body6(vs, p, fuel, opts)->Ok_0, q, phf_flag(opts)) == find_value(vs, pre + q),
    decreases fuel, 0nat,
{
    let key = pre + q;
    let t = body6(vs, p, fuel, opts)->Ok_0;
    let flag = phf_flag(opts);
    lemma_sorted_bytes(vs, p, pre);
    lemma_groups_cover(vs, p, 0);
    lemma_groups_increasing(vs, p, 0);
    let gs = groups_from(vs, p, 0);
    let n = gs.len() as int;
    assert(n >= 2);
    assert(vs.skip(0) =~= vs);
    let f1 = (fuel - 1) as nat;
    assert(body6(vs, p, fuel, opts) == branch6(gs, p + 1, fuel, opts));
    assert(body_phf6(vs, p, fuel, opts) == branch_phf6(gs, p + 1, fuel, opts));
    let tries = tries6(gs, p + 1, f1, opts, n)->Ok_0;
    lemma_tries6_each(gs, p + 1, f1, opts, n);
    lemma_tries_phf6_each(gs, p + 1, f1, opts, n);
    let keys = gs.map_values(|g: (u8, Seq<(Seq<u8>, usize)>)| g.0);
    assert(branch6(gs, p + 1, fuel, opts) == branch_bytes6(keys, tries, opts));
    assert(phf_found6(keys, opts));
    lemma_increasing_below(gs, n - 1);
    assert(n <= 256);
    assert forall|a: int, b: int| 0 <= a < b < n implies #[trigger] keys[a] < #[trigger] keys[b] by {
        assert(gs[a].0 < gs[b].0);
    }
    assert(reads_phf(flag, n) == uses_phf(n, opts));
    // The trie of the run of the byte `keys[j]` reads the rest of the query.
    assert forall|j: int| 0 <= j < n && q.len() > 0 && keys[j] == q[0] && (#[trigger] tries[j]).len()
        <= t.len() implies spec_get6(tries[j], q.drop_first(), flag) == find_value(vs, key) by {
        let c = q[0];
        assert(key[p] == c);
        assert(gs[j].0 == c);
        let g = gs[j].1;
        let (lo, hi) = choose|lo: int, hi: int| 0 <= lo < hi <= vs.len() && g == vs.subrange(lo, hi);
        lemma_sub_sorted(vs, lo, hi);
        let pre2 = pre.push(c);
        assert forall|m: int| 0 <= m < g.len() implies (#[trigger] g[m].0).len() >= pre2.len()
            && g[m].0.take(pre2.len() as int) == pre2 by {
            assert(g[m] == vs[lo + m]);
            assert(g[m].0[p] == c);
            assert(g[m].0.take(p) == pre);
            assert(g[m].0.take(p + 1) =~= g[m].0.take(p).push(g[m].0[p]));
        }
        assert forall|m: int| 0 <= m < g.len() implies #[trigger] g[m].0.len() < (p + 1) + f1 by {
            assert(g[m] == vs[lo + m]);
        }
        assert(node6(g, p + 1, f1, opts) == Ok::<Seq<u8>, crate::error::Error>(tries[j]));
        assert(node_phf6(g, p + 1, f1, opts));
        lemma_node6_get_any(g, p + 1, f1, opts, pre2, q.drop_first());
        assert(pre2 + q.drop_first() =~= key);
        assert forall|l2: int| 0 <= l2 < gs.len() && l2 != j implies gs[l2].0 != key[p] by {
            if l2 < j {
                assert(gs[l2].0 < gs[j].0);
            } else {
                assert(gs[j].0 < gs[l2].0);
            }
        }
        lemma_find_groups(vs, p, 0, key);
    }
    // No run has the query's first byte: nothing to find.
    if q.len() > 0 && (forall|l: int| 0 <= l < n ==> keys[l] != q[0]) {
        assert(key[p] == q[0]);
        assert forall|l: int| 0 <= l < gs.len() implies #[trigger] gs[l].0 != key[p] by {
            assert(keys[l] == gs[l].0);
        }
        lemma_find_groups(vs, p, 0, key);
    }
    if !uses_phf(n, opts) {
        lemma_simple_branch_bytes(keys, tries, opts);
        assert(t == branch_node6t(keys, tries));
        lemma_read_branch6t(keys, tries, q, flag);
        if q.len() > 0 {
            let c = q[0];
            lemma_find_byte(keys, c, 0);
            match find_byte(keys, c, 0) {
                None => {},
                Some(i) => {
                    let i = i as int;
                    lemma_flatten_slice(tries, i);
                    lemma_offset_step6(tries, i);
                    assert(tries[i].len() <= tries.flatten().len());
                },
            }
        }
    } else {
        let f = spec_find(keys)->Some_0;
        let pp = f.0;
        let qq = f.1;
        assert(spec_find(keys) is Some);
        assert(perfect(keys, pp, qq));
        let tbl = phf_bytes(keys, pp, qq);
        crate::byte_phf::lemma_phf_slots_onto(keys, pp, qq);
        let ordered = Seq::new(n as nat, |s: int| tries[pos_in(keys, tbl[1 + n + s])]);
        assert(Seq::new((n - 1) as nat, |k: int| offset_of(ordered, k + 1)) =~= branch_offsets6(ordered));
        assert(t == branch_node6t(tbl, ordered));
        lemma_read_branch6t(tbl, ordered, q, flag);
        if q.len() > 0 {
            let c = q[0];
            crate::byte_phf::lemma_phf_get(keys, pp, qq, c);
            if keys.contains(c) {
                let j = choose|j: int| 0 <= j < keys.len() && keys[j] == c;
                lemma_phf_slot_holds(keys, pp, qq, j);
                let i = slot(c, pp, qq, n as usize) as int;
                assert(tbl[1 + n + i] == c);
                let pj = pos_in(keys, c);
                assert(pj == j) by {
                    assert(0 <= pj < n && keys[pj] == c);
                    if pj < j {
                        assert(keys[pj] < keys[j]);
                    } else if j < pj {
                        assert(keys[j] < keys[pj]);
                    }
                }
                assert(ordered[i] == tries[j]);
                lemma_flatten_slice(ordered, i);
                lemma_offset_step6(ordered, i);
                assert(ordered[i].len() <= ordered.flatten().len());
            } else {
                assert forall|l: int| 0 <= l < n implies keys[l] != c by {
                    if keys[l] == c {
                        assert(keys.contains(c));
                    }
                }
            }
        }
    }
}

/// The trie that `trie6_bytes` lays out under any options, for keys in strictly
/// increasing order, holds exactly the given pairs when the perfect hashes of its branches
/// are perfect (`build6` checks that they are for every trie it builds): reading any
/// query gives the value of the key equal to it, or `None`.
pub(crate) proof fn lemma_trie6_holds_exactly(vs: Seq<(Seq<u8>, usize)>, opts: ZeroTrieBuilderOptions, q: Seq<u8>)
    requires
        sorted_entries(vs),
        trie6_bytes(vs, opts) is Ok,
        trie6_bytes(vs, opts)->Ok_0.len() <= usize::MAX,
        node_phf6(vs, 0, max_key_len(vs) + 1, opts),
    ensures
        spec_get6(trie6_bytes(vs, opts)->Ok_0, q, phf_flag(opts)) == find_value(vs, q),
{
    let pre = Seq::<u8>::empty();
    assert forall|i: int| 0 <= i < vs.len() implies (#[trigger] vs[i].0).len() >= pre.len()
        && vs[i].0.take(pre.len() as int) == pre by {
        assert(vs[i].0.take(0) =~= pre);
    }
    crate::const_builder::lemma_max_key_len(vs);
    lemma_node6_get_any(vs, 0, max_key_len(vs) + 1, opts, pre, q);
    assert(pre + q =~= q);
}

/// The trie that `trie6_bytes` lays out with the options of `ZeroTrieSimpleAscii`, for
/// ASCII keys in strictly increasing order, gives back what was put in: reading any query
/// gives the value of the key equal to it, or `None` when there is none.
pub proof fn lemma_trie6_reads_back(vs: Seq<(Seq<u8>, usize)>, opts: ZeroTrieBuilderOptions, q: Seq<u8>)
    requires
        simple_layout(opts),
        sorted_entries(vs),
        ascii_entries(vs),
        trie6_bytes(vs, opts) is Ok,
        trie6_bytes(vs, opts)->Ok_0.len() <= usize::MAX,
    ensures
        spec_get6(trie6_bytes(vs, opts)->Ok_0, q, false) == find_value(vs, q),
{
    let pre = Seq::<u8>::empty();
    assert forall|i: int| 0 <= i < vs.len() implies (#[trigger] vs[i].0).len() >= pre.len()
        && vs[i].0.take(pre.len() as int) == pre by {
        assert(vs[i].0.take(0) =~= pre);
    }
    crate::const_builder::lemma_max_key_len(vs);
    lemma_node6_get(vs, 0, max_key_len(vs) + 1, opts, pre, q);
    assert(pre + q =~= q);
}

} // verus!
