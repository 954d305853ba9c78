//! What a trie gives back, node by node: a value node, an ASCII node and a branch node
//! each give the right values when what follows them does.

use crate::ascii::all_ascii;
use crate::builder::{groups_from, offset_of};
use crate::lookup::{
    ascii_entries, find_value, lemma_find_absent, lemma_find_groups, lemma_flatten_slice,
    lemma_groups_cover, lemma_groups_increasing, lemma_sorted_bytes, share_prefix, sorted_entries,
};
use crate::offsets::{digits256, lemma_digits256, lemma_read_layers, lemma_table_len, offset_table};
use crate::reader::{
    lemma_binary_search_sorted, sorted, spec_binary_search, spec_byte_type, spec_get, spec_get_branch,
    trie_items, ByteType,
};
use crate::varint::spec_read_varint;
use crate::varintx::pow256;
use vstd::prelude::*;

verus! {

/// The trie `t` gives, for each ASCII query `q`, the value that the entries `vs` pair with
/// the key `pre + q`, or `None` when there is none.
pub open spec fn represents(t: Seq<u8>, vs: Seq<(Seq<u8>, usize)>, pre: Seq<u8>) -> bool {
    forall|q: Seq<u8>| all_ascii(q) ==> #[trigger] spec_get(t, q) == find_value(vs, pre + q)
}

/// `hb` is a node head whose top two bits are `kind` and which reads back as `v`, whatever
/// follows it.
pub open spec fn head_reads(hb: Seq<u8>, kind: int, v: usize) -> bool {
    &&& hb.len() >= 1
    &&& hb[0] / 64 == kind
    &&& forall|tail: Seq<u8>| #[trigger] spec_read_varint(hb[0], hb.drop_first() + tail) == Some((v, tail))
}

/// A value node for the entry whose key is `pre`, followed by a trie for the other
/// entries, gives the values of all of them.
pub proof fn lemma_value_node(vs: Seq<(Seq<u8>, usize)>, pre: Seq<u8>, hb: Seq<u8>, body: Seq<u8>)
    requires
        vs.len() >= 1,
        vs[0].0 == pre,
        head_reads(hb, 2, vs[0].1),
        represents(body, vs.drop_first(), pre),
    ensures
        represents(hb + body, vs, pre),
{
    let t = hb + body;
    assert forall|q: Seq<u8>| all_ascii(q) implies #[trigger] spec_get(t, q) == find_value(vs, pre + q) by {
        assert(t[0] == hb[0]);
        assert(t.drop_first() =~= hb.drop_first() + body);
        assert(spec_read_varint(hb[0], hb.drop_first() + body) == Some((vs[0].1, body)));
        assert(spec_byte_type(hb[0]) == ByteType::Value);
        if q.len() == 0 {
            assert(pre + q =~= pre);
        } else {
            assert(q[0] < 128);
            assert(spec_get(body, q) == find_value(vs.drop_first(), pre + q));
            assert(vs[0].0 != pre + q) by {
                assert((pre + q).len() > pre.len());
            }
        }
    }
}

/// An ASCII node for the byte `a` that every key has after `pre`, followed by a trie for
/// the keys past that byte, gives the values of all of them.
pub proof fn lemma_ascii_node(vs: Seq<(Seq<u8>, usize)>, pre: Seq<u8>, a: u8, t: Seq<u8>)
    requires
        a < 128,
        forall|k: int|
            0 <= k < vs.len() ==> (#[trigger] vs[k].0).len() > pre.len() && vs[k].0[pre.len() as int]
                == a,
        represents(t, vs, pre.push(a)),
    ensures
        represents(seq![a] + t, vs, pre),
{
    let node = seq![a] + t;
    let p = pre.len() as int;
    assert forall|q: Seq<u8>| all_ascii(q) implies #[trigger] spec_get(node, q) == find_value(vs, pre + q) by {
        assert(node[0] == a);
        assert(node.drop_first() =~= t);
        assert(spec_byte_type(a) == ByteType::Ascii);
        let key = pre + q;
        if q.len() == 0 {
            assert forall|k: int| 0 <= k < vs.len() implies #[trigger] vs[k].0 != key by {
                assert(key =~= pre);
            }
            lemma_find_absent(vs, key);
        } else {
            let c = q[0];
            assert(key[p] == c);
            if c == a {
                assert(spec_get(t, q.drop_first()) == find_value(vs, pre.push(a) + q.drop_first()));
                assert(pre.push(a) + q.drop_first() =~= key);
            } else {
                assert forall|k: int| 0 <= k < vs.len() implies #[trigger] vs[k].0 != key by {
                    assert(vs[k].0[p] == a);
                }
                lemma_find_absent(vs, key);
            }
        }
    }
}

/// What the branch lemmas below assume: the entries, their runs after `pre` (at least
/// two) and a trie for each run that gives its values.
pub open spec fn branch_ready(vs: Seq<(Seq<u8>, usize)>, pre: Seq<u8>, tries: Seq<Seq<u8>>) -> bool {
    &&& sorted_entries(vs)
    &&& ascii_entries(vs)
    &&& share_prefix(vs, pre)
    &&& forall|k: int| 0 <= k < vs.len() ==> #[trigger] vs[k].0.len() > pre.len()
    &&& groups_from(vs, pre.len() as int, 0).len() >= 2
    &&& tries.len() == groups_from(vs, pre.len() as int, 0).len()
    &&& forall|k: int|
        0 <= k < tries.len() ==> represents(
            #[trigger] tries[k],
            groups_from(vs, pre.len() as int, 0)[k].1,
            pre.push(groups_from(vs, pre.len() as int, 0)[k].0),
        )
    &&& 1 <= tries.flatten().len() <= usize::MAX
    &&& tries.len() <= usize::MAX
}

/// The bytes of a branch node after its head: the runs' bytes, the offset table and the
/// tries.
pub open spec fn branch_body(vs: Seq<(Seq<u8>, usize)>, pre: Seq<u8>, tries: Seq<Seq<u8>>) -> Seq<u8> {
    groups_from(vs, pre.len() as int, 0).map_values(|g: (u8, Seq<(Seq<u8>, usize)>)| g.0)
        + offset_table(
        Seq::new(tries.len(), |k: int| offset_of(tries, k)),
        digits256(tries.flatten().len()),
    ) + tries.flatten()
}

/// Reading target `i` of the branch, whose byte is the query's first, gives back the
/// query's value.
proof fn lemma_branch_hit(
    vs: Seq<(Seq<u8>, usize)>,
    pre: Seq<u8>,
    tries: Seq<Seq<u8>>,
    i: int,
    q: Seq<u8>,
)
    requires
        branch_ready(vs, pre, tries),
        0 <= i < tries.len(),
        all_ascii(q),
        q.len() > 0,
        groups_from(vs, pre.len() as int, 0)[i].0 == q[0],
    ensures
        ({
            let n = tries.len() as int;
            let flat = tries.flatten();
            let w = digits256(flat.len());
            let offs = Seq::new(tries.len(), |k: int| offset_of(tries, k));
            let after = offset_table(offs, w) + flat;
            let hi = if i + 1 < n {
                offs[i + 1]
            } else {
                flat.len() as int
            };
            &&& crate::reader::branch_layers(after, i, n, 0, 0, 0) == Some((offs[i], hi, w * n))
            &&& 0 <= w * n <= after.len()
            &&& 0 <= offs[i] <= hi <= after.len() - w * n
            &&& spec_get(after.skip(w * n).subrange(offs[i], hi), q.drop_first()) == find_value(
                vs,
                pre + q,
            )
        }),
{
    let p = pre.len() as int;
    let gs = groups_from(vs, p, 0);
    let n = gs.len() as int;
    let flat = tries.flatten();
    let total = flat.len() as int;
    let w = digits256(total as nat);
    let offs = Seq::new(tries.len(), |k: int| offset_of(tries, k));
    let table = offset_table(offs, w);
    let after = table + flat;
    let key = pre + q;
    let c = q[0];
    lemma_sorted_bytes(vs, p, pre);
    lemma_groups_cover(vs, p, 0);
    lemma_groups_increasing(vs, p, 0);
    lemma_digits256(total as nat);
    lemma_table_len(offs, w);
    assert(vs.skip(0) =~= vs);
    assert(key[p] == c);
    assert forall|k: int| 0 <= k < offs.len() implies 0 <= #[trigger] offs[k] <= total by {
        crate::builder::lemma_offset_le_total(tries, k);
    }
    assert(offs[i] / pow256(w) == 0) by {
        vstd::arithmetic::div_mod::lemma_basic_div(offs[i], pow256(w));
    }
    if i + 1 < n {
        assert(offs[i + 1] / pow256(w) == 0) by {
            vstd::arithmetic::div_mod::lemma_basic_div(offs[i + 1], pow256(w));
        }
    }
    assert(pow256(0) - 1 == 0);
    lemma_read_layers(offs, total, flat, i, w, w, 0, 0, 0);
    let hi = if i + 1 < n {
        offs[i + 1]
    } else {
        total
    };
    lemma_flatten_slice(tries, i);
    crate::builder::lemma_offset_step(tries, i);
    if i + 1 == n {
        assert(tries.take(n) =~= tries);
    }
    assert(hi == offset_of(tries, i + 1));
    assert(after.skip(w * n) =~= flat);
    assert(after.skip(w * n).subrange(offs[i], hi) == tries[i]);
    let g = gs[i].1;
    assert(spec_get(tries[i], q.drop_first()) == find_value(g, pre.push(c) + q.drop_first()));
    assert(pre.push(c) + q.drop_first() =~= key);
    assert forall|l2: int| 0 <= l2 < gs.len() && l2 != i implies gs[l2].0 != key[p] by {
        if l2 < i {
            assert(gs[l2].0 < gs[i].0);
        } else {
            assert(gs[i].0 < gs[l2].0);
        }
    }
    lemma_find_groups(vs, p, 0, key);
}

/// A branch node over the runs of keys with the same byte after `pre` (at least two of
/// them): its head, the runs' bytes in order, the offset table of the runs' tries, then
/// the tries, each giving the values of its run, gives the values of all the entries.
pub proof fn lemma_branch_node(
    vs: Seq<(Seq<u8>, usize)>,
    pre: Seq<u8>,
    hb: Seq<u8>,
    tries: Seq<Seq<u8>>,
)
    requires
        branch_ready(vs, pre, tries),
        head_reads(hb, 3, tries.len() as usize),
    ensures
        represents(hb + branch_body(vs, pre, tries), vs, pre),
{
    assert forall|q: Seq<u8>| all_ascii(q) implies #[trigger] spec_get(hb + branch_body(vs, pre, tries), q)
        == find_value(vs, pre + q) by {
        lemma_branch_query(vs, pre, hb, tries, q);
    }
}

#[verifier::spinoff_prover]
proof fn lemma_branch_query(
    vs: Seq<(Seq<u8>, usize)>,
    pre: Seq<u8>,
    hb: Seq<u8>,
    tries: Seq<Seq<u8>>,
    q: Seq<u8>,
)
    requires
        branch_ready(vs, pre, tries),
        head_reads(hb, 3, tries.len() as usize),
        all_ascii(q),
    ensures
        spec_get(hb + branch_body(vs, pre, tries), q) == find_value(vs, pre + q),
{
    let p = pre.len() as int;
    let gs = groups_from(vs, p, 0);
    let n = gs.len() as int;
    let asciis = gs.map_values(|g: (u8, Seq<(Seq<u8>, usize)>)| g.0);
    let flat = tries.flatten();
    let total = flat.len() as int;
    let w = digits256(total as nat);
    let offs = Seq::new(tries.len(), |k: int| offset_of(tries, k));
    let table = offset_table(offs, w);
    let rest = branch_body(vs, pre, tries);
    let node = hb + rest;
    let key = pre + q;
    assert(rest == asciis + table + flat);
    assert(node[0] == hb[0]);
    assert(node.drop_first() =~= hb.drop_first() + rest);
    assert(spec_read_varint(hb[0], hb.drop_first() + rest) == Some((n as usize, rest)));
    assert(spec_byte_type(hb[0]) == ByteType::Match);
    lemma_table_len(offs, w);
    if q.len() == 0 {
        assert forall|k: int| 0 <= k < vs.len() implies #[trigger] vs[k].0 != key by {
            assert(key =~= pre);
        }
        lemma_find_absent(vs, key);
    } else {
        let c = q[0];
        assert(key[p] == c);
        assert(c < 128);
        assert(rest.take(n) =~= asciis);
        assert(rest.skip(n) =~= table + flat);
        lemma_sorted_bytes(vs, p, pre);
        lemma_groups_increasing(vs, p, 0);
        assert(sorted(asciis)) by {
            assert forall|i: int, j: int| 0 <= i <= j < asciis.len() implies asciis[i]
                <= asciis[j] by {
                if i < j {
                    assert(gs[i].0 < gs[j].0);
                }
            }
        }
        lemma_binary_search_sorted(asciis, c);
        match spec_binary_search(asciis, c) {
            Err(_) => {
                assert(vs.skip(0) =~= vs);
                assert forall|l: int| 0 <= l < gs.len() implies #[trigger] gs[l].0 != key[p] by {
                    assert(asciis[l] == gs[l].0);
                }
                lemma_find_groups(vs, p, 0, key);
            },
            Ok(i) => {
                lemma_branch_hit(vs, pre, tries, i as int, q);
            },
        }
    }
}

} // verus!

verus! {

/// Walking the trie `t` from the key bytes `pre` yields exactly the entries `vs`, in order.
pub open spec fn lists(t: Seq<u8>, vs: Seq<(Seq<u8>, usize)>, pre: Seq<u8>) -> bool {
    trie_items(t, pre, 0) == Some(vs)
}

/// The entries of the runs `gs`, one run after the other.
pub open spec fn concat_runs(gs: Seq<(u8, Seq<(Seq<u8>, usize)>)>) -> Seq<(Seq<u8>, usize)>
    decreases gs.len(),
{
    if gs.len() == 0 {
        Seq::empty()
    } else {
        gs[0].1 + concat_runs(gs.drop_first())
    }
}

/// The runs from `i`, one after the other, are the entries from `i`.
pub proof fn lemma_concat_runs(vs: Seq<(Seq<u8>, usize)>, p: int, i: int)
    requires
        0 <= i <= vs.len(),
    ensures
        concat_runs(groups_from(vs, p, i)) == vs.skip(i),
    decreases vs.len() - i,
{
    if i == vs.len() {
        assert(vs.skip(i) =~= Seq::<(Seq<u8>, usize)>::empty());
    } else {
        let e = crate::builder::run_end(vs, p, i);
        crate::builder::lemma_run_end(vs, p, i);
        lemma_concat_runs(vs, p, e);
        let gs = groups_from(vs, p, i);
        assert(gs == seq![(vs[i].0[p], vs.subrange(i, e))] + groups_from(vs, p, e));
        assert(gs.drop_first() =~= groups_from(vs, p, e));
        assert(vs.subrange(i, e) + vs.skip(e) =~= vs.skip(i));
    }
}

/// A value node for the entry whose key is `pre`, followed by a trie listing the other
/// entries, lists all of them.
pub proof fn lemma_value_node_lists(vs: Seq<(Seq<u8>, usize)>, pre: Seq<u8>, hb: Seq<u8>, body: Seq<u8>)
    requires
        vs.len() >= 1,
        vs[0].0 == pre,
        head_reads(hb, 2, vs[0].1),
        lists(body, vs.drop_first(), pre),
    ensures
        lists(hb + body, vs, pre),
{
    let t = hb + body;
    assert(t[0] == hb[0]);
    assert(t.drop_first() =~= hb.drop_first() + body);
    assert(spec_read_varint(hb[0], hb.drop_first() + body) == Some((vs[0].1, body)));
    assert(spec_byte_type(hb[0]) == ByteType::Value);
    assert(seq![(pre, vs[0].1)] + vs.drop_first() =~= vs);
}

/// An ASCII node for the byte `a`, followed by a trie listing the entries past that byte,
/// lists them.
pub proof fn lemma_ascii_node_lists(vs: Seq<(Seq<u8>, usize)>, pre: Seq<u8>, a: u8, t: Seq<u8>)
    requires
        a < 128,
        lists(t, vs, pre.push(a)),
    ensures
        lists(seq![a] + t, vs, pre),
{
    let node = seq![a] + t;
    assert(node[0] == a);
    assert(node.drop_first() =~= t);
    assert(spec_byte_type(a) == ByteType::Ascii);
}

/// Target `i` of a branch over `tries`, read from the offset table and the tries that
/// follow the search table, is `tries[i]`.
pub proof fn lemma_branch_child(tries: Seq<Seq<u8>>, i: int)
    requires
        0 <= i < tries.len(),
        1 <= tries.flatten().len() <= usize::MAX,
        tries.len() <= usize::MAX,
    ensures
        spec_get_branch(
            offset_table(
                Seq::new(tries.len(), |k: int| offset_of(tries, k)),
                digits256(tries.flatten().len()),
            ) + tries.flatten(),
            i,
            tries.len() as int,
        ) == Some(tries[i]),
{
    let n = tries.len() as int;
    let flat = tries.flatten();
    let total = flat.len() as int;
    let w = digits256(total as nat);
    let offs = Seq::new(tries.len(), |k: int| offset_of(tries, k));
    let after = offset_table(offs, w) + flat;
    lemma_digits256(total as nat);
    lemma_table_len(offs, w);
    assert forall|k: int| 0 <= k < offs.len() implies 0 <= #[trigger] offs[k] <= total by {
        crate::builder::lemma_offset_le_total(tries, k);
    }
    assert(offs[i] / pow256(w) == 0) by {
        vstd::arithmetic::div_mod::lemma_basic_div(offs[i], pow256(w));
    }
    if i + 1 < n {
        assert(offs[i + 1] / pow256(w) == 0) by {
            vstd::arithmetic::div_mod::lemma_basic_div(offs[i + 1], pow256(w));
        }
    }
    assert(pow256(0) - 1 == 0);
    lemma_read_layers(offs, total, flat, i, w, w, 0, 0, 0);
    let hi = if i + 1 < n {
        offs[i + 1]
    } else {
        total
    };
    lemma_flatten_slice(tries, i);
    crate::builder::lemma_offset_step(tries, i);
    if i + 1 == n {
        assert(tries.take(n) =~= tries);
    }
    assert(hi == offset_of(tries, i + 1));
    assert(after.skip(w * n) =~= flat);
}

/// Walking a branch node from target `k` lists the runs from `k` on.
#[verifier::rlimit(80)]
proof fn lemma_branch_lists_from(
    vs: Seq<(Seq<u8>, usize)>,
    pre: Seq<u8>,
    hb: Seq<u8>,
    tries: Seq<Seq<u8>>,
    k: int,
)
    requires
        branch_ready(vs, pre, tries),
        head_reads(hb, 3, tries.len() as usize),
        forall|j: int|
            0 <= j < tries.len() ==> lists(
                #[trigger] tries[j],
                groups_from(vs, pre.len() as int, 0)[j].1,
                pre.push(groups_from(vs, pre.len() as int, 0)[j].0),
            ),
        0 <= k < tries.len(),
    ensures
        trie_items(hb + branch_body(vs, pre, tries), pre, k as usize) == Some(
            concat_runs(groups_from(vs, pre.len() as int, 0).skip(k)),
        ),
    decreases tries.len() - k,
{
    let p = pre.len() as int;
    let gs = groups_from(vs, p, 0);
    let n = gs.len() as int;
    let asciis = gs.map_values(|g: (u8, Seq<(Seq<u8>, usize)>)| g.0);
    let flat = tries.flatten();
    let w = digits256(flat.len());
    let offs = Seq::new(tries.len(), |j: int| offset_of(tries, j));
    let table = offset_table(offs, w);
    let rest = branch_body(vs, pre, tries);
    let node = hb + rest;
    assert(rest == asciis + table + flat);
    assert(node[0] == hb[0]);
    assert(node.drop_first() =~= hb.drop_first() + rest);
    assert(spec_read_varint(hb[0], hb.drop_first() + rest) == Some((n as usize, rest)));
    assert(spec_byte_type(hb[0]) == ByteType::Match);
    lemma_table_len(offs, w);
    assert(rest.skip(n) =~= table + flat);
    lemma_branch_child(tries, k);
    crate::lookup::lemma_groups_cover(vs, p, 0);
    assert(rest[k] == gs[k].0);
    assert(gs[k].0 < 128) by {
        let m = 0int;
        assert(gs[k].1[m].0[p] == gs[k].0);
        let (a, b) = choose|a: int, b: int| 0 <= a < b <= vs.len() && gs[k].1 == vs.subrange(a, b);
        assert(gs[k].1[m] == vs[a]);
        assert(crate::ascii::all_ascii(vs[a].0));
    }
    assert(pre.push(if rest[k] < 128 { rest[k] } else { 0 }) == pre.push(gs[k].0));
    let gk = gs.skip(k);
    assert(gk[0] == gs[k]);
    assert(gk.drop_first() =~= gs.skip(k + 1));
    assert(concat_runs(gk) == gs[k].1 + concat_runs(gs.skip(k + 1)));
    let child = tries[k];
    assert(spec_get_branch(rest.skip(n), k, n) == Some(child));
    assert(lists(child, gs[k].1, pre.push(gs[k].0)));
    assert(trie_items(child, pre.push(if rest[k] < 128 { rest[k] } else { 0 }), 0) == Some(gs[k].1));
    let more = if k + 1 < n {
        trie_items(node, pre, (k + 1) as usize)
    } else {
        Some(Seq::<(Seq<u8>, usize)>::empty())
    };
    if k + 1 < n {
        lemma_branch_lists_from(vs, pre, hb, tries, k + 1);
        assert(more == Some(concat_runs(gs.skip(k + 1))));
    } else {
        assert(gs.skip(k + 1).len() == 0);
        assert(concat_runs(gs.skip(k + 1)) == Seq::<(Seq<u8>, usize)>::empty());
        assert(more == Some(concat_runs(gs.skip(k + 1))));
    }
    assert(trie_items(node, pre, k as usize) == Some(gs[k].1 + concat_runs(gs.skip(k + 1))));
}

/// A branch node over the runs of keys after `pre`, each run's trie listing its entries,
/// lists all the entries in order.
pub proof fn lemma_branch_node_lists(
    vs: Seq<(Seq<u8>, usize)>,
    pre: Seq<u8>,
    hb: Seq<u8>,
    tries: Seq<Seq<u8>>,
)
    requires
        branch_ready(vs, pre, tries),
        head_reads(hb, 3, tries.len() as usize),
        forall|j: int|
            0 <= j < tries.len() ==> lists(
                #[trigger] tries[j],
                groups_from(vs, pre.len() as int, 0)[j].1,
                pre.push(groups_from(vs, pre.len() as int, 0)[j].0),
            ),
    ensures
        lists(hb + branch_body(vs, pre, tries), vs, pre),
{
    lemma_branch_lists_from(vs, pre, hb, tries, 0);
    let gs = groups_from(vs, pre.len() as int, 0);
    assert(gs.skip(0) =~= gs);
    lemma_concat_runs(vs, pre.len() as int, 0);
    assert(vs.skip(0) =~= vs);
}

} // verus!
