//! A builder that lays out the trie of sorted ASCII keys that `reader::get` reads, in a
//! buffer of fixed capacity filled from the back.
//!
//! A value node is a varint whose lead byte has the top bits `0b10`; a branch node is a
//! varint with the top bits `0b11` giving its number of targets, then the target bytes in
//! order, then the start of each target's trie in as many byte layers as the total length
//! of the targets' tries needs (the most significant layer first), then those tries.

use crate::ascii::{seq_less, AsciiByte, AsciiStr};
use crate::builder::{entries, groups_from, max_key_len, offset_of, run_end};
use crate::lookup::{ascii_entries, lemma_sub_entries, share_prefix, sorted_entries};
use crate::const_util::{ConstArrayBuilder, ConstSlice};
use crate::offsets::{digits256, offset_table};
use crate::represents::{head_reads, lists, represents};
use crate::store::ConstAsciiTrieBuilderStore;
use crate::varint::{
    lemma_lead_with_meta, lemma_read_varint_append, lemma_varint_len, spec_read_varint,
    varint_bytes, varint_len, write_varint,
};
use crate::zerotrie::ZeroTrieSimpleAscii;
use vstd::prelude::*;
use vstd::string::StringSliceAdditionalSpecFns;

verus! {

/// The number of bytes of the trie laid out for the entries `vs`, all of whose keys agree
/// on their first `p` bytes and are at most `p + fuel` long: the value node of a key of
/// exactly `p` bytes, then the trie of the other entries.
pub open spec fn trie_size(vs: Seq<(Seq<u8>, usize)>, p: int, fuel: nat) -> nat
    decreases fuel, 1nat,
{
    if vs.len() == 0 {
        0
    } else if vs[0].0.len() == p {
        varint_len(vs[0].1 as int) as nat + body_size(vs.drop_first(), p, fuel)
    } else {
        body_size(vs, p, fuel)
    }
}

/// The number of bytes of the trie laid out for entries whose keys are all longer than
/// `p` bytes: the shared byte and the rest when all keys have the same byte at `p`, else a
/// branch node over the runs of keys with the same byte at `p`.
pub open spec fn body_size(vs: Seq<(Seq<u8>, usize)>, p: int, fuel: nat) -> nat
    decreases fuel, 0nat,
{
    if vs.len() == 0 || fuel == 0 {
        0
    } else {
        let gs = groups_from(vs, p, 0);
        let total = sizes_sum(gs, p + 1, (fuel - 1) as nat);
        if gs.len() == 1 {
            1 + total
        } else {
            branch_overhead(gs.len(), total) + total
        }
    }
}

/// The sum of the sizes of the tries of the runs `gs`.
pub open spec fn sizes_sum(gs: Seq<(u8, Seq<(Seq<u8>, usize)>)>, p: int, fuel: nat) -> nat
    decreases fuel, gs.len() + 1,
{
    if gs.len() == 0 {
        0
    } else {
        trie_size(gs[0].1, p, fuel) + sizes_sum(gs.drop_first(), p, fuel)
    }
}

/// The bytes of a branch node of `n` targets besides the targets' tries, which take
/// `total` bytes: the head, the target bytes and the offset table.
pub open spec fn branch_overhead(n: nat, total: nat) -> nat {
    varint_len(n as int) as nat + n * (1 + digits256(total))
}

/// The number of bytes of the trie of the entries `vs`.
pub open spec fn const_trie_size(vs: Seq<(Seq<u8>, usize)>) -> nat {
    trie_size(vs, 0, max_key_len(vs) + 1)
}

/// The head of a node: the varint of `v` with the metadata bits `meta` set in its lead
/// byte (`0x80` for a value node, `0xC0` for a branch node).
pub open spec fn node_head(v: int, meta: u8) -> Seq<u8> {
    varint_bytes(v).update(0, varint_bytes(v)[0] | meta)
}

/// The bytes of the trie laid out for the entries `vs`, as `trie_size` counts them: the
/// value node of a key of exactly `p` bytes, then the trie of the other entries.
pub open spec fn trie_bytes(vs: Seq<(Seq<u8>, usize)>, p: int, fuel: nat) -> Seq<u8>
    decreases fuel, 1nat,
{
    if vs.len() == 0 {
        Seq::empty()
    } else if vs[0].0.len() == p {
        node_head(vs[0].1 as int, 0x80) + body_bytes(vs.drop_first(), p, fuel)
    } else {
        body_bytes(vs, p, fuel)
    }
}

/// The bytes of the trie laid out for entries whose keys are all longer than `p` bytes:
/// the shared byte and the trie of the rest when all keys have the same byte at `p`, else
/// a branch node: its head, the bytes of the runs, the offset table, then the runs' tries.
pub open spec fn body_bytes(vs: Seq<(Seq<u8>, usize)>, p: int, fuel: nat) -> Seq<u8>
    decreases fuel, 0nat,
{
    if vs.len() == 0 || fuel == 0 {
        Seq::empty()
    } else {
        let gs = groups_from(vs, p, 0);
        let tries = group_tries(gs, p + 1, (fuel - 1) as nat);
        if gs.len() == 1 {
            seq![gs[0].0] + tries[0]
        } else {
            node_head(gs.len() as int, 0xC0) + gs.map_values(|g: (u8, Seq<(Seq<u8>, usize)>)| g.0)
                + offset_table(
                Seq::new(tries.len(), |k: int| offset_of(tries, k)),
                digits256(tries.flatten().len()),
            ) + tries.flatten()
        }
    }
}

/// The tries of the runs `gs`, in order.
#[verifier::opaque]
pub open spec fn group_tries(gs: Seq<(u8, Seq<(Seq<u8>, usize)>)>, p: int, fuel: nat) -> Seq<Seq<u8>>
    decreases fuel, gs.len() + 1,
{
    if gs.len() == 0 {
        Seq::empty()
    } else {
        seq![trie_bytes(gs[0].1, p, fuel)] + group_tries(gs.drop_first(), p, fuel)
    }
}

/// The bytes of the trie of the entries `vs`.
pub open spec fn const_trie_bytes(vs: Seq<(Seq<u8>, usize)>) -> Seq<u8> {
    trie_bytes(vs, 0, max_key_len(vs) + 1)
}

/// The trie of ASCII keys `t` holds exactly the entries `vs`: for each ASCII query it gives
/// the value paired with that key, or `None`, and walking it yields the entries in order.
pub open spec fn trie_of(t: Seq<u8>, vs: Seq<(Seq<u8>, usize)>) -> bool {
    &&& represents(t, vs, Seq::empty())
    &&& lists(t, vs, Seq::empty())
}

/// A builder of a trie in a buffer of `N` bytes.
pub struct AsciiTrieBuilder<const N: usize> {
    data: ConstAsciiTrieBuilderStore<N>,
}

impl<const N: usize> AsciiTrieBuilder<N> {
    #[verifier::type_invariant]
    spec fn inv(&self) -> bool {
        &&& self.data.end() == N
        &&& self.data.room() == N - self.data@.len()
    }

    /// The bytes built so far.
    pub closed spec fn view(&self) -> Seq<u8> {
        self.data@
    }

    /// The bytes built, as a trie.
    pub fn to_ascii_trie(&mut self) -> (res: ZeroTrieSimpleAscii<&[u8]>)
        ensures
            *final(self) == *old(self),
            res@ == old(self)@,
    {
        let slice = self.data.atbs_as_bytes();
        ZeroTrieSimpleAscii::from_store(slice.as_slice())
    }

    /// The bytes built.
    pub fn as_bytes(&mut self) -> (res: &[u8])
        ensures
            *final(self) == *old(self),
            res@ == old(self)@,
    {
        let slice = self.data.atbs_as_bytes();
        slice.as_slice()
    }

    /// The trie, which must fill the buffer exactly.
    pub fn into_ascii_trie_or_panic(self) -> (res: ZeroTrieSimpleAscii<[u8; N]>)
        requires
            self@.len() == N,
        ensures
            res@ == self@,
    {
        proof {
            use_type_invariant(&self);
        }
        ZeroTrieSimpleAscii::from_store(self.data.take_or_panic())
    }

    /// An empty builder.
    pub fn new() -> (res: Self)
        ensures
            res@ == Seq::<u8>::empty(),
    {
        Self { data: ConstAsciiTrieBuilderStore::atbs_new_empty() }
    }

    /// Puts the byte `ascii` in front.
    fn prepend_ascii(self, ascii: AsciiByte) -> (res: (Self, usize))
        requires
            self@.len() < N,
        ensures
            res.0@ == seq![ascii@] + self@,
            res.1 == 1,
    {
        proof {
            use_type_invariant(&self);
        }
        let data = self.data.atbs_push_front(ascii.get());
        (Self { data }, 1)
    }

    /// Puts a value node for `value` in front.
    fn prepend_value(self, value: usize) -> (res: (Self, usize))
        requires
            self@.len() + varint_len(value as int) <= N,
        ensures
            res.1 == varint_len(value as int),
            res.0@.len() == self@.len() + res.1,
            res.0@.skip(res.1 as int) == self@,
            head_reads(res.0@.take(res.1 as int), 2, value),
            res.0@.take(res.1 as int) == node_head(value as int, 0x80),
    {
        proof {
            use_type_invariant(&self);
        }
        let mut data = self.data;
        let (len, varint_array) = write_varint(value);
        proof {
            lemma_varint_len(value as int, len as nat);
        }
        let slice = ConstSlice::from_manual_slice(varint_array.as_slice(), 0, len);
        proof {
            assert(slice@ == varint_array@.subrange(0, len as int));
        }
        data = data.atbs_extend_front(slice);
        let ghost before = data@;
        data = data.atbs_bitor_assign(0, 0b10000000);
        proof {
            let b = varint_array@[0];
            let hb = data@.take(len as int);
            lemma_lead_with_meta(b, 0b10000000);
            assert(hb[0] == b | 0b10000000u8);
            assert(hb.drop_first() =~= varint_array@.subrange(1, len as int));
            assert(data@.skip(len as int) =~= self.data@);
            assert forall|tail: Seq<u8>| #[trigger] spec_read_varint(hb[0], hb.drop_first() + tail)
                == Some((value, tail)) by {
                lemma_read_varint_append(b, varint_array@.subrange(1, len as int), value, tail);
            }
            assert(hb =~= node_head(value as int, 0x80));
        }
        (Self { data }, len)
    }

    /// Puts a branch node in front of the targets' tries, which are already in front:
    /// `ascii_rev` and `sizes_rev` give each target's byte and trie size, the last target
    /// first.
    #[verifier::spinoff_prover]
    #[verifier::rlimit(30)]
    fn prepend_branch(
        self,
        ascii_rev: &[AsciiByte],
        sizes_rev: &[usize],
        Ghost(tries): Ghost<Seq<Seq<u8>>>,
    ) -> (res: (Self, usize))
        requires
            ascii_rev@.len() == sizes_rev@.len() == tries.len(),
            forall|k: int|
                0 <= k < tries.len() ==> #[trigger] sizes_rev@[k] == tries[tries.len() - 1
                    - k].len(),
            1 <= tries.flatten().len() <= usize::MAX,
            self@.len() + branch_overhead(tries.len(), tries.flatten().len()) <= N,
        ensures
            res.1 == branch_overhead(tries.len(), tries.flatten().len()),
            res.0@.len() == self@.len() + res.1,
            head_reads(res.0@.take(varint_len(tries.len() as int)), 3, tries.len() as usize),
            res.0@.take(varint_len(tries.len() as int)) == node_head(tries.len() as int, 0xC0),
            res.0@.skip(varint_len(tries.len() as int)) == Seq::new(
                tries.len(),
                |k: int| ascii_rev@[tries.len() - 1 - k]@,
            ) + offset_table(
                Seq::new(tries.len(), |k: int| offset_of(tries, k)),
                digits256(tries.flatten().len()),
            ) + self@,
    {
        proof {
            use_type_invariant(&self);
        }
        let n = sizes_rev.len();
        let ghost total = tries.flatten().len();
        let ghost offs = Seq::new(tries.len(), |k: int| offset_of(tries, k));
        let mut total_size: usize = 0;
        let mut k: usize = 0;
        proof {
            assert(tries.take(n as int) =~= tries);
        }
        while k < n
            invariant
                k <= n == sizes_rev@.len() == tries.len(),
                forall|m: int|
                    0 <= m < tries.len() ==> #[trigger] sizes_rev@[m] == tries[tries.len() - 1
                        - m].len(),
                total_size + offset_of(tries, n - k) == total,
                total == tries.flatten().len(),
                offset_of(tries, n as int) == total,
                total <= usize::MAX,
            decreases n - k,
        {
            proof {
                crate::builder::lemma_offset_step(tries, n - k - 1);
            }
            total_size += sizes_rev[k];
            k += 1;
        }
        let w = byte_width(total_size);
        let ghost old_bytes = self@;
        let mut data = self.data;
        let mut i: usize = 0;
        proof {
            crate::offsets::lemma_table_len(offs, w as nat);
        }
        while i < w
            invariant
                i <= w == digits256(total),
                n == sizes_rev@.len() == tries.len() == offs.len(),
                total == total_size,
                offs == Seq::new(tries.len(), |k: int| offset_of(tries, k)),
                forall|m: int|
                    0 <= m < tries.len() ==> #[trigger] sizes_rev@[m] == tries[tries.len() - 1
                        - m].len(),
                offset_of(tries, n as int) == total,
                data@ == offset_table(offs, i as nat) + old_bytes,
                data.end() == N,
                data.room() == N - data@.len(),
                old_bytes.len() + varint_len(n as int) + n * (1 + w) <= N,
            decreases w - i,
        {
            let ghost layer = crate::offsets::offset_layer(offs, i as nat);
            let ghost below = data@;
            let mut index = total_size;
            let mut k: usize = 0;
            proof {
                crate::offsets::lemma_table_len(offs, i as nat);
                assert(layer.skip(n as int) =~= Seq::<u8>::empty());
            }
            while k < n
                invariant
                    k <= n == sizes_rev@.len() == tries.len() == offs.len(),
                    i < w,
                    offs == Seq::new(tries.len(), |k: int| offset_of(tries, k)),
                    layer == crate::offsets::offset_layer(offs, i as nat),
                    forall|m: int|
                        0 <= m < tries.len() ==> #[trigger] sizes_rev@[m] == tries[tries.len() - 1
                            - m].len(),
                    index == offset_of(tries, n - k),
                    data@ == layer.skip(n - k) + below,
                    below.len() == old_bytes.len() + i * n,
                    data.end() == N,
                    data.room() == N - data@.len(),
                    old_bytes.len() + varint_len(n as int) + n * (1 + w) <= N,
                decreases n - k,
            {
                proof {
                    crate::builder::lemma_offset_step(tries, n - k - 1);
                    assert(i * n + k < n * (1 + w)) by (nonlinear_arith)
                        requires
                            i < w,
                            k < n,
                    ;
                    assert(layer.skip(n - k).len() == k);
                }
                index -= sizes_rev[k];
                let mut x = index;
                let mut j: usize = 0;
                while j < i
                    invariant
                        j <= i,
                        x == index as int / crate::varintx::pow256(j as nat),
                    decreases i - j,
                {
                    proof {
                        crate::offsets::lemma_pow256_pos(j as nat);
                        vstd::arithmetic::div_mod::lemma_div_denominator(
                            index as int,
                            crate::varintx::pow256(j as nat),
                            256,
                        );
                        assert(x >> 8 == x / 256) by (bit_vector);
                    }
                    x >>= 8;
                    j += 1;
                }
                let ghost before = data@;
                data = data.atbs_push_front(x as u8);
                proof {
                    assert(x as u8 == (x % 256) as u8) by (bit_vector);
                    assert(layer[n - k - 1] == ((offs[n - k - 1] / crate::varintx::pow256(
                        i as nat,
                    )) % 256) as u8);
                    assert(layer.skip(n - k - 1) =~= seq![layer[n - k - 1]] + layer.skip(n - k));
                }
                k += 1;
            }
            proof {
                assert(layer.skip(0) =~= layer);
                assert(offset_table(offs, (i + 1) as nat) == layer + offset_table(offs, i as nat));
                crate::offsets::lemma_table_len(offs, (i + 1) as nat);
            }
            i += 1;
        }
        let ghost asciis = Seq::new(tries.len(), |k: int| ascii_rev@[tries.len() - 1 - k]@);
        let ghost table_part = data@;
        proof {
            crate::offsets::lemma_table_len(offs, w as nat);
            assert(asciis.skip(n as int) =~= Seq::<u8>::empty());
            assert(n * w + n == n * (1 + w)) by (nonlinear_arith);
        }
        k = 0;
        while k < n
            invariant
                k <= n == ascii_rev@.len() == tries.len(),
                asciis == Seq::new(tries.len(), |k: int| ascii_rev@[tries.len() - 1 - k]@),
                data@ == asciis.skip(n - k) + table_part,
                table_part.len() == old_bytes.len() + w * n,
                data.end() == N,
                data.room() == N - data@.len(),
                old_bytes.len() + varint_len(n as int) + n * (1 + w) <= N,
                n * w + n == n * (1 + w),
            decreases n - k,
        {
            data = data.atbs_push_front(ascii_rev[k].get());
            proof {
                assert(asciis.skip(n - k - 1) =~= seq![asciis[n - k - 1]] + asciis.skip(n - k));
            }
            k += 1;
        }
        proof {
            assert(asciis.skip(0) =~= asciis);
        }
        proof {
            assert(data@.len() == old_bytes.len() + w * n + n);
        }
        let ghost body = data@;
        let (len, varint_array) = write_varint(n);
        proof {
            lemma_varint_len(n as int, len as nat);
        }
        let slice = ConstSlice::from_manual_slice(varint_array.as_slice(), 0, len);
        proof {
            assert(slice@ == varint_array@.subrange(0, len as int));
            assert(w * n == n * w) by (nonlinear_arith);
            assert(body.len() + len <= N);
            assert(data.room() >= slice@.len());
        }
        data = data.atbs_extend_front(slice);
        data = data.atbs_bitor_assign(0, 0b11000000);
        proof {
            let b = varint_array@[0];
            let hb = data@.take(len as int);
            lemma_lead_with_meta(b, 0b11000000);
            assert(hb[0] == b | 0b11000000u8);
            assert(hb.drop_first() =~= varint_array@.subrange(1, len as int));
            assert(data@.skip(len as int) =~= body);
            assert forall|tail: Seq<u8>| #[trigger] spec_read_varint(hb[0], hb.drop_first() + tail)
                == Some((n, tail)) by {
                lemma_read_varint_append(b, varint_array@.subrange(1, len as int), n, tail);
            }
            assert(hb =~= node_head(n as int, 0xC0));
        }
        proof {
            assert(data@.len() == body.len() + len);
            assert(len + n * (1 + w) <= N);
        }
        (Self { data }, len + n * (1 + w))
    }
}

/// The entries `vs` are sorted, ASCII, all start with `pre` (of length `p`), are longer
/// than `p` bytes and at most `p + fuel` bytes long.
#[verifier::opaque]
pub open spec fn body_ready(vs: Seq<(Seq<u8>, usize)>, p: int, pre: Seq<u8>, fuel: nat) -> bool {
    &&& pre.len() == p
    &&& sorted_entries(vs)
    &&& ascii_entries(vs)
    &&& forall|k: int|
        0 <= k < vs.len() ==> (#[trigger] vs[k].0).len() > p && vs[k].0.len() <= p + fuel
            && vs[k].0.take(p) == pre
}

impl<const N: usize> AsciiTrieBuilder<N> {
    /// Lays out, in front of what is built, the trie of the entries `items`, whose keys
    /// are sorted, ASCII, start with `pre` and are at most `prefix_len + fuel` long; an
    /// empty slice gives an empty builder. Returns the builder and the trie's size.
    #[verifier::spinoff_prover]
    fn create_recursive<'a>(
        self,
        items: ConstSlice<'a, (AsciiStr<'a>, usize)>,
        prefix_len: usize,
        Ghost(pre): Ghost<Seq<u8>>,
        Ghost(fuel): Ghost<nat>,
    ) -> (res: (Self, usize))
        requires
            items.spec_wf(),
            pre.len() == prefix_len,
            sorted_entries(entries(items@)),
            ascii_entries(entries(items@)),
            share_prefix(entries(items@), pre),
            forall|k: int| 0 <= k < items@.len() ==> #[trigger] items@[k].0@.len() <= prefix_len + fuel,
            items@.len() == 0 ==> self@.len() == 0,
            self@.len() + trie_size(entries(items@), prefix_len as int, fuel) <= N,
        ensures
            res.1 == trie_size(entries(items@), prefix_len as int, fuel),
            res.0@.len() == self@.len() + res.1,
            res.0@.skip(res.1 as int) == self@,
            represents(res.0@.take(res.1 as int), entries(items@), pre),
            lists(res.0@.take(res.1 as int), entries(items@), pre),
            res.0@.take(res.1 as int) == trie_bytes(entries(items@), prefix_len as int, fuel),
            items@.len() > 0 ==> res.1 >= 1,
        decreases fuel, 1nat,
    {
        let mut this = self;
        let ghost vs = entries(items@);
        let ghost items0 = items@;
        let ghost p = prefix_len as int;
        let ghost base = self@;
        let first: (AsciiStr<'a>, usize) = match items.first() {
            Some(f) => (f.0, f.1),
            None => {
                proof {
                    lemma_empty_trie(vs, pre);
                    assert(Seq::<u8>::empty().take(0) =~= Seq::<u8>::empty());
                    assert(this@.skip(0) =~= this@);
                }
                return (Self::new(), 0);
            },
        };
        proof {
            assert(vs[0] == (first.0@, first.1));
            lemma_keys_longer(vs, pre);
        }
        let mut initial_value: Option<usize> = None;
        let mut total_size: usize = 0;
        let items = if first.0.len() == prefix_len {
            initial_value = Some(first.1);
            items.get_subslice_or_panic(1, items.len())
        } else {
            items
        };
        let ghost rs = entries(items@);
        proof {
            if initial_value is Some {
                assert(rs =~= vs.drop_first());
                assert(vs[0].0 =~= pre) by {
                    assert(vs[0].0.take(p) == pre);
                }
                lemma_sub_entries(vs, 1, vs.len() as int);
                assert(vs.subrange(1, vs.len() as int) =~= rs);
                assert(trie_size(vs, p, fuel) == varint_len(vs[0].1 as int) + body_size(rs, p, fuel));
            } else {
                assert(rs == vs);
                assert(trie_size(vs, p, fuel) == body_size(rs, p, fuel));
            }
            reveal(body_ready);
            assert forall|k: int| 0 <= k < rs.len() implies (#[trigger] rs[k].0).len() > p && rs[k].0.len()
                <= p + fuel && rs[k].0.take(p) == pre by {
                if initial_value is Some {
                    assert(rs[k] == vs[k + 1]);
                    assert(vs[k + 1].0 == items0[k + 1].0@);
                } else {
                    assert(rs[k] == vs[k]);
                    assert(vs[k].0 == items0[k].0@);
                }
            }
            assert(body_ready(rs, p, pre, fuel));
        }
        if !items.is_empty() {
            let (next, size) = this.create_body(items, prefix_len, Ghost(pre), Ghost(fuel));
            this = next;
            total_size = size;
        } else {
            proof {
                lemma_empty_trie(rs, pre);
                assert(this@.take(0) =~= Seq::<u8>::empty());
                assert(this@.skip(0) =~= this@);
            }
        }
        let ghost body_trie = this@.take(total_size as int);
        proof {
            assert(this@ =~= body_trie + base);
            assert(body_trie == body_bytes(rs, p, fuel));
            if initial_value is None {
                assert(trie_bytes(vs, p, fuel) == body_bytes(rs, p, fuel));
            }
        }
        if let Some(value) = initial_value {
            let (next, size) = this.prepend_value(value);
            this = next;
            total_size += size;
            proof {
                let hv = this@.take(size as int);
                assert(this@ =~= hv + body_trie + base);
                crate::represents::lemma_value_node(vs, pre, hv, body_trie);
                crate::represents::lemma_value_node_lists(vs, pre, hv, body_trie);
                assert(this@.take(total_size as int) =~= hv + body_trie);
                assert(trie_bytes(vs, p, fuel) == node_head(vs[0].1 as int, 0x80) + body_bytes(
                    vs.drop_first(),
                    p,
                    fuel,
                ));
                assert(this@.skip(total_size as int) =~= base);
            }
        }
        (this, total_size)
    }

    /// Lays out, in front of what is built, the trie of the entries `items`, at least one,
    /// whose keys are all longer than `prefix_len` bytes: the shared byte and the trie of
    /// the rest when all keys have the same byte there, else a branch node over the runs of
    /// keys with the same byte, each run's trie laid out from the last run to the first.
    #[verifier::spinoff_prover]
    #[verifier::rlimit(80)]
    fn create_body<'a>(
        self,
        items: ConstSlice<'a, (AsciiStr<'a>, usize)>,
        prefix_len: usize,
        Ghost(pre): Ghost<Seq<u8>>,
        Ghost(fuel): Ghost<nat>,
    ) -> (res: (Self, usize))
        requires
            items.spec_wf(),
            items@.len() > 0,
            body_ready(entries(items@), prefix_len as int, pre, fuel),
            self@.len() + body_size(entries(items@), prefix_len as int, fuel) <= N,
        ensures
            res.1 == body_size(entries(items@), prefix_len as int, fuel),
            res.1 >= 1,
            res.0@.len() == self@.len() + res.1,
            res.0@.skip(res.1 as int) == self@,
            represents(res.0@.take(res.1 as int), entries(items@), pre),
            lists(res.0@.take(res.1 as int), entries(items@), pre),
            res.0@.take(res.1 as int) == body_bytes(entries(items@), prefix_len as int, fuel),
        decreases fuel, 0nat,
    {
        let mut this = self;
        let ghost rs = entries(items@);
        let ghost p = prefix_len as int;
        let ghost base = self@;
        let n = items.len();
        proof {
            reveal(body_ready);
            assert(rs[0].0.len() > p);
            assert(fuel >= 1);
            assert(items@[n - 1] == items.spec_full()[n - 1 + items.spec_start()]);
            assert(rs[n - 1].0 == items@[n - 1].0@);
        }
        let ghost gs0 = groups_from(rs, p, 0);
        let ghost fuel1 = (fuel - 1) as nat;
        let mut total_size: usize = 0;
        let mut i: usize = n;
        let mut j: usize = n;
        let mut current_ascii = items.get_or_panic(n - 1).0.ascii_at_or_panic(prefix_len);
        let mut ascii_rev: Vec<AsciiByte> = Vec::new();
        let mut sizes_rev: Vec<usize> = Vec::new();
        let ghost mut tries: Seq<Seq<u8>> = Seq::empty();
        proof {
            assert(body_size(rs, p, fuel) >= sizes_sum(gs0, p + 1, fuel1));
            assert(tries.flatten() =~= Seq::<u8>::empty());
            assert(this@ =~= tries.flatten() + base);
            assert(groups_from(rs, p, n as int) =~= Seq::empty());
            reveal(group_tries);
        }
        while i > 0
            invariant
                0 <= i <= j <= n == rs.len(),
                items.spec_wf(),
                rs == entries(items@),
                p == prefix_len,
                fuel == fuel1 + 1,
                gs0 == groups_from(rs, p, 0),
                body_ready(rs, p, pre, fuel),
                i > 0 ==> current_ascii@ == rs[i - 1].0[p],
                i == 0 ==> j == 0 && current_ascii@ == rs[0].0[p],
                forall|k: int| i <= k < j ==> #[trigger] rs[k].0[p] == current_ascii@,
                0 < j < n ==> rs[j as int].0[p] != rs[j - 1].0[p],
                built(groups_from(rs, p, j as int), pre, tries, p + 1, fuel1),
                this@ == tries.flatten() + base,
                total_size == tries.flatten().len(),
                reversed_runs(ascii_rev@, sizes_rev@, groups_from(rs, p, j as int), tries),
                tries == group_tries(groups_from(rs, p, j as int), p + 1, fuel1),
                base.len() + body_size(rs, p, fuel) <= N,
                body_size(rs, p, fuel) >= sizes_sum(gs0, p + 1, fuel1),
            decreases i,
        {
            i -= 1;
            let prev_ascii = current_ascii;
            let should_recurse = if i == 0 {
                true
            } else {
                proof {
                    reveal(body_ready);
                    assert(items@[i - 1] == items.spec_full()[i - 1 + items.spec_start()]);
                    assert(rs[i - 1].0 == items@[i - 1].0@);
                }
                current_ascii = items.get_or_panic(i - 1).0.ascii_at_or_panic(prefix_len);
                current_ascii.get() != prev_ascii.get()
            };
            if should_recurse {
                let ghost c = prev_ascii@;
                let ghost g = rs.subrange(i as int, j as int);
                proof {
                    items@[i as int].0.lemma_len_fits();
                    lemma_child_ready(rs, p, pre, fuel, i as int, j as int);
                }
                let sub = items.get_subslice_or_panic(i, j);
                proof {
                    assert(entries(sub@) =~= g);
                    assert forall|k: int| 0 <= k < sub@.len() implies #[trigger] sub@[k].0@.len()
                        <= prefix_len + 1 + fuel1 by {
                        assert(sub@[k].0@ == g[k].0);
                    }
                }
                let (next, size) = this.create_recursive(
                    sub,
                    prefix_len + 1,
                    Ghost(pre.push(c)),
                    Ghost(fuel1),
                );
                this = next;
                total_size += size;
                let ghost ar0 = ascii_rev@;
                let ghost sr0 = sizes_rev@;
                ascii_rev.push(prev_ascii);
                sizes_rev.push(size);
                proof {
                    let t = this@.take(size as int);
                    let old_tries = tries;
                    tries = seq![t] + old_tries;
                    lemma_built_cons((c, g), groups_from(rs, p, j as int), pre, t, old_tries, p + 1, fuel1);
                    lemma_group_tries_cons((c, g), groups_from(rs, p, j as int), p + 1, fuel1);
                    lemma_reversed_push(ar0, sr0, prev_ascii, size, (c, g), groups_from(rs, p, j as int), t, old_tries);
                    assert(this@ =~= t + (old_tries.flatten() + base));
                }
                j = i;
            }
        }
        proof {
            reveal(body_ready);
            vstd::seq_lib::lemma_flatten_concat(Seq::<Seq<u8>>::empty(), tries);
        }
        if ascii_rev.len() == 1 {
            proof {
                lemma_one_run(rs, p, pre, fuel, tries);
            }
            let (next, size) = this.prepend_ascii(current_ascii);
            this = next;
            total_size += size;
            proof {
                assert(this@.take(total_size as int) =~= seq![current_ascii@] + tries[0]);
                assert(this@.skip(total_size as int) =~= base);
                assert(gs0[0].0 == rs[0].0[p]);
                assert(body_bytes(rs, p, fuel) == seq![gs0[0].0] + tries[0]);
            }
        } else {
            proof {
                lemma_branch_ready(rs, p, pre, fuel, tries);
            }
            let (next, size) = this.prepend_branch(ascii_rev.as_slice(), sizes_rev.as_slice(), Ghost(tries));
            this = next;
            total_size += size;
            proof {
                let hl = varint_len(tries.len() as int);
                let hb = this@.take(hl);
                assert(Seq::new(tries.len(), |k: int| ascii_rev@[tries.len() - 1 - k]@) =~= gs0.map_values(
                    |g: (u8, Seq<(Seq<u8>, usize)>)| g.0,
                ));
                let body = crate::represents::branch_body(rs, pre, tries);
                let asciis = Seq::new(tries.len(), |k: int| ascii_rev@[tries.len() - 1 - k]@);
                let table = offset_table(
                    Seq::new(tries.len(), |k: int| offset_of(tries, k)),
                    digits256(tries.flatten().len()),
                );
                assert(this@.skip(hl) == asciis + table + (tries.flatten() + base));
                assert(body == asciis + table + tries.flatten());
                assert(this@ =~= this@.take(hl) + this@.skip(hl));
                assert(this@ =~= hb + body + base);
                crate::represents::lemma_branch_node(rs, pre, hb, tries);
                crate::represents::lemma_branch_node_lists(rs, pre, hb, tries);
                assert(this@.take(total_size as int) =~= hb + body);
                assert(this@.skip(total_size as int) =~= base);
                assert(body_bytes(rs, p, fuel) =~= hb + body);
            }
        }
        (this, total_size)
    }
}

impl<const N: usize> AsciiTrieBuilder<N> {
    /// The builder holding the trie of the pairs `items`, whose keys are in strictly
    /// increasing order; `N` must be at least the size of that trie.
    pub fn from_sorted_const_tuple_slice<'a>(items: ConstSlice<'a, (AsciiStr<'a>, usize)>) -> (res: Self)
        requires
            items.spec_wf(),
            sorted_entries(entries(items@)),
            const_trie_size(entries(items@)) <= N,
        ensures
            res@ == const_trie_bytes(entries(items@)),
            res@.len() == const_trie_size(entries(items@)),
            trie_of(res@, entries(items@)),
    {
        let ghost vs = entries(items@);
        let mut k: usize = 0;
        while k < items.len()
            invariant
                k <= items@.len(),
                items.spec_wf(),
                vs == entries(items@),
                forall|m: int| 0 <= m < k ==> crate::ascii::all_ascii(#[trigger] vs[m].0),
            decreases items@.len() - k,
        {
            proof {
                assert(items@[k as int] == items.spec_full()[k + items.spec_start()]);
            }
            let key = items.get_or_panic(k).0.as_bytes();
            proof {
                assert(key@ == vs[k as int].0);
            }
            k += 1;
        }
        proof {
            lemma_max_key_len(vs);
            assert(share_prefix(vs, Seq::empty())) by {
                assert forall|i: int| 0 <= i < vs.len() implies (#[trigger] vs[i].0).len() >= 0
                    && vs[i].0.take(0) == Seq::<u8>::empty() by {
                    assert(vs[i].0.take(0) =~= Seq::<u8>::empty());
                }
            }
            assert forall|m: int| 0 <= m < items@.len() implies #[trigger] items@[m].0@.len()
                <= 0 + max_key_len(vs) + 1 by {
                assert(vs[m].0 == items@[m].0@);
            }
        }
        let result = Self::new();
        let (result, _total_size) = result.create_recursive(
            items,
            0,
            Ghost(Seq::empty()),
            Ghost(max_key_len(vs) + 1),
        );
        proof {
            assert(result@.take(result@.len() as int) =~= result@);
        }
        result
    }

    /// The builder holding the trie of the pairs `items`, whose keys must be in strictly
    /// increasing order; `N` must be at least the size of that trie.
    pub fn from_tuple_slice<'a>(items: &'a [(AsciiStr<'a>, usize)]) -> (res: Self)
        requires
            sorted_entries(entries(items@)),
            const_trie_size(entries(items@)) <= N,
        ensures
            res@ == const_trie_bytes(entries(items@)),
            res@.len() == const_trie_size(entries(items@)),
            trie_of(res@, entries(items@)),
    {
        Self::from_sorted_const_tuple_slice(ConstSlice::from_slice(items))
    }
}

/// The keys, as UTF-8 bytes, and values of an array of string pairs.
pub open spec fn str_entries<'a>(items: Seq<(&'a str, usize)>) -> Seq<(Seq<u8>, usize)> {
    items.map_values(|e: (&'a str, usize)| (e.0.spec_bytes(), e.1))
}



/// No key is longer than `max_key_len`.
pub(crate) proof fn lemma_max_key_len(vs: Seq<(Seq<u8>, usize)>)
    ensures
        forall|k: int| 0 <= k < vs.len() ==> (#[trigger] vs[k].0).len() <= max_key_len(vs),
    decreases vs.len(),
{
    if vs.len() > 0 {
        lemma_max_key_len(vs.drop_first());
        assert forall|k: int| 0 <= k < vs.len() implies (#[trigger] vs[k].0).len() <= max_key_len(vs) by {
            if k > 0 {
                assert(vs[k] == vs.drop_first()[k - 1]);
            }
        }
    }
}

/// The empty trie gives nothing, as do no entries.
proof fn lemma_empty_trie(vs: Seq<(Seq<u8>, usize)>, pre: Seq<u8>)
    requires
        vs.len() == 0,
    ensures
        represents(Seq::empty(), vs, pre),
        lists(Seq::empty(), vs, pre),
{
    assert(vs =~= Seq::<(Seq<u8>, usize)>::empty());
    assert forall|q: Seq<u8>| crate::ascii::all_ascii(q) implies #[trigger] crate::reader::spec_get(
        Seq::<u8>::empty(),
        q,
    ) == crate::lookup::find_value(vs, pre + q) by {}
}

/// The run of keys from `i` to `j`, all with the byte `c` at `p`, is the first of the runs
/// from `i`, and its entries are ready to be laid out past `pre` and `c`.
proof fn lemma_child_ready(
    rs: Seq<(Seq<u8>, usize)>,
    p: int,
    pre: Seq<u8>,
    fuel: nat,
    i: int,
    j: int,
)
    requires
        body_ready(rs, p, pre, fuel),
        0 <= i < j <= rs.len(),
        forall|k: int| i <= k < j ==> #[trigger] rs[k].0[p] == rs[i].0[p],
        j < rs.len() ==> rs[j].0[p] != rs[j - 1].0[p],
        i == 0 || rs[i - 1].0[p] != rs[i].0[p],
    ensures
        ({
            let c = rs[i].0[p];
            let g = rs.subrange(i, j);
            let fuel1 = (fuel - 1) as nat;
            &&& fuel >= 1
            &&& pre.len() == p
            &&& groups_from(rs, p, i) == seq![(c, g)] + groups_from(rs, p, j)
            &&& sizes_sum(groups_from(rs, p, 0), p + 1, fuel1) >= trie_size(g, p + 1, fuel1)
                + sizes_sum(groups_from(rs, p, j), p + 1, fuel1)
            &&& sorted_entries(g)
            &&& ascii_entries(g)
            &&& share_prefix(g, pre.push(c))
            &&& forall|k: int| 0 <= k < g.len() ==> (#[trigger] g[k].0).len() <= p + 1 + fuel1
            &&& rs[i].0.len() > p
        }),
{
    reveal(body_ready);
    let c = rs[i].0[p];
    let g = rs.subrange(i, j);
    let fuel1 = (fuel - 1) as nat;
    let gs0 = groups_from(rs, p, 0);
    crate::builder::lemma_run_end_at(rs, p, i, j);
    assert(groups_from(rs, p, i) == seq![(c, g)] + groups_from(rs, p, j));
    lemma_groups_suffix(rs, p, 0, i);
    let gi = groups_from(rs, p, i);
    let d = gs0.len() - gi.len();
    lemma_sizes_concat(gs0.take(d), gi, p + 1, fuel1);
    assert(gi.drop_first() =~= groups_from(rs, p, j));
    assert(gi[0] == (c, g));
    lemma_sub_entries(rs, i, j);
    assert forall|k: int| 0 <= k < g.len() implies (#[trigger] g[k].0).len() >= pre.push(c).len()
        && g[k].0.take(p + 1) == pre.push(c) by {
        assert(g[k] == rs[i + k]);
        assert(rs[i + k].0.take(p) == pre);
        assert(g[k].0.take(p + 1) =~= pre.push(c));
    }
    assert forall|k: int| 0 <= k < g.len() implies (#[trigger] g[k].0).len() <= p + 1 + fuel1 by {
        assert(g[k] == rs[i + k]);
    }
}

/// When all keys have the same byte at `p`, the byte followed by the one run's trie gives
/// their values.
proof fn lemma_one_run(rs: Seq<(Seq<u8>, usize)>, p: int, pre: Seq<u8>, fuel: nat, tries: Seq<Seq<u8>>)
    requires
        body_ready(rs, p, pre, fuel),
        rs.len() > 0,
        fuel >= 1,
        built(groups_from(rs, p, 0), pre, tries, p + 1, (fuel - 1) as nat),
        tries.len() == 1,
    ensures
        represents(seq![rs[0].0[p]] + tries[0], rs, pre),
        lists(seq![rs[0].0[p]] + tries[0], rs, pre),
        tries.flatten() == tries[0],
        body_size(rs, p, fuel) == 1 + tries[0].len(),
{
    reveal(body_ready);
    let gs0 = groups_from(rs, p, 0);
    lemma_single_group(rs, p);
    tries.lemma_flatten_one_element();
    assert(rs[0].0[p] < 128) by {
        assert(crate::ascii::all_ascii(rs[0].0));
    }
    crate::represents::lemma_ascii_node(rs, pre, rs[0].0[p], tries[0]);
    crate::represents::lemma_ascii_node_lists(rs, pre, rs[0].0[p], tries[0]);
    assert(gs0.drop_first().len() == 0);
}

/// The runs' tries are ready to go under a branch node when there are at least two.
proof fn lemma_branch_ready(
    rs: Seq<(Seq<u8>, usize)>,
    p: int,
    pre: Seq<u8>,
    fuel: nat,
    tries: Seq<Seq<u8>>,
)
    requires
        body_ready(rs, p, pre, fuel),
        rs.len() > 0,
        fuel >= 1,
        built(groups_from(rs, p, 0), pre, tries, p + 1, (fuel - 1) as nat),
        tries.len() != 1,
        tries.flatten().len() <= usize::MAX,
        tries.len() <= usize::MAX,
    ensures
        crate::represents::branch_ready(rs, pre, tries),
        1 <= tries.flatten().len(),
        body_size(rs, p, fuel) == branch_overhead(tries.len(), tries.flatten().len())
            + tries.flatten().len(),
{
    reveal(body_ready);
    crate::lookup::lemma_groups_cover(rs, p, 0);
    assert(tries.len() >= 1);
    assert(tries =~= seq![tries[0]] + tries.drop_first());
    vstd::seq_lib::lemma_flatten_concat(seq![tries[0]], tries.drop_first());
    seq![tries[0]].lemma_flatten_one_element();
    assert(share_prefix(rs, pre)) by {
        assert forall|i: int| 0 <= i < rs.len() implies (#[trigger] rs[i].0).len() >= pre.len()
            && rs[i].0.take(pre.len() as int) == pre by {}
    }
}

/// The tries `tries` are those of the runs `gs`, each giving its run's values past the
/// run's byte, and together as long as `sizes_sum` says.
pub open spec fn built(
    gs: Seq<(u8, Seq<(Seq<u8>, usize)>)>,
    pre: Seq<u8>,
    tries: Seq<Seq<u8>>,
    p: int,
    fuel: nat,
) -> bool {
    &&& tries.len() == gs.len()
    &&& forall|k: int|
        0 <= k < tries.len() ==> (#[trigger] tries[k]).len() >= 1 && represents(
            tries[k],
            gs[k].1,
            pre.push(gs[k].0),
        ) && lists(tries[k], gs[k].1, pre.push(gs[k].0))
    &&& tries.flatten().len() == sizes_sum(gs, p, fuel)
}

/// `ascii_rev` and `sizes_rev` give the bytes of the runs `gs` and the sizes of their
/// tries, the last run first.
pub open spec fn reversed_runs(
    ascii_rev: Seq<AsciiByte>,
    sizes_rev: Seq<usize>,
    gs: Seq<(u8, Seq<(Seq<u8>, usize)>)>,
    tries: Seq<Seq<u8>>,
) -> bool {
    &&& ascii_rev.len() == gs.len()
    &&& sizes_rev.len() == gs.len()
    &&& tries.len() == gs.len()
    &&& forall|k: int| 0 <= k < gs.len() ==> (#[trigger] ascii_rev[k])@ == gs[gs.len() - 1 - k].0
    &&& forall|k: int| 0 <= k < gs.len() ==> #[trigger] sizes_rev[k] == tries[gs.len() - 1 - k].len()
}

proof fn lemma_group_tries_cons(
    g: (u8, Seq<(Seq<u8>, usize)>),
    gs: Seq<(u8, Seq<(Seq<u8>, usize)>)>,
    p: int,
    fuel: nat,
)
    ensures
        group_tries(seq![g] + gs, p, fuel) == seq![trie_bytes(g.1, p, fuel)] + group_tries(gs, p, fuel),
{
    reveal(group_tries);
    assert((seq![g] + gs).drop_first() =~= gs);
    assert((seq![g] + gs)[0] == g);
}

proof fn lemma_built_cons(
    g: (u8, Seq<(Seq<u8>, usize)>),
    gs: Seq<(u8, Seq<(Seq<u8>, usize)>)>,
    pre: Seq<u8>,
    t: Seq<u8>,
    tries: Seq<Seq<u8>>,
    p: int,
    fuel: nat,
)
    requires
        built(gs, pre, tries, p, fuel),
        t.len() >= 1,
        t.len() == trie_size(g.1, p, fuel),
        represents(t, g.1, pre.push(g.0)),
        lists(t, g.1, pre.push(g.0)),
    ensures
        built(seq![g] + gs, pre, seq![t] + tries, p, fuel),
        (seq![t] + tries).flatten() == t + tries.flatten(),
{
    let ng = seq![g] + gs;
    let nt = seq![t] + tries;
    assert(nt.drop_first() =~= tries);
    assert(ng.drop_first() =~= gs);
    assert forall|k: int| 1 <= k < nt.len() implies nt[k] == tries[k - 1] && ng[k] == gs[k - 1] by {}
}

proof fn lemma_reversed_push(
    ascii_rev: Seq<AsciiByte>,
    sizes_rev: Seq<usize>,
    a: AsciiByte,
    size: usize,
    g: (u8, Seq<(Seq<u8>, usize)>),
    gs: Seq<(u8, Seq<(Seq<u8>, usize)>)>,
    t: Seq<u8>,
    tries: Seq<Seq<u8>>,
)
    requires
        reversed_runs(ascii_rev, sizes_rev, gs, tries),
        a@ == g.0,
        size == t.len(),
    ensures
        reversed_runs(ascii_rev.push(a), sizes_rev.push(size), seq![g] + gs, seq![t] + tries),
{
    let ng = seq![g] + gs;
    let nt = seq![t] + tries;
    assert forall|k: int| 0 <= k < ng.len() implies (#[trigger] ascii_rev.push(a)[k])@ == ng[ng.len()
        - 1 - k].0 by {
        if k < gs.len() {
            assert(ng[ng.len() - 1 - k] == gs[gs.len() - 1 - k]);
        }
    }
    assert forall|k: int| 0 <= k < ng.len() implies #[trigger] sizes_rev.push(size)[k] == nt[ng.len()
        - 1 - k].len() by {
        if k < gs.len() {
            assert(nt[ng.len() - 1 - k] == tries[gs.len() - 1 - k]);
        }
    }
}

/// In entries sorted in strictly increasing order that all start with `pre`, every key
/// after the first is longer than `pre`.
pub(crate) proof fn lemma_keys_longer(vs: Seq<(Seq<u8>, usize)>, pre: Seq<u8>)
    requires
        sorted_entries(vs),
        share_prefix(vs, pre),
    ensures
        forall|k: int| 1 <= k < vs.len() ==> (#[trigger] vs[k].0).len() > pre.len(),
{
    assert forall|k: int| 1 <= k < vs.len() implies (#[trigger] vs[k].0).len() > pre.len() by {
        if vs[k].0.len() == pre.len() {
            let a = vs[0].0;
            let b = vs[k].0;
            assert(b =~= pre) by {
                assert(b.take(pre.len() as int) == pre);
            }
            assert(crate::ascii::seq_less(a, b));
            let i = choose|i: int|
                0 <= i <= a.len() && i <= b.len() && a.take(i) == b.take(i) && ((i < a.len() && i
                    < b.len() && a[i] < b[i]) || (i == a.len() && i < b.len()));
            assert(a.take(pre.len() as int) == pre);
            if i < b.len() && i < a.len() {
                assert(a.take(pre.len() as int)[i] == a[i]);
            }
        }
    }
}

/// The runs from a run start `i` are the last of the runs from `k`.
proof fn lemma_groups_suffix(vs: Seq<(Seq<u8>, usize)>, p: int, k: int, i: int)
    requires
        0 <= k <= i <= vs.len(),
        i == k || i == vs.len() || vs[i - 1].0[p] != vs[i].0[p],
    ensures
        groups_from(vs, p, k).len() >= groups_from(vs, p, i).len(),
        groups_from(vs, p, k) == groups_from(vs, p, k).take(
            groups_from(vs, p, k).len() - groups_from(vs, p, i).len(),
        ) + groups_from(vs, p, i),
    decreases i - k,
{
    let gk = groups_from(vs, p, k);
    let gi = groups_from(vs, p, i);
    if k == i {
        assert(gk =~= gk.take(0) + gi);
    } else {
        let e = run_end(vs, p, k);
        crate::builder::lemma_run_end(vs, p, k);
        if e > i {
            assert(vs[i].0[p] == vs[k].0[p]);
            assert(vs[i - 1].0[p] == vs[k].0[p]);
        }
        lemma_groups_suffix(vs, p, e, i);
        let ge = groups_from(vs, p, e);
        assert(gk == seq![(vs[k].0[p], vs.subrange(k, e))] + ge);
        let d = ge.len() - gi.len();
        assert(ge == ge.take(d) + gi);
        assert(gk =~= gk.take(d + 1) + gi);
    }
}

proof fn lemma_sizes_concat(
    a: Seq<(u8, Seq<(Seq<u8>, usize)>)>,
    b: Seq<(u8, Seq<(Seq<u8>, usize)>)>,
    p: int,
    fuel: nat,
)
    ensures
        sizes_sum(a + b, p, fuel) == sizes_sum(a, p, fuel) + sizes_sum(b, p, fuel),
    decreases a.len(),
{
    if a.len() == 0 {
        assert(a + b =~= b);
    } else {
        assert((a + b).drop_first() =~= a.drop_first() + b);
        assert((a + b)[0] == a[0]);
        lemma_sizes_concat(a.drop_first(), b, p, fuel);
    }
}

/// When the keys from the first on make one run at `p`, that run is all of them.
pub(crate) proof fn lemma_single_group(vs: Seq<(Seq<u8>, usize)>, p: int)
    requires
        vs.len() > 0,
        groups_from(vs, p, 0).len() == 1,
    ensures
        groups_from(vs, p, 0)[0] == (vs[0].0[p], vs),
        forall|k: int| 0 <= k < vs.len() ==> #[trigger] vs[k].0[p] == vs[0].0[p],
{
    let e = run_end(vs, p, 0);
    crate::builder::lemma_run_end(vs, p, 0);
    if e < vs.len() {
        assert(groups_from(vs, p, e).len() >= 1);
    }
    assert(vs.subrange(0, vs.len() as int) =~= vs);
}

/// The number of base-256 digits of `total`.
pub(crate) fn byte_width(total: usize) -> (w: usize)
    requires
        total >= 1,
    ensures
        w == digits256(total as nat),
{
    let mut w: usize = 1;
    let mut x = total;
    proof {
        lemma_digits_le(total as nat);
    }
    while x >= 256
        invariant
            1 <= w,
            1 <= x <= total,
            w - 1 + digits256(x as nat) == digits256(total as nat),
            digits256(total as nat) <= total,
        decreases x,
    {
        assert(digits256(x as nat) == 1 + digits256((x / 256) as nat));
        x = x / 256;
        w += 1;
    }
    w
}

/// A positive number has no more digits than its value.
proof fn lemma_digits_le(t: nat)
    requires
        t >= 1,
    ensures
        digits256(t) <= t,
    decreases t,
{
    if t >= 256 {
        lemma_digits_le(t / 256);
    }
}


/// No two of the pairs `items` have the same key.
pub open spec fn distinct_keys<'a>(items: Seq<(AsciiStr<'a>, usize)>) -> bool {
    forall|i: int, j: int| 0 <= i < j < items.len() ==> (#[trigger] items[i]).0@ != (#[trigger] items[j]).0@
}

/// `vs` holds the same pairs as `ws`, in increasing order of key.
pub open spec fn sorted_copy(vs: Seq<(Seq<u8>, usize)>, ws: Seq<(Seq<u8>, usize)>) -> bool {
    &&& sorted_entries(vs)
    &&& vs.len() == ws.len()
    &&& forall|e: (Seq<u8>, usize)| vs.contains(e) <==> ws.contains(e)
}

/// The pairs `items`, whose keys are distinct, put in increasing order of key, each
/// inserted after the keys that sort before it.
pub(crate) fn sort_pairs<'a>(items: &Vec<(AsciiStr<'a>, usize)>) -> (res: Vec<(AsciiStr<'a>, usize)>)
    requires
        distinct_keys(items@),
    ensures
        sorted_copy(entries(res@), entries(items@)),
{
    let mut out: Vec<(AsciiStr<'a>, usize)> = Vec::new();
    let mut k: usize = 0;
    while k < items.len()
        invariant
            k <= items@.len(),
            distinct_keys(items@),
            sorted_entries(entries(out@)),
            out@.len() == k,
            forall|e: (Seq<u8>, usize)|
                entries(out@).contains(e) <==> entries(items@.take(k as int)).contains(e),
        decreases items@.len() - k,
    {
        let item = items[k];
        let ghost e = (item.0@, item.1);
        let ghost os = entries(out@);
        proof {
            assert forall|m: int| 0 <= m < os.len() implies os[m].0 != item.0@ by {
                assert(os.contains(os[m]));
                let ts = entries(items@.take(k as int));
                assert(ts.contains(os[m]));
                let j = choose|j: int| 0 <= j < ts.len() && ts[j] == os[m];
                assert(ts[j] == (items@[j].0@, items@[j].1));
                assert(items@[j].0@ != items@[k as int].0@);
            }
        }
        let mut pos: usize = 0;
        while pos < out.len()
            invariant
                pos <= out@.len(),
                os == entries(out@),
                forall|m: int| 0 <= m < pos ==> seq_less(#[trigger] os[m].0, item.0@),
            ensures
                pos <= out@.len(),
                forall|m: int| 0 <= m < pos ==> seq_less(#[trigger] os[m].0, item.0@),
                pos < out@.len() ==> !seq_less(os[pos as int].0, item.0@),
            decreases out@.len() - pos,
        {
            if !out[pos].0.is_less_then(&item.0) {
                break;
            }
            pos += 1;
        }
        proof {
            if pos < out@.len() {
                assert(!seq_less(os[pos as int].0, item.0@));
                crate::ascii::lemma_seq_less_total(os[pos as int].0, item.0@);
                assert(seq_less(item.0@, os[pos as int].0));
            }
        }
        out.insert(pos, item);
        proof {
            let ns = entries(out@);
            assert(ns =~= os.insert(pos as int, e));
            assert forall|i: int, j: int| 0 <= i < j < ns.len() implies seq_less(
                #[trigger] ns[i].0,
                #[trigger] ns[j].0,
            ) by {
                if j < pos {
                } else if j == pos {
                    assert(seq_less(os[i].0, item.0@));
                } else if i == pos {
                    if j - 1 > pos {
                        crate::ascii::lemma_seq_less_trans(item.0@, os[pos as int].0, os[j - 1].0);
                    }
                } else if i < pos {
                    assert(seq_less(os[i].0, os[j - 1].0));
                } else {
                    assert(seq_less(os[i - 1].0, os[j - 1].0));
                }
            }
            let ts = entries(items@.take(k as int));
            let ts2 = entries(items@.take(k + 1));
            assert(ts2 =~= ts.push(e));
            assert forall|x: (Seq<u8>, usize)| ns.contains(x) <==> ts2.contains(x) by {
                if ns.contains(x) {
                    let i = choose|i: int| 0 <= i < ns.len() && ns[i] == x;
                    if i < pos {
                        assert(os[i] == x);
                        assert(os.contains(x));
                        let j = choose|j: int| 0 <= j < ts.len() && ts[j] == x;
                        assert(ts2[j] == x);
                    } else if i == pos {
                        assert(ts2[k as int] == x);
                    } else {
                        assert(os[i - 1] == x);
                        assert(os.contains(x));
                        let j = choose|j: int| 0 <= j < ts.len() && ts[j] == x;
                        assert(ts2[j] == x);
                    }
                }
                if ts2.contains(x) {
                    let j = choose|j: int| 0 <= j < ts2.len() && ts2[j] == x;
                    if j == k {
                        assert(ns[pos as int] == x);
                    } else {
                        assert(ts[j] == x);
                        assert(ts.contains(x));
                        assert(os.contains(x));
                        let i = choose|i: int| 0 <= i < os.len() && os[i] == x;
                        if i < pos {
                            assert(ns[i] == os[i]);
                        } else {
                            assert(ns[i + 1] == os[i]);
                        }
                    }
                }
            }
        }
        k += 1;
    }
    proof {
        assert(items@.take(k as int) =~= items@);
    }
    out
}

/// The keys, as bytes, and values of a sequence of byte-string pairs.
pub open spec fn byte_entries<'a>(items: Seq<(&'a [u8], usize)>) -> Seq<(Seq<u8>, usize)> {
    items.map_values(|e: (&'a [u8], usize)| (e.0@, e.1))
}

} // verus!
