//! The builder of the tries of `ZeroTrieSimpleAscii`, `ZeroTriePerfectHash` and
//! `ZeroTrieExtendedCapacity`, with its options.
//!
//! A node over entries that share their first `p` bytes is the value node of a key of
//! exactly `p` bytes (a varint of `crate::varinta` under the top bits `0b100`), then:
//! - for one run of keys with an ASCII byte at `p`, that byte and the node past it;
//! - for one run with a byte of `0x80` or more (allowed with byte spans only), a span: the
//!   number of bytes from `p` on that all keys share, none ends at and none is ASCII (a
//!   varint of `crate::varinta` under the top bits `0b101`), those bytes, and the node past
//!   them;
//! - for several runs, a branch node: a varint of `crate::varint` under the top bits `0b11`
//!   holding `w * 256` plus the number of targets modulo 256, then the target bytes in
//!   increasing order (or, past 15 targets with perfect hashing, the bytes of a
//!   `PerfectByteHashMap` of them, with the targets in its slot order), then the start of
//!   each target's trie but the first in `w + 1` byte layers (the most significant first),
//!   then those tries. `w + 1` is the number of base-256 digits of their total length;
//!   with normal capacity a `w` above 3 is refused.

use crate::builder3::{lemma_run_ready, ready3, runs_at};
use crate::builder::{groups_from, lemma_run_end_at, max_key_len, offset_of};
use crate::bytestr::ByteStr;
use crate::const_util::ConstSlice;
use crate::byte_phf::{perfect, phf_bytes, spec_find, PerfectByteHashMap};
use crate::const_builder::{byte_entries, node_head};
use crate::error::Error;
use crate::lookup::{share_prefix, sorted_entries};
use crate::offsets::{digits256, offset_table};
use crate::varinta::{varint2_bytes, write_varint2};
use crate::varintx::pow256;
use vstd::prelude::*;

verus! {

/// Whether branches with more than 15 targets use a perfect hash.
#[derive(Debug, Clone, Copy, PartialEq, Eq)]
pub enum PhfMode {
    /// Target bytes in increasing order, for a binary search.
    BinaryOnly,
    /// A perfect hash of the target bytes past 15 targets.
    UsePhf,
}

/// Whether keys may hold bytes of `0x80` or more.
#[derive(Debug, Clone, Copy, PartialEq, Eq)]
pub enum AsciiMode {
    /// Keys are ASCII.
    AsciiOnly,
    /// Runs of bytes of `0x80` or more go in spans.
    BinarySpans,
}

/// Whether offsets may take more than four bytes.
#[derive(Debug, Clone, Copy, PartialEq, Eq)]
pub enum CapacityMode {
    /// Branches whose targets take 2^32 bytes or more are refused.
    Normal,
    /// Any size.
    Extended,
}

/// How a trie is built.
#[derive(Debug, Clone, Copy, PartialEq, Eq)]
pub struct ZeroTrieBuilderOptions {
    pub phf_mode: PhfMode,
    pub ascii_mode: AsciiMode,
    pub capacity_mode: CapacityMode,
}

/// A node head: the varint of `v` of `crate::varinta` with `meta` set in its lead byte.
pub open spec fn head6(v: int, meta: u8) -> Seq<u8> {
    varint2_bytes(v).update(0, varint2_bytes(v)[0] | meta)
}

/// The number of bytes from `p` on that all keys of `vs` have, share and that are not
/// ASCII, at most `fuel`.
pub open spec fn span_len(vs: Seq<(Seq<u8>, usize)>, p: int, fuel: nat) -> nat
    decreases fuel,
{
    if fuel == 0 || vs.len() == 0 {
        0
    } else if (forall|k: int| 0 <= k < vs.len() ==> (#[trigger] vs[k].0).len() > p && vs[k].0[p] == vs[0].0[p])
        && vs[0].0[p] >= 128 {
        1 + span_len(vs, p + 1, (fuel - 1) as nat)
    } else {
        0
    }
}

/// A span is no longer than the bytes it may take.
pub proof fn lemma_span_le(vs: Seq<(Seq<u8>, usize)>, p: int, fuel: nat)
    ensures
        span_len(vs, p, fuel) <= fuel,
    decreases fuel,
{
    if fuel > 0 {
        lemma_span_le(vs, p + 1, (fuel - 1) as nat);
    }
}

/// The position of the byte `b` in `keys`.
pub open spec fn pos_in(keys: Seq<u8>, b: u8) -> int {
    choose|i: int| 0 <= i < keys.len() && keys[i] == b
}

/// The trie for the entries `vs`, all of whose keys share their first `p` bytes and are at
/// most `p + fuel` long, or the error that stops it.
pub open spec fn node6(vs: Seq<(Seq<u8>, usize)>, p: int, fuel: nat, opts: ZeroTrieBuilderOptions) -> Result<
    Seq<u8>,
    Error,
>
    decreases fuel, 2nat, 0int,
{
    if vs.len() == 0 {
        Ok(Seq::empty())
    } else if vs[0].0.len() == p {
        match body6(vs.drop_first(), p, fuel, opts) {
            Ok(b) => Ok(head6(vs[0].1 as int, 0x80) + b),
            Err(e) => Err(e),
        }
    } else {
        body6(vs, p, fuel, opts)
    }
}

/// The node for entries whose keys are all longer than `p` bytes.
pub open spec fn body6(vs: Seq<(Seq<u8>, usize)>, p: int, fuel: nat, opts: ZeroTrieBuilderOptions) -> Result<
    Seq<u8>,
    Error,
>
    decreases fuel, 1nat, 0int,
{
    if vs.len() == 0 || fuel == 0 {
        Ok(Seq::empty())
    } else {
        let gs = groups_from(vs, p, 0);
        if gs.len() == 1 {
            let c = gs[0].0;
            if c < 128 {
                match node6(vs, p + 1, (fuel - 1) as nat, opts) {
                    Ok(t) => Ok(seq![c] + t),
                    Err(e) => Err(e),
                }
            } else {
                let l = span_len(vs, p, fuel);
                if l == 0 {
                    Ok(Seq::empty())
                } else {
                    proof {
                        lemma_span_le(vs, p, fuel);
                    }
                    match node6(vs, p + l, (fuel - l) as nat, opts) {
                        Ok(t) => Ok(head6(l as int, 0xA0) + vs[0].0.subrange(p, p + l) + t),
                        Err(e) => Err(e),
                    }
                }
            }
        } else {
            branch6(gs, p + 1, fuel, opts)
        }
    }
}

/// The tries of the runs `gs[0..n]`, built from the last, or the first error met.
pub open spec fn tries6(
    gs: Seq<(u8, Seq<(Seq<u8>, usize)>)>,
    p: int,
    fuel: nat,
    opts: ZeroTrieBuilderOptions,
    n: int,
) -> Result<Seq<Seq<u8>>, Error>
    decreases fuel, 3nat, n,
{
    if n <= 0 || n > gs.len() {
        Ok(Seq::empty())
    } else {
        match node6(gs[n - 1].1, p, fuel, opts) {
            Err(e) => Err(e),
            Ok(t) => match tries6(gs, p, fuel, opts, n - 1) {
                Err(e) => Err(e),
                Ok(ts) => Ok(ts.push(t)),
            },
        }
    }
}

/// Whether a branch over `n` targets uses a perfect hash.
pub open spec fn uses_phf(n: int, opts: ZeroTrieBuilderOptions) -> bool {
    n > 15 && opts.phf_mode == PhfMode::UsePhf
}

/// The branch node over the runs `gs`, their tries laid out past `p` bytes.
pub open spec fn branch6(gs: Seq<(u8, Seq<(Seq<u8>, usize)>)>, p: int, fuel: nat, opts: ZeroTrieBuilderOptions) -> Result<
    Seq<u8>,
    Error,
>
    decreases fuel, 0nat, 0int,
{
    if fuel == 0 {
        Ok(Seq::empty())
    } else {
        match tries6(gs, p, (fuel - 1) as nat, opts, gs.len() as int) {
            Err(e) => Err(e),
            Ok(tries) => branch_bytes6(gs.map_values(|g: (u8, Seq<(Seq<u8>, usize)>)| g.0), tries, opts),
        }
    }
}

/// The branch node over the target bytes `keys`, in increasing order, with their tries:
/// `CouldNotSolvePerfectHash` when a perfect hash is wanted and none is found,
/// `CapacityExceeded` when the offsets need more than four bytes with normal capacity.
pub open spec fn branch_bytes6(keys: Seq<u8>, tries: Seq<Seq<u8>>, opts: ZeroTrieBuilderOptions) -> Result<
    Seq<u8>,
    Error,
> {
    let n = keys.len() as int;
    if uses_phf(n, opts) && spec_find(keys) is None {
        Err(Error::CouldNotSolvePerfectHash)
    } else {
        let table = if uses_phf(n, opts) {
            phf_bytes(keys, spec_find(keys)->Some_0.0, spec_find(keys)->Some_0.1)
        } else {
            keys
        };
        let ordered = if uses_phf(n, opts) {
            Seq::new(n as nat, |s: int| tries[pos_in(keys, table[1 + n + s])])
        } else {
            tries
        };
        let total = ordered.flatten().len();
        let w = digits256(total) - 1;
        if w > 3 && opts.capacity_mode == CapacityMode::Normal {
            Err(Error::CapacityExceeded)
        } else {
            Ok(node_head(w * 256 + n % 256, 0xC0) + table + offset_table(
                Seq::new((n - 1) as nat, |k: int| offset_of(ordered, k + 1)),
                (w + 1) as nat,
            ) + ordered.flatten())
        }
    }
}


/// For a branch over `keys` that uses a perfect hash, the parameters found for them, if
/// any, send the keys to distinct slots.
pub open spec fn phf_found6(keys: Seq<u8>, opts: ZeroTrieBuilderOptions) -> bool {
    uses_phf(keys.len() as int, opts) && spec_find(keys) is Some ==> perfect(
        keys,
        spec_find(keys)->Some_0.0,
        spec_find(keys)->Some_0.1,
    )
}

/// Every branch of the node `node6` lays out for `vs` satisfies `phf_found6`.
pub open spec fn node_phf6(vs: Seq<(Seq<u8>, usize)>, p: int, fuel: nat, opts: ZeroTrieBuilderOptions) -> bool
    decreases fuel, 2nat, 0int,
{
    if vs.len() == 0 {
        true
    } else if vs[0].0.len() == p {
        body_phf6(vs.drop_first(), p, fuel, opts)
    } else {
        body_phf6(vs, p, fuel, opts)
    }
}

/// Every branch of the node `body6` lays out for `vs` satisfies `phf_found6`.
pub open spec fn body_phf6(vs: Seq<(Seq<u8>, usize)>, p: int, fuel: nat, opts: ZeroTrieBuilderOptions) -> bool
    decreases fuel, 1nat, 0int,
{
    if vs.len() == 0 || fuel == 0 {
        true
    } else {
        let gs = groups_from(vs, p, 0);
        if gs.len() == 1 {
            if gs[0].0 < 128 {
                node_phf6(vs, p + 1, (fuel - 1) as nat, opts)
            } else {
                let l = span_len(vs, p, fuel);
                if l == 0 {
                    true
                } else {
                    proof {
                        lemma_span_le(vs, p, fuel);
                    }
                    node_phf6(vs, p + l, (fuel - l) as nat, opts)
                }
            }
        } else {
            branch_phf6(gs, p + 1, fuel, opts)
        }
    }
}

/// Every branch of the tries of the runs `gs[0..n]` satisfies `phf_found6`.
pub open spec fn tries_phf6(
    gs: Seq<(u8, Seq<(Seq<u8>, usize)>)>,
    p: int,
    fuel: nat,
    opts: ZeroTrieBuilderOptions,
    n: int,
) -> bool
    decreases fuel, 3nat, n,
{
    if n <= 0 || n > gs.len() {
        true
    } else {
        node_phf6(gs[n - 1].1, p, fuel, opts) && tries_phf6(gs, p, fuel, opts, n - 1)
    }
}

/// The branch over the runs `gs`, and every branch below it, satisfies `phf_found6`.
pub open spec fn branch_phf6(gs: Seq<(u8, Seq<(Seq<u8>, usize)>)>, p: int, fuel: nat, opts: ZeroTrieBuilderOptions) -> bool
    decreases fuel, 0nat, 0int,
{
    if fuel == 0 {
        true
    } else {
        tries_phf6(gs, p, (fuel - 1) as nat, opts, gs.len() as int) && phf_found6(
            gs.map_values(|g: (u8, Seq<(Seq<u8>, usize)>)| g.0),
            opts,
        )
    }
}

/// `tries_phf6` holds when it holds of each run.
proof fn lemma_tries_phf6(
    gs: Seq<(u8, Seq<(Seq<u8>, usize)>)>,
    p: int,
    fuel: nat,
    opts: ZeroTrieBuilderOptions,
    n: int,
)
    requires
        forall|j: int| 0 <= j < n && j < gs.len() ==> #[trigger] node_phf6(gs[j].1, p, fuel, opts),
    ensures
        tries_phf6(gs, p, fuel, opts, n),
    decreases n,
{
    if n > 0 && n <= gs.len() {
        assert(node_phf6(gs[n - 1].1, p, fuel, opts));
        lemma_tries_phf6(gs, p, fuel, opts, n - 1);
    }
}

/// `dst` with the bytes of `src` after it.
fn append_bytes(dst: &mut Vec<u8>, src: &[u8])
    ensures
        final(dst)@ == old(dst)@ + src@,
{
    let ghost start = dst@;
    let mut i: usize = 0;
    while i < src.len()
        invariant
            i <= src@.len(),
            dst@ == start + src@.take(i as int),
        decreases src@.len() - i,
    {
        dst.push(src[i]);
        proof {
            assert(src@.take(i + 1) =~= src@.take(i as int).push(src@[i as int]));
        }
        i += 1;
    }
    proof {
        assert(src@.take(i as int) =~= src@);
    }
}

/// The head of a value node (`meta` 0x80) or a span (`meta` 0xA0) for `v`.
fn head6_exec(v: usize, meta: u8) -> (res: Vec<u8>)
    ensures
        res@ == head6(v as int, meta),
        res@.len() >= 1,
{
    let mut r = write_varint2(v);
    let b = r[0] | meta;
    r.set(0, b);
    proof {
        assert(r@ =~= head6(v as int, meta));
    }
    r
}

/// The head of a branch node holding `v`.
fn branch_head_exec(v: usize) -> (res: Vec<u8>)
    ensures
        res@ == node_head(v as int, 0xC0),
        res@.len() >= 1,
{
    let (len, arr) = crate::varint::write_varint(v);
    let mut r: Vec<u8> = Vec::new();
    let mut i: usize = 0;
    while i < len
        invariant
            i <= len <= 10,
            r@ == arr@.subrange(0, i as int),
        decreases len - i,
    {
        r.push(arr[i]);
        proof {
            assert(arr@.subrange(0, i + 1) =~= arr@.subrange(0, i as int).push(arr@[i as int]));
        }
        i += 1;
    }
    let b = r[0] | 0xC0;
    r.set(0, b);
    proof {
        assert(r@ =~= node_head(v as int, 0xC0));
    }
    r
}

/// The offsets as integers.
pub open spec fn as_ints(offs: Seq<usize>) -> Seq<int> {
    offs.map_values(|o: usize| o as int)
}

/// The offset table of the offsets `offs` in `layers` byte layers.
fn offset_table_exec(offs: &[usize], layers: usize) -> (res: Vec<u8>)
    requires
        layers <= 8,
    ensures
        res@ == offset_table(as_ints(offs@), layers as nat),
{
    let ghost os = as_ints(offs@);
    let mut res: Vec<u8> = Vec::new();
    let mut d: usize = layers;
    proof {
        assert(res@ + offset_table(os, d as nat) =~= offset_table(os, layers as nat));
    }
    while d > 0
        invariant
            d <= layers <= 8,
            os == as_ints(offs@),
            res@ + offset_table(os, d as nat) == offset_table(os, layers as nat),
        decreases d,
    {
        let dd = d - 1;
        let ghost layer = crate::offsets::offset_layer(os, dd as nat);
        let ghost before = res@;
        let mut k: usize = 0;
        while k < offs.len()
            invariant
                k <= offs@.len(),
                os == as_ints(offs@),
                dd < 8,
                layer == crate::offsets::offset_layer(os, dd as nat),
                res@ == before + layer.take(k as int),
            decreases offs@.len() - k,
        {
            let o = offs[k];
            let mut x = o;
            let mut j: usize = 0;
            while j < dd
                invariant
                    j <= dd,
                    x == o as int / pow256(j as nat),
                decreases dd - j,
            {
                proof {
                    crate::offsets::lemma_pow256_pos(j as nat);
                    vstd::arithmetic::div_mod::lemma_div_denominator(o as int, pow256(j as nat), 256);
                }
                x = x / 256;
                j += 1;
            }
            res.push((x % 256) as u8);
            proof {
                assert(layer[k as int] == ((os[k as int] / pow256(dd as nat)) % 256) as u8);
                assert(layer.take(k + 1) =~= layer.take(k as int).push(layer[k as int]));
            }
            k += 1;
        }
        proof {
            assert(layer.take(k as int) =~= layer);
            assert(offset_table(os, d as nat) == layer + offset_table(os, dd as nat));
            assert(res@ + offset_table(os, dd as nat) =~= before + (layer + offset_table(os, dd as nat)));
        }
        d = dd;
    }
    proof {
        assert(res@ =~= res@ + offset_table(os, 0));
    }
    res
}


/// What a build gives, as bytes.
pub open spec fn view6(r: Result<Vec<u8>, Error>) -> Result<Seq<u8>, Error> {
    match r {
        Ok(v) => Ok(v@),
        Err(e) => Err(e),
    }
}

/// With ASCII only, every key byte is ASCII.
pub open spec fn keys_fit(vs: Seq<(Seq<u8>, usize)>, opts: ZeroTrieBuilderOptions) -> bool {
    opts.ascii_mode == AsciiMode::AsciiOnly ==> forall|k: int|
        0 <= k < vs.len() ==> crate::ascii::all_ascii(#[trigger] vs[k].0)
}

/// All keys are longer than `q` bytes and have the same byte there, which is not ASCII.
pub open spec fn span_at(vs: Seq<(Seq<u8>, usize)>, q: int) -> bool {
    &&& vs.len() > 0
    &&& forall|k: int| 0 <= k < vs.len() ==> (#[trigger] vs[k].0).len() > q && vs[k].0[q] == vs[0].0[q]
    &&& vs[0].0[q] >= 128
}

/// Whether the keys of `items` continue a span at `q`.
fn span_here<'a>(items: &[(&'a [u8], usize)], q: usize) -> (res: bool)
    ensures
        res == span_at(byte_entries(items@), q as int),
{
    let ghost vs = byte_entries(items@);
    if items.len() == 0 {
        return false;
    }
    proof {
        assert(vs[0].0 == items@[0].0@);
    }
    if items[0].0.len() <= q {
        return false;
    }
    let c = items[0].0[q];
    if c < 128 {
        return false;
    }
    let mut k: usize = 0;
    while k < items.len()
        invariant
            k <= items@.len(),
            vs == byte_entries(items@),
            vs.len() > 0,
            vs[0].0.len() > q,
            c == vs[0].0[q as int],
            forall|m: int| 0 <= m < k ==> (#[trigger] vs[m].0).len() > q && vs[m].0[q as int] == c,
        decreases items@.len() - k,
    {
        proof {
            assert(vs[k as int].0 == items@[k as int].0@);
        }
        if items[k].0.len() <= q || items[k].0[q] != c {
            return false;
        }
        k += 1;
    }
    true
}

/// The span found by scanning is the one `span_len` gives.
proof fn lemma_span_len(vs: Seq<(Seq<u8>, usize)>, p: int, fuel: nat, l: nat)
    requires
        forall|q: int| p <= q < p + l ==> #[trigger] span_at(vs, q),
        !span_at(vs, p + l),
        forall|k: int| 0 <= k < vs.len() ==> (#[trigger] vs[k].0).len() <= p + fuel,
    ensures
        span_len(vs, p, fuel) == l,
    decreases l,
{
    if l > 0 {
        assert(span_at(vs, p));
        assert(vs[0].0.len() > p);
        assert(fuel > 0);
        lemma_span_len(vs, p + 1, (fuel - 1) as nat, (l - 1) as nat);
    } else if fuel > 0 && vs.len() > 0 {
        assert(!span_at(vs, p));
    }
}

/// The entries of a stretch of ASCII-only entries are ASCII.
proof fn lemma_fit_sub(vs: Seq<(Seq<u8>, usize)>, opts: ZeroTrieBuilderOptions, s: int, e: int)
    requires
        keys_fit(vs, opts),
        0 <= s <= e <= vs.len(),
    ensures
        keys_fit(vs.subrange(s, e), opts),
{
    if opts.ascii_mode == AsciiMode::AsciiOnly {
        assert forall|k: int| 0 <= k < e - s implies crate::ascii::all_ascii(#[trigger] vs.subrange(s, e)[k].0) by {
            assert(vs.subrange(s, e)[k] == vs[s + k]);
        }
    }
}

/// The node of `node6` for the entries `items`.
fn node6_exec<'a>(
    items: &[(&'a [u8], usize)],
    prefix_len: usize,
    Ghost(pre): Ghost<Seq<u8>>,
    Ghost(fuel): Ghost<nat>,
    opts: ZeroTrieBuilderOptions,
) -> (res: Result<Vec<u8>, Error>)
    requires
        ready3(byte_entries(items@), prefix_len as int, pre, fuel),
        keys_fit(byte_entries(items@), opts),
    ensures
        view6(res) == node6(byte_entries(items@), prefix_len as int, fuel, opts),
        res is Ok ==> node_phf6(byte_entries(items@), prefix_len as int, fuel, opts),
    decreases fuel, 2nat, 0int,
{
    let ghost vs = byte_entries(items@);
    let ghost p = prefix_len as int;
    if items.len() == 0 {
        return Ok(Vec::new());
    }
    proof {
        crate::builder3::reveal_ready3(vs, p, pre, fuel);
        crate::const_builder::lemma_keys_longer(vs, pre);
        assert(vs[0].0 == items@[0].0@);
    }
    let exact = items[0].0.len() == prefix_len;
    let rest = if exact {
        vstd::slice::slice_subrange(items, 1, items.len())
    } else {
        vstd::slice::slice_subrange(items, 0, items.len())
    };
    let ghost rs = byte_entries(rest@);
    proof {
        if exact {
            assert(rs =~= vs.subrange(1, vs.len() as int));
            assert(vs.drop_first() =~= vs.subrange(1, vs.len() as int));
            lemma_fit_sub(vs, opts, 1, vs.len() as int);
        } else {
            assert(rs =~= vs);
        }
        assert forall|k: int| 0 <= k < rs.len() implies (#[trigger] rs[k].0).len() > p by {
            if exact {
                assert(rs[k] == vs[k + 1]);
            } else {
                assert(rs[k] == vs[k]);
                if k == 0 {
                    assert(vs[0].0.len() >= p);
                }
            }
        }
        crate::builder3::lemma_ready_sub(vs, p, pre, fuel, if exact { 1 } else { 0 }, vs.len() as int);
        if !exact {
            assert(vs.subrange(0, vs.len() as int) =~= vs);
        }
    }
    let body = match body6_exec(rest, prefix_len, Ghost(pre), Ghost(fuel), opts) {
        Ok(b) => b,
        Err(e) => {
            return Err(e);
        },
    };
    if exact {
        let mut h = head6_exec(items[0].1, 0x80);
        append_bytes(&mut h, body.as_slice());
        Ok(h)
    } else {
        Ok(body)
    }
}


/// The runs of the entries `items` at byte `prefix_len`: where each starts (and, last,
/// the number of entries) and its byte.
fn find_runs<'a>(items: &[(&'a [u8], usize)], prefix_len: usize) -> (res: (Vec<usize>, Vec<u8>))
    requires
        forall|k: int| 0 <= k < items@.len() ==> (#[trigger] byte_entries(items@)[k].0).len() > prefix_len,
    ensures
        runs_at(byte_entries(items@), prefix_len as int, groups_from(byte_entries(items@), prefix_len as int, 0), res.0@, res.1@),
{
    let ghost vs = byte_entries(items@);
    let ghost p = prefix_len as int;
    let n = items.len();
    let mut starts: Vec<usize> = Vec::new();
    starts.push(0);
    let mut keys: Vec<u8> = Vec::new();
    let ghost mut done: Seq<(u8, Seq<(Seq<u8>, usize)>)> = Seq::empty();
    let mut i: usize = 0;
    while i < n
        invariant
            i <= n == items@.len() == vs.len(),
            vs == byte_entries(items@),
            p == prefix_len,
            forall|k: int| 0 <= k < n ==> (#[trigger] vs[k].0).len() > p,
            done + groups_from(vs, p, i as int) == groups_from(vs, p, 0),
            starts@.len() == done.len() + 1,
            keys@.len() == done.len(),
            starts@[0] == 0,
            starts@[done.len() as int] == i,
            forall|t: int| 0 <= t < done.len() ==> #[trigger] starts@[t] < starts@[t + 1],
            forall|t: int|
                0 <= t < done.len() ==> #[trigger] done[t] == (keys@[t], vs.subrange(
                    starts@[t] as int,
                    starts@[t + 1] as int,
                )),
            forall|t: int, k: int|
                #![trigger keys@[t], vs[k]]
                0 <= t < done.len() && starts@[t] <= k < starts@[t + 1] ==> vs[k].0[p] == keys@[t],
        decreases n - i,
    {
        proof {
            assert(vs[i as int].0 == items@[i as int].0@);
        }
        let c = items[i].0[prefix_len];
        let mut j: usize = i + 1;
        while j < n
            invariant
                i < j <= n == items@.len() == vs.len(),
                vs == byte_entries(items@),
                p == prefix_len,
                forall|k: int| 0 <= k < n ==> (#[trigger] vs[k].0).len() > p,
                c == vs[i as int].0[p],
                forall|k: int| i <= k < j ==> #[trigger] vs[k].0[p] == c,
            ensures
                i < j <= n,
                forall|k: int| i <= k < j ==> #[trigger] vs[k].0[p] == c,
                j < n ==> vs[j as int].0[p] != c,
            decreases n - j,
        {
            proof {
                assert(vs[j as int].0 == items@[j as int].0@);
            }
            if items[j].0[prefix_len] != c {
                break;
            }
            j += 1;
        }
        proof {
            lemma_run_end_at(vs, p, i as int, j as int);
            assert(groups_from(vs, p, i as int) == seq![(c, vs.subrange(i as int, j as int))]
                + groups_from(vs, p, j as int));
            let d2 = done.push((c, vs.subrange(i as int, j as int)));
            assert(d2 + groups_from(vs, p, j as int) =~= done + groups_from(vs, p, i as int));
        }
        let ghost old_starts = starts@;
        let ghost old_keys = keys@;
        let ghost old_done = done;
        starts.push(j);
        keys.push(c);
        proof {
            done = done.push((c, vs.subrange(i as int, j as int)));
            assert forall|t: int| 0 <= t < done.len() implies #[trigger] starts@[t] < starts@[t + 1] by {
                if t < old_done.len() {
                    assert(starts@[t] == old_starts[t] && starts@[t + 1] == old_starts[t + 1]);
                }
            }
            assert forall|t: int| 0 <= t < done.len() implies #[trigger] done[t] == (keys@[t], vs.subrange(
                starts@[t] as int,
                starts@[t + 1] as int,
            )) by {
                if t < old_done.len() {
                    assert(done[t] == old_done[t]);
                    assert(starts@[t] == old_starts[t] && starts@[t + 1] == old_starts[t + 1]);
                }
            }
            assert forall|t: int, k: int|
                #![trigger keys@[t], vs[k]]
                0 <= t < done.len() && starts@[t] <= k < starts@[t + 1] implies vs[k].0[p]
                == keys@[t] by {
                if t < old_done.len() {
                    assert(starts@[t] == old_starts[t] && starts@[t + 1] == old_starts[t + 1]);
                    assert(keys@[t] == old_keys[t]);
                }
            }
        }
        i = j;
    }
    proof {
        assert(groups_from(vs, p, n as int) =~= Seq::<(u8, Seq<(Seq<u8>, usize)>)>::empty());
        assert(done =~= groups_from(vs, p, 0));
        reveal(runs_at);
    }
    (starts, keys)
}


/// The node of `body6` for the entries `items`, all longer than `prefix_len` bytes.
#[verifier::spinoff_prover]
#[verifier::rlimit(60)]
fn body6_exec<'a>(
    items: &[(&'a [u8], usize)],
    prefix_len: usize,
    Ghost(pre): Ghost<Seq<u8>>,
    Ghost(fuel): Ghost<nat>,
    opts: ZeroTrieBuilderOptions,
) -> (res: Result<Vec<u8>, Error>)
    requires
        ready3(byte_entries(items@), prefix_len as int, pre, fuel),
        keys_fit(byte_entries(items@), opts),
        forall|k: int| 0 <= k < items@.len() ==> (#[trigger] byte_entries(items@)[k].0).len() > prefix_len,
    ensures
        view6(res) == body6(byte_entries(items@), prefix_len as int, fuel, opts),
        res is Ok ==> body_phf6(byte_entries(items@), prefix_len as int, fuel, opts),
    decreases fuel, 1nat, 0int,
{
    let ghost vs = byte_entries(items@);
    let ghost p = prefix_len as int;
    let n = items.len();
    if n == 0 {
        return Ok(Vec::new());
    }
    proof {
        crate::builder3::reveal_ready3(vs, p, pre, fuel);
        assert(vs[0].0.len() > p);
        assert(fuel >= 1);
        assert(vs[0].0 == items@[0].0@);
    }
    let l0 = items[0].0.len();
    let (starts, keys) = find_runs(items, prefix_len);
    let ghost gs = groups_from(vs, p, 0);
    proof {
        reveal(runs_at);
    }
    if keys.len() == 1 {
        let c = keys[0];
        proof {
            assert(gs[0] == (keys@[0], vs.subrange(0, vs.len() as int)));
            assert forall|k: int| 0 <= k < vs.len() implies (#[trigger] vs[k].0).len() > p && vs[k].0[p] == c by {
                assert(starts@[0] <= k < starts@[1]);
            }
        }
        if c < 128 {
            proof {
                lemma_run_ready(vs, p, pre, fuel, 0, vs.len() as int, c);
                assert(vs.subrange(0, vs.len() as int) =~= vs);
                assert(prefix_len < vs[0].0.len());
            }
            let child = match node6_exec(items, prefix_len + 1, Ghost(pre.push(c)), Ghost((fuel - 1) as nat), opts) {
                Ok(t) => t,
                Err(e) => {
                    return Err(e);
                },
            };
            let mut r: Vec<u8> = Vec::new();
            r.push(c);
            append_bytes(&mut r, child.as_slice());
            proof {
                assert(r@ =~= seq![c] + child@);
            }
            Ok(r)
        } else {
            let mut q: usize = prefix_len;
            proof {
                assert(span_at(vs, p));
            }
            while span_here(items, q)
                invariant
                    prefix_len <= q,
                    vs == byte_entries(items@),
                    p == prefix_len,
                    forall|r: int| p <= r < q ==> #[trigger] span_at(vs, r),
                    forall|k: int| 0 <= k < vs.len() ==> (#[trigger] vs[k].0).len() <= p + fuel,
                    vs.len() > 0,
                    vs[0].0.len() == l0,
                decreases p + fuel - q,
            {
                proof {
                    assert(vs[0].0.len() > q);
                }
                q = q + 1;
            }
            let ghost l = (q - prefix_len) as nat;
            let ghost pre2 = vs[0].0.take(q as int);
            proof {
                lemma_span_len(vs, p, fuel, l);
                assert(l >= 1);
                assert(span_at(vs, q - 1));
                assert(vs[0].0.len() >= q);
                assert(q - p <= fuel);
                assert(share_prefix(vs, pre2)) by {
                    assert forall|k: int| 0 <= k < vs.len() implies (#[trigger] vs[k].0).len() >= pre2.len()
                        && vs[k].0.take(pre2.len() as int) == pre2 by {
                        assert(span_at(vs, q - 1));
                        assert(vs[k].0.len() > q - 1);
                        assert forall|i: int| 0 <= i < q implies vs[k].0[i] == vs[0].0[i] by {
                            if i < p {
                                assert(vs[k].0.take(p)[i] == pre[i]);
                                assert(vs[0].0.take(p)[i] == pre[i]);
                            } else {
                                assert(span_at(vs, i));
                            }
                        }
                        assert(vs[k].0.take(q as int) =~= pre2);
                    }
                }
                assert(ready3(vs, q as int, pre2, (fuel - l) as nat)) by {
                    reveal(ready3);
                }
            }
            let child = match node6_exec(items, q, Ghost(pre2), Ghost((fuel - l) as nat), opts) {
                Ok(t) => t,
                Err(e) => {
                    return Err(e);
                },
            };
            let mut r = head6_exec(q - prefix_len, 0xA0);
            let span = vstd::slice::slice_subrange(items[0].0, prefix_len, q);
            append_bytes(&mut r, span);
            append_bytes(&mut r, child.as_slice());
            proof {
                assert(r@ =~= head6(l as int, 0xA0) + vs[0].0.subrange(p, p + l) + child@);
            }
            Ok(r)
        }
    } else {
        branch6_exec(items, &starts, &keys, prefix_len, Ghost(pre), Ghost(fuel), opts, Ghost(gs))
    }
}


/// Run `u` of the runs laid out in the arrays of a builder is the stretch of entries
/// between its starts.
proof fn lemma_run_slice_is_group(
    vs: Seq<(Seq<u8>, usize)>,
    p: int,
    gs: Seq<(u8, Seq<(Seq<u8>, usize)>)>,
    starts: Seq<usize>,
    keys: Seq<u8>,
    u: int,
)
    requires
        runs_at(vs, p, gs, starts, keys),
        0 <= u < gs.len(),
    ensures
        gs[u].1 == vs.subrange(starts[u] as int, starts[u + 1] as int),
{
    reveal(runs_at);
}

/// The branch node of `branch6` over the runs of the entries `items` at `prefix_len`.
#[verifier::spinoff_prover]
#[verifier::rlimit(100)]
fn branch6_exec<'a>(
    items: &[(&'a [u8], usize)],
    starts: &Vec<usize>,
    keys: &Vec<u8>,
    prefix_len: usize,
    Ghost(pre): Ghost<Seq<u8>>,
    Ghost(fuel): Ghost<nat>,
    opts: ZeroTrieBuilderOptions,
    Ghost(gs): Ghost<Seq<(u8, Seq<(Seq<u8>, usize)>)>>,
) -> (res: Result<Vec<u8>, Error>)
    requires
        fuel >= 1,
        ready3(byte_entries(items@), prefix_len as int, pre, fuel),
        keys_fit(byte_entries(items@), opts),
        forall|k: int| 0 <= k < items@.len() ==> (#[trigger] byte_entries(items@)[k].0).len() > prefix_len,
        gs == groups_from(byte_entries(items@), prefix_len as int, 0),
        runs_at(byte_entries(items@), prefix_len as int, gs, starts@, keys@),
        gs.len() >= 2,
    ensures
        view6(res) == branch6(gs, prefix_len + 1, fuel, opts),
        res is Ok ==> branch_phf6(gs, prefix_len + 1, fuel, opts),
    decreases fuel, 0nat, 1int,
{
    let ghost vs = byte_entries(items@);
    let ghost p = prefix_len as int;
    let ghost p1 = p + 1;
    let ghost f1 = (fuel - 1) as nat;
    let n = keys.len();
    proof {
        reveal(runs_at);
        crate::builder3::reveal_ready3(vs, p, pre, fuel);
        crate::builder3::lemma_groups_order(vs, p, pre, 0);
        assert(gs.map_values(|g: (u8, Seq<(Seq<u8>, usize)>)| g.0) =~= keys@) by {
            assert forall|t: int| 0 <= t < gs.len() implies #[trigger] gs[t].0 == keys@[t] by {
                assert(gs[t] == (keys@[t], vs.subrange(starts@[t] as int, starts@[t + 1] as int)));
            }
        }
    }
    let mut kids: Vec<Vec<u8>> = Vec::new();
    let ghost mut built: Seq<Seq<u8>> = Seq::empty();
    let mut t: usize = n;
    while t > 0
        invariant
            t <= n == gs.len() == keys@.len(),
            kids@.len() == built.len() == n - t,
            forall|i: int| 0 <= i < built.len() ==> #[trigger] kids@[i]@ == built[i],
            forall|i: int| 0 <= i < built.len() ==> (#[trigger] built[i]).len() >= 1,
            tries6(gs, p1, f1, opts, n as int) == (match tries6(gs, p1, f1, opts, t as int) {
                Err(e) => Err(e),
                Ok(ts) => Ok(ts + built),
            }),
            forall|j: int| t <= j < n ==> #[trigger] node_phf6(gs[j].1, p1, f1, opts),
            fuel >= 1,
            f1 == fuel - 1,
            p1 == prefix_len + 1,
            ready3(vs, p, pre, fuel),
            keys_fit(vs, opts),
            forall|k: int| 0 <= k < items@.len() ==> (#[trigger] vs[k].0).len() > prefix_len,
            vs == byte_entries(items@),
            runs_at(vs, p, gs, starts@, keys@),
            p == prefix_len,
        decreases t,
    {
        let u = t - 1;
        proof {
            crate::builder3::lemma_run_slice(vs, p, pre, fuel, gs, starts@, keys@, u as int);
        }
        let s0 = starts[u];
        let e0 = starts[u + 1];
        let child_items = vstd::slice::slice_subrange(items, s0, e0);
        proof {
            assert(byte_entries(child_items@) =~= vs.subrange(s0 as int, e0 as int));
            lemma_fit_sub(vs, opts, s0 as int, e0 as int);
            assert(vs[s0 as int].0 == items@[s0 as int].0@);
        }
        let _ls = items[s0].0.len();
        let r = node6_exec(child_items, prefix_len + 1, Ghost(pre.push(keys@[u as int])), Ghost(f1), opts);
        proof {
            lemma_run_slice_is_group(vs, p, gs, starts@, keys@, u as int);
        }
        let child = match r {
            Ok(c) => c,
            Err(e) => {
                proof {
                    assert(tries6(gs, p1, f1, opts, t as int) == Err::<Seq<Seq<u8>>, Error>(e));
                }
                return Err(e);
            },
        };
        let ghost old_built = built;
        let ghost old_kids = kids@;
        proof {
            lemma_node6_nonempty(vs.subrange(s0 as int, e0 as int), p1, pre.push(keys@[u as int]), f1, opts);
        }
        kids.insert(0, child);
        proof {
            built = seq![child@] + old_built;
            assert forall|i: int| 0 <= i < built.len() implies (#[trigger] built[i]).len() >= 1 by {
                if i > 0 {
                    assert(built[i] == old_built[i - 1]);
                }
            }
            assert forall|i: int| 0 <= i < built.len() implies #[trigger] kids@[i]@ == built[i] by {
                if i > 0 {
                    assert(kids@[i] == old_kids[i - 1]);
                }
            }
            match tries6(gs, p1, f1, opts, u as int) {
                Err(e) => {},
                Ok(ts) => {
                    assert(ts.push(child@) + old_built =~= ts + built);
                },
            }
        }
        t = u;
    }
    let ghost tries = built;
    proof {
        assert(tries6(gs, p1, f1, opts, 0) == Ok::<Seq<Seq<u8>>, Error>(Seq::empty()));
        assert(Seq::<Seq<u8>>::empty() + built =~= built);
        assert(tries6(gs, p1, f1, opts, n as int) == Ok::<Seq<Seq<u8>>, Error>(tries));
        assert(branch6(gs, p1, fuel, opts) == branch_bytes6(keys@, tries, opts));
        assert forall|i: int, j: int| 0 <= i < j < keys@.len() implies #[trigger] keys@[i] < #[trigger] keys@[j] by {
            assert(gs[i].0 == keys@[i] && gs[j].0 == keys@[j]);
        }
        lemma_increasing_len(keys@);
        lemma_tries_phf6(gs, p1, f1, opts, n as int);
    }
    branch_finish(&kids, keys, opts, Ghost(tries))
}

/// The branch node over the target bytes `keys`, increasing, and their tries `kids`.
#[verifier::spinoff_prover]
#[verifier::rlimit(100)]
fn branch_finish(kids: &Vec<Vec<u8>>, keys: &Vec<u8>, opts: ZeroTrieBuilderOptions, Ghost(tries): Ghost<Seq<Seq<u8>>>) -> (res: Result<
    Vec<u8>,
    Error,
>)
    requires
        2 <= keys@.len() <= 256,
        kids@.len() == keys@.len() == tries.len(),
        forall|i: int| 0 <= i < tries.len() ==> #[trigger] kids@[i]@ == tries[i],
        forall|i: int| 0 <= i < tries.len() ==> (#[trigger] tries[i]).len() >= 1,
        forall|i: int, j: int| 0 <= i < j < keys@.len() ==> #[trigger] keys@[i] < #[trigger] keys@[j],
    ensures
        view6(res) == branch_bytes6(keys@, tries, opts),
        res is Ok ==> phf_found6(keys@, opts),
{
    let n = keys.len();
    let ghost ni = n as int;
    let use_phf = n > 15 && matches!(opts.phf_mode, PhfMode::UsePhf);
    proof {
        assert(use_phf == uses_phf(ni, opts));
    }
    let mut table: Vec<u8> = Vec::new();
    if use_phf {
        match PerfectByteHashMap::try_new(keys.as_slice()) {
            Ok(m) => {
                append_bytes(&mut table, m.as_bytes());
                proof {
                    let f = spec_find(keys@)->Some_0;
                    let qq = m@.subrange(1, ni + 1);
                    assert(m@ == phf_bytes(keys@, f.0, f.1));
                    crate::byte_phf::lemma_permuted_len(keys@, f.0, f.1, ni);
                    assert(f.1.len() == ni);
                    assert(m@[0] == f.0);
                    assert(f.1 =~= qq) by {
                        assert forall|x: int| 0 <= x < ni implies f.1[x] == qq[x] by {
                            assert(m@[1 + x] == f.1[x]);
                        }
                    }
                    assert(perfect(keys@, f.0, f.1));
                }
            },
            Err(_) => {
                return Err(Error::CouldNotSolvePerfectHash);
            },
        }
    } else {
        append_bytes(&mut table, keys.as_slice());
    }
    let ghost tbl = if uses_phf(ni, opts) {
        phf_bytes(keys@, spec_find(keys@)->Some_0.0, spec_find(keys@)->Some_0.1)
    } else {
        keys@
    };
    let ghost ordered = if uses_phf(ni, opts) {
        Seq::new(n as nat, |s: int| tries[pos_in(keys@, tbl[1 + ni + s])])
    } else {
        tries
    };
    proof {
        assert(table@ =~= tbl);
        if use_phf {
            let f = spec_find(keys@)->Some_0;
            crate::byte_phf::lemma_phf_slots_onto(keys@, f.0, f.1);
        }
    }
    let mut flat: Vec<u8> = Vec::new();
    let mut offs: Vec<usize> = Vec::new();
    let mut s: usize = 0;
    proof {
        assert(ordered.take(0).flatten() =~= Seq::<u8>::empty());
    }
    while s < n
        invariant
            s <= n == keys@.len() == kids@.len() == tries.len() == ordered.len(),
            2 <= n <= 256,
            ni == n,
            table@ == tbl,
            use_phf == uses_phf(ni, opts),
            forall|i: int| 0 <= i < tries.len() ==> #[trigger] kids@[i]@ == tries[i],
            forall|i: int, j: int| 0 <= i < j < keys@.len() ==> #[trigger] keys@[i] < #[trigger] keys@[j],
            use_phf ==> tbl.len() == 2 * ni + 1,
            use_phf ==> forall|x: int| 0 <= x < ni ==> keys@.contains(#[trigger] tbl[1 + ni + x]),
            ordered == (if uses_phf(ni, opts) {
                Seq::new(n as nat, |x: int| tries[pos_in(keys@, tbl[1 + ni + x])])
            } else {
                tries
            }),
            flat@ == ordered.take(s as int).flatten(),
            offs@.len() == (if s < n { s as int } else { n - 1 }),
            forall|k: int| 0 <= k < offs@.len() ==> #[trigger] offs@[k] == offset_of(ordered, k + 1),
        decreases n - s,
    {
        let mut idx: usize = s;
        if use_phf {
            let b = table[1 + n + s];
            proof {
                assert(keys@.contains(tbl[1 + ni + s]));
            }
            let mut i: usize = 0;
            while i < n && keys[i] != b
                invariant
                    i <= n == keys@.len(),
                    keys@.contains(b),
                    forall|m: int| 0 <= m < i ==> keys@[m] != b,
                decreases n - i,
            {
                i += 1;
            }
            proof {
                if i == n {
                    let m = choose|m: int| 0 <= m < keys@.len() && keys@[m] == b;
                    assert(keys@[m] != b);
                }
                let q = pos_in(keys@, b);
                assert(0 <= q < ni && keys@[q] == b);
                if q < i {
                    assert(keys@[q] < keys@[i as int]);
                } else if q > i {
                    assert(keys@[i as int] < keys@[q]);
                }
                assert(ordered[s as int] == tries[i as int]);
            }
            idx = i;
        }
        proof {
            assert(ordered[s as int] == kids@[idx as int]@);
        }
        append_bytes(&mut flat, kids[idx].as_slice());
        proof {
            assert(ordered.take(s + 1) =~= ordered.take(s as int).push(ordered[s as int]));
            ordered.take(s as int).lemma_flatten_push(ordered[s as int]);
        }
        if s + 1 < n {
            let ghost old_offs = offs@;
            offs.push(flat.len());
            proof {
                assert forall|k: int| 0 <= k < offs@.len() implies #[trigger] offs@[k] == offset_of(ordered, k + 1) by {
                    if k < old_offs.len() {
                        assert(offs@[k] == old_offs[k]);
                    }
                }
            }
        }
        s += 1;
    }
    proof {
        assert(ordered.take(n as int) =~= ordered);
        assert(ordered[0].len() >= 1);
        assert(ordered.flatten().len() >= 1) by {
            crate::builder::lemma_offset_step(ordered, 0);
            crate::builder::lemma_offset_le_total(ordered, 1);
            assert(ordered.take(0).flatten().len() == 0);
        }
    }
    let total = flat.len();
    let width = crate::const_builder::byte_width(total);
    proof {
        lemma_digits_small(total as nat);
    }
    let w = width - 1;
    if w > 3 && matches!(opts.capacity_mode, CapacityMode::Normal) {
        return Err(Error::CapacityExceeded);
    }
    let mut res = branch_head_exec(w * 256 + n % 256);
    append_bytes(&mut res, table.as_slice());
    let tab = offset_table_exec(offs.as_slice(), width);
    append_bytes(&mut res, tab.as_slice());
    append_bytes(&mut res, flat.as_slice());
    proof {
        assert(as_ints(offs@) =~= Seq::new((ni - 1) as nat, |k: int| offset_of(ordered, k + 1)));
        assert(res@ =~= node_head(w * 256 + ni % 256, 0xC0) + tbl + offset_table(
            Seq::new((ni - 1) as nat, |k: int| offset_of(ordered, k + 1)),
            (w + 1) as nat,
        ) + ordered.flatten());
    }
    Ok(res)
}

/// A `usize` has at most eight base-256 digits.
proof fn lemma_digits_small(t: nat)
    requires
        1 <= t <= usize::MAX,
    ensures
        1 <= digits256(t) <= 8,
{
    crate::offsets::lemma_digits_fit(t);
    crate::offsets::lemma_digits256(t);
    crate::varint::lemma_usize_bounds();
    if digits256(t) > 8 {
        crate::offsets::lemma_pow256_mono(9, digits256(t));
        reveal_with_fuel(pow256, 10);
    }
}


/// A built node over at least one entry is not empty.
proof fn lemma_node6_nonempty(vs: Seq<(Seq<u8>, usize)>, p: int, pre: Seq<u8>, fuel: nat, opts: ZeroTrieBuilderOptions)
    requires
        vs.len() > 0,
        ready3(vs, p, pre, fuel),
    ensures
        node6(vs, p, fuel, opts) matches Ok(b) ==> b.len() >= 1,
{
    crate::builder3::reveal_ready3(vs, p, pre, fuel);
    crate::const_builder::lemma_keys_longer(vs, pre);
    if vs[0].0.len() == p {
        let h = head6(vs[0].1 as int, 0x80);
        assert(varint2_bytes(vs[0].1 as int).len() >= 1);
        assert(h.len() >= 1);
        match body6(vs.drop_first(), p, fuel, opts) {
            Ok(b) => {
                assert(node6(vs, p, fuel, opts) == Ok::<Seq<u8>, Error>(h + b));
            },
            Err(e) => {},
        }
    } else {
        assert(vs[0].0.len() > p);
        assert(fuel >= 1);
        assert(node6(vs, p, fuel, opts) == body6(vs, p, fuel, opts));
        let gs = groups_from(vs, p, 0);
        assert(gs.len() >= 1);
        if gs.len() == 1 {
            crate::const_builder::lemma_single_group(vs, p);
            if gs[0].0 >= 128 {
                assert forall|k: int| 0 <= k < vs.len() implies (#[trigger] vs[k].0).len() > p && vs[k].0[p] == vs[0].0[p] by {
                    if k > 0 {
                        assert(vs[k].0.len() > p);
                    }
                }
                let l = span_len(vs, p, fuel);
                assert(l >= 1);
                assert(varint2_bytes(l as int).len() >= 1);
                assert(head6(l as int, 0xA0).len() >= 1);
            }
        } else {
            assert(body6(vs, p, fuel, opts) == branch6(gs, p + 1, fuel, opts));
            match tries6(gs, p + 1, (fuel - 1) as nat, opts, gs.len() as int) {
                Ok(tries) => {
                    let keys = gs.map_values(|g: (u8, Seq<(Seq<u8>, usize)>)| g.0);
                    assert(branch6(gs, p + 1, fuel, opts) == branch_bytes6(keys, tries, opts));
                    assert(forall|v: int| #[trigger] crate::varint::varint_bytes(v).len() >= 1);
                },
                Err(e) => {},
            }
        }
    }
}

/// Strictly increasing bytes number at most 256.
proof fn lemma_increasing_len(keys: Seq<u8>)
    requires
        forall|i: int, j: int| 0 <= i < j < keys.len() ==> #[trigger] keys[i] < #[trigger] keys[j],
    ensures
        keys.len() <= 256,
{
    if keys.len() > 256 {
        assert forall|i: int| 0 <= i < keys.len() implies #[trigger] keys[i] >= i by {
            lemma_increasing_at(keys, i);
        }
        assert(keys[256] >= 256);
    }
}

proof fn lemma_increasing_at(keys: Seq<u8>, i: int)
    requires
        forall|a: int, b: int| 0 <= a < b < keys.len() ==> #[trigger] keys[a] < #[trigger] keys[b],
        0 <= i < keys.len(),
    ensures
        keys[i] >= i,
    decreases i,
{
    if i > 0 {
        lemma_increasing_at(keys, i - 1);
        assert(keys[i - 1] < keys[i]);
    }
}


/// The errors that building can end in: `CouldNotSolvePerfectHash`, and
/// `CapacityExceeded` with normal capacity only.
pub open spec fn build_error(e: Error, opts: ZeroTrieBuilderOptions) -> bool {
    e == Error::CouldNotSolvePerfectHash || (e == Error::CapacityExceeded && opts.capacity_mode
        == CapacityMode::Normal)
}

/// Building a node ends, if in an error, in one that `build_error` allows: with extended
/// capacity never in `CapacityExceeded`.
pub proof fn lemma_node6_errors(vs: Seq<(Seq<u8>, usize)>, p: int, fuel: nat, opts: ZeroTrieBuilderOptions)
    ensures
        node6(vs, p, fuel, opts) matches Err(e) ==> build_error(e, opts),
    decreases fuel, 2nat, 0int,
{
    if vs.len() == 0 {
    } else if vs[0].0.len() == p {
        lemma_body6_errors(vs.drop_first(), p, fuel, opts);
    } else {
        lemma_body6_errors(vs, p, fuel, opts);
    }
}

/// `body6` ends, if in an error, in one that `build_error` allows.
proof fn lemma_body6_errors(vs: Seq<(Seq<u8>, usize)>, p: int, fuel: nat, opts: ZeroTrieBuilderOptions)
    ensures
        body6(vs, p, fuel, opts) matches Err(e) ==> build_error(e, opts),
    decreases fuel, 1nat, 0int,
{
    if vs.len() == 0 || fuel == 0 {
    } else {
        let gs = groups_from(vs, p, 0);
        if gs.len() == 1 {
            let c = gs[0].0;
            if c < 128 {
                lemma_node6_errors(vs, p + 1, (fuel - 1) as nat, opts);
            } else {
                let l = span_len(vs, p, fuel);
                if l != 0 {
                    lemma_span_le(vs, p, fuel);
                    lemma_node6_errors(vs, p + l, (fuel - l) as nat, opts);
                }
            }
        } else {
            lemma_branch6_errors(gs, p + 1, fuel, opts);
        }
    }
}

/// `tries6` ends, if in an error, in one that `build_error` allows.
proof fn lemma_tries6_errors(
    gs: Seq<(u8, Seq<(Seq<u8>, usize)>)>,
    p: int,
    fuel: nat,
    opts: ZeroTrieBuilderOptions,
    n: int,
)
    ensures
        tries6(gs, p, fuel, opts, n) matches Err(e) ==> build_error(e, opts),
    decreases fuel, 3nat, n,
{
    if n <= 0 || n > gs.len() {
    } else {
        lemma_node6_errors(gs[n - 1].1, p, fuel, opts);
        lemma_tries6_errors(gs, p, fuel, opts, n - 1);
    }
}

/// `branch6` ends, if in an error, in one that `build_error` allows.
proof fn lemma_branch6_errors(
    gs: Seq<(u8, Seq<(Seq<u8>, usize)>)>,
    p: int,
    fuel: nat,
    opts: ZeroTrieBuilderOptions,
)
    ensures
        branch6(gs, p, fuel, opts) matches Err(e) ==> build_error(e, opts),
    decreases fuel, 0nat, 0int,
{
    if fuel != 0 {
        lemma_tries6_errors(gs, p, (fuel - 1) as nat, opts, gs.len() as int);
    }
}


/// Building a trie ends, if in an error, in `CouldNotSolvePerfectHash`, or in
/// `CapacityExceeded` with normal capacity: never in `CapacityExceeded` with extended
/// capacity.
pub proof fn lemma_trie6_errors(vs: Seq<(Seq<u8>, usize)>, opts: ZeroTrieBuilderOptions)
    ensures
        trie6_bytes(vs, opts) matches Err(e) ==> build_error(e, opts),
{
    lemma_node6_errors(vs, 0, max_key_len(vs) + 1, opts);
}

/// The keys, as bytes, and values of byte-string pairs.
pub open spec fn bytestr_entries<'a>(items: Seq<(ByteStr<'a>, usize)>) -> Seq<(Seq<u8>, usize)> {
    items.map_values(|e: (ByteStr<'a>, usize)| (e.0@, e.1))
}

/// The trie of the entries `vs` under the options `opts`, or the error that stops it.
pub open spec fn trie6_bytes(vs: Seq<(Seq<u8>, usize)>, opts: ZeroTrieBuilderOptions) -> Result<Seq<u8>, Error> {
    node6(vs, 0, max_key_len(vs) + 1, opts)
}

/// Builds `trie6_bytes` for pairs whose keys are in strictly increasing order.
pub(crate) fn build6<'a>(items: &[(&'a [u8], usize)], opts: ZeroTrieBuilderOptions) -> (res: Result<Vec<u8>, Error>)
    requires
        sorted_entries(byte_entries(items@)),
        keys_fit(byte_entries(items@), opts),
    ensures
        view6(res) == trie6_bytes(byte_entries(items@), opts),
        res is Ok ==> node_phf6(byte_entries(items@), 0, max_key_len(byte_entries(items@)) + 1, opts),
{
    let ghost vs = byte_entries(items@);
    proof {
        crate::const_builder::lemma_max_key_len(vs);
        assert(ready3(vs, 0, Seq::empty(), max_key_len(vs) + 1)) by {
            reveal(ready3);
            assert forall|i: int| 0 <= i < vs.len() implies (#[trigger] vs[i].0).len() >= 0
                && vs[i].0.take(0) == Seq::<u8>::empty() by {
                assert(vs[i].0.take(0) =~= Seq::<u8>::empty());
            }
        }
    }
    node6_exec(items, 0, Ghost(Seq::empty()), Ghost(max_key_len(vs) + 1), opts)
}

/// The pairs with their keys as byte slices.
fn as_byte_pairs<'a>(items: ConstSlice<'_, (ByteStr<'a>, usize)>) -> (res: Vec<(&'a [u8], usize)>)
    requires
        items.spec_wf(),
    ensures
        byte_entries(res@) == bytestr_entries(items@),
{
    let slice = items.as_slice();
    let mut res: Vec<(&'a [u8], usize)> = Vec::new();
    let mut i: usize = 0;
    while i < slice.len()
        invariant
            i <= slice@.len(),
            slice@ == items@,
            byte_entries(res@) == bytestr_entries(slice@).take(i as int),
        decreases slice@.len() - i,
    {
        let pair = slice[i];
        let ghost before = res@;
        res.push((pair.0.as_bytes(), pair.1));
        proof {
            assert(byte_entries(res@) =~= byte_entries(before).push((pair.0@, pair.1)));
            assert(bytestr_entries(slice@).take(i + 1) =~= bytestr_entries(slice@).take(i as int).push(
                bytestr_entries(slice@)[i as int],
            ));
        }
        i += 1;
    }
    proof {
        assert(bytestr_entries(slice@).take(i as int) =~= bytestr_entries(slice@));
    }
    res
}

/// A builder of the tries of `ZeroTrieSimpleAscii`, `ZeroTriePerfectHash` and
/// `ZeroTrieExtendedCapacity`.
pub struct AsciiTrieBuilder6 {
    data: Vec<u8>,
    options: ZeroTrieBuilderOptions,
}

impl AsciiTrieBuilder6 {
    /// The bytes built.
    pub closed spec fn view(&self) -> Seq<u8> {
        self.data@
    }

    /// The options the builder builds with.
    pub closed spec fn options(&self) -> ZeroTrieBuilderOptions {
        self.options
    }

    /// A copy of the bytes built.
    pub fn to_bytes(&self) -> (res: Vec<u8>)
        ensures
            res@ == self@,
    {
        let mut r: Vec<u8> = Vec::new();
        append_bytes(&mut r, self.data.as_slice());
        proof {
            assert(r@ =~= self@);
        }
        r
    }

    /// An empty builder with the options `options`.
    pub fn new(options: ZeroTrieBuilderOptions) -> (res: Self)
        ensures
            res@ == Seq::<u8>::empty(),
            res.options() == options,
    {
        AsciiTrieBuilder6 { data: Vec::new(), options }
    }

    /// The builder holding the trie of the pairs `items`, whose keys are in strictly
    /// increasing order (and ASCII with `AsciiOnly`), or the error that stops it:
    /// `CouldNotSolvePerfectHash` or `CapacityExceeded`.
    pub fn from_sorted_const_tuple_slice<'a>(
        items: ConstSlice<'_, (ByteStr<'a>, usize)>,
        options: ZeroTrieBuilderOptions,
    ) -> (res: Result<Self, Error>)
        requires
            items.spec_wf(),
            sorted_entries(bytestr_entries(items@)),
            keys_fit(bytestr_entries(items@), options),
        ensures
            match res {
                Ok(b) => trie6_bytes(bytestr_entries(items@), options) == Ok::<Seq<u8>, Error>(b@)
                    && b.options() == options,
                Err(e) => trie6_bytes(bytestr_entries(items@), options) == Err::<Seq<u8>, Error>(e),
            },
            res matches Ok(b) ==> forall|q: Seq<u8>|
                #[trigger] crate::reader6::spec_get6(b@, q, crate::lookup6::phf_flag(options))
                    == crate::lookup::find_value(bytestr_entries(items@), q),
    {
        let mut result = Self::new(options);
        match result.create(items) {
            Ok(_) => Ok(result),
            Err(e) => Err(e),
        }
    }

    /// Lays out the trie of the pairs `items` in the empty builder; returns its size, or the
    /// error that stops it.
    fn create<'a>(&mut self, items: ConstSlice<'_, (ByteStr<'a>, usize)>) -> (res: Result<usize, Error>)
        requires
            items.spec_wf(),
            sorted_entries(bytestr_entries(items@)),
            keys_fit(bytestr_entries(items@), old(self).options()),
        ensures
            final(self).options() == old(self).options(),
            match res {
                Ok(n) => trie6_bytes(bytestr_entries(items@), old(self).options()) == Ok::<Seq<u8>, Error>(final(self)@)
                    && n == final(self)@.len(),
                Err(e) => trie6_bytes(bytestr_entries(items@), old(self).options()) == Err::<Seq<u8>, Error>(e),
            },
            res is Ok ==> forall|q: Seq<u8>|
                #[trigger] crate::reader6::spec_get6(
                    final(self)@,
                    q,
                    crate::lookup6::phf_flag(old(self).options()),
                ) == crate::lookup::find_value(bytestr_entries(items@), q),
    {
        let pairs = as_byte_pairs(items);
        match build6(pairs.as_slice(), self.options) {
            Ok(bytes) => {
                let blen = bytes.len();
                self.data = bytes;
                proof {
                    let vs = bytestr_entries(items@);
                    assert(self.data@.len() == blen);
                    assert forall|q: Seq<u8>| #[trigger] crate::reader6::spec_get6(
                        self.data@,
                        q,
                        crate::lookup6::phf_flag(self.options),
                    ) == crate::lookup::find_value(vs, q) by {
                        crate::lookup6::lemma_trie6_holds_exactly(vs, self.options, q);
                    }
                }
                Ok(self.data.len())
            },
            Err(e) => Err(e),
        }
    }
}

} // verus!
