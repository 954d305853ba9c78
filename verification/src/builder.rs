//! A builder that lays out a trie of ASCII keys, as `reader::get` reads it, from keys
//! sorted in strictly increasing order.
//!
//! A value node is one byte `0b100vvvvv` (a value below 32); a branch node is one byte
//! `0b110nnnnn` (`n` targets, below 32), then the `n` target bytes in order, then one
//! offset byte per target, then the targets' tries one after the other.

use crate::ascii::{all_ascii, seq_less, AsciiByte, AsciiStr};
use crate::trie::AsciiTrie;
use std::collections::VecDeque;
use vstd::prelude::*;

verus! {

/// The keys, as bytes, and values of a slice of pairs.
pub open spec fn entries<'a>(values: Seq<(AsciiStr<'a>, usize)>) -> Seq<(Seq<u8>, usize)> {
    values.map_values(|e: (AsciiStr<'a>, usize)| (e.0@, e.1))
}

/// The index just past the run of entries from `i` on whose keys have the same byte at
/// `p`.
pub open spec fn run_end(vs: Seq<(Seq<u8>, usize)>, p: int, i: int) -> int
    decreases vs.len() - i,
{
    if i + 1 < vs.len() && vs[i + 1].0[p] == vs[i].0[p] {
        run_end(vs, p, i + 1)
    } else {
        i + 1
    }
}

pub proof fn lemma_run_end(vs: Seq<(Seq<u8>, usize)>, p: int, i: int)
    requires
        0 <= i < vs.len(),
    ensures
        i < run_end(vs, p, i) <= vs.len(),
        forall|k: int| i <= k < run_end(vs, p, i) ==> #[trigger] vs[k].0[p] == vs[i].0[p],
        run_end(vs, p, i) < vs.len() ==> vs[run_end(vs, p, i)].0[p] != vs[i].0[p],
    decreases vs.len() - i,
{
    if i + 1 < vs.len() && vs[i + 1].0[p] == vs[i].0[p] {
        lemma_run_end(vs, p, i + 1);
    }
}

/// The entries from `i` on, cut into runs whose keys have the same byte at `p`, each run
/// with that byte.
pub open spec fn groups_from(vs: Seq<(Seq<u8>, usize)>, p: int, i: int) -> Seq<
    (u8, Seq<(Seq<u8>, usize)>),
>
    decreases vs.len() - i,
{
    if i < 0 || i >= vs.len() {
        Seq::empty()
    } else {
        let e = run_end(vs, p, i);
        proof {
            lemma_run_end(vs, p, i);
        }
        seq![(vs[i].0[p], vs.subrange(i, e))] + groups_from(vs, p, e)
    }
}

/// The length of the longest key.
pub open spec fn max_key_len(vs: Seq<(Seq<u8>, usize)>) -> nat
    decreases vs.len(),
{
    if vs.len() == 0 {
        0
    } else {
        let m = max_key_len(vs.drop_first());
        if vs[0].0.len() > m {
            vs[0].0.len()
        } else {
            m
        }
    }
}

/// The byte of a value node for a value below 32.
pub open spec fn value_byte(v: usize) -> u8 {
    (128 + v) as u8
}

/// The first byte of a branch node with `n` targets, for `n` below 32.
pub open spec fn branch_header(n: int) -> u8 {
    (192 + n) as u8
}

/// Where target `k` starts among the targets' tries laid end to end.
pub open spec fn offset_of(tries: Seq<Seq<u8>>, k: int) -> int {
    tries.take(k).flatten().len() as int
}

/// A branch node over the target bytes `keys` and their tries.
pub open spec fn branch_bytes(keys: Seq<u8>, tries: Seq<Seq<u8>>) -> Seq<u8> {
    seq![branch_header(keys.len() as int)] + keys + Seq::new(
        tries.len(),
        |k: int| offset_of(tries, k) as u8,
    ) + tries.flatten()
}

/// A branch node over `tries` can be written: fewer than 32 targets, at most `limit`
/// bytes of tries, and each target's start fits in a byte.
pub open spec fn branch_fits(tries: Seq<Seq<u8>>, limit: int) -> bool {
    &&& tries.len() <= 31
    &&& tries.flatten().len() <= limit
    &&& forall|k: int| 0 <= k < tries.len() ==> offset_of(tries, k) <= 255
}

/// The trie for the entries `vs`, all of whose keys agree on their first `p` bytes, over
/// the bytes that follow those `p`: the value node of a key that has no more bytes, then
/// the trie of the other entries. `None` where the layout cannot hold it (see
/// `build_body`).
pub open spec fn build(vs: Seq<(Seq<u8>, usize)>, p: int, fuel: nat, limit: int) -> Option<
    Seq<u8>,
>
    decreases fuel, 1nat,
{
    if vs.len() == 0 {
        Some(Seq::empty())
    } else if vs[0].0.len() == p {
        if vs[0].1 <= 31 {
            match build_body(vs.drop_first(), p, fuel, limit) {
                Some(b) => Some(seq![value_byte(vs[0].1)] + b),
                None => None,
            }
        } else {
            None
        }
    } else {
        build_body(vs, p, fuel, limit)
    }
}

/// The trie for the entries `vs`, all of whose keys are longer than `p` bytes and agree
/// on their first `p`: nothing for no entries, the shared byte at `p` followed by the
/// trie of the rest when all keys share it, and otherwise a branch node over the runs of
/// keys with the same byte at `p`. `None` where a value is 32 or more, a branch has 32 or
/// more targets or more than `limit` bytes of tries, a key is not longer than `p`, or
/// `fuel` (the depth left) runs out.
pub open spec fn build_body(vs: Seq<(Seq<u8>, usize)>, p: int, fuel: nat, limit: int) -> Option<
    Seq<u8>,
>
    decreases fuel, 0nat,
{
    if vs.len() == 0 {
        Some(Seq::empty())
    } else if fuel == 0 {
        None
    } else if exists|k: int| 0 <= k < vs.len() && #[trigger] vs[k].0.len() <= p {
        None
    } else {
        let gs = groups_from(vs, p, 0);
        if gs.len() == 1 {
            match build(vs, p + 1, (fuel - 1) as nat, limit) {
                Some(t) => Some(seq![vs[0].0[p]] + t),
                None => None,
            }
        } else {
            match build_all(gs, p + 1, (fuel - 1) as nat, limit) {
                Some(tries) => if branch_fits(tries, limit) {
                    Some(branch_bytes(gs.map_values(|g: (u8, Seq<(Seq<u8>, usize)>)| g.0), tries))
                } else {
                    None
                },
                None => None,
            }
        }
    }
}

/// The tries of the groups `gs`, in order, or `None` if one of them cannot be built.
pub open spec fn build_all(
    gs: Seq<(u8, Seq<(Seq<u8>, usize)>)>,
    p: int,
    fuel: nat,
    limit: int,
) -> Option<Seq<Seq<u8>>>
    decreases fuel, gs.len() + 1,
{
    if gs.len() == 0 {
        Some(Seq::empty())
    } else {
        match build(gs[0].1, p, fuel, limit) {
            Some(t) => match build_all(gs.drop_first(), p, fuel, limit) {
                Some(ts) => Some(seq![t] + ts),
                None => None,
            },
            None => None,
        }
    }
}

/// The trie for the entries `vs`, with branches of at most `limit` bytes of tries.
pub open spec fn spec_build(vs: Seq<(Seq<u8>, usize)>, limit: int) -> Option<Seq<u8>> {
    build(vs, 0, max_key_len(vs) + 1, limit)
}

pub proof fn lemma_build_all(gs: Seq<(u8, Seq<(Seq<u8>, usize)>)>, p: int, fuel: nat, limit: int)
    ensures
        build_all(gs, p, fuel, limit) is Some <==> forall|k: int|
            0 <= k < gs.len() ==> #[trigger] build(gs[k].1, p, fuel, limit) is Some,
        build_all(gs, p, fuel, limit) matches Some(ts) ==> ts.len() == gs.len() && forall|k: int|
            0 <= k < gs.len() ==> build(gs[k].1, p, fuel, limit) == Some(#[trigger] ts[k]),
    decreases gs.len(),
{
    if gs.len() > 0 {
        lemma_build_all(gs.drop_first(), p, fuel, limit);
        assert forall|k: int| 1 <= k < gs.len() implies gs.drop_first()[k - 1] == #[trigger] gs[k] by {}
        if build_all(gs, p, fuel, limit) is Some {
            let ts = build_all(gs, p, fuel, limit)->Some_0;
            let rest = build_all(gs.drop_first(), p, fuel, limit)->Some_0;
            assert forall|k: int| 0 <= k < gs.len() implies build(gs[k].1, p, fuel, limit) == Some(
                #[trigger] ts[k],
            ) by {
                if k > 0 {
                    assert(ts[k] == rest[k - 1]);
                }
            }
            assert forall|k: int| 0 <= k < gs.len() implies #[trigger] build(
                gs[k].1,
                p,
                fuel,
                limit,
            ) is Some by {
                assert(build(gs[k].1, p, fuel, limit) == Some(ts[k]));
            }
        }
        if forall|k: int| 0 <= k < gs.len() ==> #[trigger] build(gs[k].1, p, fuel, limit) is Some {
            assert forall|k: int| 0 <= k < gs.drop_first().len() implies #[trigger] build(
                gs.drop_first()[k].1,
                p,
                fuel,
                limit,
            ) is Some by {
                assert(gs.drop_first()[k] == gs[k + 1]);
            }
            assert(build(gs[0].1, p, fuel, limit) is Some);
        }
    }
}

pub proof fn lemma_value_byte(v: usize)
    requires
        v <= 31,
    ensures
        (v as u8) | 0b10000000u8 == value_byte(v),
        value_byte(v) / 64 == 2,
        value_byte(v) % 32 == v,
        (value_byte(v) / 32) % 2 == 0,
{
    let b = v as u8;
    assert(b | 0b10000000u8 == (128 + b) as u8) by (bit_vector)
        requires
            b <= 31,
    ;
}

pub proof fn lemma_branch_header(n: usize)
    requires
        n <= 31,
    ensures
        (n as u8) | 0b11000000u8 == branch_header(n as int),
        branch_header(n as int) / 64 == 3,
        branch_header(n as int) % 32 == n,
        (branch_header(n as int) / 32) % 2 == 0,
{
    let b = n as u8;
    assert(b | 0b11000000u8 == (192 + b) as u8) by (bit_vector)
        requires
            b <= 31,
    ;
}

/// A builder of a trie of ASCII keys, whose bytes grow at the front.
pub struct AsciiTrieBuilder {
    data: VecDeque<u8>,
}

impl AsciiTrieBuilder {
    /// The bytes built so far.
    pub closed spec fn view(&self) -> Seq<u8> {
        self.data@
    }

    /// The bytes built, as a trie.
    pub fn to_ascii_trie(&self) -> (res: AsciiTrie<Vec<u8>>)
        ensures
            res@ == self@,
    {
        AsciiTrie::from_store(self.to_bytes())
    }

    /// The bytes built.
    pub fn to_bytes(&self) -> (res: Vec<u8>)
        ensures
            res@ == self@,
    {
        let mut out: Vec<u8> = Vec::with_capacity(self.data.len());
        let mut k: usize = 0;
        while k < self.data.len()
            invariant
                k <= self.data@.len(),
                out@ == self.data@.take(k as int),
            decreases self.data@.len() - k,
        {
            out.push(self.data[k]);
            proof {
                assert(self.data@.take(k + 1) =~= self.data@.take(k as int).push(self.data@[k as int]));
            }
            k += 1;
        }
        proof {
            assert(self.data@.take(k as int) =~= self.data@);
        }
        out
    }

    /// An empty builder.
    pub fn new() -> (res: Self)
        ensures
            res@ == Seq::<u8>::empty(),
    {
        Self { data: VecDeque::new() }
    }

    /// The number of bytes built.
    pub fn byte_len(&self) -> (res: usize)
        ensures
            res == self@.len(),
    {
        self.data.len()
    }

    /// A builder holding the value node for `value`, which must be below 32.
    pub fn new_with_value(value: usize) -> (res: Self)
        requires
            value <= 31,
        ensures
            res@ == seq![value_byte(value)],
    {
        let mut result = Self::new();
        result.prepend_value(value);
        result
    }

    /// Puts the ASCII byte `ascii` in front.
    pub fn prepend_ascii(&mut self, ascii: AsciiByte)
        ensures
            final(self)@ == seq![ascii@] + old(self)@,
    {
        self.data.push_front(ascii.get())
    }

    /// Puts the value node for `value`, which must be below 32, in front.
    pub fn prepend_value(&mut self, value: usize)
        requires
            value <= 31,
        ensures
            final(self)@ == seq![value_byte(value)] + old(self)@,
    {
        proof {
            lemma_value_byte(value);
        }
        self.data.push_front((value as u8) | 0b10000000);
    }

    /// A branch node over the given targets, each a byte and the builder of its trie:
    /// fewer than 32 targets, at most 256 bytes of tries, each target's start below 256.
    pub fn make_branch(targets: &[(AsciiByte, Self)]) -> (res: Self)
        requires
            branch_fits(targets@.map_values(|t: (AsciiByte, Self)| t.1@), 256),
        ensures
            res@ == branch_bytes(
                targets@.map_values(|t: (AsciiByte, Self)| t.0@),
                targets@.map_values(|t: (AsciiByte, Self)| t.1@),
            ),
    {
        let ghost keys = targets@.map_values(|t: (AsciiByte, Self)| t.0@);
        let ghost tries = targets@.map_values(|t: (AsciiByte, Self)| t.1@);
        let n = targets.len();
        let mut data: VecDeque<u8> = VecDeque::new();
        proof {
            lemma_branch_header(n);
        }
        data.push_back((n as u8) | 0b11000000);
        let mut k: usize = 0;
        while k < n
            invariant
                k <= n,
                n == targets@.len(),
                keys == targets@.map_values(|t: (AsciiByte, Self)| t.0@),
                data@ == seq![branch_header(n as int)] + keys.take(k as int),
            decreases n - k,
        {
            data.push_back(targets[k].0.get());
            proof {
                assert(keys.take(k + 1) =~= keys.take(k as int).push(keys[k as int]));
            }
            k += 1;
        }
        let ghost head = data@;
        let mut index: usize = 0;
        k = 0;
        while k < n
            invariant
                k <= n,
                n == targets@.len(),
                tries == targets@.map_values(|t: (AsciiByte, Self)| t.1@),
                branch_fits(tries, 256),
                index == offset_of(tries, k as int),
                data@ == head + Seq::new(k as nat, |j: int| offset_of(tries, j) as u8),
            decreases n - k,
        {
            proof {
                lemma_offset_step(tries, k as int);
                lemma_offset_le_total(tries, k + 1);
            }
            data.push_back(index as u8);
            index = index + targets[k].1.data.len();
            proof {
                assert(Seq::new((k + 1) as nat, |j: int| offset_of(tries, j) as u8) =~= Seq::new(
                    k as nat,
                    |j: int| offset_of(tries, j) as u8,
                ).push(offset_of(tries, k as int) as u8));
            }
            k += 1;
        }
        let ghost mid = data@;
        k = 0;
        while k < n
            invariant
                k <= n,
                n == targets@.len(),
                tries == targets@.map_values(|t: (AsciiByte, Self)| t.1@),
                data@ == mid + tries.take(k as int).flatten(),
            decreases n - k,
        {
            let child = &targets[k].1.data;
            let ghost before = data@;
            let mut m: usize = 0;
            while m < child.len()
                invariant
                    m <= child@.len(),
                    data@ == before + child@.take(m as int),
                decreases child@.len() - m,
            {
                data.push_back(child[m]);
                proof {
                    assert(child@.take(m + 1) =~= child@.take(m as int).push(child@[m as int]));
                }
                m += 1;
            }
            proof {
                assert(child@.take(m as int) =~= child@);
                assert(tries.take(k + 1) =~= tries.take(k as int).push(tries[k as int]));
                tries.take(k as int).lemma_flatten_push(tries[k as int]);
            }
            k += 1;
        }
        proof {
            assert(tries.take(n as int) =~= tries);
            assert(Seq::new(n as nat, |j: int| offset_of(tries, j) as u8) =~= Seq::new(
                tries.len(),
                |j: int| offset_of(tries, j) as u8,
            ));
            assert(keys.take(n as int) =~= keys);
        }
        Self { data }
    }
}

impl AsciiTrieBuilder {
    /// The builder for the empty slice, or for a single pair whose key is empty and whose
    /// value is below 32; other input is not handled.
    pub fn create_from_sorted(values: &[(AsciiStr, usize)]) -> (res: Self)
        requires
            values@.len() == 0 || (values@.len() == 1 && values@[0].0@.len() == 0
                && values@[0].1 <= 31),
        ensures
            values@.len() == 0 ==> res@ == Seq::<u8>::empty(),
            values@.len() == 1 ==> res@ == seq![value_byte(values@[0].1)],
    {
        if values.len() == 0 {
            return Self::new();
        }
        Self::new_with_value(values[0].1)
    }

    /// The trie of the pairs `values`, whose keys are in strictly increasing order, as
    /// `spec_build` lays it out with branches of at most 256 bytes of tries.
    pub fn try_from_litemap(values: &[(AsciiStr, usize)]) -> (res: Self)
        requires
            spec_build(entries(values@), 256) is Some,
        ensures
            res@ == spec_build(entries(values@), 256)->Some_0,
    {
        Self::create_recursive(values, 0, Ghost(max_key_len(entries(values@)) + 1))
    }

    fn create_recursive(values: &[(AsciiStr, usize)], prefix_len: usize, Ghost(fuel): Ghost<nat>) -> (res: Self)
        requires
            build(entries(values@), prefix_len as int, fuel, 256) is Some,
        ensures
            res@ == build(entries(values@), prefix_len as int, fuel, 256)->Some_0,
        decreases fuel,
    {
        let ghost vs = entries(values@);
        let ghost p = prefix_len as int;
        if values.len() == 0 {
            return Self::new();
        }
        let first_key = values[0].0;
        let first_value = values[0].1;
        let has_value = first_key.len() == prefix_len;
        let rest = if has_value {
            vstd::slice::slice_subrange(values, 1, values.len())
        } else {
            values
        };
        let ghost rs = entries(rest@);
        proof {
            assert(vs[0].0 == first_key@);
            if has_value {
                assert(rs =~= vs.drop_first());
            }
        }
        let mut result;
        if rest.len() > 0 {
            proof {
                assert(build_body(rs, p, fuel, 256) is Some);
                assert(!exists|k: int| 0 <= k < rs.len() && #[trigger] rs[k].0.len() <= p);
                assert(rs[0].0 == rest@[0].0@);
                assert(rs[0].0.len() > p);
            }
            let first_len = rest[0].0.len();
            let mut i: usize = 0;
            let mut j: usize = 1;
            let mut current_ascii = rest[0].0.ascii_at_or_panic(prefix_len);
            let mut children: Vec<(AsciiByte, Self)> = Vec::new();
            let ghost mut done: Seq<(u8, Seq<(Seq<u8>, usize)>)> = Seq::empty();
            while j < rest.len()
                invariant
                    0 <= i < j <= rest@.len(),
                    rs == entries(rest@),
                    p == prefix_len,
                    forall|k: int| 0 <= k < rs.len() ==> #[trigger] rs[k].0.len() > p,
                    current_ascii@ == rs[i as int].0[p],
                    forall|k: int| i <= k < j ==> #[trigger] rs[k].0[p] == rs[i as int].0[p],
                    groups_from(rs, p, 0) == done + groups_from(rs, p, i as int),
                    done.len() == 0 ==> i == 0,
                    children@.len() == done.len(),
                    forall|k: int| 0 <= k < done.len() ==> (#[trigger] children@[k]).0@ == done[k].0,
                    build_all(groups_from(rs, p, 0), p + 1, (fuel - 1) as nat, 256) is Some
                        || groups_from(rs, p, 0).len() == 1,
                    fuel > 0,
                    prefix_len < first_len,
                    forall|k: int| 0 <= k < done.len() ==> build(done[k].1, p + 1, (fuel - 1) as nat, 256)
                        == Some((#[trigger] children@[k]).1@),
                decreases rest@.len() - j,
            {
                let c = rest[j].0.ascii_at_or_panic(prefix_len);
                proof {
                    assert(rs[j as int].0 == rest@[j as int].0@);
                }
                if c.get() != current_ascii.get() {
                    proof {
                        lemma_run_end_at(rs, p, i as int, j as int);
                        assert(groups_from(rs, p, i as int) == seq![(rs[i as int].0[p], rs.subrange(i as int, j as int))]
                            + groups_from(rs, p, j as int));
                    }
                    let sub = vstd::slice::slice_subrange(rest, i, j);
                    proof {
                        assert(entries(sub@) =~= rs.subrange(i as int, j as int));
                        let gs = groups_from(rs, p, 0);
                        assert(gs == (done + seq![(rs[i as int].0[p], rs.subrange(i as int, j as int))])
                            + groups_from(rs, p, j as int));
                        assert(gs[done.len() as int] == (rs[i as int].0[p], rs.subrange(i as int, j as int)));
                        lemma_groups_from_len(rs, p, j as int);
                        assert(gs.len() >= 2);
                        lemma_build_all(gs, p + 1, (fuel - 1) as nat, 256);
                        assert(build(gs[done.len() as int].1, p + 1, (fuel - 1) as nat, 256) is Some);
                    }
                    let inner = Self::create_recursive(sub, prefix_len + 1, Ghost((fuel - 1) as nat));
                    children.push((current_ascii, inner));
                    proof {
                        done = done.push((rs[i as int].0[p], rs.subrange(i as int, j as int)));
                    }
                    current_ascii = c;
                    i = j;
                }
                j += 1;
            }
            proof {
                lemma_run_end_at(rs, p, i as int, j as int);
                assert(groups_from(rs, p, j as int) =~= Seq::empty());
                assert(groups_from(rs, p, i as int) =~= seq![(rs[i as int].0[p], rs.subrange(i as int, j as int))]);
            }
            let ghost gs = groups_from(rs, p, 0);
            let sub = vstd::slice::slice_subrange(rest, i, j);
            proof {
                assert(entries(sub@) =~= rs.subrange(i as int, j as int));
                assert(gs == done.push((rs[i as int].0[p], rs.subrange(i as int, j as int))));
                lemma_build_all(gs, p + 1, (fuel - 1) as nat, 256);
                if done.len() == 0 {
                    assert(rs.subrange(0, rs.len() as int) =~= rs);
                    assert(gs.len() == 1);
                    assert(build_body(rs, p, fuel, 256) is Some);
                } else {
                    assert(gs.len() >= 2);
                    assert(build(gs[done.len() as int].1, p + 1, (fuel - 1) as nat, 256) is Some);
                }
            }
            let last_child = Self::create_recursive(sub, prefix_len + 1, Ghost((fuel - 1) as nat));
            if children.len() == 0 {
                result = last_child;
                result.prepend_ascii(current_ascii);
            } else {
                children.push((current_ascii, last_child));
                proof {
                    let tries = build_all(gs, p + 1, (fuel - 1) as nat, 256)->Some_0;
                    assert(children@.map_values(|t: (AsciiByte, Self)| t.1@) =~= tries);
                    assert(children@.map_values(|t: (AsciiByte, Self)| t.0@) =~= gs.map_values(
                        |g: (u8, Seq<(Seq<u8>, usize)>)| g.0,
                    ));
                }
                result = Self::make_branch(children.as_slice());
            }
        } else {
            result = Self::new();
        }
        if has_value {
            result.prepend_value(first_value);
        }
        result
    }
}

/// Where the run from `i` ends, given that the keys from `i` up to `j` agree at `p` and
/// the key at `j`, if any, does not.
pub proof fn lemma_run_end_at(vs: Seq<(Seq<u8>, usize)>, p: int, i: int, j: int)
    requires
        0 <= i < j <= vs.len(),
        forall|k: int| i <= k < j ==> #[trigger] vs[k].0[p] == vs[i].0[p],
        j < vs.len() ==> vs[j].0[p] != vs[i].0[p],
    ensures
        run_end(vs, p, i) == j,
    decreases j - i,
{
    if i + 1 < j {
        assert(vs[i + 1].0[p] == vs[i].0[p]);
        lemma_run_end_at(vs, p, i + 1, j);
    }
}

proof fn lemma_groups_from_len(vs: Seq<(Seq<u8>, usize)>, p: int, i: int)
    requires
        0 <= i < vs.len(),
    ensures
        groups_from(vs, p, i).len() >= 1,
{
}

pub proof fn lemma_offset_step(tries: Seq<Seq<u8>>, k: int)
    requires
        0 <= k < tries.len(),
    ensures
        offset_of(tries, k + 1) == offset_of(tries, k) + tries[k].len(),
{
    assert(tries.take(k + 1) =~= tries.take(k).push(tries[k]));
    tries.take(k).lemma_flatten_push(tries[k]);
}

pub proof fn lemma_offset_le_total(tries: Seq<Seq<u8>>, k: int)
    requires
        0 <= k <= tries.len(),
    ensures
        offset_of(tries, k) <= tries.flatten().len(),
{
    assert(tries =~= tries.take(k) + tries.skip(k));
    vstd::seq_lib::lemma_flatten_concat(tries.take(k), tries.skip(k));
}

} // verus!
