//! The offset table of a branch node: the start of each target's trie, written in as many
//! byte layers as the total length of the targets' tries needs, the most significant layer
//! first, and what `reader::get_branch` reads back from it.

use crate::reader::{branch_layers, shift_in};
use crate::varint::{lemma_usize_bounds, usize_range};
use crate::varintx::pow256;
use vstd::arithmetic::div_mod::*;
use vstd::prelude::*;

verus! {

/// The number of base-256 digits of `t`; at least one.
pub open spec fn digits256(t: nat) -> nat
    decreases t,
{
    if t < 256 {
        1
    } else {
        1 + digits256(t / 256)
    }
}

/// The sum of `sizes`.
pub open spec fn sum_sizes(sizes: Seq<usize>) -> int
    decreases sizes.len(),
{
    if sizes.len() == 0 {
        0
    } else {
        sum_sizes(sizes.drop_last()) + sizes.last()
    }
}

/// Where each target starts: the sum of the sizes before it.
pub open spec fn starts(sizes: Seq<usize>) -> Seq<int> {
    Seq::new(sizes.len(), |k: int| sum_sizes(sizes.take(k)))
}

/// Layer `d` of the offset table: the base-256 digit `d` (0 the least significant) of each
/// start.
pub open spec fn offset_layer(offs: Seq<int>, d: nat) -> Seq<u8> {
    Seq::new(offs.len(), |k: int| ((offs[k] / pow256(d)) % 256) as u8)
}

/// The offset table of `w` layers, the most significant first.
pub open spec fn offset_table(offs: Seq<int>, w: nat) -> Seq<u8>
    decreases w,
{
    if w == 0 {
        Seq::empty()
    } else {
        offset_layer(offs, (w - 1) as nat) + offset_table(offs, (w - 1) as nat)
    }
}

pub proof fn lemma_pow256_pos(k: nat)
    ensures
        pow256(k) >= 1,
    decreases k,
{
    if k > 0 {
        lemma_pow256_pos((k - 1) as nat);
    }
}

pub proof fn lemma_pow256_mono(j: nat, k: nat)
    requires
        j <= k,
    ensures
        pow256(j) <= pow256(k),
    decreases k - j,
{
    if j < k {
        lemma_pow256_mono(j, (k - 1) as nat);
        lemma_pow256_pos((k - 1) as nat);
    }
}

/// A positive `t` lies between the powers of 256 around its number of digits.
pub proof fn lemma_digits256(t: nat)
    requires
        t >= 1,
    ensures
        digits256(t) >= 1,
        pow256((digits256(t) - 1) as nat) <= t < pow256(digits256(t)),
    decreases t,
{
    if t >= 256 {
        lemma_digits256(t / 256);
        let d = digits256(t / 256);
        assert(pow256(d) * 256 == pow256(d + 1));
        assert(pow256((d - 1) as nat) * 256 == pow256(d));
        lemma_fundamental_div_mod(t as int, 256);
        assert(pow256((d - 1) as nat) * 256 <= (t / 256) * 256) by (nonlinear_arith)
            requires
                pow256((d - 1) as nat) <= t / 256,
        ;
        assert((t / 256 + 1) * 256 <= pow256(d) * 256) by (nonlinear_arith)
            requires
                t / 256 < pow256(d),
        ;
    } else {
        reveal_with_fuel(pow256, 2);
    }
}

/// The number of digits of a `usize` is small enough that 256 to that power does not exceed
/// the range of `usize`.
pub proof fn lemma_digits_fit(t: nat)
    requires
        1 <= t <= usize::MAX,
    ensures
        pow256(digits256(t)) <= usize_range(),
{
    lemma_digits256(t);
    lemma_usize_bounds();
    let d = digits256(t);
    reveal_with_fuel(pow256, 9);
    if usize::MAX == 0xffff_ffff {
        assert(pow256(4) == usize_range());
        if d > 4 {
            lemma_pow256_mono(4, (d - 1) as nat);
        }
        lemma_pow256_mono(d, 4);
    } else {
        assert(pow256(8) == usize_range());
        if d > 8 {
            lemma_pow256_mono(8, (d - 1) as nat);
        }
        lemma_pow256_mono(d, 8);
    }
}

/// One step of reading a layer: the value so far shifted by a byte, plus digit `d` of `x`,
/// is `x` without its `d` lowest digits.
proof fn lemma_digit_step(x: int, d: nat)
    requires
        0 <= x <= usize::MAX,
    ensures
        shift_in(x / pow256(d + 1), ((x / pow256(d)) % 256) as u8 as int) == x / pow256(d),
{
    lemma_pow256_pos(d);
    let y = x / pow256(d);
    assert(pow256(d + 1) == pow256(d) * 256);
    lemma_div_denominator(x, pow256(d), 256);
    assert(x / pow256(d + 1) == y / 256);
    lemma_fundamental_div_mod(y, 256);
    lemma_div_is_ordered_by_denominator(x, 1, pow256(d));
    assert(y <= x);
    let z = y / 256;
    assert(z * 256 <= y);
    lemma_usize_bounds();
    lemma_small_mod((z * 256) as nat, usize_range() as nat);
    assert(((y % 256) as u8) as int == y % 256);
}

/// Reading the last `r` layers of the offset table of `w` layers, followed by the targets'
/// tries (`total` bytes), with the value, the next target's value and the bound gathered
/// from the layers before, gives target `i`'s start and end.
pub proof fn lemma_read_layers(
    offs: Seq<int>,
    total: int,
    flat: Seq<u8>,
    i: int,
    r: nat,
    w: nat,
    p: int,
    q: int,
    h: int,
)
    requires
        offs.len() >= 1,
        0 <= i < offs.len(),
        flat.len() == total,
        1 <= total <= usize::MAX,
        w == digits256(total as nat),
        1 <= r <= w,
        forall|k: int| 0 <= k < offs.len() ==> 0 <= #[trigger] offs[k] <= total,
        p == offs[i] / pow256(r),
        i + 1 < offs.len() ==> q == offs[i + 1] / pow256(r),
        h == pow256((w - r) as nat) - 1,
    ensures
        branch_layers(offset_table(offs, r) + flat, i, offs.len() as int, p, q, h) == Some(
            (
                offs[i],
                if i + 1 < offs.len() {
                    offs[i + 1]
                } else {
                    total
                },
                r * offs.len() as int,
            ),
        ),
    decreases r,
{
    let n = offs.len() as int;
    let trie = offset_table(offs, r) + flat;
    let layer = offset_layer(offs, (r - 1) as nat);
    let below = offset_table(offs, (r - 1) as nat);
    lemma_table_len(offs, (r - 1) as nat);
    assert(trie =~= layer + (below + flat));
    assert(trie.take(n) =~= layer);
    assert(trie.skip(n) =~= below + flat);
    lemma_digits256(total as nat);
    lemma_digits_fit(total as nat);
    lemma_pow256_pos((r - 1) as nat);
    lemma_pow256_pos((w - r) as nat);
    lemma_digit_step(offs[i], (r - 1) as nat);
    assert(((r - 1) + 1) as nat == r);
    let p2 = shift_in(p, layer[i] as int);
    assert(p2 == offs[i] / pow256((r - 1) as nat));
    if i + 1 < n {
        lemma_digit_step(offs[i + 1], (r - 1) as nat);
    }
    let h2 = shift_in(h, 255);
    assert(pow256((w - r + 1) as nat) == pow256((w - r) as nat) * 256);
    lemma_pow256_mono((w - r + 1) as nat, w);
    lemma_usize_bounds();
    assert(h * 256 < usize_range());
    lemma_small_mod((h * 256) as nat, usize_range() as nat);
    assert(h2 == pow256((w - r + 1) as nat) - 1);
    let q2 = if i + 1 < n {
        shift_in(q, layer[i + 1] as int)
    } else {
        (below + flat).len() as int
    };
    assert(n > 0 && n <= trie.len());
    if r == 1 {
        assert(below.len() == 0);
        assert(pow256(0) == 1);
        assert(p2 == offs[i]);
        assert((below + flat).len() <= h2);
        assert(branch_layers(trie, i, n, p, q, h) == Some((p2, q2, n)));
        assert(r * n == n) by (nonlinear_arith)
            requires
                r == 1,
        ;
        if i + 1 < n {
            assert(q2 == offs[i + 1]);
        } else {
            assert(q2 == total);
        }
    } else {
        lemma_pow256_mono((w - r + 1) as nat, (w - 1) as nat);
        assert((r - 1) * n >= n) by (nonlinear_arith)
            requires
                r >= 2,
                n >= 1,
        ;
        assert((below + flat).len() > h2);
        lemma_read_layers(offs, total, flat, i, (r - 1) as nat, w, p2, q2, h2);
        assert(((r - 1) as nat) * n + n == r * n) by (nonlinear_arith)
            requires
                r >= 1,
        ;
        assert(branch_layers(trie, i, n, p, q, h) == Some(
            (offs[i], if i + 1 < n { offs[i + 1] } else { total }, (r - 1) * n + n),
        ));
    }
}

pub proof fn lemma_table_len(offs: Seq<int>, w: nat)
    ensures
        offset_table(offs, w).len() == w * offs.len(),
    decreases w,
{
    if w > 0 {
        lemma_table_len(offs, (w - 1) as nat);
        assert(offset_table(offs, w).len() == offset_layer(offs, (w - 1) as nat).len()
            + offset_table(offs, (w - 1) as nat).len());
        let n = offs.len() as int;
        let v = (w - 1) as nat;
        assert(offset_table(offs, v).len() == v * n);
        assert(v * n + n == w * n) by (nonlinear_arith)
            requires
                v + 1 == w,
        ;
    } else {
        assert(w * offs.len() == 0) by (nonlinear_arith)
            requires
                w == 0,
        ;
    }
}

} // verus!
