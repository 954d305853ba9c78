//! The varint of value nodes and byte spans in the tries of `builder6`: the layout of
//! `crate::varint` with one more metadata bit in the lead byte.
//!
//! - Lead byte: top 3 bits are trie metadata; the fourth is the varint extender; the low 4
//!   bits are value.
//! - Trail bytes: top bit is the extender; each adds its low 7 bits to the value so far
//!   times 2^7, plus the latent 16.

use crate::varint::{lemma_pow128_pos, lemma_step_mod, lemma_trail_len_prefix, lemma_wrapping_add,
    lemma_wrapping_mul, pow128, trail_len, usize_range};
use vstd::arithmetic::div_mod::*;
use vstd::prelude::*;

verus! {

/// The 4 value bits of a lead byte.
pub open spec fn lead_bits2(start: u8) -> int {
    (start % 16) as int
}

/// Whether a lead byte announces trail bytes (bit 0b00010000).
pub open spec fn lead_extends2(start: u8) -> bool {
    (start / 16) % 2 == 1
}

/// The value accumulated from `acc` over the trail bytes `trail`, in unbounded arithmetic:
/// each trail byte multiplies by 2^7, adds its low 7 bits and the latent 16.
pub open spec fn trail_fold2(acc: int, trail: Seq<u8>) -> int
    decreases trail.len(),
{
    if trail.len() == 0 {
        acc
    } else {
        trail_fold2(acc, trail.drop_last()) * 128 + (trail.last() % 128) as int + 16
    }
}

/// What `read_varint2(start, rem)` returns: the decoded value (reduced modulo the range of
/// `usize`) and the bytes after the varint, or `None` when the trail is cut short.
pub open spec fn spec_read_varint2(start: u8, rem: Seq<u8>) -> Option<(usize, Seq<u8>)> {
    if !lead_extends2(start) {
        Some((lead_bits2(start) as usize, rem))
    } else {
        match trail_len(rem) {
            Some(n) => Some(
                ((trail_fold2(lead_bits2(start), rem.take(n as int)) % usize_range()) as usize,
                rem.skip(n as int)),
            ),
            None => None,
        }
    }
}

proof fn lemma_trail_fold2_nonneg(acc: int, trail: Seq<u8>)
    requires
        0 <= acc,
    ensures
        0 <= trail_fold2(acc, trail),
    decreases trail.len(),
{
    if trail.len() > 0 {
        lemma_trail_fold2_nonneg(acc, trail.drop_last());
    }
}

/// Reads a varint whose lead byte is `start` and whose trail bytes, if any, are at the
/// front of `remainder`. Returns the value and the bytes after the varint, or `None` if
/// `remainder` ends before the varint does. A value too large for `usize` wraps around.
pub fn read_varint2(start: u8, remainder: &[u8]) -> (res: Option<(usize, &[u8])>)
    ensures
        match spec_read_varint2(start, remainder@) {
            Some((v, r)) => res matches Some((rv, rr)) && rv == v && rr@ == r,
            None => res is None,
        },
{
    let mut value: usize = (start % 16) as usize;
    let mut rest = remainder;
    if (start / 16) % 2 == 1 {
        let ghost orig = rest@;
        let ghost mut i: int = 0;
        proof {
            assert(orig.take(0).len() == 0);
            lemma_small_mod(value as nat, usize_range() as nat);
            assert(rest@ =~= orig.skip(0));
        }
        loop
            invariant
                0 <= i < orig.len() || (i == orig.len() && rest@.len() == 0),
                rest@ == orig.skip(i),
                orig == remainder@,
                forall|j: int| 0 <= j < i ==> orig[j] >= 128,
                value as int == trail_fold2(lead_bits2(start), orig.take(i)) % usize_range(),
                lead_extends2(start),
            decreases rest@.len(),
        {
            if rest.len() == 0 {
                proof {
                    if i == 0 {
                        assert(trail_len(orig) is None);
                    } else {
                        lemma_trail_len_prefix(orig, i - 1);
                    }
                    assert(i == orig.len());
                    assert(trail_len(orig) is None);
                }
                return None;
            }
            let (head, tail) = rest.split_at(1);
            let next = head[0];
            proof {
                assert(next == orig[i]);
                lemma_trail_fold2_nonneg(lead_bits2(start), orig.take(i));
                let low = (next % 128) as int + 16;
                lemma_step_mod(trail_fold2(lead_bits2(start), orig.take(i)), low);
                assert(orig.take(i + 1).drop_last() =~= orig.take(i));
                lemma_mod_bound(trail_fold2(lead_bits2(start), orig.take(i)), usize_range());
            }
            let low: usize = (next % 128) as usize + 16;
            proof {
                lemma_wrapping_mul(value, 128);
                lemma_wrapping_add(value.wrapping_mul(128), low);
            }
            value = value.wrapping_mul(128).wrapping_add(low);
            rest = tail;
            proof {
                assert(rest@ =~= orig.skip(i + 1));
            }
            if next < 128 {
                proof {
                    lemma_trail_len_prefix(orig, i);
                }
                return Some((value, rest));
            }
            proof {
                i = i + 1;
            }
        }
    }
    Some((value, rest))
}

/// The latent value of a varint with `k` trail bytes: 0, 16, 16 + 16 * 2^7, ...
pub open spec fn latent2(k: nat) -> int
    decreases k,
{
    if k == 0 {
        0
    } else {
        latent2((k - 1) as nat) * 128 + 16
    }
}

/// `value` is written with exactly `k` trail bytes.
pub open spec fn is_trail_count2(value: int, k: nat) -> bool {
    latent2(k) <= value < latent2(k + 1)
}

proof fn lemma_latent2_gap(k: nat)
    ensures
        latent2(k + 1) == latent2(k) + 16 * pow128(k),
        latent2(k) >= 0,
    decreases k,
{
    if k > 0 {
        lemma_latent2_gap((k - 1) as nat);
    }
}

proof fn lemma_latent2_mono(j: nat, k: nat)
    requires
        j <= k,
    ensures
        latent2(j) <= latent2(k),
    decreases k - j,
{
    if j < k {
        lemma_latent2_mono(j, (k - 1) as nat);
        lemma_latent2_gap((k - 1) as nat);
        lemma_pow128_pos((k - 1) as nat);
    }
}

proof fn lemma_pow128_mono(j: nat, k: nat)
    requires
        j <= k,
    ensures
        pow128(j) <= pow128(k),
    decreases k - j,
{
    if j < k {
        lemma_pow128_mono(j, (k - 1) as nat);
        lemma_pow128_pos((k - 1) as nat);
    }
}

/// Each value has exactly one trail-byte count.
proof fn lemma_trail_count2_unique(value: int, j: nat, k: nat)
    requires
        is_trail_count2(value, j),
        is_trail_count2(value, k),
    ensures
        j == k,
{
    if j < k {
        lemma_latent2_mono(j + 1, k);
    } else if k < j {
        lemma_latent2_mono(k + 1, j);
    }
}

/// The number of trail bytes of the varint of `value`.
pub open spec fn trail_count2(value: int) -> nat {
    choose|k: nat| is_trail_count2(value, k)
}

/// The bytes of the varint of `value`, the metadata bits of the lead byte clear: the value
/// itself below 16; else, with `k` trail bytes and `d` the value less the latent value of
/// `k` trail bytes, a lead byte with the extender bit and the top digit of `d`, then the
/// lower base-128 digits of `d`, most significant first, each but the last with its top
/// bit set.
pub open spec fn varint2_bytes(value: int) -> Seq<u8> {
    let k = trail_count2(value);
    if k == 0 {
        seq![value as u8]
    } else {
        let d = value - latent2(k);
        seq![(16 + d / pow128(k)) as u8] + Seq::new(
            k,
            |j: int| ((d / pow128((k - 1 - j) as nat)) % 128 + if j < k - 1 { 128int } else { 0int }) as u8,
        )
    }
}

/// Writes `value` as a varint: its bytes, the metadata bits of the lead byte clear.
pub fn write_varint2(value: usize) -> (res: Vec<u8>)
    ensures
        res@ == varint2_bytes(value as int),
        1 <= res@.len() <= 10,
        res@[0] < 32,
{
    if value < 16 {
        proof {
            reveal_with_fuel(latent2, 2);
            assert(is_trail_count2(value as int, 0));
            lemma_trail_count2_unique(value as int, 0, trail_count2(value as int));
        }
        let mut r: Vec<u8> = Vec::new();
        r.push(value as u8);
        proof {
            assert(r@ =~= varint2_bytes(value as int));
        }
        return r;
    }
    let v: u128 = value as u128;
    let mut lat: u128 = 16;
    let mut k: usize = 1;
    let mut pk: u128 = 128;
    proof {
        reveal_with_fuel(latent2, 2);
        reveal_with_fuel(pow128, 2);
    }
    while v >= lat * 128 + 16
        invariant
            lat == latent2(k as nat),
            pk == pow128(k as nat),
            v == value,
            v >= lat,
            1 <= k,
            v <= usize::MAX,
            lat >= 16 * pow128((k - 1) as nat),
            k <= 9,
        decreases v - lat,
    {
        proof {
            if k >= 9 {
                lemma_pow128_mono(8, (k - 1) as nat);
                reveal_with_fuel(pow128, 10);
                assert(pow128(8) == 0x100_0000_0000_0000);
                assert(16 * pow128((k - 1) as nat) * 128 > usize::MAX) by (nonlinear_arith)
                    requires
                        pow128((k - 1) as nat) >= 0x100_0000_0000_0000,
                ;
                assert(lat * 128 + 16 > v) by (nonlinear_arith)
                    requires
                        lat >= 16 * pow128((k - 1) as nat),
                        16 * pow128((k - 1) as nat) * 128 > usize::MAX,
                        v <= usize::MAX,
                ;
            }
            lemma_pow128_pos((k - 1) as nat);
            assert(pk == 128 * pow128((k - 1) as nat));
            assert(lat * 128 >= 16 * pk) by (nonlinear_arith)
                requires
                    lat >= 16 * pow128((k - 1) as nat),
                    pk == 128 * pow128((k - 1) as nat),
            ;
            assert(16 * pk <= usize::MAX);
            assert(pk * 128 < 0x1_0000_0000_0000_0000_0000);
        }
        lat = lat * 128 + 16;
        k = k + 1;
        pk = pk * 128;
    }
    proof {
        assert(is_trail_count2(value as int, k as nat));
        lemma_trail_count2_unique(value as int, k as nat, trail_count2(value as int));
        lemma_latent2_gap(k as nat);
        lemma_pow128_pos((k - 1) as nat);
        assert(pk == 128 * pow128((k - 1) as nat));
        assert(16 * pk <= 16 * lat * 128) by (nonlinear_arith)
            requires
                lat >= 16 * pow128((k - 1) as nat),
                pk == 128 * pow128((k - 1) as nat),
        ;
    }
    let d: u128 = v - lat;
    let ghost dd = d as int;
    let ghost kk = k as nat;
    proof {
        assert(dd < 16 * pow128(kk));
        lemma_pow128_pos(kk);
        let q = pow128(kk);
        assert(dd / q < 16) by (nonlinear_arith)
            requires
                dd < 16 * q,
                q >= 1,
                dd >= 0,
        ;
    }
    let mut r: Vec<u8> = Vec::new();
    r.push((16 + d / pk) as u8);
    let mut pw: u128 = pk / 128;
    let mut j: usize = 0;
    proof {
        assert(pk / 128 == pow128((k - 1) as nat)) by {
            lemma_div_multiples_vanish(pow128((k - 1) as nat), 128);
        }
    }
    while j < k
        invariant
            j <= k,
            kk == k,
            dd == d,
            pw == pow128((k - 1 - j) as nat) || (j == k && pw == 0),
            r@.len() == j + 1,
            r@[0] == (16 + dd / pow128(kk)) as u8,
            forall|i: int| 1 <= i <= j ==> #[trigger] r@[i] == ((dd / pow128((kk - i) as nat)) % 128
                + if i < kk { 128int } else { 0int }) as u8,
        decreases k - j,
    {
        let ghost r0 = r@;
        proof {
            lemma_pow128_pos((k - 1 - j) as nat);
        }
        let digit: u8 = ((d / pw) % 128) as u8;
        let b: u8 = if j + 1 < k {
            digit + 128
        } else {
            digit
        };
        r.push(b);
        proof {
            assert(r@[0] == r0[0]);
            assert forall|i: int| 1 <= i <= j + 1 implies #[trigger] r@[i] == ((dd / pow128((kk - i) as nat)) % 128
                + if i < kk { 128int } else { 0int }) as u8 by {
                if i <= j {
                    assert(r@[i] == r0[i]);
                } else {
                    assert(pw == pow128((kk - i) as nat));
                }
            }
            if j + 1 < k {
                let m = (k - 1 - j) as nat;
                assert(pow128(m) == 128 * pow128((m - 1) as nat));
                lemma_div_multiples_vanish(pow128((m - 1) as nat), 128);
            }
        }
        pw = if j + 1 < k {
            pw / 128
        } else {
            0
        };
        j = j + 1;
    }
    proof {
        assert(r@ =~= varint2_bytes(value as int));
    }
    r
}


/// What `read_varint2` leaves is a suffix of what it was given.
pub proof fn lemma_read_varint2_suffix(start: u8, rem: Seq<u8>)
    ensures
        spec_read_varint2(start, rem) matches Some((v, r)) ==> r.len() <= rem.len(),
{
    if lead_extends2(start) {
        crate::varint::lemma_trail_len_bound(rem);
    }
}


/// Every value has a trail-byte count from `k` on when it is at least the latent value of
/// `k` trail bytes.
proof fn lemma_trail_count2_exists(value: int, k: nat)
    requires
        latent2(k) <= value,
    ensures
        exists|j: nat| is_trail_count2(value, j),
    decreases value - latent2(k),
{
    lemma_latent2_gap(k);
    lemma_pow128_pos(k);
    if value >= latent2(k + 1) {
        lemma_trail_count2_exists(value, k + 1);
    } else {
        assert(is_trail_count2(value, k));
    }
}

proof fn lemma_fold_digits2(d: int, k: nat, t: Seq<u8>, j: nat)
    requires
        0 <= d,
        t.len() == k,
        j <= k,
        forall|m: int| 0 <= m < k ==> #[trigger] t[m] % 128 == (d / pow128((k - 1 - m) as nat)) % 128,
    ensures
        trail_fold2(d / pow128(k), t.take(j as int)) == d / pow128((k - j) as nat) + latent2(j),
    decreases j,
{
    if j == 0 {
        assert(t.take(0).len() == 0);
    } else {
        let jj = (j - 1) as nat;
        lemma_fold_digits2(d, k, t, jj);
        assert(t.take(j as int).drop_last() =~= t.take(jj as int));
        let p = pow128((k - j) as nat);
        lemma_pow128_pos((k - j) as nat);
        assert(pow128((k - jj) as nat) == 128 * p);
        let y = d / p;
        lemma_div_denominator(d, p, 128);
        lemma_fundamental_div_mod(y, 128);
        assert(t[jj as int] % 128 == y % 128);
    }
}

/// The varint of any `usize` value, with the metadata bits `meta` of a value node or a
/// span set in its lead byte, reads back as that value, whatever follows it.
pub proof fn lemma_varint2_read(value: int, meta: u8, tail: Seq<u8>)
    requires
        0 <= value <= usize::MAX,
        meta == 0x80 || meta == 0xA0,
    ensures
        varint2_bytes(value).len() >= 1,
        varint2_bytes(value)[0] < 32,
        (varint2_bytes(value)[0] | meta) / 32 == meta / 32,
        spec_read_varint2(varint2_bytes(value)[0] | meta, varint2_bytes(value).drop_first() + tail)
            == Some((value as usize, tail)),
{
    lemma_trail_count2_exists(value, 0);
    let k = trail_count2(value);
    let j = choose|j: nat| is_trail_count2(value, j);
    lemma_trail_count2_unique(value, j, k);
    let b = varint2_bytes(value);
    crate::varint::lemma_usize_bounds();
    lemma_small_mod(value as nat, usize_range() as nat);
    if k == 0 {
        reveal_with_fuel(latent2, 2);
        let x = value as u8;
        assert(b == seq![x]);
        assert((x | meta) / 32 == meta / 32 && ((x | meta) / 16) % 2 == 0 && (x | meta) % 16 == x)
            by (bit_vector)
            requires
                x < 16,
                meta == 0x80 || meta == 0xA0,
        ;
        assert(b.drop_first() + tail =~= tail);
    } else {
        lemma_latent2_gap(k);
        lemma_pow128_pos(k);
        let d = value - latent2(k);
        let q = d / pow128(k);
        lemma_div_pos_is_pos(d, pow128(k));
        lemma_multiply_divide_lt(d, pow128(k), 16);
        let x = (16 + q) as u8;
        assert(b[0] == x);
        assert((x | meta) / 32 == meta / 32 && ((x | meta) / 16) % 2 == 1 && (x | meta) % 16 == x - 16)
            by (bit_vector)
            requires
                16 <= x < 32,
                meta == 0x80 || meta == 0xA0,
        ;
        let trail = b.drop_first();
        assert(trail.len() == k);
        let rem = trail + tail;
        assert forall|m: int| 0 <= m < k implies #[trigger] trail[m] % 128 == (d / pow128(
            (k - 1 - m) as nat,
        )) % 128 && (trail[m] >= 128 <==> m < k - 1) by {
            assert(trail[m] == b[m + 1]);
        }
        assert forall|m: int| 0 <= m < k - 1 implies rem[m] >= 128 by {
            assert(rem[m] == trail[m]);
        }
        assert(rem[k - 1] == trail[k - 1]);
        lemma_trail_len_prefix(rem, k - 1);
        assert(rem.take(k as int) =~= trail);
        assert(rem.skip(k as int) =~= tail);
        lemma_fold_digits2(d, k, trail, k);
        assert(trail.take(k as int) =~= trail);
        assert(pow128(0) == 1);
    }
}

} // verus!
