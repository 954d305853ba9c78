//! Varint spec for AsciiTrie:
//!
//! - Lead byte: top 2 bits are trie metadata; third is varint extender; rest is value
//! - Trail bytes: top bit is varint extender; add rest to current value * 2^7
//! - Add the "latent value" to the final result: (1<<5) + (1<<7) + (1<<14) + ...

use vstd::prelude::*;
use vstd::arithmetic::div_mod::*;

verus! {

/// The number of distinct `usize` values.
pub open spec fn usize_range() -> int {
    usize::MAX as int + 1
}

/// The 5 value bits of a lead byte.
pub open spec fn lead_bits(start: u8) -> int {
    (start % 32) as int
}

/// Whether a lead byte announces trail bytes (bit 0b00100000).
pub open spec fn lead_extends(start: u8) -> bool {
    (start / 32) % 2 == 1
}

/// Number of trail bytes at the front of `rem`: up to and including the first byte
/// whose top bit is clear. `None` when every byte has its top bit set.
pub open spec fn trail_len(rem: Seq<u8>) -> Option<nat>
    decreases rem.len(),
{
    if rem.len() == 0 {
        None
    } else if rem[0] < 128 {
        Some(1)
    } else {
        match trail_len(rem.drop_first()) {
            Some(n) => Some(n + 1),
            None => None,
        }
    }
}

/// The value accumulated from `acc` over the trail bytes `trail`, in unbounded arithmetic:
/// each trail byte multiplies by 2^7, adds its low 7 bits and the latent 32.
pub open spec fn trail_fold(acc: int, trail: Seq<u8>) -> int
    decreases trail.len(),
{
    if trail.len() == 0 {
        acc
    } else {
        trail_fold(acc, trail.drop_last()) * 128 + (trail.last() % 128) as int + 32
    }
}

/// What `read_varint(start, rem)` returns: the decoded value (reduced modulo the range of
/// `usize`) and the bytes that follow the varint, or `None` when the trail is cut short.
pub open spec fn spec_read_varint(start: u8, rem: Seq<u8>) -> Option<(usize, Seq<u8>)> {
    if !lead_extends(start) {
        Some((lead_bits(start) as usize, rem))
    } else {
        match trail_len(rem) {
            Some(n) => Some(
                ((trail_fold(lead_bits(start), rem.take(n as int)) % usize_range()) as usize,
                rem.skip(n as int)),
            ),
            None => None,
        }
    }
}

pub proof fn lemma_trail_len_prefix(rem: Seq<u8>, i: int)
    requires
        0 <= i < rem.len(),
        forall|j: int| 0 <= j < i ==> rem[j] >= 128,
    ensures
        rem[i] < 128 ==> trail_len(rem) == Some((i + 1) as nat),
        rem[i] >= 128 && i + 1 == rem.len() ==> trail_len(rem) is None,
    decreases i,
{
    if i > 0 {
        assert forall|j: int| 0 <= j < i - 1 implies rem.drop_first()[j] >= 128 by {
            assert(rem.drop_first()[j] == rem[j + 1]);
        }
        lemma_trail_len_prefix(rem.drop_first(), i - 1);
    } else if rem.len() == 1 {
        assert(rem.drop_first().len() == 0);
        assert(trail_len(rem.drop_first()) is None);
    }
}

/// What `read_varint` leaves is a suffix of what it was given.
pub proof fn lemma_read_varint_suffix(start: u8, rem: Seq<u8>)
    ensures
        spec_read_varint(start, rem) matches Some((v, r)) ==> r.len() <= rem.len(),
{
    if lead_extends(start) {
        lemma_trail_len_bound(rem);
    }
}

pub proof fn lemma_trail_len_bound(rem: Seq<u8>)
    ensures
        trail_len(rem) matches Some(n) ==> 1 <= n <= rem.len(),
    decreases rem.len(),
{
    if rem.len() > 0 {
        lemma_trail_len_bound(rem.drop_first());
    }
}

proof fn lemma_trail_fold_nonneg(acc: int, trail: Seq<u8>)
    requires
        0 <= acc,
    ensures
        0 <= trail_fold(acc, trail),
    decreases trail.len(),
{
    if trail.len() > 0 {
        lemma_trail_fold_nonneg(acc, trail.drop_last());
    }
}

pub proof fn lemma_wrapping_add(x: usize, y: usize)
    ensures
        x.wrapping_add(y) as int == (x + y) % usize_range(),
{
    let m = usize_range();
    if x + y > usize::MAX {
        lemma_fundamental_div_mod_converse_mod(x + y, m, 1, x + y - m);
    } else {
        lemma_small_mod((x + y) as nat, m as nat);
    }
}

pub proof fn lemma_wrapping_mul(x: usize, y: usize)
    ensures
        x.wrapping_mul(y) as int == (x * y) % usize_range(),
{
}

pub proof fn lemma_step_mod(a: int, b: int)
    requires
        0 <= a,
        0 <= b < 160,
    ensures
        ((a % usize_range()) * 128 % usize_range() + b) % usize_range()
            == (a * 128 + b) % usize_range(),
{
    let m = usize_range();
    lemma_mul_mod_noop_left(a, 128, m);
    lemma_add_mod_noop(a * 128, b, m);
    lemma_add_mod_noop((a % m) * 128, b, m);
    lemma_mod_twice((a % m) * 128, m);
    lemma_mod_bound(b, m);
    lemma_small_mod(b as nat, m as nat);
}

/// Reads a varint whose lead byte is `start` and whose trail bytes, if any, are at the
/// front of `remainder`. Returns the value and the bytes after the varint, or `None` if
/// `remainder` ends before the varint does. A value too large for `usize` wraps around.
pub fn read_varint(start: u8, remainder: &[u8]) -> (res: Option<(usize, &[u8])>)
    ensures
        match spec_read_varint(start, remainder@) {
            Some((v, r)) => res matches Some((rv, rr)) && rv == v && rr@ == r,
            None => res is None,
        },
{
    let mut value: usize = (start % 32) as usize;
    let mut rest = remainder;
    if (start / 32) % 2 == 1 {
        let ghost orig = rest@;
        let ghost mut i: int = 0;
        proof {
            assert(orig.take(0).len() == 0);
            lemma_small_mod(value as nat, usize_range() as nat);
            assert(rest@ =~= orig.skip(0));
        }
        loop
            invariant
                0 <= i < orig.len() || (i == orig.len() && rest@.len() == 0),
                rest@ == orig.skip(i),
                orig == remainder@,
                forall|j: int| 0 <= j < i ==> orig[j] >= 128,
                value as int == trail_fold(lead_bits(start), orig.take(i)) % usize_range(),
                lead_extends(start),
            decreases rest@.len(),
        {
            if rest.len() == 0 {
                proof {
                    if i == 0 {
                        assert(trail_len(orig) is None);
                    } else {
                        lemma_trail_len_prefix(orig, i - 1);
                    }
                }
                proof {
                    assert(i == orig.len());
                    assert(trail_len(orig) is None);
                }
                return None;
            }
            let (head, tail) = rest.split_at(1);
            let next = head[0];
            proof {
                assert(next == orig[i]);
                lemma_trail_fold_nonneg(lead_bits(start), orig.take(i));
                let low = (next % 128) as int + 32;
                lemma_step_mod(trail_fold(lead_bits(start), orig.take(i)), low);
                assert(orig.take(i + 1).drop_last() =~= orig.take(i));
                lemma_mod_bound(trail_fold(lead_bits(start), orig.take(i)), usize_range());
            }
            let low: usize = (next % 128) as usize + 32;
            proof {
                lemma_wrapping_mul(value, 128);
                lemma_wrapping_add(value.wrapping_mul(128), low);
            }
            value = value.wrapping_mul(128).wrapping_add(low);
            rest = tail;
            proof {
                assert(rest@ =~= orig.skip(i + 1));
            }
            if next < 128 {
                proof {
                    lemma_trail_len_prefix(orig, i);
                }
                return Some((value, rest));
            }
            proof {
                i = i + 1;
            }
        }
    }
    Some((value, rest))
}

} // verus!

verus! {

/// 128 raised to the `k`.
pub open spec fn pow128(k: nat) -> int
    decreases k,
{
    if k == 0 {
        1
    } else {
        128 * pow128((k - 1) as nat)
    }
}

/// The latent value of a varint with `k` trail bytes: 0, 32, 32 + 32 * 2^7, ...
pub open spec fn latent(k: nat) -> int
    decreases k,
{
    if k == 0 {
        0
    } else {
        latent((k - 1) as nat) * 128 + 32
    }
}

/// `value` is written with exactly `k` trail bytes.
pub open spec fn is_trail_count(value: int, k: nat) -> bool {
    latent(k) <= value < latent(k + 1)
}

/// The longest varint `write_varint` produces.
pub const MAX_VARINT_LENGTH: usize = 10;

pub proof fn lemma_pow128_pos(k: nat)
    ensures
        pow128(k) >= 1,
    decreases k,
{
    if k > 0 {
        lemma_pow128_pos((k - 1) as nat);
    }
}

proof fn lemma_latent_gap(k: nat)
    ensures
        latent(k + 1) == latent(k) + 32 * pow128(k),
        latent(k) >= 0,
    decreases k,
{
    if k > 0 {
        lemma_latent_gap((k - 1) as nat);
    }
}

proof fn lemma_latent_mono(j: nat, k: nat)
    requires
        j <= k,
    ensures
        latent(j) <= latent(k),
    decreases k - j,
{
    if j < k {
        lemma_latent_mono(j, (k - 1) as nat);
        lemma_latent_gap((k - 1) as nat);
        lemma_pow128_pos((k - 1) as nat);
    }
}

/// Each `value` has exactly one trail-byte count.
pub proof fn lemma_trail_count_unique(value: int, j: nat, k: nat)
    requires
        is_trail_count(value, j),
        is_trail_count(value, k),
    ensures
        j == k,
{
    if j < k {
        lemma_latent_mono(j + 1, k);
    } else if k < j {
        lemma_latent_mono(k + 1, j);
    }
}

proof fn lemma_fold_digits(d: int, k: nat, t: Seq<u8>, j: nat)
    requires
        0 <= d,
        t.len() == k,
        j <= k,
        forall|m: int| 0 <= m < k ==> #[trigger] t[m] % 128 == (d / pow128((k - 1 - m) as nat)) % 128,
    ensures
        trail_fold(d / pow128(k), t.take(j as int)) == d / pow128((k - j) as nat) + latent(j),
    decreases j,
{
    if j == 0 {
        assert(t.take(0).len() == 0);
    } else {
        let jj = (j - 1) as nat;
        lemma_fold_digits(d, k, t, jj);
        assert(t.take(j as int).drop_last() =~= t.take(jj as int));
        let p = pow128((k - j) as nat);
        lemma_pow128_pos((k - j) as nat);
        assert(pow128((k - jj) as nat) == 128 * p);
        let y = d / p;
        lemma_div_denominator(d, p, 128);
        lemma_fundamental_div_mod(y, 128);
        assert(t[jj as int] % 128 == y % 128);
    }
}

proof fn lemma_fixed_point()
    ensures
        usize::MAX == 0xffff_ffff ==> (latent(4) * 128) % usize_range() + 32 == latent(4)
            && latent(5) > usize::MAX && latent(4) <= usize::MAX,
        usize::MAX == 0xffff_ffff_ffff_ffff ==> (latent(9) * 128) % usize_range() + 32
            == latent(9) && latent(10) > usize::MAX && latent(9) <= usize::MAX,
        usize::MAX == 0xffff_ffff || usize::MAX == 0xffff_ffff_ffff_ffff,
        latent(10) > usize::MAX,
{
    reveal_with_fuel(latent, 11);
    assert(latent(9) == 2323999253380730912);
    assert(latent(4) == 67637280);
    assert(latent(10) == 2323999253380730912 * 128 + 32);
    assert(latent(5) == 67637280 * 128 + 32);
    if usize::MAX == 0xffff_ffff {
        lemma_fundamental_div_mod_converse_mod(67637280int * 128, 0x1_0000_0000, 2, 67637248);
    }
    if usize::MAX == 0xffff_ffff_ffff_ffff {
        lemma_fundamental_div_mod_converse_mod(
            2323999253380730912int * 128,
            0x1_0000_0000_0000_0000,
            16,
            2323999253380730880,
        );
    }
}

} // verus!

verus! {

pub proof fn lemma_or_bits(x: u8)
    ensures
        0u8 | x == x,
        x < 128 ==> (x | 0x80u8) == x + 128,
        x < 32 ==> (32u8 | x) == 32 + x,
{
    assert(0u8 | x == x) by (bit_vector);
    assert(x < 128 ==> (x | 0x80u8) == x + 128) by (bit_vector);
    assert(x < 32 ==> (32u8 | x) == 32 + x) by (bit_vector);
}

/// Writes `value` as a varint. Returns the number of bytes used and a buffer whose first
/// that many bytes hold the varint; the rest of the buffer is zero.
///
/// The varint uses as many trail bytes as `value` needs (`is_trail_count`), leaves the two
/// metadata bits of the lead byte clear, and reads back as `value`.
pub fn write_varint(value: usize) -> (res: (usize, [u8; MAX_VARINT_LENGTH]))
    ensures
        1 <= res.0 <= MAX_VARINT_LENGTH,
        is_trail_count(value as int, (res.0 - 1) as nat),
        res.1@[0] < 64,
        forall|j: int| res.0 <= j < MAX_VARINT_LENGTH ==> res.1@[j] == 0,
        spec_read_varint(res.1@[0], res.1@.subrange(1, res.0 as int)) == Some(
            (value, Seq::<u8>::empty()),
        ),
        res.1@.subrange(0, res.0 as int) == varint_bytes(value as int),
{
    let mut result = [0u8; MAX_VARINT_LENGTH];
    if value < 32 {
        result[0] = value as u8;
        proof {
            reveal_with_fuel(latent, 2);
            assert(result@.subrange(1, 1) =~= Seq::<u8>::empty());
            lemma_varint_len(value as int, 1);
            assert(result@.subrange(0, 1) =~= varint_bytes(value as int));
        }
        return (1, result);
    }
    result[0] = 32;
    let mut lat: usize = 32;
    let mut steps: usize = 2;
    proof {
        reveal_with_fuel(latent, 2);
        lemma_fixed_point();
    }
    loop
        invariant_except_break
            2 <= steps <= 10,
            lat as int == latent((steps - 1) as nat),
            lat <= value,
        ensures
            2 <= steps <= 10,
            lat as int == latent((steps - 1) as nat),
            lat <= value,
            (value as int) < latent(steps as nat),
        decreases 10 - steps,
    {
        let ghost k = (steps - 1) as nat;
        proof {
            lemma_fixed_point();
            lemma_latent_gap(k);
            lemma_pow128_pos(k);
            if latent(k + 1) <= usize::MAX {
                lemma_small_mod((latent(k) * 128) as nat, usize_range() as nat);
            } else if usize::MAX == 0xffff_ffff {
                if k != 4 {
                    lemma_trail_count_unique(usize::MAX as int, k, 4);
                }
            } else {
                if k != 9 {
                    lemma_trail_count_unique(usize::MAX as int, k, 9);
                }
            }
            lemma_wrapping_mul(lat, 128);
        }
        let next_latent = lat.wrapping_mul(128) + 32;
        if value < next_latent || next_latent == lat {
            break;
        }
        proof {
            if k >= 9 {
                lemma_latent_mono(10, k + 1);
            }
        }
        lat = next_latent;
        steps += 1;
    }
    let ghost k = (steps - 1) as nat;
    let ghost dd = value - lat;
    proof {
        lemma_latent_gap(k);
        lemma_pow128_pos(k);
        assert(dd < 32 * pow128(k));
    }
    let mut d: usize = value - lat;
    let mut i: usize = steps;
    while i > 0
        invariant
            0 <= i <= steps,
            2 <= steps <= 10,
            k == steps - 1,
            0 <= dd < 32 * pow128(k),
            d as int == dd / pow128((steps - i) as nat),
            i > 0 ==> result@[0] == 32,
            forall|j: int| 1 <= j < i ==> result@[j] == 0,
            forall|j: int| steps <= j < MAX_VARINT_LENGTH ==> result@[j] == 0,
            forall|j: int|
                #![trigger result@[j]]
                i <= j < steps && j >= 1 ==> result@[j] % 128 == (dd / pow128(
                    (steps - 1 - j) as nat,
                )) % 128 && (result@[j] >= 128 <==> j < steps - 1),
            i == 0 ==> result@[0] == 32 + dd / pow128(k),
        decreases i,
    {
        i -= 1;
        proof {
            lemma_pow128_pos((steps - 1 - i) as nat);
            lemma_pow128_pos((steps - i) as nat);
            assert(pow128((steps - i) as nat) == 128 * pow128((steps - 1 - i) as nat));
            lemma_div_denominator(dd, pow128((steps - 1 - i) as nat), 128);
            lemma_or_bits((d % 128) as u8);
            if i == 0 {
                lemma_div_pos_is_pos(dd, pow128(k));
                lemma_multiply_divide_lt(dd, pow128(k), 32);
            }
        }
        result[i] = result[i] | ((d % 128) as u8);
        d = d / 128;
        if i > 0 && i < steps - 1 {
            proof {
                lemma_or_bits(result[i as int]);
            }
            result[i] = result[i] | 0x80;
        }
    }
    proof {
        let trail = result@.subrange(1, steps as int);
        let q = dd / pow128(k);
        lemma_div_pos_is_pos(dd, pow128(k));
        lemma_multiply_divide_lt(dd, pow128(k), 32);
        assert(result@[0] / 32 == 1 && result@[0] % 32 == q);
        assert forall|j: int| 0 <= j < k - 1 implies trail[j] >= 128 by {
            assert(trail[j] == result@[j + 1]);
        }
        assert(trail[k - 1] == result@[k as int]);
        lemma_trail_len_prefix(trail, k - 1);
        assert forall|m: int| 0 <= m < k implies #[trigger] trail[m] % 128 == (dd / pow128(
            (k - 1 - m) as nat,
        )) % 128 by {
            assert(trail[m] == result@[m + 1]);
        }
        lemma_fold_digits(dd, k, trail, k);
        assert(trail.take(k as int) =~= trail);
        assert(trail.skip(k as int) =~= Seq::<u8>::empty());
        lemma_small_mod(value as nat, usize_range() as nat);
        lemma_varint_len(value as int, steps as nat);
        let vb = varint_bytes(value as int);
        assert forall|j: int| 1 <= j < steps implies #[trigger] result@[j] == vb[j] by {
            let digit = (dd / pow128((k - 1 - (j - 1)) as nat)) % 128;
            assert(result@[j] % 128 == digit);
            if j < steps - 1 {
                assert(result@[j] >= 128);
                assert(result@[j] == digit + 128);
            } else {
                assert(result@[j] < 128);
            }
        }
        assert(result@.subrange(0, steps as int) =~= vb);
    }
    (steps, result)
}

} // verus!

verus! {

/// `usize` has 32 or 64 bits.
pub proof fn lemma_usize_bounds()
    ensures
        usize_range() == 0x1_0000_0000 || usize_range() == 0x1_0000_0000_0000_0000,
        usize_range() % 256 == 0,
        usize_range() >= 0x1_0000_0000,
{
    lemma_fixed_point();
}

} // verus!

verus! {

/// The number of bytes `write_varint` uses for `value`: the lead byte and as many trail
/// bytes as `value` needs.
pub open spec fn varint_len(value: int) -> int {
    (choose|k: nat| is_trail_count(value, k)) as int + 1
}

/// The bytes of the varint of `value`, the metadata bits of the lead byte clear: the value
/// itself below 32; else, with `k` trail bytes and `d` the value less the latent value of
/// `k` trail bytes, a lead byte with the extender bit and the top digit of `d`, then the
/// lower base-128 digits of `d`, most significant first, each but the last with its top
/// bit set.
pub open spec fn varint_bytes(value: int) -> Seq<u8> {
    let k = (varint_len(value) - 1) as nat;
    if k == 0 {
        seq![value as u8]
    } else {
        let d = value - latent(k);
        seq![(32 + d / pow128(k)) as u8] + Seq::new(
            k,
            |j: int| ((d / pow128((k - 1 - j) as nat)) % 128 + if j < k - 1 { 128int } else { 0int }) as u8,
        )
    }
}

/// A varint of `n` bytes whose trail count is right for `value` has the length
/// `varint_len(value)`.
pub proof fn lemma_varint_len(value: int, n: nat)
    requires
        n >= 1,
        is_trail_count(value, (n - 1) as nat),
    ensures
        varint_len(value) == n,
{
    let k = choose|k: nat| is_trail_count(value, k);
    lemma_trail_count_unique(value, k, (n - 1) as nat);
}

/// A varint that reads back as `value` with nothing left still does when bytes follow it;
/// the bytes that follow are what is left.
pub proof fn lemma_read_varint_append(start: u8, rest: Seq<u8>, value: usize, tail: Seq<u8>)
    requires
        spec_read_varint(start, rest) == Some((value, Seq::<u8>::empty())),
    ensures
        spec_read_varint(start, rest + tail) == Some((value, tail)),
{
    if lead_extends(start) {
        let n = trail_len(rest)->Some_0;
        lemma_trail_len_bound_full(rest);
        assert(rest.skip(n as int).len() == 0);
        assert(n == rest.len());
        let all = rest + tail;
        assert forall|j: int| 0 <= j < n - 1 implies all[j] >= 128 by {
            lemma_trail_len_members(rest, j);
        }
        lemma_trail_len_members(rest, n - 1);
        lemma_trail_len_prefix(all, n - 1);
        assert(all.take(n as int) =~= rest.take(n as int));
        assert(all.skip(n as int) =~= tail);
    } else {
        assert(rest + tail =~= tail);
    }
}

proof fn lemma_trail_len_bound_full(rem: Seq<u8>)
    ensures
        trail_len(rem) matches Some(n) ==> 1 <= n <= rem.len(),
    decreases rem.len(),
{
    if rem.len() > 0 {
        lemma_trail_len_bound_full(rem.drop_first());
    }
}

/// Within the trail that `trail_len` counts, every byte but the last has its top bit set,
/// and the last does not.
proof fn lemma_trail_len_members(rem: Seq<u8>, j: int)
    requires
        trail_len(rem) is Some,
        0 <= j < trail_len(rem)->Some_0,
    ensures
        j < trail_len(rem)->Some_0 - 1 ==> rem[j] >= 128,
        j == trail_len(rem)->Some_0 - 1 ==> rem[j] < 128,
    decreases rem.len(),
{
    lemma_trail_len_bound_full(rem);
    if rem[0] >= 128 {
        lemma_trail_len_bound_full(rem.drop_first());
        if j > 0 {
            lemma_trail_len_members(rem.drop_first(), j - 1);
        }
    }
}

/// Setting the two metadata bits of a lead byte below 64 leaves what it says of the varint
/// unchanged.
pub proof fn lemma_lead_with_meta(b: u8, m: u8)
    requires
        b < 64,
        m == 0x80 || m == 0xC0,
    ensures
        lead_bits(b | m) == lead_bits(b),
        lead_extends(b | m) == lead_extends(b),
        (b | m) / 64 == m / 64,
{
    assert((b | m) % 32 == b % 32 && ((b | m) / 32) % 2 == (b / 32) % 2 && (b | m) / 64 == m / 64)
        by (bit_vector)
        requires
            b < 64,
            m == 0x80 || m == 0xC0,
    ;
}


/// Every value at least the latent value of `k` trail bytes has a trail-byte count.
proof fn lemma_trail_count_exists(value: int, k: nat)
    requires
        latent(k) <= value,
    ensures
        exists|j: nat| is_trail_count(value, j),
    decreases value - latent(k),
{
    lemma_latent_gap(k);
    lemma_pow128_pos(k);
    if value >= latent(k + 1) {
        lemma_trail_count_exists(value, k + 1);
    } else {
        assert(is_trail_count(value, k));
    }
}

/// The varint of any `usize` value, with the metadata bits `meta` set in its lead byte,
/// reads back as that value, whatever follows it.
pub proof fn lemma_varint_read(value: int, meta: u8, tail: Seq<u8>)
    requires
        0 <= value <= usize::MAX,
        meta == 0x80 || meta == 0xC0,
    ensures
        varint_bytes(value).len() >= 1,
        varint_bytes(value)[0] < 64,
        (varint_bytes(value)[0] | meta) / 64 == meta / 64,
        spec_read_varint(varint_bytes(value)[0] | meta, varint_bytes(value).drop_first() + tail)
            == Some((value as usize, tail)),
{
    lemma_trail_count_exists(value, 0);
    let j = choose|j: nat| is_trail_count(value, j);
    lemma_varint_len(value, j + 1);
    let k = j;
    let b = varint_bytes(value);
    lemma_usize_bounds();
    lemma_small_mod(value as nat, usize_range() as nat);
    if k == 0 {
        reveal_with_fuel(latent, 2);
        let x = value as u8;
        assert(b == seq![x]);
        assert((x | meta) / 64 == meta / 64 && ((x | meta) / 32) % 2 == 0 && (x | meta) % 32 == x)
            by (bit_vector)
            requires
                x < 32,
                meta == 0x80 || meta == 0xC0,
        ;
        assert(b.drop_first() + tail =~= tail);
    } else {
        lemma_latent_gap(k);
        lemma_pow128_pos(k);
        let d = value - latent(k);
        let q = d / pow128(k);
        lemma_div_pos_is_pos(d, pow128(k));
        lemma_multiply_divide_lt(d, pow128(k), 32);
        let x = (32 + q) as u8;
        assert(b[0] == x);
        assert((x | meta) / 64 == meta / 64 && ((x | meta) / 32) % 2 == 1 && (x | meta) % 32 == x - 32)
            by (bit_vector)
            requires
                32 <= x < 64,
                meta == 0x80 || meta == 0xC0,
        ;
        let trail = b.drop_first();
        assert(trail.len() == k);
        let rem = trail + tail;
        assert forall|m: int| 0 <= m < k implies #[trigger] trail[m] % 128 == (d / pow128(
            (k - 1 - m) as nat,
        )) % 128 && (trail[m] >= 128 <==> m < k - 1) by {
            assert(trail[m] == b[m + 1]);
        }
        assert forall|m: int| 0 <= m < k - 1 implies rem[m] >= 128 by {
            assert(rem[m] == trail[m]);
        }
        assert(rem[k - 1] == trail[k - 1]);
        lemma_trail_len_prefix(rem, k - 1);
        assert(rem.take(k as int) =~= trail);
        assert(rem.skip(k as int) =~= tail);
        lemma_fold_digits(d, k, trail, k);
        assert(trail.take(k as int) =~= trail);
        assert(pow128(0) == 1);
    }
}

} // verus!

