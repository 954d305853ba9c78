//! Varints with a length-prefixed lead:
//!
//! - Lead byte: top bits for trie metadata; 2 bits for the number of trail bytes; rest is
//!   the high part of the value
//! - Trail bytes: the low bytes of the value, big-endian
//!
//! The 4-bit form (`read_varint`, `write_varint`) keeps the short layout for values below
//! 4096 (at most one trail byte, so the upper count bit stays clear); a lead byte with that
//! bit (`0b00100000`) set starts the long layout of `crate::varint`, which holds any
//! `usize`.

use crate::const_util::ConstArrayBuilder;
use vstd::arithmetic::div_mod::*;
use vstd::prelude::*;

verus! {

/// The longest varint `write_varint` and `write_varint2` produce.
pub const MAX_VARINT_LENGTH: usize = 10;

/// 256 raised to the `k`.
pub open spec fn pow256(k: nat) -> int
    decreases k,
{
    if k == 0 {
        1
    } else {
        256 * pow256((k - 1) as nat)
    }
}

/// The bytes read as a big-endian number, starting from `acc`.
pub open spec fn big_endian(acc: int, bytes: Seq<u8>) -> int
    decreases bytes.len(),
{
    if bytes.len() == 0 {
        acc
    } else {
        big_endian(acc, bytes.drop_last()) * 256 + bytes.last() as int
    }
}

/// What a reader with `bits` value bits in the lead byte returns: the lead's value bits
/// followed by as many trail bytes as the 2-bit count above them says, and the rest.
pub open spec fn spec_read_counted(bits: nat, start: u8, rem: Seq<u8>) -> Option<(int, Seq<u8>)>
    recommends
        bits == 3 || bits == 4,
{
    let unit: int = if bits == 4 { 16 } else { 8 };
    let count = (start as int / unit) % 4;
    if rem.len() < count {
        None
    } else {
        Some((big_endian(start as int % unit, rem.take(count)), rem.skip(count)))
    }
}

/// A lead byte of the 4-bit form that starts the long layout: bit `0b00100000` set.
pub open spec fn long_form(start: u8) -> bool {
    (start as int / 32) % 2 == 1
}

/// What `read_varint(start, rem)` returns: the long layout of `crate::varint` when the
/// lead byte says so, else the short layout with its trail count.
pub open spec fn spec_read_varint(start: u8, rem: Seq<u8>) -> Option<(int, Seq<u8>)> {
    if long_form(start) {
        match crate::varint::spec_read_varint(start, rem) {
            Some((v, r)) => Some((v as int, r)),
            None => None,
        }
    } else {
        spec_read_counted(4, start, rem)
    }
}

/// What `read_varint2(start, rem)` returns.
pub open spec fn spec_read_varint2(start: u8, rem: Seq<u8>) -> Option<(int, Seq<u8>)> {
    spec_read_counted(3, start, rem)
}

proof fn lemma_pow256_pos(k: nat)
    ensures
        pow256(k) >= 1,
    decreases k,
{
    if k > 0 {
        lemma_pow256_pos((k - 1) as nat);
    }
}

proof fn lemma_big_endian_bound(acc: int, bytes: Seq<u8>, unit: int)
    requires
        0 <= acc < unit,
    ensures
        0 <= big_endian(acc, bytes) < unit * pow256(bytes.len()),
    decreases bytes.len(),
{
    if bytes.len() > 0 {
        lemma_big_endian_bound(acc, bytes.drop_last(), unit);
        let x = big_endian(acc, bytes.drop_last());
        let p = pow256((bytes.len() - 1) as nat);
        assert(x * 256 + 255 < unit * p * 256) by (nonlinear_arith)
            requires
                x < unit * p,
                0 <= x,
        ;
        assert(unit * p * 256 == unit * pow256(bytes.len())) by (nonlinear_arith)
            requires
                pow256(bytes.len()) == 256 * p,
        ;
    }
}

/// What a read gives back: a value below 2^28, and a suffix of the input.
pub proof fn lemma_read_bound(bits: nat, start: u8, rem: Seq<u8>)
    requires
        bits == 3 || bits == 4,
    ensures
        spec_read_counted(bits, start, rem) matches Some((x, r)) ==> 0 <= x < 0x1000_0000
            && r.len() <= rem.len(),
{
    let unit: int = if bits == 4 { 16 } else { 8 };
    let count = (start as int / unit) % 4;
    if rem.len() >= count {
        lemma_big_endian_bound(start as int % unit, rem.take(count), unit);
        reveal_with_fuel(pow256, 4);
        assert(pow256(rem.take(count).len()) <= 0x100_0000);
        assert(unit * pow256(rem.take(count).len()) <= 0x1000_0000) by (nonlinear_arith)
            requires
                unit <= 16,
                0 <= unit,
                pow256(rem.take(count).len()) <= 0x100_0000,
        ;
    }
}

fn read_counted(start: u8, remainder: &[u8], bits: u8) -> (res: Option<(usize, &[u8])>)
    requires
        bits == 3 || bits == 4,
    ensures
        match spec_read_counted(bits as nat, start, remainder@) {
            Some((v, r)) => res matches Some((rv, rr)) && rv == v && rr@ == r,
            None => res is None,
        },
{
    let unit: u8 = if bits == 4 { 16 } else { 8 };
    let mut value: usize = (start % unit) as usize;
    let mut count: u8 = (start / unit) % 4;
    let ghost total = count;
    let mut rest = remainder;
    let ghost mut i: int = 0;
    proof {
        assert(remainder@.take(0).len() == 0);
        assert(rest@ =~= remainder@.skip(0));
    }
    while count > 0
        invariant
            unit == (if bits == 4 { 16int } else { 8int }),
            total == (start as int / unit as int) % 4,
            count + i == total,
            0 <= i <= total <= 3,
            i <= remainder@.len(),
            rest@ == remainder@.skip(i),
            value as int == big_endian(start as int % unit as int, remainder@.take(i)),
            value < unit * pow256(i as nat),
        decreases count,
    {
        if rest.len() == 0 {
            return None;
        }
        let (head, tail) = rest.split_at(1);
        let next = head[0];
        proof {
            assert(next == remainder@[i]);
            assert(remainder@.take(i + 1).drop_last() =~= remainder@.take(i));
            lemma_pow256_pos(i as nat);
            assert(pow256((i + 1) as nat) == 256 * pow256(i as nat));
            reveal_with_fuel(pow256, 3);
            assert(pow256(i as nat) <= 0x1_0000);
            assert(value * 256 + next < 0x1000_0000) by (nonlinear_arith)
                requires
                    value < unit * pow256(i as nat),
                    unit <= 16,
                    pow256(i as nat) <= 0x1_0000,
                    next < 256,
            ;
            assert(value * 256 + next < unit * pow256((i + 1) as nat)) by (nonlinear_arith)
                requires
                    value < unit * pow256(i as nat),
                    next < 256,
                    pow256((i + 1) as nat) == 256 * pow256(i as nat),
            ;
        }
        value = value * 256 + next as usize;
        rest = tail;
        count -= 1;
        proof {
            assert(rest@ =~= remainder@.skip(i + 1));
            i = i + 1;
        }
    }
    Some((value, rest))
}

/// Reads a varint of the 4-bit form with lead byte `start` from the front of `remainder`:
/// the long layout when the lead byte has bit `0b00100000` set, else a 4-bit lead value and
/// the trail bytes its count gives. Returns the value and the bytes after the varint, or
/// `None` if `remainder` is too short.
pub fn read_varint(start: u8, remainder: &[u8]) -> (res: Option<(usize, &[u8])>)
    ensures
        match spec_read_varint(start, remainder@) {
            Some((v, r)) => res matches Some((rv, rr)) && rv == v && rr@ == r,
            None => res is None,
        },
{
    if (start / 32) % 2 == 1 {
        crate::varint::read_varint(start, remainder)
    } else {
        read_counted(start, remainder, 4)
    }
}

/// Reads a varint with a 3-bit lead value `start` and up to three trail bytes at the front
/// of `remainder`. Returns the value and the bytes after the varint, or `None` if
/// `remainder` is too short.
pub fn read_varint2(start: u8, remainder: &[u8]) -> (res: Option<(usize, &[u8])>)
    ensures
        match spec_read_varint2(start, remainder@) {
            Some((v, r)) => res matches Some((rv, rr)) && rv == v && rr@ == r,
            None => res is None,
        },
{
    read_counted(start, remainder, 3)
}

} // verus!

verus! {

/// `value` is written by a writer whose lead holds values below `unit` with exactly `t`
/// trail bytes.
pub open spec fn is_byte_count(value: int, unit: int, t: nat) -> bool {
    &&& value < unit * pow256(t)
    &&& (t == 0 || value >= unit * pow256((t - 1) as nat))
}

/// The varint a writer with lead values below `unit` produces for `value` with `t` trail
/// bytes: the high part and the trail count (shifted past the value bits, and truncated to a
/// byte) in the lead, then the low bytes big-endian.
pub open spec fn counted_bytes(value: int, unit: int, t: nat) -> Seq<u8> {
    Seq::new(
        t + 1,
        |j: int|
            if j == 0 {
                (value / pow256(t) + (t * unit) % 256) as u8
            } else {
                ((value / pow256((t - j) as nat)) % 256) as u8
            },
    )
}

proof fn lemma_or_lead(v: u8, x: u8)
    requires
        v < 16,
        x % 16 == 0 || (v < 8 && x % 8 == 0),
    ensures
        v | x == v + x,
{
    assert(v < 16 && x % 16 == 0 ==> v | x == v + x) by (bit_vector);
    assert(v < 8 && x % 8 == 0 ==> v | x == v + x) by (bit_vector);
}

proof fn lemma_pow256_8()
    ensures
        pow256(8) > usize::MAX,
        pow256(3) == 0x100_0000,
{
    reveal_with_fuel(pow256, 9);
    assert(pow256(8) == 0x1_0000_0000_0000_0000);
}

pub(crate) proof fn lemma_big_endian_digits(d: int, t: nat, s: Seq<u8>, j: nat)
    requires
        0 <= d,
        s.len() == t,
        j <= t,
        forall|m: int| 0 <= m < t ==> #[trigger] s[m] == (d / pow256((t - 1 - m) as nat)) % 256,
    ensures
        big_endian(d / pow256(t), s.take(j as int)) == d / pow256((t - j) as nat),
    decreases j,
{
    if j == 0 {
        assert(s.take(0).len() == 0);
    } else {
        let jj = (j - 1) as nat;
        lemma_big_endian_digits(d, t, s, jj);
        assert(s.take(j as int).drop_last() =~= s.take(jj as int));
        let p = pow256((t - j) as nat);
        lemma_pow256_pos((t - j) as nat);
        assert(pow256((t - jj) as nat) == 256 * p);
        let y = d / p;
        lemma_div_denominator(d, p, 256);
        lemma_fundamental_div_mod(y, 256);
    }
}

fn write_counted(value: usize, bits: u8) -> (res: ConstArrayBuilder<MAX_VARINT_LENGTH, u8>)
    requires
        bits == 3 || bits == 4,
    ensures
        ({
            let unit: int = if bits == 4 { 16 } else { 8 };
            let t = (res.view().len() - 1) as nat;
            &&& 1 <= res.view().len() <= MAX_VARINT_LENGTH
            &&& res.spec_limit() == MAX_VARINT_LENGTH
            &&& is_byte_count(value as int, unit, t)
            &&& res.view() == counted_bytes(value as int, unit, t)
            &&& value < unit * pow256(3) ==> spec_read_counted(
                bits as nat,
                res.view()[0],
                res.view().drop_first(),
            ) == Some((value as int, Seq::<u8>::empty()))
        }),
{
    let unit: usize = if bits == 4 { 16 } else { 8 };
    let mut result = [0u8; MAX_VARINT_LENGTH];
    let mut i: usize = MAX_VARINT_LENGTH - 1;
    let mut v = value;
    let ghost mut t: nat = 0;
    proof {
        lemma_pow256_8();
    }
    loop
        invariant_except_break
            unit == (if bits == 4 { 16int } else { 8int }),
            t <= 8,
            i == 9 - t,
            v as int == value as int / pow256(t),
            t > 0 ==> value >= unit * pow256((t - 1) as nat),
            pow256(8) > usize::MAX,
            forall|j: int| 0 <= j <= i ==> result@[j] == 0,
            forall|j: int|
                i < j <= 9 ==> #[trigger] result@[j] == (value as int / pow256((9 - j) as nat))
                    % 256,
        ensures
            unit == (if bits == 4 { 16int } else { 8int }),
            t <= 8,
            i == 9 - t,
            is_byte_count(value as int, unit as int, t),
            forall|j: int| 0 <= j < i ==> result@[j] == 0,
            result@[i as int] == value as int / pow256(t) + (t * unit) % 256,
            forall|j: int|
                i < j <= 9 ==> #[trigger] result@[j] == (value as int / pow256((9 - j) as nat))
                    % 256,
        decreases 9 - t,
    {
        proof {
            lemma_pow256_pos(t);
            lemma_pow256_pos(t + 1);
            assert(pow256(t + 1) == 256 * pow256(t));
            lemma_div_denominator(value as int, pow256(t), 256);
        }
        result[i] = (v % 256) as u8;
        if v < unit {
            proof {
                let x = ((9 - i) * unit % 256) as u8;
                assert(x % (unit as u8) == 0) by (nonlinear_arith)
                    requires
                        x == ((9 - i) * unit) % 256,
                        unit == 16 || unit == 8,
                ;
                lemma_or_lead((v % 256) as u8, x);
                lemma_small_mod(v as nat, 256);
                lemma_fundamental_div_mod(value as int, pow256(t));
                lemma_mod_bound(value as int, pow256(t));
                assert(value < unit * pow256(t)) by (nonlinear_arith)
                    requires
                        value == pow256(t) * v + value as int % pow256(t),
                        value as int % pow256(t) < pow256(t),
                        v < unit,
                ;
            }
            result[i] = result[i] | ((((MAX_VARINT_LENGTH - i - 1) * unit) % 256) as u8);
            break;
        }
        proof {
            lemma_fundamental_div_mod(value as int, pow256(t));
            lemma_mod_bound(value as int, pow256(t));
            assert(value >= unit * pow256(t)) by (nonlinear_arith)
                requires
                    value == pow256(t) * v + value as int % pow256(t),
                    value as int % pow256(t) >= 0,
                    v >= unit,
            ;
            if t >= 8 {
                lemma_pow256_8();
                assert(unit * pow256(t) >= pow256(8)) by (nonlinear_arith)
                    requires
                        unit >= 8,
                        t == 8,
                        pow256(t) >= 1,
                ;
            }
        }
        v = v / 256;
        i -= 1;
        proof {
            t = t + 1;
        }
    }
    let res = ConstArrayBuilder::from_manual_slice(result, i, MAX_VARINT_LENGTH);
    proof {
        let view = res.view();
        let u = unit as int;
        assert(view =~= counted_bytes(value as int, u, t)) by {
            assert forall|j: int| 0 <= j < t + 1 implies view[j] == counted_bytes(
                value as int,
                u,
                t,
            )[j] by {
                assert(view[j] == result@[i + j]);
            }
        }
        if value < u * pow256(3) {
            if t >= 4 {
                lemma_pow256_pos(3);
                assert(pow256(t) >= 256 * pow256(3)) by {
                    lemma_pow256_pos((t - 1) as nat);
                    if t > 4 {
                        assert(pow256(t) == 256 * pow256((t - 1) as nat));
                        assert(pow256((t - 1) as nat) >= pow256(3)) by {
                            lemma_pow_mono(3, (t - 1) as nat);
                        }
                    }
                }
                assert(pow256((t - 1) as nat) >= pow256(3)) by {
                    lemma_pow_mono(3, (t - 1) as nat);
                }
                assert(u * pow256((t - 1) as nat) >= u * pow256(3)) by (nonlinear_arith)
                    requires
                        pow256((t - 1) as nat) >= pow256(3),
                        u >= 0,
                ;
            }
            assert(t <= 3);
            let q = value as int / pow256(t);
            lemma_pow256_pos(t);
            lemma_div_pos_is_pos(value as int, pow256(t));
            lemma_multiply_divide_lt(value as int, pow256(t), u);
            assert((t * u) % 256 == t * u) by {
                lemma_small_mod((t * u) as nat, 256);
            }
            assert(view[0] as int == q + t * u);
            lemma_fundamental_div_mod_converse_div(view[0] as int, u, t as int, q);
            lemma_fundamental_div_mod_converse_mod(view[0] as int, u, t as int, q);
            let trail = view.drop_first();
            assert forall|m: int| 0 <= m < t implies #[trigger] trail[m] == (value as int
                / pow256((t - 1 - m) as nat)) % 256 by {
                assert(trail[m] == view[m + 1]);
            }
            lemma_big_endian_digits(value as int, t, trail, t);
            assert(trail.take(t as int) =~= trail);
            assert(trail.skip(t as int) =~= Seq::<u8>::empty());
        }
    }
    res
}

proof fn lemma_pow_mono(j: nat, k: nat)
    requires
        j <= k,
    ensures
        pow256(j) <= pow256(k),
    decreases k - j,
{
    if j < k {
        lemma_pow_mono(j, (k - 1) as nat);
        lemma_pow256_pos((k - 1) as nat);
    }
}

/// The bytes `write_varint` gives for `value`: the short layout with no trail byte below
/// 16 and one trail byte below 4096, else the long layout of `crate::varint`.
pub open spec fn varintx_bytes(value: int) -> Seq<u8> {
    if value < 16 {
        counted_bytes(value, 16, 0)
    } else if value < 4096 {
        counted_bytes(value, 16, 1)
    } else {
        crate::varint::varint_bytes(value)
    }
}

/// Writes `value` as a varint of the 4-bit form into the end of an array: below 4096 a lead
/// byte with the trail count and the high 4 bits, then the low byte if needed; from 4096 on
/// the long layout of `crate::varint`. Every value reads back with `read_varint`.
pub fn write_varint(value: usize) -> (res: ConstArrayBuilder<MAX_VARINT_LENGTH, u8>)
    ensures
        1 <= res.view().len() <= MAX_VARINT_LENGTH,
        res.spec_limit() == MAX_VARINT_LENGTH,
        res.view() == varintx_bytes(value as int),
        spec_read_varint(res.view()[0], res.view().drop_first()) == Some(
            (value as int, Seq::<u8>::empty()),
        ),
{
    proof {
        lemma_pow256_8();
    }
    if value < 4096 {
        let res = write_counted(value, 4);
        proof {
            let t = (res.view().len() - 1) as nat;
            reveal_with_fuel(pow256, 3);
            if t >= 2 {
                lemma_pow_mono(1, (t - 1) as nat);
                assert(16 * pow256((t - 1) as nat) >= 4096) by (nonlinear_arith)
                    requires
                        pow256((t - 1) as nat) >= 256,
                ;
            }
            assert(t <= 1);
            let b0 = res.view()[0];
            if t == 0 {
                assert(value < 16);
                assert(b0 == value as u8);
            } else {
                assert(value >= 16);
                assert(value as int / 256 < 16);
                assert(b0 as int == value as int / 256 + 16);
            }
            assert(b0 < 32);
            assert(!long_form(b0));
        }
        res
    } else {
        let (len, bytes) = crate::varint::write_varint(value);
        let start = MAX_VARINT_LENGTH - len;
        let mut result = [0u8; MAX_VARINT_LENGTH];
        let mut k: usize = 0;
        while k < len
            invariant
                1 <= len <= MAX_VARINT_LENGTH,
                start == MAX_VARINT_LENGTH - len,
                k <= len,
                result@.len() == MAX_VARINT_LENGTH,
                forall|j: int| 0 <= j < k ==> result@[start + j] == bytes@[j],
            decreases len - k,
        {
            result[start + k] = bytes[k];
            k += 1;
        }
        let res = ConstArrayBuilder::from_manual_slice(result, start, MAX_VARINT_LENGTH);
        proof {
            let view = res.view();
            assert(view =~= bytes@.subrange(0, len as int));
            reveal_with_fuel(crate::varint::latent, 2);
            assert(len >= 2);
            let b0 = bytes@[0];
            let rest = bytes@.subrange(1, len as int);
            assert(view.drop_first() =~= rest);
            if !crate::varint::lead_extends(b0) {
                assert(crate::varint::spec_read_varint(b0, rest) == Some((
                    crate::varint::lead_bits(b0) as usize,
                    rest,
                )));
                assert(rest.len() > 0);
            }
            assert(long_form(b0));
        }
        res
    }
}

/// Writes `value` as a varint whose lead byte holds a 2-bit trail count and 3 value bits,
/// into the end of an array. Values below 2^27 read back with `read_varint2`; for larger
/// values the trail count does not fit its field.
pub fn write_varint2(value: usize) -> (res: ConstArrayBuilder<MAX_VARINT_LENGTH, u8>)
    ensures
        1 <= res.view().len() <= MAX_VARINT_LENGTH,
        res.spec_limit() == MAX_VARINT_LENGTH,
        is_byte_count(value as int, 8, (res.view().len() - 1) as nat),
        res.view() == counted_bytes(value as int, 8, (res.view().len() - 1) as nat),
        value < 0x800_0000 ==> spec_read_varint2(res.view()[0], res.view().drop_first())
            == Some((value as int, Seq::<u8>::empty())),
{
    proof {
        lemma_pow256_8();
    }
    write_counted(value, 3)
}

} // verus!
