//! Varint with a 5-bit lead:
//!
//! - Lead byte: top 3 bits are trie metadata; the low 5 bits hold the value, or all ones
//!   when trail bytes follow
//! - Trail bytes: top bit is varint extender; the low 7 bits are big-endian digits of the
//!   value minus 31

use crate::const_util::ConstArrayBuilder;
use crate::varint::{
    lemma_pow128_pos, lemma_trail_len_prefix, lemma_wrapping_add, lemma_wrapping_mul,
    lemma_or_bits, pow128, trail_len, usize_range,
};
use vstd::arithmetic::div_mod::*;
use vstd::prelude::*;

verus! {

/// The lead value that announces trail bytes.
pub const X_5BIT: u8 = 0b00011111;

/// The longest varint `write_varintb_5bits` produces.
pub const MAX_VARINT_LENGTH: usize = 11;

/// The trail bytes read as big-endian base-128 digits, in unbounded arithmetic.
pub open spec fn trail_digits(trail: Seq<u8>) -> int
    decreases trail.len(),
{
    if trail.len() == 0 {
        0
    } else {
        trail_digits(trail.drop_last()) * 128 + (trail.last() % 128) as int
    }
}

/// What `read_varintb_5bits(start, rem)` returns: the decoded value (modulo the range of
/// `usize`) and the bytes after the varint, or `None` when the trail is cut short.
pub open spec fn spec_read_varintb(start: u8, rem: Seq<u8>) -> Option<(usize, Seq<u8>)> {
    if start % 32 != 31 {
        Some(((start % 32) as usize, rem))
    } else {
        match trail_len(rem) {
            Some(n) => Some(
                (
                    ((trail_digits(rem.take(n as int)) + 31) % usize_range()) as usize,
                    rem.skip(n as int),
                ),
            ),
            None => None,
        }
    }
}

proof fn lemma_trail_digits_nonneg(trail: Seq<u8>)
    ensures
        0 <= trail_digits(trail),
    decreases trail.len(),
{
    if trail.len() > 0 {
        lemma_trail_digits_nonneg(trail.drop_last());
    }
}

proof fn lemma_digits_step_mod(a: int, b: int)
    requires
        0 <= a,
        0 <= b < 128,
    ensures
        ((a % usize_range()) * 128 % usize_range() + b) % usize_range() == (a * 128 + b)
            % usize_range(),
{
    crate::varint::lemma_step_mod(a, b);
}

/// The number of base-128 digits of `d`, at least one: `k` with `d < 128^k`, and
/// `d >= 128^(k - 1)` when `k` is 2 or more.
pub open spec fn is_digit_count(d: int, k: nat) -> bool {
    &&& k >= 1
    &&& 0 <= d < pow128(k)
    &&& k >= 2 ==> d >= pow128((k - 1) as nat)
}

/// The bytes of the varint of `value`: the value itself below 31; else the lead value 31,
/// then the base-128 digits of `value - 31`, most significant first, each but the last
/// with its top bit set.
pub open spec fn varintb_bytes(value: int) -> Seq<u8> {
    if value < 31 {
        seq![value as u8]
    } else {
        let d = value - 31;
        let k = choose|k: nat| is_digit_count(d, k);
        seq![31u8] + Seq::new(
            k,
            |m: int| ((d / pow128((k - 1 - m) as nat)) % 128 + if m < k - 1 { 128int } else { 0int }) as u8,
        )
    }
}

proof fn lemma_digit_count_unique(d: int, j: nat, k: nat)
    requires
        is_digit_count(d, j),
        is_digit_count(d, k),
    ensures
        j == k,
{
    if j < k {
        lemma_pow128_mono(j, (k - 1) as nat);
    } else if k < j {
        lemma_pow128_mono(k, (j - 1) as nat);
    }
}

proof fn lemma_pow128_mono(a: nat, b: nat)
    requires
        a <= b,
    ensures
        pow128(a) <= pow128(b),
    decreases b - a,
{
    if a < b {
        lemma_pow128_mono(a, (b - 1) as nat);
        lemma_pow128_pos((b - 1) as nat);
        assert(pow128(b) == 128 * pow128((b - 1) as nat));
    }
}

/// Reads a varint with a 5-bit lead byte `start` and trail bytes at the front of
/// `remainder`. Returns the value and the bytes after the varint, or `None` if `remainder`
/// ends before the varint does. A value too large for `usize` wraps around.
pub fn read_varintb_5bits(start: u8, remainder: &[u8]) -> (res: Option<(usize, &[u8])>)
    ensures
        match spec_read_varintb(start, remainder@) {
            Some((v, r)) => res matches Some((rv, rr)) && rv == v && rr@ == r,
            None => res is None,
        },
{
    let initial = start % 32;
    let mut rest = remainder;
    let mut value: usize = 0;
    if initial == X_5BIT {
        let ghost orig = rest@;
        let ghost mut i: int = 0;
        proof {
            assert(orig.take(0).len() == 0);
            assert(trail_digits(orig.take(0)) == 0);
            lemma_small_mod(0, usize_range() as nat);
            assert(rest@ =~= orig.skip(0));
        }
        loop
            invariant
                0 <= i < orig.len() || (i == orig.len() && rest@.len() == 0),
                rest@ == orig.skip(i),
                orig == remainder@,
                forall|j: int| 0 <= j < i ==> orig[j] >= 128,
                value as int == trail_digits(orig.take(i)) % usize_range(),
                initial == 31,
                start % 32 == 31,
            decreases rest@.len(),
        {
            if rest.len() == 0 {
                proof {
                    if i == 0 {
                        assert(trail_len(orig) is None);
                    } else {
                        lemma_trail_len_prefix(orig, i - 1);
                    }
                }
                return None;
            }
            let (head, tail) = rest.split_at(1);
            let next = head[0];
            let low: usize = (next % 128) as usize;
            proof {
                assert(next == orig[i]);
                lemma_trail_digits_nonneg(orig.take(i));
                lemma_digits_step_mod(trail_digits(orig.take(i)), low as int);
                assert(orig.take(i + 1).drop_last() =~= orig.take(i));
                lemma_wrapping_mul(value, 128);
                lemma_wrapping_add(value.wrapping_mul(128), low);
            }
            value = value.wrapping_mul(128).wrapping_add(low);
            rest = tail;
            proof {
                assert(rest@ =~= orig.skip(i + 1));
            }
            if next < 128 {
                proof {
                    lemma_trail_len_prefix(orig, i);
                    lemma_trail_digits_nonneg(orig.take(i + 1));
                    lemma_wrapping_add(value, 31);
                    lemma_add_mod_noop(trail_digits(orig.take(i + 1)), 31, usize_range());
                    lemma_small_mod(31, usize_range() as nat);
                    lemma_mod_twice(trail_digits(orig.take(i + 1)) + 31, usize_range());
                }
                value = value.wrapping_add(initial as usize);
                return Some((value, rest));
            }
            proof {
                i = i + 1;
            }
        }
    }
    value = value + initial as usize;
    Some((value, rest))
}

} // verus!

verus! {

proof fn lemma_digits(d: int, k: nat, t: Seq<u8>, j: nat)
    requires
        0 <= d < pow128(k),
        t.len() == k,
        j <= k,
        forall|m: int| 0 <= m < k ==> #[trigger] t[m] % 128 == (d / pow128((k - 1 - m) as nat)) % 128,
    ensures
        trail_digits(t.take(j as int)) == d / pow128((k - j) as nat),
    decreases j,
{
    lemma_pow128_pos(k);
    if j == 0 {
        assert(t.take(0).len() == 0);
        lemma_basic_div(d, pow128(k));
    } else {
        let jj = (j - 1) as nat;
        lemma_digits(d, k, t, jj);
        assert(t.take(j as int).drop_last() =~= t.take(jj as int));
        let p = pow128((k - j) as nat);
        lemma_pow128_pos((k - j) as nat);
        assert(pow128((k - jj) as nat) == 128 * p);
        let y = d / p;
        lemma_div_denominator(d, p, 128);
        lemma_fundamental_div_mod(y, 128);
        assert(t[jj as int] % 128 == y % 128);
    }
}

proof fn lemma_pow128_10()
    ensures
        pow128(10) > usize::MAX,
{
    reveal_with_fuel(pow128, 11);
    assert(pow128(10) == 0x40_0000_0000_0000_0000);
}

/// Writes `value` as a varint with a 5-bit lead byte, into the end of an array.
///
/// The varint uses as few trail bytes as `value` needs, leaves the three metadata bits of
/// the lead byte clear, and reads back as `value`.
pub fn write_varintb_5bits(value: usize) -> (res: ConstArrayBuilder<MAX_VARINT_LENGTH, u8>)
    ensures
        res.view().len() >= 1,
        res.spec_limit() == MAX_VARINT_LENGTH,
        value < 31 ==> res.view() == seq![value as u8],
        value >= 31 ==> res.view()[0] == X_5BIT && res.view().len() >= 2 && (res.view().len()
            == 2 || res.view()[1] != 128),
        spec_read_varintb(res.view()[0], res.view().drop_first()) == Some(
            (value, Seq::<u8>::empty()),
        ),
        res.view() == varintb_bytes(value as int),
{
    let mut result = [0u8; MAX_VARINT_LENGTH];
    let mut i: usize = MAX_VARINT_LENGTH - 1;
    if value < X_5BIT as usize {
        result[i] = value as u8;
        let res = ConstArrayBuilder::from_manual_slice(result, i, MAX_VARINT_LENGTH);
        proof {
            assert(res.view() =~= seq![value as u8]);
            assert(res.view().drop_first() =~= Seq::<u8>::empty());
            lemma_small_mod(value as nat, 32);
        }
        return res;
    }
    let ghost dd = value - 31;
    let mut v = value - X_5BIT as usize;
    let mut last = true;
    let ghost mut c: nat = 0;
    proof {
        lemma_pow128_10();
    }
    loop
        invariant_except_break
            c <= 9,
            i == 10 - c,
            0 <= dd <= usize::MAX,
            pow128(10) > usize::MAX,
            v as int == dd / pow128(c),
            last == (c == 0),
            c > 0 ==> v > 0,
            forall|j: int| 0 <= j <= i ==> result@[j] == 0,
            forall|j: int|
                #![trigger result@[j]]
                i < j <= 10 ==> result@[j] % 128 == (dd / pow128((10 - j) as nat)) % 128 && (
                result@[j] >= 128 <==> j < 10),
        ensures
            1 <= c <= 10,
            i == 10 - c,
            0 <= dd < pow128(c),
            c >= 2 ==> dd >= pow128((c - 1) as nat),
            forall|j: int| 0 <= j <= i ==> result@[j] == 0,
            forall|j: int|
                #![trigger result@[j]]
                i < j <= 10 ==> result@[j] % 128 == (dd / pow128((10 - j) as nat)) % 128 && (
                result@[j] >= 128 <==> j < 10),
        decreases 10 - c,
    {
        proof {
            lemma_pow128_pos(c);
            lemma_pow128_pos(c + 1);
            assert(pow128(c + 1) == 128 * pow128(c));
            lemma_div_denominator(dd, pow128(c), 128);
            lemma_or_bits((v % 128) as u8);
            if c > 0 {
                lemma_div_pos_is_pos(dd, pow128(c));
            }
        }
        result[i] = (v % 128) as u8;
        if !last {
            result[i] = result[i] | 0x80;
        } else {
            last = false;
        }
        v = v / 128;
        i -= 1;
        proof {
            c = c + 1;
        }
        if v == 0 {
            proof {
                if dd >= pow128(c) {
                    lemma_div_is_ordered(pow128(c), dd, pow128(c));
                    lemma_div_by_self(pow128(c));
                }
                if c >= 2 && dd < pow128((c - 1) as nat) {
                    lemma_basic_div(dd, pow128((c - 1) as nat));
                }
            }
            break;
        }
        proof {
            if c >= 10 {
                lemma_div_pos_is_pos(dd, pow128(c));
                if dd < pow128(c) {
                    lemma_basic_div(dd, pow128(c));
                }
            }
        }
    }
    result[i] = X_5BIT;
    let res = ConstArrayBuilder::from_manual_slice(result, i, MAX_VARINT_LENGTH);
    proof {
        let view = res.view();
        let trail = view.drop_first();
        let k = c;
        assert(trail.len() == k);
        assert forall|m: int| 0 <= m < k implies #[trigger] trail[m] % 128 == (dd / pow128(
            (k - 1 - m) as nat,
        )) % 128 && (trail[m] >= 128 <==> m < k - 1) by {
            assert(trail[m] == result@[i + 1 + m]);
        }
        assert forall|j: int| 0 <= j < k - 1 implies trail[j] >= 128 by {
            assert(trail[j] == result@[i + 1 + j]);
        }
        lemma_trail_len_prefix(trail, k - 1);
        lemma_digits(dd, k, trail, k);
        assert(trail.take(k as int) =~= trail);
        assert(trail.skip(k as int) =~= Seq::<u8>::empty());
        lemma_small_mod(value as nat, usize_range() as nat);
        if k >= 2 {
            let p = pow128((k - 1) as nat);
            lemma_pow128_pos((k - 1) as nat);
            assert(pow128(k) == 128 * p);
            lemma_div_pos_is_pos(dd, p);
            lemma_multiply_divide_lt(dd, p, 128);
            assert(dd / p >= 1) by {
                lemma_div_is_ordered(p, dd, p);
                lemma_div_by_self(p);
            }
            lemma_small_mod((dd / p) as nat, 128);
            assert(trail[0] % 128 == dd / p);
        }
        assert(is_digit_count(dd, k));
        let kk = choose|kk: nat| is_digit_count(dd, kk);
        lemma_digit_count_unique(dd, k, kk);
        let vb = varintb_bytes(value as int);
        assert forall|m: int| 0 <= m < k implies #[trigger] trail[m] == vb[m + 1] by {
            let digit = (dd / pow128((k - 1 - m) as nat)) % 128;
            assert(trail[m] % 128 == digit);
            if m < k - 1 {
                assert(trail[m] >= 128);
            } else {
                assert(trail[m] < 128);
            }
        }
        assert(view =~= vb);
    }
    res
}

/// Reads a varint with a 5-bit lead byte `start` and trail bytes at the front of the
/// bytes in use of `remainder`, which must hold the whole varint.
pub fn read_varintb_5bits_from_store_or_panic<const N: usize>(
    start: u8,
    remainder: ConstArrayBuilder<N, u8>,
) -> (res: (usize, ConstArrayBuilder<N, u8>))
    requires
        spec_read_varintb(start, remainder.view()) is Some,
    ensures
        spec_read_varintb(start, remainder.view()) == Some((res.0, res.1.view())),
{
    let initial = start % 32;
    let mut rest = remainder;
    let mut value: usize = 0;
    if initial == X_5BIT {
        let ghost orig = rest.view();
        let ghost mut i: int = 0;
        proof {
            assert(orig.take(0).len() == 0);
            assert(trail_digits(orig.take(0)) == 0);
            lemma_small_mod(0, usize_range() as nat);
            assert(rest.view() =~= orig.skip(0));
        }
        loop
            invariant
                0 <= i < orig.len(),
                rest.view() == orig.skip(i),
                orig == remainder.view(),
                forall|j: int| 0 <= j < i ==> orig[j] >= 128,
                value as int == trail_digits(orig.take(i)) % usize_range(),
                initial == 31,
                start % 32 == 31,
                trail_len(orig) is Some,
            decreases orig.len() - i,
        {
            let (next, tail) = rest.split_first_or_panic();
            let low: usize = (next % 128) as usize;
            proof {
                assert(next == orig[i]);
                lemma_trail_digits_nonneg(orig.take(i));
                lemma_digits_step_mod(trail_digits(orig.take(i)), low as int);
                assert(orig.take(i + 1).drop_last() =~= orig.take(i));
                lemma_wrapping_mul(value, 128);
                lemma_wrapping_add(value.wrapping_mul(128), low);
            }
            value = value.wrapping_mul(128).wrapping_add(low);
            rest = tail;
            proof {
                assert(rest.view() =~= orig.skip(i + 1));
            }
            if next < 128 {
                proof {
                    lemma_trail_len_prefix(orig, i);
                    lemma_trail_digits_nonneg(orig.take(i + 1));
                    lemma_wrapping_add(value, 31);
                    lemma_add_mod_noop(trail_digits(orig.take(i + 1)), 31, usize_range());
                    lemma_small_mod(31, usize_range() as nat);
                    lemma_mod_twice(trail_digits(orig.take(i + 1)) + 31, usize_range());
                }
                value = value.wrapping_add(initial as usize);
                return (value, rest);
            }
            proof {
                if i + 1 == orig.len() {
                    lemma_trail_len_prefix(orig, i);
                }
                i = i + 1;
            }
        }
    }
    value = value + initial as usize;
    (value, rest)
}

} // verus!
