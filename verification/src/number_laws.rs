//! Laws of numbers: what their encodings stand for, and how floats compare with
//! floats and with integers.

use vstd::arithmetic::power2::lemma2_to64;
use vstd::arithmetic::power2::lemma2_to64_rest;
use vstd::arithmetic::power2::lemma_pow2_adds;
use vstd::arithmetic::power2::lemma_pow2_pos;
use vstd::arithmetic::power2::lemma_pow2_strictly_increases;
use vstd::arithmetic::power2::lemma_pow2_unfold;
use vstd::arithmetic::power2::pow2;
use vstd::prelude::*;

use crate::error::Error;
use crate::number::be_uint;
use crate::number::exponent;
use crate::number::lemma_exponent;
use crate::number::nearest_rank;
use crate::number::number_order;
use crate::number::number_value;
use crate::number::significand;
use crate::number::Number;
use crate::order_laws::law_rounding_is_to_nearest;
use crate::order_laws::lemma_significand;
use crate::outcome::Outcome;
use crate::wire::u32_at;

verus! {

/// One more byte is one more digit.
proof fn lemma_next_digit(bytes: Seq<u8>, k: int)
    requires
        0 <= k < bytes.len(),
    ensures
        be_uint(bytes.take(k + 1)) == be_uint(bytes.take(k)) * 256 + bytes[k],
{
    assert(bytes.take(k + 1).drop_last() =~= bytes.take(k));
}

/// The digits of a number, most significant first.
proof fn lemma_digits(bytes: Seq<u8>)
    ensures
        bytes.len() == 1 ==> be_uint(bytes) == bytes[0],
        bytes.len() == 2 ==> be_uint(bytes) == bytes[0] * 256 + bytes[1],
        bytes.len() == 4 ==> be_uint(bytes) == u32_at(bytes, 0),
        bytes.len() == 8 ==> be_uint(bytes) == u32_at(bytes, 0) * 0x1_0000_0000 + u32_at(bytes, 4),
{
    assert(bytes.take(bytes.len() as int) =~= bytes);
    assert(bytes.take(0) =~= Seq::empty());
    if bytes.len() > 0 {
        lemma_next_digit(bytes, 0);
    }
    if bytes.len() > 1 {
        lemma_next_digit(bytes, 1);
    }
    if bytes.len() >= 4 {
        lemma_next_digit(bytes, 2);
        lemma_next_digit(bytes, 3);
    }
    if bytes.len() == 8 {
        lemma_next_digit(bytes, 4);
        lemma_next_digit(bytes, 5);
        lemma_next_digit(bytes, 6);
        lemma_next_digit(bytes, 7);
    }
}

/// The bytes of an unsigned integer spell its value, most significant first, in one,
/// two, four or eight bytes.
pub proof fn law_unsigned_encodings(bytes: Seq<u8>)
    requires
        bytes.len() > 0,
        bytes[0] == 0x50,
    ensures
        bytes.len() == 2 ==> number_value(bytes) == Outcome::Done(Number::UInt64(bytes[1] as u64)),
        bytes.len() == 3 ==> number_value(bytes) == Outcome::Done(
            Number::UInt64((bytes[1] * 256 + bytes[2]) as u64),
        ),
        bytes.len() == 5 ==> number_value(bytes) == Outcome::Done(
            Number::UInt64(u32_at(bytes, 1) as u64),
        ),
        bytes.len() == 9 ==> number_value(bytes) == Outcome::Done(
            Number::UInt64((u32_at(bytes, 1) * 0x1_0000_0000 + u32_at(bytes, 5)) as u64),
        ),
        bytes.len() != 2 && bytes.len() != 3 && bytes.len() != 5 && bytes.len() != 9
            ==> number_value(bytes) == Outcome::<Number>::Failed(Error::InvalidJsonbNumber),
{
    let payload = bytes.skip(1);
    lemma_digits(payload);
    if bytes.len() == 5 || bytes.len() == 9 {
        assert(u32_at(payload, 0) == u32_at(bytes, 1));
    }
    if bytes.len() == 9 {
        assert(u32_at(payload, 4) == u32_at(bytes, 5));
    }
}

/// The bytes of a signed integer spell its value in two's complement: those from the
/// middle of their range on stand for negative numbers.
pub proof fn law_signed_encodings(bytes: Seq<u8>)
    requires
        bytes.len() > 0,
        bytes[0] == 0x40,
    ensures
        bytes.len() == 2 ==> (number_value(bytes) matches Outcome::Done(Number::Int64(v)) && v == (
        if bytes[1] < 0x80 {
            bytes[1] as int
        } else {
            bytes[1] - 0x100
        })),
        bytes.len() == 3 ==> (number_value(bytes) matches Outcome::Done(Number::Int64(v)) && v == (
        if bytes[1] < 0x80 {
            bytes[1] * 256 + bytes[2]
        } else {
            bytes[1] * 256 + bytes[2] - 0x1_0000
        })),
        bytes.len() == 5 ==> (number_value(bytes) matches Outcome::Done(Number::Int64(v)) && v == (
        if u32_at(bytes, 1) < 0x8000_0000 {
            u32_at(bytes, 1) as int
        } else {
            u32_at(bytes, 1) - 0x1_0000_0000
        })),
        bytes.len() == 9 ==> (number_value(bytes) matches Outcome::Done(Number::Int64(v)) && v == (
        if u32_at(bytes, 1) < 0x8000_0000 {
            u32_at(bytes, 1) * 0x1_0000_0000 + u32_at(bytes, 5)
        } else {
            u32_at(bytes, 1) * 0x1_0000_0000 + u32_at(bytes, 5) - 0x1_0000_0000_0000_0000
        })),
        bytes.len() != 2 && bytes.len() != 3 && bytes.len() != 5 && bytes.len() != 9
            ==> number_value(bytes) == Outcome::<Number>::Failed(Error::InvalidJsonbNumber),
{
    let payload = bytes.skip(1);
    lemma_digits(payload);
    lemma2_to64();
    lemma2_to64_rest();
    if bytes.len() == 5 || bytes.len() == 9 {
        assert(u32_at(payload, 0) == u32_at(bytes, 1));
    }
    if bytes.len() == 9 {
        assert(u32_at(payload, 4) == u32_at(bytes, 5));
    }
}

/// The bytes of a float are those of its IEEE 754 encoding. Zero, the infinities and
/// what is not a number have encodings of a single byte, whatever follows it. Any
/// other first byte is an error.
pub proof fn law_other_encodings(bytes: Seq<u8>)
    requires
        bytes.len() > 0,
    ensures
        bytes[0] == 0x60 && bytes.len() == 9 ==> number_value(bytes) == Outcome::Done(
            Number::Float64((u32_at(bytes, 1) * 0x1_0000_0000 + u32_at(bytes, 5)) as u64),
        ),
        bytes[0] == 0x60 && bytes.len() != 9 ==> number_value(bytes) is Undefined,
        bytes[0] == 0x00 ==> number_value(bytes) == Outcome::Done(Number::UInt64(0)),
        bytes[0] == 0x10 ==> number_value(bytes) == Outcome::Done(
            Number::Float64(0x7FF8_0000_0000_0000),
        ),
        bytes[0] == 0x20 ==> number_value(bytes) == Outcome::Done(
            Number::Float64(0x7FF0_0000_0000_0000),
        ),
        bytes[0] == 0x30 ==> number_value(bytes) == Outcome::Done(
            Number::Float64(0xFFF0_0000_0000_0000),
        ),
        bytes[0] != 0x00 && bytes[0] != 0x10 && bytes[0] != 0x20 && bytes[0] != 0x30 && bytes[0]
            != 0x40 && bytes[0] != 0x50 && bytes[0] != 0x60 ==> number_value(bytes) == Outcome::<
            Number,
        >::Failed(Error::InvalidJsonbNumber),
{
    let payload = bytes.skip(1);
    lemma_digits(payload);
    if bytes.len() == 9 {
        assert(u32_at(payload, 0) == u32_at(bytes, 1));
        assert(u32_at(payload, 4) == u32_at(bytes, 5));
    }
}

/// Two floats compare by sign and magnitude: the top bit is the sign, and of positive
/// floats the one with the larger bits is larger. The two zeros are equal. What is not
/// a number is equal to itself and comes after everything else.
pub proof fn law_floats_compare(a: u64, b: u64)
    ensures
        a <= 0x7FF0_0000_0000_0000 && b <= 0x7FF0_0000_0000_0000 ==> {
            &&& number_order(Number::Float64(a), Number::Float64(b)) is Less <==> a < b
            &&& number_order(Number::Float64(a), Number::Float64(b)) is Equal <==> a == b
        },
        0x8000_0000_0000_0000 <= a <= 0xFFF0_0000_0000_0000 && 0x8000_0000_0000_0000 <= b
            <= 0xFFF0_0000_0000_0000 ==> {
            &&& number_order(Number::Float64(a), Number::Float64(b)) is Less <==> a > b
            &&& number_order(Number::Float64(a), Number::Float64(b)) is Equal <==> a == b
        },
        0x8000_0000_0000_0000 <= a <= 0xFFF0_0000_0000_0000 && b <= 0x7FF0_0000_0000_0000 ==> {
            &&& number_order(Number::Float64(a), Number::Float64(b)) is Equal <==> a
                == 0x8000_0000_0000_0000 && b == 0
            &&& number_order(Number::Float64(a), Number::Float64(b)) !is Greater
            &&& number_order(Number::Float64(b), Number::Float64(a)) is Equal <==> a
                == 0x8000_0000_0000_0000 && b == 0
            &&& number_order(Number::Float64(b), Number::Float64(a)) !is Less
        },
        is_nan(a) && is_nan(b) ==> number_order(Number::Float64(a), Number::Float64(b)) is Equal,
        is_nan(a) && !is_nan(b) ==> {
            &&& number_order(Number::Float64(a), Number::Float64(b)) is Greater
            &&& number_order(Number::Float64(b), Number::Float64(a)) is Less
        },
{
}

/// Whether the bits of a float say that it is not a number.
pub open spec fn is_nan(bits: u64) -> bool {
    ||| 0x7FF0_0000_0000_0000 < bits < 0x8000_0000_0000_0000
    ||| 0xFFF0_0000_0000_0000 < bits
}

/// Changing the signs of both sides of a comparison of a negative integer and a negative
/// float turns it round. A negative integer comes before every positive float, and zero
/// compares as a float that is zero.
pub proof fn law_signs_mirror(n: i64, m: u64, bits: u64, negative: u64)
    requires
        0 < m,
        n == -m,
        bits <= 0x7FF0_0000_0000_0000,
        negative == bits + 0x8000_0000_0000_0000,
    ensures
        number_order(Number::Int64(n), Number::Float64(negative)) == number_order(
            Number::Float64(bits),
            Number::UInt64(m),
        ),
        number_order(Number::Int64(n), Number::Float64(bits)) is Less,
        number_order(Number::UInt64(m), Number::Float64(negative)) is Greater,
        number_order(Number::UInt64(0), Number::Float64(bits)) == number_order(
            Number::Float64(0),
            Number::Float64(bits),
        ),
        number_order(Number::UInt64(0), Number::Float64(negative)) == number_order(
            Number::Float64(0),
            Number::Float64(negative),
        ),
{
    lemma_significand(integer_from(m));
}

/// Integers lie between the smallest floats and infinity, and come before what is not a
/// number.
pub proof fn law_integers_are_finite(n: u64, m: i64, bits: u64)
    ensures
        n > 0 && bits < 0x10_0000_0000_0000 ==> number_order(
            Number::UInt64(n),
            Number::Float64(bits),
        ) is Greater,
        number_order(Number::UInt64(n), Number::Float64(0x7FF0_0000_0000_0000)) is Less,
        is_nan(bits) ==> number_order(Number::UInt64(n), Number::Float64(bits)) is Less,
        is_nan(bits) ==> number_order(Number::Int64(m), Number::Float64(bits)) is Less,
{
    lemma_nearest_rank_bound(integer_from(n));
    lemma_nearest_rank_bound(magnitude_of(m));
}

/// The magnitude of an integer.
spec fn magnitude_of(n: i64) -> nat {
    if n < 0 {
        (-n) as nat
    } else {
        n as nat
    }
}

/// No integer of 64 bits has the rank of infinity, and none but zero that of a float
/// below the smallest with a full significand.
proof fn lemma_nearest_rank_bound(n: nat)
    requires
        n < 0x1_0000_0000_0000_0000,
    ensures
        0 <= nearest_rank(n) < 0x7FF0_0000_0000_0000,
        n > 0 ==> nearest_rank(n) >= 0x10_0000_0000_0000,
{
    if n > 0 {
        lemma2_to64();
        lemma2_to64_rest();
        lemma_significand(n);
        lemma_exponent(n, 0);
        if exponent(n) >= 64 {
            if exponent(n) > 64 {
                lemma_pow2_strictly_increases(64, exponent(n));
            }
        }
    }
}

/// A signed integer that is not negative compares like the unsigned integer of the
/// same value.
pub proof fn law_signed_and_unsigned_are_one(n: i64, m: u64, other: Number)
    requires
        n == m,
    ensures
        number_order(Number::Int64(n), other) == number_order(Number::UInt64(m), other),
        number_order(other, Number::Int64(n)) == number_order(other, Number::UInt64(m)),
{
}

/// A finite positive float that is not too small has an exponent and a significand of
/// fifty-three bits, of which the first is not written down. Scaled up by the same
/// power of two, an integer and the value of such a float compare as follows: what is
/// less in the comparison is less in value and what is greater is greater, and up to
/// two to the power of fifty-three the converse holds, so that the comparison is
/// exact.
pub proof fn law_integers_and_floats_compare_by_value(
    n: u64,
    exponent_bits: nat,
    fraction: nat,
    bits: u64,
)
    requires
        n > 0,
        1 <= exponent_bits <= 2046,
        fraction < 0x10_0000_0000_0000,
        bits == exponent_bits * 0x10_0000_0000_0000 + fraction,
    ensures
        number_order(Number::UInt64(n), Number::Float64(bits)) is Less ==> n * pow2(1075) < (
        0x10_0000_0000_0000 + fraction) * pow2(exponent_bits),
        number_order(Number::UInt64(n), Number::Float64(bits)) is Greater ==> n * pow2(1075) > (
        0x10_0000_0000_0000 + fraction) * pow2(exponent_bits),
        n <= 0x20_0000_0000_0000 ==> (number_order(Number::UInt64(n), Number::Float64(bits)) is Less
            <==> n * pow2(1075) < (0x10_0000_0000_0000 + fraction) * pow2(exponent_bits)),
        n <= 0x20_0000_0000_0000 ==> (number_order(Number::UInt64(n), Number::Float64(bits))
            is Equal <==> n * pow2(1075) == (0x10_0000_0000_0000 + fraction) * pow2(exponent_bits)),
{
    lemma_rank_by_value(integer_from(n), exponent_bits, fraction);
}

/// An integer as a natural number.
spec fn integer_from(n: u64) -> nat {
    n as nat
}

/// Scaled significands compare by exponent first.
proof fn lemma_scaled(s: nat, d: nat, f: nat, e: nat)
    requires
        0x10_0000_0000_0000 <= s,
        s <= 0x20_0000_0000_0000,
        0x10_0000_0000_0000 <= f < 0x20_0000_0000_0000,
    ensures
        d < e && s < 0x20_0000_0000_0000 ==> s * pow2(d) < f * pow2(e),
        d < e ==> s * pow2(d) <= f * pow2(e),
        d > e ==> s * pow2(d) > f * pow2(e),
        d == e && s < f ==> s * pow2(d) < f * pow2(e),
        d == e && s > f ==> s * pow2(d) > f * pow2(e),
        d == e && s == f ==> s * pow2(d) == f * pow2(e),
{
    lemma_pow2_pos(d);
    lemma_pow2_pos(e);
    let p = pow2(d);
    let q = pow2(e);
    if d < e {
        lemma_pow2_adds(d, (e - d) as nat);
        lemma_power_at_least_two((e - d) as nat);
        let r = pow2((e - d) as nat);
        assert(2 * p <= q) by (nonlinear_arith)
            requires
                p > 0,
                r >= 2,
                p * r == q,
        ;
        assert(s * p <= 0x20_0000_0000_0000 * p) by (nonlinear_arith)
            requires
                s <= 0x20_0000_0000_0000,
                p > 0,
        ;
        assert(s < 0x20_0000_0000_0000 ==> s * p < 0x20_0000_0000_0000 * p) by (nonlinear_arith)
            requires
                p > 0,
        ;
        assert(f * q >= 0x10_0000_0000_0000 * q) by (nonlinear_arith)
            requires
                f >= 0x10_0000_0000_0000,
                q > 0,
        ;
    } else if d > e {
        lemma_pow2_adds(e, (d - e) as nat);
        lemma_power_at_least_two((d - e) as nat);
        let r = pow2((d - e) as nat);
        assert(2 * q <= p) by (nonlinear_arith)
            requires
                q > 0,
                r >= 2,
                q * r == p,
        ;
        assert(s * p >= 0x10_0000_0000_0000 * p) by (nonlinear_arith)
            requires
                s >= 0x10_0000_0000_0000,
                p > 0,
        ;
        assert(f * q < 0x20_0000_0000_0000 * q) by (nonlinear_arith)
            requires
                f < 0x20_0000_0000_0000,
                q > 0,
        ;
    } else {
        assert(s < f ==> s * p < f * p) by (nonlinear_arith)
            requires
                p > 0,
        ;
        assert(s > f ==> s * p > f * p) by (nonlinear_arith)
            requires
                p > 0,
        ;
    }
}

/// A power of two with an exponent is even.
proof fn lemma_power_at_least_two(e: nat)
    requires
        e >= 1,
    ensures
        pow2(e) >= 2,
{
    lemma2_to64();
    if e > 1 {
        lemma_pow2_strictly_increases(1, e);
    }
}

/// The rank of an integer against that of a float, by value.
#[verifier::rlimit(40)]
proof fn lemma_rank_by_value(n: nat, e: nat, fraction: nat)
    requires
        0 < n < 0x1_0000_0000_0000_0000,
        1 <= e <= 2046,
        fraction < 0x10_0000_0000_0000,
    ensures
        ({
            let rank = e * 0x10_0000_0000_0000 + fraction;
            let value = (0x10_0000_0000_0000 + fraction) * pow2(e);
            &&& nearest_rank(n) < rank ==> n * pow2(1075) < value
            &&& nearest_rank(n) > rank ==> n * pow2(1075) > value
            &&& n <= 0x20_0000_0000_0000 ==> (nearest_rank(n) < rank <==> n * pow2(1075) < value)
            &&& n <= 0x20_0000_0000_0000 ==> (nearest_rank(n) == rank <==> n * pow2(1075) == value)
        }),
{
    lemma2_to64();
    lemma2_to64_rest();
    lemma_significand(n);
    lemma_exponent(n, 0);
    let d = exponent(n);
    let f = 0x10_0000_0000_0000 + fraction;
    let s = significand(n);
    if n <= 0x20_0000_0000_0000 && d >= 54 {
        lemma_pow2_strictly_increases(53, d);
    }
    if d <= 52 {
        let scale = pow2((52 - d) as nat);
        lemma_pow2_adds((52 - d) as nat, (d + 1023) as nat);
        let p = pow2((d + 1023) as nat);
        assert(n * (scale * p) == (n * scale) * p) by (nonlinear_arith);
        assert(n * pow2(1075) == s * p);
        lemma_scaled(s, d + 1023, f, e);
    } else {
        let u = pow2((d - 52) as nat);
        lemma_pow2_pos((d - 52) as nat);
        lemma_pow2_adds(52, (d - 52) as nat);
        lemma_pow2_unfold(d + 1);
        lemma_pow2_adds((d - 52) as nat, 1075);
        let p = pow2((d + 1023) as nat);
        let q = pow2(1075);
        lemma_pow2_pos(1075);
        assert(p == u * q);
        law_rounding_is_to_nearest(n, u);
        // The integer lies between the significands below and above its own.
        assert(2 * (s * u) - u <= 2 * n <= 2 * (s * u) + u);
        assert(0x10_0000_0000_0000 * u <= n < 0x20_0000_0000_0000 * u);
        lemma_rounded(n, s, u, q, p, d + 1023, f, e);
        if n <= 0x20_0000_0000_0000 {
            // Only two to the power of fifty-three itself is left.
            assert(d == 53);
            assert(n == 0x20_0000_0000_0000);
            assert(u == 2);
            assert(s == 0x10_0000_0000_0000) by {
                assert(0x20_0000_0000_0000nat / 2nat == 0x10_0000_0000_0000);
            }
            assert(n * q == s * p) by (nonlinear_arith)
                requires
                    n == s * u,
                    p == u * q,
            ;
            lemma_scaled(s, d + 1023, f, e);
        }
    }
}

/// An integer that was rounded stays on its side of every other float.
proof fn lemma_rounded(n: nat, s: nat, u: nat, q: nat, p: nat, d: nat, f: nat, e: nat)
    requires
        u > 0,
        q > 0,
        p == u * q,
        p == pow2(d),
        2 * (s * u) - u <= 2 * n <= 2 * (s * u) + u,
        0x10_0000_0000_0000 * u <= n < 0x20_0000_0000_0000 * u,
        0x10_0000_0000_0000 <= s <= 0x20_0000_0000_0000,
        0x10_0000_0000_0000 <= f < 0x20_0000_0000_0000,
    ensures
        (d - 1) * 0x10_0000_0000_0000 + s < (e - 1) * 0x10_0000_0000_0000 + f ==> n * q < f * pow2(
            e,
        ),
        (d - 1) * 0x10_0000_0000_0000 + s > (e - 1) * 0x10_0000_0000_0000 + f ==> n * q > f * pow2(
            e,
        ),
{
    let low = 0x10_0000_0000_0000 * p;
    let high = 0x20_0000_0000_0000 * p;
    assert(low <= n * q < high) by (nonlinear_arith)
        requires
            0x10_0000_0000_0000 * u <= n < 0x20_0000_0000_0000 * u,
            q > 0,
            p == u * q,
            low == 0x10_0000_0000_0000 * p,
            high == 0x20_0000_0000_0000 * p,
    ;
    assert(2 * (s * p) - p <= 2 * (n * q) <= 2 * (s * p) + p) by (nonlinear_arith)
        requires
            2 * (s * u) - u <= 2 * n <= 2 * (s * u) + u,
            q > 0,
            p == u * q,
    ;
    lemma_pow2_pos(d);
    if d == e {
        assert(s < f ==> s * p + p <= f * p) by (nonlinear_arith);
        assert(s > f ==> f * p + p <= s * p) by (nonlinear_arith);
    } else if d < e {
        lemma_scaled(0x20_0000_0000_0000, d, f, e);
    } else {
        lemma_scaled(0x10_0000_0000_0000, d, f, e);
    }
}

/// Integers that a float cannot hold compare as the float nearest to them. If such an
/// integer is equal to a float, its value is off by half a unit of the float at most,
/// and by exactly half of one only if the last bit of the float is zero. If it is off
/// by less than half a unit, it is equal. Below a power of two units are smaller, so
/// there this is said of other floats only.
pub proof fn law_rounded_integers_are_near(
    n: u64,
    exponent_bits: nat,
    fraction: nat,
    bits: u64,
)
    requires
        n > 0x20_0000_0000_0000,
        1 <= exponent_bits <= 2046,
        fraction < 0x10_0000_0000_0000,
        bits == exponent_bits * 0x10_0000_0000_0000 + fraction,
    ensures
        ({
            let scaled = n * pow2(1075);
            let value = (0x10_0000_0000_0000 + fraction) * pow2(exponent_bits);
            let unit = pow2(exponent_bits);
            let is_equal = number_order(Number::UInt64(n), Number::Float64(bits)) is Equal;
            &&& is_equal ==> 2 * (scaled - value) <= unit && 2 * (value - scaled) <= unit
            &&& is_equal && (2 * (scaled - value) == unit || 2 * (value - scaled) == unit)
                ==> fraction % 2 == 0
            &&& 2 * (scaled - value) < unit && 2 * (value - scaled) < unit && (scaled >= value
                || fraction > 0) ==> is_equal
        }),
{
    lemma_rank_is_near(integer_from(n), exponent_bits, fraction);
}

/// The rank of a large integer is that of a float near to it.
#[verifier::rlimit(40)]
proof fn lemma_rank_is_near(n: nat, e: nat, fraction: nat)
    requires
        0x20_0000_0000_0000 < n < 0x1_0000_0000_0000_0000,
        1 <= e <= 2046,
        fraction < 0x10_0000_0000_0000,
    ensures
        ({
            let rank = e * 0x10_0000_0000_0000 + fraction;
            let scaled = n * pow2(1075);
            let value = (0x10_0000_0000_0000 + fraction) * pow2(e);
            let unit = pow2(e);
            &&& nearest_rank(n) == rank ==> 2 * (scaled - value) <= unit && 2 * (value - scaled)
                <= unit
            &&& nearest_rank(n) == rank && (2 * (scaled - value) == unit || 2 * (value - scaled)
                == unit) ==> fraction % 2 == 0
            &&& 2 * (scaled - value) < unit && 2 * (value - scaled) < unit && (scaled >= value
                || fraction > 0) ==> nearest_rank(n) == rank
        }),
{
    lemma2_to64();
    lemma2_to64_rest();
    lemma_significand(n);
    lemma_exponent(n, 0);
    let d = exponent(n);
    let f = 0x10_0000_0000_0000 + fraction;
    let s = significand(n);
    if d < 53 {
        if d < 52 {
            lemma_pow2_strictly_increases(d + 1, 53);
        }
        assert(false);
    }
    let u = pow2((d - 52) as nat);
    lemma_pow2_pos((d - 52) as nat);
    lemma_pow2_adds(52, (d - 52) as nat);
    lemma_pow2_unfold(d + 1);
    lemma_pow2_adds((d - 52) as nat, 1075);
    let p = pow2((d + 1023) as nat);
    let q = pow2(1075);
    lemma_pow2_pos(1075);
    law_rounding_is_to_nearest(n, u);
    lemma_near(n, s, u, q, p, d + 1023, f, e);
}

/// What was rounded is near to what it was rounded to, and to nothing else.
#[verifier::rlimit(40)]
proof fn lemma_near(n: nat, s: nat, u: nat, q: nat, p: nat, d: nat, f: nat, e: nat)
    requires
        u > 0,
        q > 0,
        p == u * q,
        p == pow2(d),
        2 * (s * u) - u <= 2 * n <= 2 * (s * u) + u,
        2 * (s * u) - u == 2 * n || 2 * n == 2 * (s * u) + u ==> s % 2 == 0,
        0x10_0000_0000_0000 * u <= n < 0x20_0000_0000_0000 * u,
        0x10_0000_0000_0000 <= s <= 0x20_0000_0000_0000,
        0x10_0000_0000_0000 <= f < 0x20_0000_0000_0000,
    ensures
        ({
            let scaled = n * q;
            let value = f * pow2(e);
            let unit = pow2(e);
            let is_equal = (d - 1) * 0x10_0000_0000_0000 + s == (e - 1) * 0x10_0000_0000_0000 + f;
            &&& is_equal ==> 2 * (scaled - value) <= unit && 2 * (value - scaled) <= unit
            &&& is_equal && (2 * (scaled - value) == unit || 2 * (value - scaled) == unit) ==> f % 2
                == 0
            &&& 2 * (scaled - value) < unit && 2 * (value - scaled) < unit && (scaled >= value || f
                > 0x10_0000_0000_0000) ==> is_equal
        }),
{
    let low = 0x10_0000_0000_0000 * p;
    let high = 0x20_0000_0000_0000 * p;
    let r = pow2(e);
    lemma_pow2_pos(d);
    lemma_pow2_pos(e);
    assert(low <= n * q < high) by (nonlinear_arith)
        requires
            0x10_0000_0000_0000 * u <= n < 0x20_0000_0000_0000 * u,
            q > 0,
            p == u * q,
            low == 0x10_0000_0000_0000 * p,
            high == 0x20_0000_0000_0000 * p,
    ;
    assert(2 * (s * p) - p <= 2 * (n * q) <= 2 * (s * p) + p) by (nonlinear_arith)
        requires
            2 * (s * u) - u <= 2 * n <= 2 * (s * u) + u,
            q > 0,
            p == u * q,
    ;
    assert(2 * (s * p) - p == 2 * (n * q) ==> 2 * (s * u) - u == 2 * n) by (nonlinear_arith)
        requires
            q > 0,
            p == u * q,
    ;
    assert(2 * (n * q) == 2 * (s * p) + p ==> 2 * n == 2 * (s * u) + u) by (nonlinear_arith)
        requires
            q > 0,
            p == u * q,
    ;
    assert(f > 0x10_0000_0000_0000 ==> 0x10_0000_0000_0000 * r + r <= f * r) by (nonlinear_arith);
    assert(f * r + r <= 0x20_0000_0000_0000 * r) by (nonlinear_arith)
        requires
            f < 0x20_0000_0000_0000,
            r > 0,
    ;
    assert(0x10_0000_0000_0000 * r <= f * r) by (nonlinear_arith)
        requires
            f >= 0x10_0000_0000_0000,
    ;
    if d == e {
        assert(s < f ==> s * p + p <= f * p) by (nonlinear_arith);
        assert(s > f ==> f * p + p <= s * p) by (nonlinear_arith);
    } else if d < e {
        lemma_pow2_adds(d, (e - d) as nat);
        lemma_power_at_least_two((e - d) as nat);
        let t = pow2((e - d) as nat);
        assert(2 * p <= r) by (nonlinear_arith)
            requires
                p > 0,
                t >= 2,
                p * t == r,
        ;
        if e == d + 1 {
            lemma_pow2_unfold(e);
            assert(r == 2 * p);
        }
    } else {
        lemma_pow2_adds(e, (d - e) as nat);
        lemma_power_at_least_two((d - e) as nat);
        let t = pow2((d - e) as nat);
        assert(2 * r <= p) by (nonlinear_arith)
            requires
                r > 0,
                t >= 2,
                r * t == p,
        ;
    }
}

} // verus!
