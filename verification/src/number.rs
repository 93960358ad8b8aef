//! Numbers, their encoding and their order.

use std::cmp::Ordering;
use vstd::arithmetic::power2::lemma2_to64;
use vstd::arithmetic::power2::lemma2_to64_rest;
use vstd::arithmetic::power2::lemma_pow2_adds;
use vstd::arithmetic::power2::lemma_pow2_pos;
use vstd::arithmetic::power2::lemma_pow2_strictly_increases;
use vstd::arithmetic::power2::lemma_pow2_unfold;
use vstd::arithmetic::power2::pow2;
use vstd::prelude::*;

use crate::constants::NUMBER_FLOAT;
use crate::constants::NUMBER_INF;
use crate::constants::NUMBER_INT;
use crate::constants::NUMBER_NAN;
use crate::constants::NUMBER_NEG_INF;
use crate::constants::NUMBER_UINT;
use crate::constants::NUMBER_ZERO;
use crate::error::Error;
use crate::outcome::Outcome;

verus! {

/// A JSON number.
#[derive(Clone, Copy, Debug, PartialEq, Eq)]
pub enum Number {
    /// A signed integer.
    Int64(i64),
    /// An unsigned integer.
    UInt64(u64),
    /// A double precision float, given by the bits of its IEEE 754 encoding.
    Float64(u64),
}

/// The bits of the float that is not a number.
pub const NAN_BITS: u64 = 0x7FF8_0000_0000_0000;

/// The bits of positive infinity.
pub const INF_BITS: u64 = 0x7FF0_0000_0000_0000;

/// The bits of negative infinity.
pub const NEG_INF_BITS: u64 = 0xFFF0_0000_0000_0000;

/// The bits of a float without its sign.
pub const MAGNITUDE_MASK: u64 = 0x7FFF_FFFF_FFFF_FFFF;

/// Two to the power of the number of fraction bits of a float.
pub const FRACTION_SIZE: u64 = 0x10_0000_0000_0000;

/// The unsigned big-endian number that `bytes` spell.
pub open spec fn be_uint(bytes: Seq<u8>) -> nat
    decreases bytes.len(),
{
    if bytes.len() == 0 {
        0
    } else {
        be_uint(bytes.drop_last()) * 256 + bytes.last() as nat
    }
}

/// The two's complement big-endian number that `bytes` spell.
pub open spec fn be_int(bytes: Seq<u8>) -> int {
    let bound = pow2(8 * bytes.len());
    if 2 * be_uint(bytes) >= bound {
        be_uint(bytes) - bound
    } else {
        be_uint(bytes) as int
    }
}

/// The widths in bytes that an encoded integer can have.
pub open spec fn is_integer_width(len: nat) -> bool {
    len == 1 || len == 2 || len == 4 || len == 8
}

/// The number that `bytes` encode: a byte for its kind, then its payload.
pub open spec fn number_value(bytes: Seq<u8>) -> Outcome<Number> {
    if bytes.len() == 0 {
        Outcome::Undefined
    } else {
        let payload = bytes.skip(1);
        let kind = bytes[0];
        if kind == NUMBER_ZERO {
            Outcome::Done(Number::UInt64(0))
        } else if kind == NUMBER_NAN {
            Outcome::Done(Number::Float64(NAN_BITS))
        } else if kind == NUMBER_INF {
            Outcome::Done(Number::Float64(INF_BITS))
        } else if kind == NUMBER_NEG_INF {
            Outcome::Done(Number::Float64(NEG_INF_BITS))
        } else if kind == NUMBER_INT && is_integer_width(payload.len()) {
            Outcome::Done(Number::Int64(be_int(payload) as i64))
        } else if kind == NUMBER_UINT && is_integer_width(payload.len()) {
            Outcome::Done(Number::UInt64(be_uint(payload) as u64))
        } else if kind == NUMBER_FLOAT {
            if payload.len() == 8 {
                Outcome::Done(Number::Float64(be_uint(payload) as u64))
            } else {
                Outcome::Undefined
            }
        } else {
            Outcome::Failed(Error::InvalidJsonbNumber)
        }
    }
}

/// The place of a float in the order of all floats: the two zeros share a
/// place, and what is not a number comes last.
pub open spec fn float_rank(bits: u64) -> int {
    let magnitude = bits as int % 0x8000_0000_0000_0000;
    if magnitude > INF_BITS {
        MAGNITUDE_MASK as int
    } else if bits > MAGNITUDE_MASK {
        -magnitude
    } else {
        magnitude
    }
}

/// The position of the highest one bit of `n`.
pub open spec fn exponent(n: nat) -> nat
    decreases n,
{
    if n < 2 {
        0
    } else {
        1 + exponent(n / 2)
    }
}

/// `n / d` rounded to the nearest integer, a tie to the even one.
pub open spec fn divide_to_even(n: nat, d: nat) -> nat {
    let quotient = n / d;
    let twice = 2 * (n % d);
    if twice > d || (twice == d && quotient % 2 == 1) {
        quotient + 1
    } else {
        quotient
    }
}

/// `n` scaled to the fifty-three significant bits of a float.
pub open spec fn significand(n: nat) -> nat {
    let e = exponent(n);
    if e <= 52 {
        n * pow2((52 - e) as nat)
    } else {
        divide_to_even(n, pow2((e - 52) as nat))
    }
}

/// The rank of the float nearest to `n`: its biased exponent, then the bits of
/// its significand after the first. A significand that rounding carried into a
/// fifty-fourth bit raises the exponent by one.
pub open spec fn nearest_rank(n: nat) -> int {
    if n == 0 {
        0
    } else {
        (exponent(n) + 1022) * FRACTION_SIZE + significand(n)
    }
}

impl Number {
    /// Whether the number is a float.
    pub open spec fn is_float(self) -> bool {
        self is Float64
    }

    /// The value of an integer.
    pub open spec fn integer_value(self) -> int {
        match self {
            Number::Int64(v) => v as int,
            Number::UInt64(v) => v as int,
            Number::Float64(_) => 0,
        }
    }

    /// The place of the number in the order of floats, an integer standing for
    /// the float nearest to it.
    pub open spec fn rank(self) -> int {
        match self {
            Number::Float64(bits) => float_rank(bits),
            _ => if self.integer_value() < 0 {
                -nearest_rank((-self.integer_value()) as nat)
            } else {
                nearest_rank(self.integer_value() as nat)
            },
        }
    }
}

/// The order of two integers.
pub open spec fn int_order(left: int, right: int) -> Ordering {
    if left < right {
        Ordering::Less
    } else if left == right {
        Ordering::Equal
    } else {
        Ordering::Greater
    }
}

/// The order of two numbers: integers by value, anything else as floats.
pub open spec fn number_order(left: Number, right: Number) -> Ordering {
    if left.is_float() || right.is_float() {
        int_order(left.rank(), right.rank())
    } else {
        int_order(left.integer_value(), right.integer_value())
    }
}

/// The highest one bit of a number brackets it.
pub(crate) proof fn lemma_exponent(n: nat, e: nat)
    requires
        n > 0,
    ensures
        pow2(exponent(n)) <= n < pow2(exponent(n) + 1),
        pow2(e) <= n < pow2(e + 1) ==> e == exponent(n),
    decreases n,
{
    lemma2_to64();
    if n >= 2 {
        lemma_exponent(n / 2, 0);
        lemma_pow2_unfold(exponent(n));
        lemma_pow2_unfold(exponent(n) + 1);
    }
    if e < exponent(n) {
        if e + 1 < exponent(n) {
            lemma_pow2_strictly_increases(e + 1, exponent(n));
        }
    } else if e > exponent(n) {
        if e > exponent(n) + 1 {
            lemma_pow2_strictly_increases(exponent(n) + 1, e);
        }
    }
}

/// Bytes spell a number below the power of two that their count gives.
proof fn lemma_be_uint_bound(bytes: Seq<u8>)
    ensures
        be_uint(bytes) < pow2(8 * bytes.len()),
    decreases bytes.len(),
{
    lemma2_to64();
    if bytes.len() > 0 {
        lemma_be_uint_bound(bytes.drop_last());
        lemma_pow2_adds((8 * (bytes.len() - 1)) as nat, 8);
    }
}

/// Reads an unsigned big-endian number.
fn read_uint(bytes: &[u8]) -> (value: u64)
    requires
        bytes@.len() <= 8,
    ensures
        value == be_uint(bytes@),
{
    let mut value: u64 = 0;
    let mut i: usize = 0;
    while i < bytes.len()
        invariant
            i <= bytes@.len() <= 8,
            value == be_uint(bytes@.take(i as int)),
        decreases bytes@.len() - i,
    {
        proof {
            lemma2_to64_rest();
            lemma2_to64();
            let next = bytes@.take(i + 1);
            assert(next.drop_last() =~= bytes@.take(i as int));
            lemma_be_uint_bound(next);
            if 8 * next.len() < 64 {
                lemma_pow2_strictly_increases(8 * next.len(), 64);
            }
        }
        value = value * 256 + bytes[i] as u64;
        i += 1;
    }
    assert(bytes@.take(i as int) =~= bytes@);
    value
}

/// Reads a two's complement big-endian number.
fn read_int(bytes: &[u8]) -> (value: i64)
    requires
        is_integer_width(bytes@.len()),
    ensures
        value == be_int(bytes@),
{
    let value: u64 = read_uint(bytes);
    proof {
        lemma2_to64();
        lemma2_to64_rest();
        lemma_be_uint_bound(bytes@);
    }
    if bytes.len() == 8 {
        if value >= 0x8000_0000_0000_0000 {
            -((u64::MAX - value) as i64) - 1
        } else {
            value as i64
        }
    } else {
        let bound: i64 = if bytes.len() == 1 {
            0x100
        } else if bytes.len() == 2 {
            0x1_0000
        } else {
            0x1_0000_0000
        };
        if 2 * (value as i64) >= bound {
            value as i64 - bound
        } else {
            value as i64
        }
    }
}

/// The place of a float in the order of all floats.
fn rank_of_float(bits: u64) -> (rank: i64)
    ensures
        rank == float_rank(bits),
{
    let magnitude: u64 = bits % 0x8000_0000_0000_0000;
    if magnitude > INF_BITS {
        MAGNITUDE_MASK as i64
    } else if bits > MAGNITUDE_MASK {
        -(magnitude as i64)
    } else {
        magnitude as i64
    }
}

/// The place of the float nearest to `n` in the order of all floats.
fn rank_of_integer(n: u64) -> (rank: i64)
    ensures
        rank == nearest_rank(n as nat),
{
    if n == 0 {
        return 0;
    }
    let mut power: u64 = 1;
    let mut e: u64 = 0;
    proof {
        lemma2_to64();
    }
    while n - power >= power
        invariant
            power == pow2(e as nat),
            power <= n,
            e <= 63,
        decreases n - power,
    {
        proof {
            lemma_pow2_unfold(e as nat + 1);
            lemma2_to64();
            lemma2_to64_rest();
            if e >= 63 {
                lemma_pow2_strictly_increases(63, e as nat + 1);
            }
        }
        power = power * 2;
        e = e + 1;
    }
    proof {
        lemma_pow2_unfold(e as nat + 1);
        lemma_exponent(n as nat, e as nat);
        lemma2_to64();
        lemma2_to64_rest();
    }
    let scaled: u64 = if e <= 52 {
        let scale: u64 = FRACTION_SIZE / power;
        proof {
            lemma_pow2_adds(e as nat, (52 - e) as nat);
        }
        assert(scale == pow2((52 - e) as nat)) by (nonlinear_arith)
            requires
                scale == FRACTION_SIZE / power,
                power > 0,
                power * pow2((52 - e) as nat) == FRACTION_SIZE,
        ;
        assert(n * scale <= 2 * FRACTION_SIZE) by (nonlinear_arith)
            requires
                n <= 2 * power,
                power * scale == FRACTION_SIZE,
                0 <= scale,
        ;
        n * scale
    } else {
        let unit: u64 = power / FRACTION_SIZE;
        proof {
            lemma_pow2_adds(52, (e - 52) as nat);
            lemma_pow2_pos((e - 52) as nat);
        }
        assert(unit == pow2((e - 52) as nat)) by (nonlinear_arith)
            requires
                unit == power / FRACTION_SIZE,
                FRACTION_SIZE * pow2((e - 52) as nat) == power,
        ;
        let quotient: u64 = n / unit;
        let twice: u64 = 2 * (n % unit);
        assert(quotient < 2 * FRACTION_SIZE) by (nonlinear_arith)
            requires
                quotient == n / unit,
                n < 2 * power,
                unit > 0,
                FRACTION_SIZE * unit == power,
        ;
        if twice > unit || (twice == unit && quotient % 2 == 1) {
            quotient + 1
        } else {
            quotient
        }
    };
    ((e + 1022) * FRACTION_SIZE + scaled) as i64
}

/// The order of two integers.
fn order_of(left: i128, right: i128) -> (order: Ordering)
    ensures
        left < right ==> order == Ordering::Less,
        left == right ==> order == Ordering::Equal,
        left > right ==> order == Ordering::Greater,
{
    if left < right {
        Ordering::Less
    } else if left == right {
        Ordering::Equal
    } else {
        Ordering::Greater
    }
}

impl Number {
    /// Reads the number that `bytes` encode.
    pub fn decode(bytes: &[u8]) -> (res: Result<Number, Error>)
        requires
            number_value(bytes@) !is Undefined,
        ensures
            match number_value(bytes@) {
                Outcome::Done(number) => res == Ok::<Number, Error>(number),
                Outcome::Failed(e) => res == Err::<Number, Error>(e),
                Outcome::Undefined => false,
            },
    {
        let kind: u8 = bytes[0];
        let payload: &[u8] = &bytes[1..bytes.len()];
        assert(payload@ =~= bytes@.skip(1));
        let width: usize = payload.len();
        let is_width: bool = width == 1 || width == 2 || width == 4 || width == 8;
        if kind == NUMBER_ZERO {
            Ok(Number::UInt64(0))
        } else if kind == NUMBER_NAN {
            Ok(Number::Float64(NAN_BITS))
        } else if kind == NUMBER_INF {
            Ok(Number::Float64(INF_BITS))
        } else if kind == NUMBER_NEG_INF {
            Ok(Number::Float64(NEG_INF_BITS))
        } else if kind == NUMBER_INT && is_width {
            Ok(Number::Int64(read_int(payload)))
        } else if kind == NUMBER_UINT && is_width {
            Ok(Number::UInt64(read_uint(payload)))
        } else if kind == NUMBER_FLOAT {
            Ok(Number::Float64(read_uint(payload)))
        } else {
            Err(Error::InvalidJsonbNumber)
        }
    }

    /// The value of an integer; zero for a float.
    fn integer(&self) -> (value: i128)
        ensures
            value == self.integer_value(),
    {
        match self {
            Number::Int64(v) => *v as i128,
            Number::UInt64(v) => *v as i128,
            Number::Float64(_) => 0,
        }
    }

    /// The place of the number in the order of floats.
    fn float_place(&self) -> (rank: i128)
        ensures
            rank == self.rank(),
    {
        match self {
            Number::Float64(bits) => rank_of_float(*bits) as i128,
            Number::UInt64(v) => rank_of_integer(*v) as i128,
            Number::Int64(v) => if *v >= 0 {
                rank_of_integer(*v as u64) as i128
            } else {
                let magnitude: i128 = -(*v as i128);
                -(rank_of_integer(magnitude as u64) as i128)
            },
        }
    }

    /// Compares two numbers: integers by value, anything else as floats.
    pub fn order(&self, other: &Number) -> (order: Ordering)
        ensures
            order == number_order(*self, *other),
    {
        if matches!(self, Number::Float64(_)) || matches!(other, Number::Float64(_)) {
            order_of(self.float_place(), other.float_place())
        } else {
            order_of(self.integer(), other.integer())
        }
    }
}

} // verus!
