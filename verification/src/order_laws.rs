//! Laws of comparison.

use vstd::arithmetic::power2::lemma2_to64;
use vstd::arithmetic::power2::lemma2_to64_rest;
use vstd::arithmetic::power2::lemma_pow2_adds;
use vstd::arithmetic::power2::lemma_pow2_pos;
use vstd::arithmetic::power2::lemma_pow2_strictly_increases;
use vstd::arithmetic::power2::lemma_pow2_unfold;
use vstd::arithmetic::power2::pow2;
use vstd::prelude::*;
use vstd::utf8::encode_utf8;
use vstd::utf8::encode_utf8_decode_utf8;

use crate::number::divide_to_even;
use crate::number::exponent;
use crate::number::lemma_exponent;
use crate::number::nearest_rank;
use crate::number::number_order;
use crate::number::significand;
use crate::number::FRACTION_SIZE;
use crate::number::Number;
use crate::path::bytes_order;
use crate::path::scalar_order;
use crate::path::BinaryOperator;
use crate::path::Scalar;
use crate::semantics::has_order;
use crate::semantics::scalars_satisfy;
use crate::semantics::some_satisfy;

verus! {

/// Two words in a dictionary are in the same order from either side.
proof fn lemma_bytes_mirrored(left: Seq<u8>, right: Seq<u8>)
    ensures
        bytes_order(left, right) is Less <==> bytes_order(right, left) is Greater,
        bytes_order(left, right) is Greater <==> bytes_order(right, left) is Less,
        bytes_order(left, right) is Equal <==> left == right,
    decreases left.len(),
{
    if left.len() > 0 && right.len() > 0 {
        lemma_bytes_mirrored(left.skip(1), right.skip(1));
        if left[0] == right[0] && left.skip(1) == right.skip(1) {
            assert(left =~= seq![left[0]] + left.skip(1));
            assert(right =~= seq![right[0]] + right.skip(1));
        }
    } else if left.len() == 0 && right.len() == 0 {
        assert(left =~= right);
    }
}

/// A comparison holds if and only if the mirrored comparison does.
pub proof fn law_comparison_is_mirrored(left: Scalar, right: Scalar)
    ensures
        has_order(left, right) == has_order(right, left),
        scalars_satisfy(BinaryOperator::Eq, left, right) == scalars_satisfy(
            BinaryOperator::Eq,
            right,
            left,
        ),
        scalars_satisfy(BinaryOperator::NotEq, left, right) == scalars_satisfy(
            BinaryOperator::NotEq,
            right,
            left,
        ),
        scalars_satisfy(BinaryOperator::Lt, left, right) == scalars_satisfy(
            BinaryOperator::Gt,
            right,
            left,
        ),
        scalars_satisfy(BinaryOperator::Lte, left, right) == scalars_satisfy(
            BinaryOperator::Gte,
            right,
            left,
        ),
{
    if let (Scalar::String(l), Scalar::String(r)) = (left, right) {
        lemma_bytes_mirrored(encode_utf8(l), encode_utf8(r));
    }
}

/// Between scalars that have an order, the operators are what their names say;
/// between others, none of them holds.
pub proof fn law_operators_agree(left: Scalar, right: Scalar)
    ensures
        scalars_satisfy(BinaryOperator::NotEq, left, right) == (has_order(left, right)
            && !scalars_satisfy(BinaryOperator::Eq, left, right)),
        scalars_satisfy(BinaryOperator::Lte, left, right) == (scalars_satisfy(
            BinaryOperator::Lt,
            left,
            right,
        ) || scalars_satisfy(BinaryOperator::Eq, left, right)),
        scalars_satisfy(BinaryOperator::Gte, left, right) == (scalars_satisfy(
            BinaryOperator::Gt,
            left,
            right,
        ) || scalars_satisfy(BinaryOperator::Eq, left, right)),
        scalars_satisfy(BinaryOperator::Gt, left, right) == (has_order(left, right)
            && !scalars_satisfy(BinaryOperator::Lte, left, right)),
        has_order(left, right) <==> {
            ||| left is Null && right is Null
            ||| left is Boolean && right is Boolean
            ||| left is Number && right is Number
            ||| left is String && right is String
        },
{
}

/// An operator holds between two scalars if and only if it fits their order, and
/// between scalars that have none no operator holds, not even `!=`.
pub proof fn law_operators_follow_the_order(left: Scalar, right: Scalar)
    ensures
        match scalar_order(left, right) {
            Some(order) => {
                &&& scalars_satisfy(BinaryOperator::Lt, left, right) <==> order is Less
                &&& scalars_satisfy(BinaryOperator::Eq, left, right) <==> order is Equal
                &&& scalars_satisfy(BinaryOperator::Gt, left, right) <==> order is Greater
                &&& scalars_satisfy(BinaryOperator::NotEq, left, right) <==> order !is Equal
                &&& scalars_satisfy(BinaryOperator::Lte, left, right) <==> order !is Greater
                &&& scalars_satisfy(BinaryOperator::Gte, left, right) <==> order !is Less
            },
            None => forall|op: BinaryOperator| !#[trigger] scalars_satisfy(op, left, right),
        },
{
}

/// An operator that holds between two scalars if and only if another holds
/// between them the other way round does so between lists of scalars too.
proof fn lemma_lists_mirrored(
    op: BinaryOperator,
    mirrored: BinaryOperator,
    left: Seq<Scalar>,
    right: Seq<Scalar>,
)
    requires
        forall|l: Scalar, r: Scalar|
            #[trigger] scalars_satisfy(op, l, r) == scalars_satisfy(mirrored, r, l),
    ensures
        some_satisfy(op, left, right) == some_satisfy(mirrored, right, left),
{
    if some_satisfy(op, left, right) {
        let (i, j) = choose|i: int, j: int|
            0 <= i < left.len() && 0 <= j < right.len() && #[trigger] scalars_satisfy(
                op,
                left[i],
                right[j],
            );
        assert(scalars_satisfy(mirrored, right[j], left[i]));
    }
    if some_satisfy(mirrored, right, left) {
        let (j, i) = choose|j: int, i: int|
            0 <= j < right.len() && 0 <= i < left.len() && #[trigger] scalars_satisfy(
                mirrored,
                right[j],
                left[i],
            );
        assert(scalars_satisfy(op, left[i], right[j]));
    }
}

/// A comparison between lists of scalars holds if and only if the mirrored
/// comparison does.
pub proof fn law_comparison_of_lists_is_mirrored(left: Seq<Scalar>, right: Seq<Scalar>)
    ensures
        some_satisfy(BinaryOperator::Eq, left, right) == some_satisfy(
            BinaryOperator::Eq,
            right,
            left,
        ),
        some_satisfy(BinaryOperator::NotEq, left, right) == some_satisfy(
            BinaryOperator::NotEq,
            right,
            left,
        ),
        some_satisfy(BinaryOperator::Lt, left, right) == some_satisfy(
            BinaryOperator::Gt,
            right,
            left,
        ),
        some_satisfy(BinaryOperator::Lte, left, right) == some_satisfy(
            BinaryOperator::Gte,
            right,
            left,
        ),
{
    assert forall|l: Scalar, r: Scalar| #[trigger] scalars_satisfy(BinaryOperator::Eq, l, r)
        == scalars_satisfy(BinaryOperator::Eq, r, l) by {
        law_comparison_is_mirrored(l, r);
    }
    assert forall|l: Scalar, r: Scalar| #[trigger] scalars_satisfy(BinaryOperator::NotEq, l, r)
        == scalars_satisfy(BinaryOperator::NotEq, r, l) by {
        law_comparison_is_mirrored(l, r);
    }
    assert forall|l: Scalar, r: Scalar| #[trigger] scalars_satisfy(BinaryOperator::Lt, l, r)
        == scalars_satisfy(BinaryOperator::Gt, r, l) by {
        law_comparison_is_mirrored(l, r);
    }
    assert forall|l: Scalar, r: Scalar| #[trigger] scalars_satisfy(BinaryOperator::Lte, l, r)
        == scalars_satisfy(BinaryOperator::Gte, r, l) by {
        law_comparison_is_mirrored(l, r);
    }
    lemma_lists_mirrored(BinaryOperator::Eq, BinaryOperator::Eq, left, right);
    lemma_lists_mirrored(BinaryOperator::NotEq, BinaryOperator::NotEq, left, right);
    lemma_lists_mirrored(BinaryOperator::Lt, BinaryOperator::Gt, left, right);
    lemma_lists_mirrored(BinaryOperator::Lte, BinaryOperator::Gte, left, right);
}

/// Between two integers, signed or unsigned, `<` holds if and only if the value of the
/// left is below the value of the right, `==` if and only if the values are the same,
/// and `>` if and only if the value of the left is above.
pub proof fn law_integers_compare_by_value(a: i64, b: i64, c: u64, d: u64)
    ensures
        scalars_satisfy(
            BinaryOperator::Lt,
            Scalar::Number(Number::Int64(a)),
            Scalar::Number(Number::Int64(b)),
        ) <==> a < b,
        scalars_satisfy(
            BinaryOperator::Eq,
            Scalar::Number(Number::Int64(a)),
            Scalar::Number(Number::Int64(b)),
        ) <==> a == b,
        scalars_satisfy(
            BinaryOperator::Gt,
            Scalar::Number(Number::Int64(a)),
            Scalar::Number(Number::Int64(b)),
        ) <==> a > b,
        scalars_satisfy(
            BinaryOperator::Lt,
            Scalar::Number(Number::Int64(a)),
            Scalar::Number(Number::UInt64(d)),
        ) <==> a < d,
        scalars_satisfy(
            BinaryOperator::Eq,
            Scalar::Number(Number::Int64(a)),
            Scalar::Number(Number::UInt64(d)),
        ) <==> a == d,
        scalars_satisfy(
            BinaryOperator::Gt,
            Scalar::Number(Number::Int64(a)),
            Scalar::Number(Number::UInt64(d)),
        ) <==> a > d,
        scalars_satisfy(
            BinaryOperator::Lt,
            Scalar::Number(Number::UInt64(c)),
            Scalar::Number(Number::Int64(b)),
        ) <==> c < b,
        scalars_satisfy(
            BinaryOperator::Eq,
            Scalar::Number(Number::UInt64(c)),
            Scalar::Number(Number::Int64(b)),
        ) <==> c == b,
        scalars_satisfy(
            BinaryOperator::Gt,
            Scalar::Number(Number::UInt64(c)),
            Scalar::Number(Number::Int64(b)),
        ) <==> c > b,
        scalars_satisfy(
            BinaryOperator::Lt,
            Scalar::Number(Number::UInt64(c)),
            Scalar::Number(Number::UInt64(d)),
        ) <==> c < d,
        scalars_satisfy(
            BinaryOperator::Eq,
            Scalar::Number(Number::UInt64(c)),
            Scalar::Number(Number::UInt64(d)),
        ) <==> c == d,
        scalars_satisfy(
            BinaryOperator::Gt,
            Scalar::Number(Number::UInt64(c)),
            Scalar::Number(Number::UInt64(d)),
        ) <==> c > d,
        number_order(Number::Int64(a), Number::Int64(b)) is Less <==> a < b,
        number_order(Number::Int64(a), Number::Int64(b)) is Equal <==> a == b,
        number_order(Number::Int64(a), Number::UInt64(d)) is Less <==> a < d,
        number_order(Number::Int64(a), Number::UInt64(d)) is Equal <==> a == d,
        number_order(Number::UInt64(c), Number::Int64(b)) is Less <==> c < b,
        number_order(Number::UInt64(c), Number::Int64(b)) is Equal <==> c == b,
        number_order(Number::UInt64(c), Number::UInt64(d)) is Less <==> c < d,
        number_order(Number::UInt64(c), Number::UInt64(d)) is Equal <==> c == d,
{
}

/// `null` is equal to itself, and `false` comes before `true`.
pub proof fn law_null_and_booleans_compare(a: bool, b: bool)
    ensures
        scalars_satisfy(BinaryOperator::Eq, Scalar::Null, Scalar::Null),
        !scalars_satisfy(BinaryOperator::Lt, Scalar::Null, Scalar::Null),
        !scalars_satisfy(BinaryOperator::Gt, Scalar::Null, Scalar::Null),
        scalars_satisfy(BinaryOperator::Eq, Scalar::Boolean(a), Scalar::Boolean(b)) <==> a == b,
        scalars_satisfy(BinaryOperator::Lt, Scalar::Boolean(a), Scalar::Boolean(b)) <==> !a && b,
        scalars_satisfy(BinaryOperator::Gt, Scalar::Boolean(a), Scalar::Boolean(b)) <==> a && !b,
{
}

/// Between scalars of different kinds no operator holds.
pub proof fn law_kinds_do_not_compare(op: BinaryOperator, left: Scalar, right: Scalar)
    requires
        left is Null ==> right !is Null,
        left is Boolean ==> right !is Boolean,
        left is Number ==> right !is Number,
        left is String ==> right !is String,
    ensures
        !scalars_satisfy(op, left, right),
{
}

/// Strings compare by their encodings, as words in a dictionary: the first byte that
/// differs decides, and a word comes before the longer words that start with it.
pub proof fn law_strings_compare_as_words(left: Seq<char>, right: Seq<char>, k: int)
    requires
        0 <= k <= encode_utf8(left).len(),
        k <= encode_utf8(right).len(),
        forall|i: int| 0 <= i < k ==> encode_utf8(left)[i] == encode_utf8(right)[i],
    ensures
        k < encode_utf8(left).len() && k < encode_utf8(right).len() && encode_utf8(left)[k]
            < encode_utf8(right)[k] ==> scalars_satisfy(
            BinaryOperator::Lt,
            Scalar::String(left),
            Scalar::String(right),
        ),
        k < encode_utf8(left).len() && k < encode_utf8(right).len() && encode_utf8(left)[k]
            > encode_utf8(right)[k] ==> scalars_satisfy(
            BinaryOperator::Gt,
            Scalar::String(left),
            Scalar::String(right),
        ),
        k == encode_utf8(left).len() < encode_utf8(right).len() ==> scalars_satisfy(
            BinaryOperator::Lt,
            Scalar::String(left),
            Scalar::String(right),
        ),
        k == encode_utf8(right).len() < encode_utf8(left).len() ==> scalars_satisfy(
            BinaryOperator::Gt,
            Scalar::String(left),
            Scalar::String(right),
        ),
        k == encode_utf8(left).len() == encode_utf8(right).len() ==> scalars_satisfy(
            BinaryOperator::Eq,
            Scalar::String(left),
            Scalar::String(right),
        ),
{
    lemma_words_agree(encode_utf8(left), encode_utf8(right), k);
}

/// Words that start with the same bytes compare as what follows these bytes.
proof fn lemma_words_agree(left: Seq<u8>, right: Seq<u8>, k: int)
    requires
        0 <= k <= left.len(),
        k <= right.len(),
        forall|i: int| 0 <= i < k ==> left[i] == right[i],
    ensures
        bytes_order(left, right) == bytes_order(left.skip(k), right.skip(k)),
    decreases k,
{
    if k > 0 {
        let l = left.skip(1);
        let r = right.skip(1);
        assert forall|i: int| 0 <= i < k - 1 implies l[i] == r[i] by {
            assert(left[i + 1] == right[i + 1]);
        }
        lemma_words_agree(l, r, k - 1);
        assert(l.skip(k - 1) =~= left.skip(k));
        assert(r.skip(k - 1) =~= right.skip(k));
        assert(left[0] == right[0]);
    } else {
        assert(left.skip(0) =~= left);
        assert(right.skip(0) =~= right);
    }
}

/// A comparison of lists holds if the operator holds between any scalar on the left
/// and any scalar on the right, whatever their places and however long the lists.
pub proof fn law_any_pair_is_enough(
    op: BinaryOperator,
    left: Seq<Scalar>,
    right: Seq<Scalar>,
    i: int,
    j: int,
)
    requires
        0 <= i < left.len(),
        0 <= j < right.len(),
        scalars_satisfy(op, left[i], right[j]),
    ensures
        some_satisfy(op, left, right),
{
}

/// A comparison of lists holds if and only if it holds for some piece of each: adding
/// scalars to a side never makes it fail, and adding scalars between which and the
/// other side it does not hold never makes it hold.
pub proof fn law_comparison_goes_piece_by_piece(
    op: BinaryOperator,
    first: Seq<Scalar>,
    rest: Seq<Scalar>,
    other: Seq<Scalar>,
)
    ensures
        some_satisfy(op, first + rest, other) <==> some_satisfy(op, first, other) || some_satisfy(
            op,
            rest,
            other,
        ),
        some_satisfy(op, other, first + rest) <==> some_satisfy(op, other, first) || some_satisfy(
            op,
            other,
            rest,
        ),
{
    let all = first + rest;
    assert forall|i: int| 0 <= i < first.len() implies #[trigger] first[i] == all[i] by {}
    assert forall|i: int| 0 <= i < rest.len() implies #[trigger] rest[i] == all[first.len() + i] by {
    }
    if some_satisfy(op, all, other) {
        let (i, j) = choose|i: int, j: int|
            0 <= i < all.len() && 0 <= j < other.len() && #[trigger] scalars_satisfy(
                op,
                all[i],
                other[j],
            );
        if i < first.len() {
            assert(scalars_satisfy(op, first[i], other[j]));
        } else {
            assert(scalars_satisfy(op, rest[i - first.len()], other[j]));
        }
    }
    if some_satisfy(op, first, other) {
        let (i, j) = choose|i: int, j: int|
            0 <= i < first.len() && 0 <= j < other.len() && #[trigger] scalars_satisfy(
                op,
                first[i],
                other[j],
            );
        law_any_pair_is_enough(op, all, other, i, j);
    }
    if some_satisfy(op, rest, other) {
        let (i, j) = choose|i: int, j: int|
            0 <= i < rest.len() && 0 <= j < other.len() && #[trigger] scalars_satisfy(
                op,
                rest[i],
                other[j],
            );
        assert(rest[i] == all[first.len() + i]);
        law_any_pair_is_enough(op, all, other, first.len() + i, j);
    }
    if some_satisfy(op, other, all) {
        let (i, j) = choose|i: int, j: int|
            0 <= i < other.len() && 0 <= j < all.len() && #[trigger] scalars_satisfy(
                op,
                other[i],
                all[j],
            );
        if j < first.len() {
            assert(scalars_satisfy(op, other[i], first[j]));
        } else {
            assert(scalars_satisfy(op, other[i], rest[j - first.len()]));
        }
    }
    if some_satisfy(op, other, first) {
        let (i, j) = choose|i: int, j: int|
            0 <= i < other.len() && 0 <= j < first.len() && #[trigger] scalars_satisfy(
                op,
                other[i],
                first[j],
            );
        law_any_pair_is_enough(op, other, all, i, j);
    }
    if some_satisfy(op, other, rest) {
        let (i, j) = choose|i: int, j: int|
            0 <= i < other.len() && 0 <= j < rest.len() && #[trigger] scalars_satisfy(
                op,
                other[i],
                rest[j],
            );
        assert(rest[j] == all[first.len() + j]);
        law_any_pair_is_enough(op, other, all, i, first.len() + j);
    }
}

/// A comparison of two scalars, each alone on its side, is that of the scalars.
pub proof fn law_comparison_of_two_scalars(op: BinaryOperator, left: Scalar, right: Scalar)
    ensures
        some_satisfy(op, seq![left], seq![right]) <==> scalars_satisfy(op, left, right),
{
    if scalars_satisfy(op, left, right) {
        assert(scalars_satisfy(op, seq![left][0], seq![right][0]));
    }
}

/// Strings are equal in a comparison if and only if they are the same.
pub proof fn law_equal_strings_are_the_same(left: Seq<char>, right: Seq<char>)
    ensures
        scalars_satisfy(BinaryOperator::Eq, Scalar::String(left), Scalar::String(right))
            <==> left == right,
{
    lemma_bytes_mirrored(encode_utf8(left), encode_utf8(right));
    encode_utf8_decode_utf8(left);
    encode_utf8_decode_utf8(right);
}

/// A comparison with nothing on one side never holds.
pub proof fn law_nothing_compares_to_nothing(
    op: BinaryOperator,
    left: Seq<Scalar>,
    right: Seq<Scalar>,
)
    requires
        left.len() == 0 || right.len() == 0,
    ensures
        !some_satisfy(op, left, right),
{
}

/// Rounding to the nearest is off by half a unit at most.
pub proof fn law_rounding_is_to_nearest(n: nat, d: nat)
    requires
        d > 0,
    ensures
        2 * (divide_to_even(n, d) * d - n) <= d,
        2 * (n - divide_to_even(n, d) * d) <= d,
        2 * (divide_to_even(n, d) * d - n) == d || 2 * (n - divide_to_even(n, d) * d) == d
            ==> divide_to_even(n, d) % 2 == 0,
{
    let quotient = n / d;
    let rest = n % d;
    assert(n == quotient * d + rest && 0 <= rest < d) by (nonlinear_arith)
        requires
            d > 0,
            quotient == n / d,
            rest == n % d,
    ;
    assert((quotient + 1) * d == quotient * d + d) by (nonlinear_arith);
}

/// A significand has fifty-three bits, or is the next power of two.
pub(crate) proof fn lemma_significand(n: nat)
    requires
        n > 0,
    ensures
        FRACTION_SIZE <= significand(n) <= 2 * FRACTION_SIZE,
        exponent(n) <= 52 ==> significand(n) < 2 * FRACTION_SIZE,
{
    lemma2_to64();
    lemma2_to64_rest();
    lemma_exponent(n, 0);
    let e = exponent(n);
    let power = pow2(e);
    lemma_pow2_unfold(e + 1);
    if e <= 52 {
        let scale = pow2((52 - e) as nat);
        lemma_pow2_adds(e, (52 - e) as nat);
        lemma_pow2_pos((52 - e) as nat);
        assert(power * scale <= n * scale < 2 * (power * scale)) by (nonlinear_arith)
            requires
                power <= n < 2 * power,
                scale > 0,
        ;
    } else {
        let unit = pow2((e - 52) as nat);
        lemma_pow2_adds(52, (e - 52) as nat);
        lemma_pow2_pos((e - 52) as nat);
        assert(FRACTION_SIZE <= n / unit < 2 * FRACTION_SIZE) by (nonlinear_arith)
            requires
                FRACTION_SIZE * unit == power,
                power <= n < 2 * power,
                unit > 0,
        ;
    }
}

/// Of two numbers, the larger does not have the smaller highest bit.
proof fn lemma_exponent_monotone(n: nat, m: nat)
    requires
        0 < n <= m,
    ensures
        exponent(n) <= exponent(m),
{
    lemma_exponent(n, 0);
    lemma_exponent(m, 0);
    if exponent(n) > exponent(m) {
        if exponent(n) > exponent(m) + 1 {
            lemma_pow2_strictly_increases(exponent(m) + 1, exponent(n));
        }
    }
}

/// Of two numbers, the larger is not rounded to the smaller quotient.
proof fn lemma_divide_to_even_monotone(n: nat, m: nat, d: nat)
    requires
        n <= m,
        d > 0,
    ensures
        divide_to_even(n, d) <= divide_to_even(m, d),
{
    let q = n / d;
    let r = m / d;
    assert(q <= r) by (nonlinear_arith)
        requires
            n <= m,
            d > 0,
            q == n / d,
            r == m / d,
    ;
    assert(q == r ==> n % d <= m % d) by (nonlinear_arith)
        requires
            n <= m,
            d > 0,
            q == n / d,
            r == m / d,
    ;
}

/// Integers that are compared as floats keep their order, except that neighbours
/// which a float cannot tell apart become equal. Up to two to the power of
/// fifty-three, none do.
pub proof fn law_integers_keep_their_order(n: nat, m: nat)
    requires
        n < m,
    ensures
        nearest_rank(n) <= nearest_rank(m),
        m <= 2 * FRACTION_SIZE ==> nearest_rank(n) < nearest_rank(m),
{
    lemma_significand(m);
    if n > 0 {
        lemma_significand(n);
        lemma_exponent_monotone(n, m);
        lemma2_to64();
        lemma2_to64_rest();
        let e = exponent(n);
        if m <= 2 * FRACTION_SIZE {
            lemma_exponent(n, 0);
            if e > 52 {
                if e > 53 {
                    lemma_pow2_strictly_increases(53, e);
                }
            }
        }
        if e == exponent(m) {
            if e <= 52 {
                let scale = pow2((52 - e) as nat);
                lemma_pow2_pos((52 - e) as nat);
                assert(n * scale < m * scale) by (nonlinear_arith)
                    requires
                        n < m,
                        scale > 0,
                ;
            } else {
                lemma_pow2_pos((e - 52) as nat);
                lemma_divide_to_even_monotone(n, m, pow2((e - 52) as nat));
            }
        }
    }
}

} // verus!
