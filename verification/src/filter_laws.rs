//! Laws of filters: which values pass, and on what that depends.

use std::borrow::Cow;
use vstd::prelude::*;
use vstd::utf8::decode_utf8_encode_utf8;
use vstd::utf8::encode_utf8;
use vstd::utf8::valid_utf8;

use crate::document::json_operand;
use crate::document::json_passes;
use crate::document::json_select;
use crate::document::leaves;
use crate::document::Json;
use crate::number::number_value;
use crate::number::Number;
use crate::outcome::Outcome;
use crate::path::BinaryOperator;
use crate::path::Expr;
use crate::path::FilterFunc;
use crate::path::Path;
use crate::path::PathValue;
use crate::path::Scalar;
use crate::position_laws::lemma_operand_walk_is_walk;
use crate::semantics::is_selecting;
use crate::semantics::operand;
use crate::semantics::operand_start;
use crate::semantics::parts_after_first;
use crate::semantics::passes;
use crate::semantics::passing;
use crate::semantics::positions;
use crate::semantics::scalar_at;
use crate::semantics::scalars_at;
use crate::semantics::scalars_satisfy;
use crate::semantics::walk;
use crate::semantics::Position;

verus! {

/// A value passes a disjunction if and only if it passes one of its sides, and a
/// conjunction if and only if it passes both.
pub proof fn law_connectives_on_values(
    root: Json,
    current: Json,
    left: Box<Expr>,
    right: Box<Expr>,
)
    ensures
        json_passes(root, current, Expr::BinaryOp { op: BinaryOperator::Or, left, right }) <==> {
            ||| json_passes(root, current, *left)
            ||| json_passes(root, current, *right)
        },
        json_passes(root, current, Expr::BinaryOp { op: BinaryOperator::And, left, right }) <==> {
            &&& json_passes(root, current, *left)
            &&& json_passes(root, current, *right)
        },
{
}

/// In any document, where both sides of a connective have an answer, a
/// disjunction holds if and only if one of them does, and a conjunction if and
/// only if both do.
pub proof fn law_connectives(
    data: Seq<u8>,
    pos: Position,
    left: Box<Expr>,
    right: Box<Expr>,
    l: bool,
    r: bool,
)
    requires
        passes(data, pos, *left) == Outcome::Done(l),
        passes(data, pos, *right) == Outcome::Done(r),
    ensures
        passes(data, pos, Expr::BinaryOp { op: BinaryOperator::Or, left, right }) == Outcome::Done(
            l || r,
        ),
        passes(data, pos, Expr::BinaryOp { op: BinaryOperator::And, left, right }) == Outcome::Done(
            l && r,
        ),
{
}

/// Both sides of an operator are always evaluated, the left one first: the whole
/// fails with the error of the left side, and if that one has an answer, with the
/// error of the right side. This holds of connectives.
pub proof fn law_connectives_fail_with_their_sides(
    data: Seq<u8>,
    pos: Position,
    op: BinaryOperator,
    left: Box<Expr>,
    right: Box<Expr>,
)
    requires
        op is And || op is Or,
    ensures
        passes(data, pos, *left) matches Outcome::Failed(e) ==> passes(
            data,
            pos,
            Expr::BinaryOp { op, left, right },
        ) == Outcome::<bool>::Failed(e),
        passes(data, pos, *left) is Done ==> (passes(data, pos, *right) matches Outcome::Failed(e)
            ==> passes(data, pos, Expr::BinaryOp { op, left, right }) == Outcome::<bool>::Failed(
            e,
        )),
        passes(data, pos, Expr::BinaryOp { op, left, right }) is Done <==> passes(data, pos, *left)
            is Done && passes(data, pos, *right) is Done,
        passes(data, pos, Expr::BinaryOp { op, left, right }) is Failed <==> {
            ||| passes(data, pos, *left) is Failed
            ||| passes(data, pos, *left) is Done && passes(data, pos, *right) is Failed
        },
{
}

/// The same of comparisons.
pub proof fn law_comparisons_fail_with_their_sides(
    data: Seq<u8>,
    pos: Position,
    op: BinaryOperator,
    left: Box<Expr>,
    right: Box<Expr>,
)
    requires
        op !is And,
        op !is Or,
    ensures
        operand(data, pos, *left) matches Outcome::Failed(e) ==> passes(
            data,
            pos,
            Expr::BinaryOp { op, left, right },
        ) == Outcome::<bool>::Failed(e),
        operand(data, pos, *left) is Done ==> (operand(data, pos, *right) matches Outcome::Failed(e)
            ==> passes(data, pos, Expr::BinaryOp { op, left, right }) == Outcome::<bool>::Failed(
            e,
        )),
        passes(data, pos, Expr::BinaryOp { op, left, right }) is Done <==> operand(data, pos, *left)
            is Done && operand(data, pos, *right) is Done,
        passes(data, pos, Expr::BinaryOp { op, left, right }) is Failed <==> {
            ||| operand(data, pos, *left) is Failed
            ||| operand(data, pos, *left) is Done && operand(data, pos, *right) is Failed
        },
{
}

/// In any document, a comparison holds if the operator holds between any scalar
/// on the left and any scalar on the right, wherever they stand, and does not
/// hold if there is no such pair.
pub proof fn law_comparison_tries_every_pair(
    data: Seq<u8>,
    pos: Position,
    op: BinaryOperator,
    left: Box<Expr>,
    right: Box<Expr>,
    lefts: Seq<Scalar>,
    rights: Seq<Scalar>,
)
    requires
        op !is And,
        op !is Or,
        operand(data, pos, *left) == Outcome::Done(lefts),
        operand(data, pos, *right) == Outcome::Done(rights),
    ensures
        passes(data, pos, Expr::BinaryOp { op, left, right }) matches Outcome::Done(holds) && {
            &&& forall|i: int, j: int|
                0 <= i < lefts.len() && 0 <= j < rights.len() && #[trigger] scalars_satisfy(
                    op,
                    lefts[i],
                    rights[j],
                ) ==> holds
            &&& holds ==> exists|i: int, j: int|
                0 <= i < lefts.len() && 0 <= j < rights.len() && #[trigger] scalars_satisfy(
                    op,
                    lefts[i],
                    rights[j],
                )
        },
{
}

/// A value passes a comparison if and only if the operator holds between some scalar
/// on the left and some scalar on the right, and nothing passes `starts with`.
pub proof fn law_comparisons_on_values(
    root: Json,
    current: Json,
    op: BinaryOperator,
    left: Box<Expr>,
    right: Box<Expr>,
    func: FilterFunc,
)
    requires
        op !is And,
        op !is Or,
    ensures
        json_passes(root, current, Expr::BinaryOp { op, left, right }) <==> exists|i: int, j: int|
            0 <= i < json_operand(root, current, *left).len() && 0 <= j < json_operand(
                root,
                current,
                *right,
            ).len() && #[trigger] scalars_satisfy(
                op,
                json_operand(root, current, *left)[i],
                json_operand(root, current, *right)[j],
            ),
        func is StartsWith ==> !json_passes(root, current, Expr::FilterFunc(func)),
{
}

/// A value passes `exists(..)` if and only if the path leads to a value from it,
/// however many there are.
pub proof fn law_exists_counts_to_one(root: Json, current: Json, paths: Vec<Path>)
    ensures
        json_passes(root, current, Expr::FilterFunc(FilterFunc::Exists(paths))) <==> json_select(
            root,
            current,
            paths@,
        ) != Seq::<Json>::empty(),
{
    let found = json_select(root, current, paths@);
    assert(found.len() == 0 ==> found =~= Seq::empty());
}

/// In any document, `exists(..)` holds if and only if its path leads to a
/// position, however many there are, and fails if and only if the path does.
pub proof fn law_exists_follows_its_path(data: Seq<u8>, pos: Position, paths: Vec<Path>)
    ensures
        match positions(data, Some(pos), paths@) {
            Outcome::Done(found) => passes(
                data,
                pos,
                Expr::FilterFunc(FilterFunc::Exists(paths)),
            ) == Outcome::Done(found != Seq::<Position>::empty()),
            Outcome::Failed(e) => passes(
                data,
                pos,
                Expr::FilterFunc(FilterFunc::Exists(paths)),
            ) == Outcome::<bool>::Failed(e),
            Outcome::Undefined => passes(
                data,
                pos,
                Expr::FilterFunc(FilterFunc::Exists(paths)),
            ) is Undefined,
        },
{
    if let Outcome::Done(found) = positions(data, Some(pos), paths@) {
        assert(found.len() == 0 ==> found =~= Seq::empty());
    }
}

/// `starts with` is reserved: nothing passes it, in any document.
pub proof fn law_starts_with_is_reserved(data: Seq<u8>, pos: Position, func: FilterFunc)
    requires
        func is StartsWith,
    ensures
        passes(data, pos, Expr::FilterFunc(func)) == Outcome::Done(false),
{
}

/// A literal and a path are no filters.
pub proof fn law_operands_are_no_filters(data: Seq<u8>, pos: Position, expr: Expr)
    ensures
        expr is Value || expr is Paths ==> passes(data, pos, expr) is Undefined,
{
}

/// Filtering positions piece by piece is filtering them as a whole: the first
/// piece that fails decides.
pub proof fn law_filters_go_piece_by_piece(
    data: Seq<u8>,
    first: Seq<Position>,
    rest: Seq<Position>,
    expr: Expr,
)
    ensures
        passing(data, first + rest, expr) == (match passing(data, first, expr) {
            Outcome::Done(kept) => match passing(data, rest, expr) {
                Outcome::Done(others) => Outcome::Done(kept + others),
                Outcome::Failed(e) => Outcome::Failed(e),
                Outcome::Undefined => Outcome::Undefined,
            },
            Outcome::Failed(e) => Outcome::Failed(e),
            Outcome::Undefined => Outcome::Undefined,
        }),
    decreases first.len(),
{
    if first.len() == 0 {
        assert(first + rest =~= rest);
        if let Outcome::Done(others) = passing(data, rest, expr) {
            assert(Seq::<Position>::empty() + others =~= others);
        }
    } else {
        let all = first + rest;
        assert(all[0] == first[0]);
        assert(all.skip(1) =~= first.skip(1) + rest);
        law_filters_go_piece_by_piece(data, first.skip(1), rest, expr);
        if let Outcome::Done(keep) = passes(data, first[0], expr) {
            let head = if keep {
                seq![first[0]]
            } else {
                Seq::empty()
            };
            if let Outcome::Done(kept) = passing(data, first.skip(1), expr) {
                if let Outcome::Done(others) = passing(data, rest, expr) {
                    assert(head + (kept + others) =~= (head + kept) + others);
                }
            }
        }
    }
}

/// Filtering no position keeps none; filtering one keeps it if and only if its
/// value passes.
pub proof fn law_filter_of_one_position(data: Seq<u8>, pos: Position, expr: Expr)
    ensures
        passing(data, Seq::empty(), expr) == Outcome::Done(Seq::<Position>::empty()),
        match passes(data, pos, expr) {
            Outcome::Done(keep) => passing(data, seq![pos], expr) == Outcome::Done(
                if keep {
                    seq![pos]
                } else {
                    Seq::empty()
                },
            ),
            Outcome::Failed(e) => passing(data, seq![pos], expr) == Outcome::<Seq<Position>>::Failed(
                e,
            ),
            Outcome::Undefined => passing(data, seq![pos], expr) is Undefined,
        },
{
    let one = seq![pos];
    assert(one.skip(1) =~= Seq::empty());
    assert(passing(data, one.skip(1), expr) == Outcome::Done(Seq::<Position>::empty()));
    assert(one[0] == pos);
    if let Outcome::Done(keep) = passes(data, pos, expr) {
        let head = if keep {
            seq![pos]
        } else {
            Seq::empty()
        };
        assert(head + Seq::<Position>::empty() =~= head);
    }
}

/// In any document, a filter keeps exactly the positions whose values pass, in
/// order.
pub proof fn law_filter_keeps_what_passes_anywhere(data: Seq<u8>, poses: Seq<Position>, expr: Expr)
    requires
        forall|i: int| 0 <= i < poses.len() ==> passes(data, #[trigger] poses[i], expr) is Done,
    ensures
        passing(data, poses, expr) == Outcome::Done(
            poses.filter(|pos: Position| passes(data, pos, expr) == Outcome::Done(true)),
        ),
    decreases poses.len(),
{
    let test = |pos: Position| passes(data, pos, expr) == Outcome::Done(true);
    reveal_with_fuel(Seq::filter, 1);
    if poses.len() > 0 {
        let before = poses.drop_last();
        assert forall|i: int| 0 <= i < before.len() implies passes(
            data,
            #[trigger] before[i],
            expr,
        ) is Done by {
            assert(before[i] == poses[i]);
        }
        law_filter_keeps_what_passes_anywhere(data, before, expr);
        assert(poses =~= before + seq![poses.last()]);
        law_filters_go_piece_by_piece(data, before, seq![poses.last()], expr);
        law_filter_of_one_position(data, poses.last(), expr);
        assert(passes(data, poses[poses.len() - 1], expr) is Done);
        assert(passing(data, poses, expr)->Done_0 =~= poses.filter(test));
    } else {
        assert(poses =~= Seq::empty());
        assert(poses.filter(test) =~= Seq::empty());
    }
}

/// A literal operand is the one scalar that it is written as, in any document.
pub proof fn law_literals_stand_for_themselves(
    data: Seq<u8>,
    pos: Position,
    b: bool,
    n: Number,
    s: Cow<str>,
)
    ensures
        operand(data, pos, Expr::Value(Box::new(PathValue::Null))) == Outcome::Done(
            seq![Scalar::Null],
        ),
        operand(data, pos, Expr::Value(Box::new(PathValue::Boolean(b)))) == Outcome::Done(
            seq![Scalar::Boolean(b)],
        ),
        operand(data, pos, Expr::Value(Box::new(PathValue::Number(n)))) == Outcome::Done(
            seq![Scalar::Number(n)],
        ),
        operand(data, pos, Expr::Value(Box::new(PathValue::String(s)))) == Outcome::Done(
            seq![Scalar::String(s@)],
        ),
{
}

/// A path operand starts at the value of the filter if its first part is `@`, and
/// at the root otherwise; its first part does nothing else. Then it has the
/// scalars at the positions that its other parts lead to.
pub proof fn law_operand_skips_its_first_part(
    data: Seq<u8>,
    pos: Position,
    paths: Vec<Path>,
)
    requires
        forall|k: int| 1 <= k < paths@.len() ==> is_selecting(#[trigger] paths@[k]),
    ensures
        ({
            let start = if paths@.len() > 0 && paths@[0] is Current {
                pos
            } else {
                Position::Container((0, data.len() as usize))
            };
            let rest = paths@.subrange(
                if paths@.len() > 0 {
                    1
                } else {
                    0
                },
                paths@.len() as int,
            );
            operand(data, pos, Expr::Paths(paths)) == (match walk(data, seq![start], rest) {
                Outcome::Done(found) => scalars_at(data, found),
                Outcome::Failed(e) => Outcome::Failed(e),
                Outcome::Undefined => Outcome::Undefined,
            })
        }),
{
    let rest = parts_after_first(paths@);
    assert forall|k: int| 0 <= k < rest.len() implies is_selecting(#[trigger] rest[k]) by {
        assert(rest[k] == paths@[k + 1]);
    }
    lemma_operand_walk_is_walk(data, seq![operand_start(data, pos, paths@)], rest);
    assert(rest =~= paths@.subrange(
        if paths@.len() > 0 {
            1
        } else {
            0
        },
        paths@.len() as int,
    ));
}

/// Reading scalars piece by piece is reading them as a whole.
pub proof fn law_scalars_are_read_piece_by_piece(
    data: Seq<u8>,
    first: Seq<Position>,
    rest: Seq<Position>,
)
    ensures
        scalars_at(data, first + rest) == (match scalars_at(data, first) {
            Outcome::Done(found) => match scalars_at(data, rest) {
                Outcome::Done(others) => Outcome::Done(found + others),
                Outcome::Failed(e) => Outcome::Failed(e),
                Outcome::Undefined => Outcome::Undefined,
            },
            Outcome::Failed(e) => Outcome::Failed(e),
            Outcome::Undefined => Outcome::Undefined,
        }),
    decreases first.len(),
{
    if first.len() == 0 {
        assert(first + rest =~= rest);
        if let Outcome::Done(others) = scalars_at(data, rest) {
            assert(Seq::<Scalar>::empty() + others =~= others);
        }
    } else {
        let all = first + rest;
        assert(all[0] == first[0]);
        assert(all.skip(1) =~= first.skip(1) + rest);
        law_scalars_are_read_piece_by_piece(data, first.skip(1), rest);
        if let Position::Scalar((ty, offset, length)) = first[0] {
            if let Outcome::Done(s) = scalar_at(data, ty, offset as int, length as int) {
                if let Outcome::Done(found) = scalars_at(data, first.skip(1)) {
                    if let Outcome::Done(others) = scalars_at(data, rest) {
                        assert(seq![s] + (found + others) =~= (seq![s] + found) + others);
                    }
                }
            }
        }
    }
}

/// At no position there is no scalar, and at a container there is none; at a
/// scalar there is the one that its bytes spell.
pub proof fn law_scalars_at_one_position(data: Seq<u8>, ty: u32, offset: usize, length: usize)
    ensures
        scalars_at(data, Seq::empty()) == Outcome::Done(Seq::<Scalar>::empty()),
        scalars_at(data, seq![Position::Container((offset, length))]) == Outcome::Done(
            Seq::<Scalar>::empty(),
        ),
        scalars_at(data, seq![Position::Scalar((ty, offset, length))]) == (match scalar_at(
            data,
            ty,
            offset as int,
            length as int,
        ) {
            Outcome::Done(s) => Outcome::Done(seq![s]),
            Outcome::Failed(e) => Outcome::Failed(e),
            Outcome::Undefined => Outcome::Undefined,
        }),
{
    let container = seq![Position::Container((offset, length))];
    let scalar = seq![Position::Scalar((ty, offset, length))];
    assert(container.skip(1) =~= Seq::empty());
    assert(scalar.skip(1) =~= Seq::empty());
    assert(scalars_at(data, scalar.skip(1)) == Outcome::Done(Seq::<Scalar>::empty()));
    if let Outcome::Done(s) = scalar_at(data, ty, offset as int, length as int) {
        assert(seq![s] + Seq::<Scalar>::empty() =~= seq![s]);
    }
}

/// The kinds of scalars: three of them have no content to be read, a number is
/// what its bytes encode, a string is the text whose encoding its bytes are.
/// Nothing else can be read as a scalar.
pub proof fn law_scalars_by_kind(data: Seq<u8>, ty: u32, offset: int, length: int)
    requires
        0 <= offset,
        0 <= length,
    ensures
        ty == 0x0000_0000 ==> scalar_at(data, ty, offset, length) == Outcome::Done(Scalar::Null),
        ty == 0x3000_0000 ==> scalar_at(data, ty, offset, length) == Outcome::Done(
            Scalar::Boolean(false),
        ),
        ty == 0x4000_0000 ==> scalar_at(data, ty, offset, length) == Outcome::Done(
            Scalar::Boolean(true),
        ),
        ty == 0x2000_0000 && offset + length <= data.len() ==> scalar_at(data, ty, offset, length)
            == (match number_value(data.subrange(offset, offset + length)) {
            Outcome::Done(n) => Outcome::Done(Scalar::Number(n)),
            Outcome::Failed(e) => Outcome::Failed(e),
            Outcome::Undefined => Outcome::Undefined,
        }),
        ty == 0x1000_0000 && offset + length <= data.len() && valid_utf8(
            data.subrange(offset, offset + length),
        ) ==> {
            &&& scalar_at(data, ty, offset, length) matches Outcome::Done(Scalar::String(s))
            &&& encode_utf8(s) == data.subrange(offset, offset + length)
        },
        ty == 0x1000_0000 ==> scalar_at(data, ty, offset, length) !is Failed,
        (ty == 0x1000_0000 || ty == 0x2000_0000) && offset + length > data.len() ==> scalar_at(
            data,
            ty,
            offset,
            length,
        ) is Undefined,
        ty != 0x0000_0000 && ty != 0x1000_0000 && ty != 0x2000_0000 && ty != 0x3000_0000 && ty
            != 0x4000_0000 ==> scalar_at(data, ty, offset, length) is Undefined,
{
    if ty == 0x1000_0000 && offset + length <= data.len() && valid_utf8(
        data.subrange(offset, offset + length),
    ) {
        decode_utf8_encode_utf8(data.subrange(offset, offset + length));
    }
}

/// On values too, the leaves of a whole are those of its pieces, a scalar inside a
/// container is its own leaf, and nothing else is.
pub proof fn law_leaves(first: Seq<Json>, rest: Seq<Json>, value: Json)
    ensures
        leaves(first + rest) == leaves(first) + leaves(rest),
        leaves(Seq::empty()) == Seq::<Scalar>::empty(),
        value matches Json::Leaf(s) ==> leaves(seq![value]) == seq![s],
        value !is Leaf ==> leaves(seq![value]) == Seq::<Scalar>::empty(),
    decreases first.len(),
{
    let one = seq![value];
    assert(one.skip(1) =~= Seq::empty());
    assert(leaves(one.skip(1)) =~= Seq::empty());
    if first.len() == 0 {
        assert(first + rest =~= rest);
        assert(leaves(first) + leaves(rest) =~= leaves(rest));
    } else {
        let all = first + rest;
        assert(all[0] == first[0]);
        assert(all.skip(1) =~= first.skip(1) + rest);
        law_leaves(first.skip(1), rest, value);
        assert(leaves(all) =~= leaves(first) + leaves(rest));
    }
    if let Json::Leaf(s) = value {
        assert(leaves(one) =~= seq![s]);
    }
}

} // verus!
