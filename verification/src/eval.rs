//! Following a path, and evaluating its filters.

use std::borrow::Cow;
use std::cmp::Ordering;
use std::collections::VecDeque;
use vstd::prelude::*;
use vstd::slice::slice_to_vec;

use crate::constants::FALSE_TAG;
use crate::constants::NULL_TAG;
use crate::constants::NUMBER_TAG;
use crate::constants::TRUE_TAG;
use crate::error::Error;
use crate::number::Number;
use crate::outcome::Outcome;
use crate::path::str_of;
use crate::path::BinaryOperator;
use crate::path::Expr;
use crate::path::FilterFunc;
use crate::path::Path;
use crate::path::PathValue;
use crate::path::Scalar;
use crate::raw::bytes_at;
use crate::raw::RawJsonb;
use crate::selector::Selector;
use crate::semantics::advance;
use crate::semantics::after;
use crate::semantics::has_order;
use crate::semantics::is_comparison;
use crate::semantics::operand;
use crate::semantics::operand_start;
use crate::semantics::operand_walk;
use crate::semantics::parts_after_first;
use crate::semantics::passes;
use crate::semantics::passing;
use crate::semantics::positions;
use crate::semantics::scalar_at;
use crate::semantics::scalars_at;
use crate::semantics::scalars_satisfy;
use crate::semantics::some_satisfy;
use crate::semantics::walk;
use crate::semantics::Position;

verus! {

/// One side of a comparison.
#[derive(Debug)]
pub(crate) enum ExprValue<'b> {
    /// The scalars that a path leads to.
    Values(Vec<PathValue<'b>>),
    /// A literal.
    Value(&'b PathValue<'b>),
}

/// The scalars in `values`.
pub(crate) open spec fn scalars(values: Seq<PathValue>) -> Seq<Scalar> {
    Seq::new(values.len(), |i: int| values[i]@)
}

impl<'b> ExprValue<'b> {
    /// The scalars on this side, of which a literal is one.
    pub(crate) open spec fn view(&self) -> Seq<Scalar> {
        match *self {
            ExprValue::Values(values) => scalars(values@),
            ExprValue::Value(value) => seq![value@],
        }
    }
}

/// Whether no scalar of `left` has an order with a scalar of `right`.
pub(crate) open spec fn incomparable(left: Seq<Scalar>, right: Seq<Scalar>) -> bool {
    forall|i: int, j: int|
        0 <= i < left.len() && 0 <= j < right.len() ==> !#[trigger] has_order(left[i], right[j])
}

/// Reads the scalar of kind `ty` in the `length` bytes at `offset`.
fn scalar_value<'b>(root: RawJsonb<'_>, ty: u32, offset: usize, length: usize) -> (res: Result<
    PathValue<'b>,
    Error,
>)
    requires
        scalar_at(root@, ty, offset as int, length as int) !is Undefined,
    ensures
        match scalar_at(root@, ty, offset as int, length as int) {
            Outcome::Done(scalar) => res matches Ok(value) && value@ == scalar,
            Outcome::Failed(e) => res matches Err(error) && error == e,
            Outcome::Undefined => false,
        },
{
    if ty == NULL_TAG {
        Ok(PathValue::Null)
    } else if ty == TRUE_TAG {
        Ok(PathValue::Boolean(true))
    } else if ty == FALSE_TAG {
        Ok(PathValue::Boolean(false))
    } else if ty == NUMBER_TAG {
        match Number::decode(bytes_at(root, offset, length)) {
            Ok(number) => Ok(PathValue::Number(number)),
            Err(e) => Err(e),
        }
    } else {
        let bytes: Vec<u8> = slice_to_vec(bytes_at(root, offset, length));
        match String::from_utf8(bytes) {
            Ok(string) => Ok(PathValue::String(Cow::Owned(string))),
            Err(_) => Err(Error::InvalidJsonb),
        }
    }
}

impl<'a> Selector<'a> {
    /// The positions that a path leads to, starting at `current` if its first
    /// part is `@` and at the root otherwise.
    pub(crate) fn find_positions(
        &self,
        root: RawJsonb<'_>,
        current: Option<Position>,
        paths: &[Path<'_>],
    ) -> (res: Result<VecDeque<Position>, Error>)
        requires
            positions(root@, current, paths@) !is Undefined,
        ensures
            match positions(root@, current, paths@) {
                Outcome::Done(found) => res matches Ok(poses) && poses@ == found,
                Outcome::Failed(e) => res matches Err(error) && error == e,
                Outcome::Undefined => false,
            },
        decreases paths@, 1nat, 0nat,
    {
        let mut poses: VecDeque<Position> = VecDeque::new();
        let mut start: Position = Position::Container((0, root.len()));
        if paths.len() > 0 && matches!(paths[0], Path::Current) {
            if let Some(pos) = current {
                start = pos;
            }
        }
        poses.push_back(start);
        assert(poses@ =~= seq![start]);
        let ghost total = walk(root@, seq![start], paths@);
        assert(paths@.skip(0) =~= paths@);
        let mut i: usize = 0;
        while i < paths.len()
            invariant
                i <= paths@.len(),
                total == positions(root@, current, paths@),
                total !is Undefined,
                total == walk(root@, poses@, paths@.skip(i as int)),
            decreases paths@.len() - i,
        {
            assert(paths@.skip(i as int)[0] == paths@[i as int]);
            assert(paths@.skip(i as int).skip(1) =~= paths@.skip(i + 1));
            assert(decreases_to!(paths@ => paths@[i as int]));
            match self.apply_path(root, &paths[i], &mut poses) {
                Ok(()) => {},
                Err(e) => {
                    return Err(e);
                },
            }
            i += 1;
        }
        Ok(poses)
    }

    /// Applies a part of a path to the selected positions.
    fn apply_path(
        &self,
        root: RawJsonb<'_>,
        path: &Path<'_>,
        poses: &mut VecDeque<Position>,
    ) -> (res: Result<(), Error>)
        requires
            advance(root@, old(poses)@, *path) !is Undefined,
        ensures
            match advance(root@, old(poses)@, *path) {
                Outcome::Done(found) => res is Ok && final(poses)@ == found,
                Outcome::Failed(e) => res == Err::<(), Error>(e),
                Outcome::Undefined => false,
            },
        decreases *path, 0nat, 0nat,
    {
        let ghost start = poses@;
        match path {
            Path::Root | Path::Current => Ok(()),
            Path::FilterExpr(expr) | Path::Predicate(expr) => {
                assert(advance(root@, start, *path) == passing(root@, start, **expr));
                self.filter_positions(root, expr, poses)
            },
            _ => self.select_each(root, path, poses),
        }
    }

    /// Keeps those positions whose values pass a filter.
    fn filter_positions(
        &self,
        root: RawJsonb<'_>,
        expr: &Expr<'_>,
        poses: &mut VecDeque<Position>,
    ) -> (res: Result<(), Error>)
        requires
            passing(root@, old(poses)@, *expr) !is Undefined,
        ensures
            match passing(root@, old(poses)@, *expr) {
                Outcome::Done(found) => res is Ok && final(poses)@ == found,
                Outcome::Failed(e) => res == Err::<(), Error>(e),
                Outcome::Undefined => false,
            },
        decreases *expr, 1nat, 0nat,
    {
        let ghost start = poses@;
        let ghost mut out = Seq::<Position>::empty();
        let len: usize = poses.len();
        let mut k: usize = 0;
        assert(start.skip(0) =~= start);
        assert(start.skip(0) + out =~= start);
        proof {
            if let Outcome::Done(s) = passing(root@, start, *expr) {
                assert(out + s =~= s);
            }
        }
        while k < len
            invariant
                k <= len,
                len == start.len(),
                poses@ == start.skip(k as int) + out,
                passing(root@, start, *expr) !is Undefined,
                passing(root@, start, *expr) == after(
                    out,
                    passing(root@, start.skip(k as int), *expr),
                ),
                start == old(poses)@,
            decreases len - k,
        {
            let ghost todo = start.skip(k as int);
            assert(todo.len() > 0 && todo[0] == start[k as int]);
            assert(todo.skip(1) =~= start.skip(k + 1));
            let pos: Position = poses.pop_front().unwrap();
            assert(poses@ =~= start.skip(k + 1) + out);
            let keep: bool = match self.filter_expr(root, &pos, expr) {
                Ok(keep) => keep,
                Err(e) => {
                    return Err(e);
                },
            };
            if keep {
                poses.push_back(pos);
            }
            proof {
                let next = if keep {
                    seq![pos]
                } else {
                    Seq::empty()
                };
                assert(poses@ =~= start.skip(k + 1) + (out + next));
                if let Outcome::Done(s) = passing(root@, start.skip(k + 1), *expr) {
                    assert(out + (next + s) =~= (out + next) + s);
                }
                out = out + next;
            }
            k += 1;
        }
        assert(start.skip(len as int) =~= Seq::empty());
        assert(poses@ =~= out);
        assert(out + Seq::<Position>::empty() =~= out);
        Ok(())
    }

    /// Whether the value at a position passes a filter.
    pub(crate) fn filter_expr(&self, root: RawJsonb<'_>, pos: &Position, expr: &Expr<'_>) -> (res: Result<
        bool,
        Error,
    >)
        requires
            passes(root@, *pos, *expr) !is Undefined,
        ensures
            match passes(root@, *pos, *expr) {
                Outcome::Done(keep) => res == Ok::<bool, Error>(keep),
                Outcome::Failed(e) => res == Err::<bool, Error>(e),
                Outcome::Undefined => false,
            },
        decreases *expr, 0nat, 0nat,
    {
        match expr {
            Expr::BinaryOp { op, left, right } => match op {
                BinaryOperator::Or => {
                    let lhs: bool = match self.filter_expr(root, pos, left) {
                        Ok(lhs) => lhs,
                        Err(e) => {
                            return Err(e);
                        },
                    };
                    let rhs: bool = match self.filter_expr(root, pos, right) {
                        Ok(rhs) => rhs,
                        Err(e) => {
                            return Err(e);
                        },
                    };
                    Ok(lhs || rhs)
                },
                BinaryOperator::And => {
                    let lhs: bool = match self.filter_expr(root, pos, left) {
                        Ok(lhs) => lhs,
                        Err(e) => {
                            return Err(e);
                        },
                    };
                    let rhs: bool = match self.filter_expr(root, pos, right) {
                        Ok(rhs) => rhs,
                        Err(e) => {
                            return Err(e);
                        },
                    };
                    Ok(lhs && rhs)
                },
                _ => {
                    let lhs: ExprValue<'_> = match self.convert_expr_val(root, pos, left) {
                        Ok(lhs) => lhs,
                        Err(e) => {
                            return Err(e);
                        },
                    };
                    let rhs: ExprValue<'_> = match self.convert_expr_val(root, pos, right) {
                        Ok(rhs) => rhs,
                        Err(e) => {
                            return Err(e);
                        },
                    };
                    Ok(self.compare(op, &lhs, &rhs))
                },
            },
            Expr::FilterFunc(filter_func) => match filter_func {
                FilterFunc::Exists(paths) => self.eval_exists(root, pos, paths.as_slice()),
                FilterFunc::StartsWith(prefix) => self.eval_starts_with(
                    root,
                    pos,
                    str_of(prefix),
                ),
            },
            _ => Ok(false),
        }
    }

    /// Whether a path leads anywhere.
    pub(crate) fn eval_exists(&self, root: RawJsonb<'_>, pos: &Position, paths: &[Path<'_>]) -> (res: Result<
        bool,
        Error,
    >)
        requires
            positions(root@, Some(*pos), paths@) !is Undefined,
        ensures
            match positions(root@, Some(*pos), paths@) {
                Outcome::Done(found) => res == Ok::<bool, Error>(found.len() > 0),
                Outcome::Failed(e) => res == Err::<bool, Error>(e),
                Outcome::Undefined => false,
            },
        decreases paths@, 2nat, 0nat,
    {
        match self.find_positions(root, Some(*pos), paths) {
            Ok(poses) => Ok(poses.len() > 0),
            Err(e) => Err(e),
        }
    }

    /// Whether a value starts with `prefix`. The function is reserved, and the
    /// answer is always no.
    pub(crate) fn eval_starts_with(&self, _root: RawJsonb<'_>, _pos: &Position, _prefix: &str) -> (res: Result<
        bool,
        Error,
    >)
        ensures
            res == Ok::<bool, Error>(false),
    {
        Ok(false)
    }

    /// The scalars that stand on one side of a comparison. A literal is passed on
    /// as it is, and a path gives a list of scalars, however many they are.
    pub(crate) fn convert_expr_val<'b>(&self, root: RawJsonb<'_>, pos: &Position, expr: &'b Expr<'b>) -> (res:
        Result<ExprValue<'b>, Error>)
        requires
            operand(root@, *pos, *expr) !is Undefined,
        ensures
            match operand(root@, *pos, *expr) {
                Outcome::Done(found) => {
                    &&& res matches Ok(value)
                    &&& value@ == found
                    &&& match *expr {
                        Expr::Value(literal) => value == ExprValue::Value(&*literal),
                        _ => value is Values,
                    }
                },
                Outcome::Failed(e) => res matches Err(error) && error == e,
                Outcome::Undefined => false,
            },
    {
        match expr {
            Expr::Value(value) => Ok(ExprValue::Value(value)),
            Expr::Paths(paths) => {
                let mut poses: VecDeque<Position> = VecDeque::new();
                if paths.len() > 0 && matches!(paths[0], Path::Current) {
                    poses.push_back(*pos);
                } else {
                    poses.push_back(Position::Container((0, root.len())));
                }
                let ghost total = operand_walk(
                    root@,
                    seq![operand_start(root@, *pos, paths@)],
                    parts_after_first(paths@),
                );
                assert(poses@ =~= seq![operand_start(root@, *pos, paths@)]);
                let mut i: usize = 1;
                while i < paths.len()
                    invariant
                        1 <= i,
                        total !is Undefined,
                        if i <= paths@.len() {
                            total == operand_walk(root@, poses@, paths@.skip(i as int))
                        } else {
                            paths@.len() == 0 && total == operand_walk(root@, poses@, paths@)
                        },
                        operand(root@, *pos, *expr) == (match total {
                            Outcome::Done(poses) => scalars_at(root@, poses),
                            Outcome::Failed(e) => Outcome::Failed(e),
                            Outcome::Undefined => Outcome::Undefined,
                        }),
                    decreases paths@.len() - i,
                {
                    assert(paths@.skip(i as int)[0] == paths@[i as int]);
                    assert(paths@.skip(i as int).skip(1) =~= paths@.skip(i + 1));
                    match self.select_each(root, &paths[i], &mut poses) {
                        Ok(()) => {},
                        Err(e) => {
                            return Err(e);
                        },
                    }
                    i += 1;
                }
                let ghost todo = poses@;
                assert(total == Outcome::Done(poses@));
                let mut values: Vec<PathValue<'b>> = Vec::new();
                assert(scalars(values@) =~= Seq::empty());
                proof {
                    if let Outcome::Done(s) = scalars_at(root@, todo) {
                        assert(Seq::<Scalar>::empty() + s =~= s);
                    }
                }
                while poses.len() > 0
                    invariant
                        scalars_at(root@, todo) !is Undefined,
                        operand(root@, *pos, *expr) == scalars_at(root@, todo),
                        scalars_at(root@, todo) == after(
                            scalars(values@),
                            scalars_at(root@, poses@),
                        ),
                    decreases poses@.len(),
                {
                    let ghost before = poses@;
                    let ghost done = scalars(values@);
                    assert(before.subrange(1, before.len() as int) =~= before.skip(1));
                    if let Some(Position::Scalar((ty, offset, length))) = poses.pop_front() {
                        match scalar_value(root, ty, offset, length) {
                            Ok(value) => {
                                proof {
                                    if let Outcome::Done(s) = scalars_at(root@, before.skip(1)) {
                                        assert(done + (seq![value@] + s) =~= (done + seq![value@])
                                            + s);
                                    }
                                }
                                values.push(value);
                                assert(scalars(values@) =~= done + seq![value@]);
                            },
                            Err(e) => {
                                return Err(e);
                            },
                        }
                    }
                }
                assert(scalars(values@) + Seq::<Scalar>::empty() =~= scalars(values@));
                Ok(ExprValue::Values(values))
            },
            _ => Ok(ExprValue::Values(Vec::new())),
        }
    }

    /// Whether `op` holds between some scalar on the left and some on the right.
    pub(crate) fn compare(&self, op: &BinaryOperator, lhs: &ExprValue<'_>, rhs: &ExprValue<'_>) -> (res: bool)
        requires
            is_comparison(*op) || incomparable(lhs@, rhs@),
        ensures
            res == some_satisfy(*op, lhs@, rhs@),
    {
        match lhs {
            ExprValue::Value(lhs) => self.compare_one(op, lhs, rhs),
            ExprValue::Values(lhses) => {
                let ghost lhs_all = scalars(lhses@);
                let mut i: usize = 0;
                while i < lhses.len()
                    invariant
                        i <= lhses@.len(),
                        lhs_all == scalars(lhses@),
                        lhs@ == lhs_all,
                        is_comparison(*op) || incomparable(scalars(lhses@), rhs@),
                        forall|k: int, j: int|
                            0 <= k < i && 0 <= j < rhs@.len() ==> !#[trigger] scalars_satisfy(
                                *op,
                                scalars(lhses@)[k],
                                rhs@[j],
                            ),
                    decreases lhses@.len() - i,
                {
                    let ghost left = seq![lhses@[i as int]@];
                    assert(scalars(lhses@)[i as int] == left[0]);
                    assert(is_comparison(*op) || incomparable(left, rhs@));
                    if self.compare_one(op, &lhses[i], rhs) {
                        let ghost (k, j) = choose|k: int, j: int|
                            0 <= k < left.len() && 0 <= j < rhs@.len() && scalars_satisfy(
                                *op,
                                left[k],
                                rhs@[j],
                            );
                        assert(scalars_satisfy(*op, lhs_all[i as int], rhs@[j]));
                        return true;
                    }
                    assert forall|j: int| 0 <= j < rhs@.len() implies !#[trigger] scalars_satisfy(
                        *op,
                        scalars(lhses@)[i as int],
                        rhs@[j],
                    ) by {
                        assert(!scalars_satisfy(*op, left[0], rhs@[j]));
                    }
                    i += 1;
                }
                false
            },
        }
    }

    /// Whether `op` holds between a scalar and some scalar on the right.
    fn compare_one(&self, op: &BinaryOperator, lhs: &PathValue<'_>, rhs: &ExprValue<'_>) -> (res:
        bool)
        requires
            is_comparison(*op) || incomparable(seq![lhs@], rhs@),
        ensures
            res == some_satisfy(*op, seq![lhs@], rhs@),
    {
        let ghost left = seq![lhs@];
        assert(left[0] == lhs@);
        match rhs {
            ExprValue::Value(value) => {
                assert(rhs@[0] == value@);
                assert(is_comparison(*op) || !has_order(left[0], rhs@[0]));
                let res: bool = self.compare_value(op, lhs, value);
                assert(res == scalars_satisfy(*op, left[0], rhs@[0]));
                res
            },
            ExprValue::Values(rhses) => {
                let mut j: usize = 0;
                while j < rhses.len()
                    invariant
                        j <= rhses@.len(),
                        left == seq![lhs@],
                        is_comparison(*op) || incomparable(left, scalars(rhses@)),
                        forall|k: int|
                            0 <= k < j ==> !#[trigger] scalars_satisfy(
                                *op,
                                left[0],
                                scalars(rhses@)[k],
                            ),
                        rhs@ == scalars(rhses@),
                    decreases rhses@.len() - j,
                {
                    assert(scalars(rhses@)[j as int] == rhses@[j as int]@);
                    assert(is_comparison(*op) || !has_order(
                        left[0],
                        scalars(rhses@)[j as int],
                    ));
                    if self.compare_value(op, lhs, &rhses[j]) {
                        assert(scalars_satisfy(*op, left[0], scalars(rhses@)[j as int]));
                        return true;
                    }
                    j += 1;
                }
                false
            },
        }
    }

    /// Whether `op` holds between two scalars.
    pub(crate) fn compare_value(&self, op: &BinaryOperator, lhs: &PathValue<'_>, rhs: &PathValue<'_>) -> (res:
        bool)
        requires
            is_comparison(*op) || !has_order(lhs@, rhs@),
        ensures
            res == scalars_satisfy(*op, lhs@, rhs@),
    {
        if let Some(order) = lhs.order(rhs) {
            match op {
                BinaryOperator::Eq => matches!(order, Ordering::Equal),
                BinaryOperator::NotEq => !matches!(order, Ordering::Equal),
                BinaryOperator::Lt => matches!(order, Ordering::Less),
                BinaryOperator::Lte => matches!(order, Ordering::Equal | Ordering::Less),
                BinaryOperator::Gt => matches!(order, Ordering::Greater),
                BinaryOperator::Gte => matches!(order, Ordering::Equal | Ordering::Greater),
                _ => false,
            }
        } else {
            false
        }
    }
}

} // verus!
