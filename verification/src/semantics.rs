//! What a path selects in a document, stated over the bytes of the document.
//!
//! A position names a value by where its bytes lie. Every part of a path turns
//! the positions that are selected so far into others; the functions here say
//! into which, and when the document is too short or too broken for an answer.

use std::cmp::Ordering;
use vstd::prelude::*;
use vstd::utf8::decode_utf8;
use vstd::utf8::encode_utf8;
use vstd::utf8::valid_utf8;

use crate::constants::ARRAY_CONTAINER_TAG;
use crate::constants::CONTAINER_TAG;
use crate::constants::FALSE_TAG;
use crate::constants::NULL_TAG;
use crate::constants::NUMBER_TAG;
use crate::constants::OBJECT_CONTAINER_TAG;
use crate::constants::SCALAR_CONTAINER_TAG;
use crate::constants::STRING_TAG;
use crate::constants::TRUE_TAG;
use crate::error::Error;
use crate::number::number_value;
use crate::outcome::Outcome;
use crate::path::scalar_order;
use crate::path::ArrayIndex;
use crate::path::BinaryOperator;
use crate::path::Expr;
use crate::path::FilterFunc;
use crate::path::Index;
use crate::path::Path;
use crate::path::Scalar;
use crate::wire::header_len;
use crate::wire::header_type;
use crate::wire::jentry_at;
use crate::wire::u32_at;
use crate::wire::u32_bytes;

verus! {

/// Where a value lies in a document.
#[derive(Clone, Copy, Debug, PartialEq, Eq)]
pub enum Position {
    /// The offset and the length of a container.
    Container((usize, usize)),
    /// The kind, the offset and the length of a scalar.
    Scalar((u32, usize, usize)),
}

/// The total length of the first `k` entries whose descriptors start at `table`.
pub open spec fn entries_len(data: Seq<u8>, table: int, k: nat) -> nat
    decreases k,
{
    if k == 0 {
        0
    } else {
        entries_len(data, table, (k - 1) as nat) + jentry_at(data, table + 4 * (k - 1)).1 as nat
    }
}

/// The position of the entry that `jentry` describes, which starts at `offset`.
pub open spec fn entry_position(jentry: (u32, usize), offset: usize) -> Position {
    if jentry.0 == CONTAINER_TAG {
        Position::Container((offset, jentry.1))
    } else {
        Position::Scalar((jentry.0, offset, jentry.1))
    }
}

/// The position of entry `i` among entries whose descriptors start at `table`
/// and whose contents start at `base`.
pub open spec fn child(data: Seq<u8>, table: int, base: int, i: int) -> Position {
    entry_position(
        jentry_at(data, table + 4 * i),
        (base + entries_len(data, table, i as nat)) as usize,
    )
}

/// The number of entries of the container at `offset`.
pub open spec fn count_at(data: Seq<u8>, offset: int) -> nat {
    header_len(u32_at(data, offset))
}

/// The kind of the container at `offset`.
pub open spec fn kind_at(data: Seq<u8>, offset: int) -> u32 {
    header_type(u32_at(data, offset))
}

/// Where the contents of the values of the object at `offset` start.
pub open spec fn object_base(data: Seq<u8>, offset: int) -> int {
    let n = count_at(data, offset);
    offset + 4 + 8 * n + entries_len(data, offset + 4, n)
}

/// Whether the end of the object at `offset` is a machine integer.
pub open spec fn object_fits(data: Seq<u8>, offset: int) -> bool {
    let n = count_at(data, offset);
    object_base(data, offset) + entries_len(data, offset + 4 + 4 * n, n) <= usize::MAX
}

/// Whether the end of the array at `offset` is a machine integer.
pub open spec fn array_fits(data: Seq<u8>, offset: int) -> bool {
    let n = count_at(data, offset);
    offset + 4 + 4 * n + entries_len(data, offset + 4, n) <= usize::MAX
}

/// The values of the object at `offset`, in order; nothing if it is no object.
pub open spec fn object_values(data: Seq<u8>, offset: int) -> Outcome<Seq<Position>> {
    let n = count_at(data, offset);
    if offset > data.len() {
        Outcome::Undefined
    } else if offset + 4 > data.len() {
        Outcome::Failed(Error::InvalidJsonb)
    } else if kind_at(data, offset) != OBJECT_CONTAINER_TAG || n == 0 {
        Outcome::Done(Seq::empty())
    } else if offset + 4 + 8 * n > data.len() {
        Outcome::Failed(Error::InvalidJsonb)
    } else if !object_fits(data, offset) {
        Outcome::Undefined
    } else {
        Outcome::Done(
            Seq::new(n, |i: int| child(data, offset + 4 + 4 * n, object_base(data, offset), i)),
        )
    }
}

/// The values of the array at `offset`, in order; the container of `length`
/// bytes itself if it is no array.
pub open spec fn array_values(data: Seq<u8>, offset: usize, length: usize) -> Outcome<
    Seq<Position>,
> {
    let n = count_at(data, offset as int);
    if offset > data.len() {
        Outcome::Undefined
    } else if offset + 4 > data.len() {
        Outcome::Failed(Error::InvalidJsonb)
    } else if kind_at(data, offset as int) != ARRAY_CONTAINER_TAG {
        Outcome::Done(seq![Position::Container((offset, length))])
    } else if offset + 4 + 4 * n > data.len() {
        Outcome::Failed(Error::InvalidJsonb)
    } else if !array_fits(data, offset as int) {
        Outcome::Undefined
    } else {
        Outcome::Done(
            Seq::new(n, |i: int| child(data, offset + 4, offset + 4 + 4 * n, i)),
        )
    }
}

/// The first key of the object at `offset`, from key `i` on, that is `name`.
/// Only keys as long as `name` are read.
pub open spec fn key_from(data: Seq<u8>, offset: int, name: Seq<u8>, i: nat) -> Outcome<
    Option<nat>,
>
    decreases count_at(data, offset) - i,
{
    let n = count_at(data, offset);
    if i >= n {
        Outcome::Done(None)
    } else {
        let start = offset + 4 + 8 * n + entries_len(data, offset + 4, i);
        let length = jentry_at(data, offset + 4 + 4 * i).1;
        if length != name.len() {
            key_from(data, offset, name, i + 1)
        } else if start > data.len() {
            Outcome::Undefined
        } else if start + length > data.len() {
            Outcome::Failed(Error::InvalidJsonb)
        } else if data.subrange(start, start + length) == name {
            Outcome::Done(Some(i))
        } else {
            key_from(data, offset, name, i + 1)
        }
    }
}

/// Whether the start of value `i` of the object at `offset` is a machine integer.
pub open spec fn member_fits(data: Seq<u8>, offset: int, i: nat) -> bool {
    let n = count_at(data, offset);
    object_base(data, offset) + entries_len(data, offset + 4 + 4 * n, i) <= usize::MAX
}

/// The value of the object at `offset` under the first key that is `name`;
/// nothing if there is no such key, or it is no object. All keys are measured,
/// and the values before the one that is found.
pub open spec fn value_by_name(data: Seq<u8>, offset: int, name: Seq<u8>) -> Outcome<
    Seq<Position>,
> {
    let n = count_at(data, offset);
    if offset > data.len() {
        Outcome::Undefined
    } else if offset + 4 > data.len() {
        Outcome::Failed(Error::InvalidJsonb)
    } else if kind_at(data, offset) != OBJECT_CONTAINER_TAG || n == 0 {
        Outcome::Done(Seq::empty())
    } else if offset + 4 + 8 * n > data.len() {
        Outcome::Failed(Error::InvalidJsonb)
    } else {
        match key_from(data, offset, name, 0) {
            Outcome::Done(Some(i)) => if member_fits(data, offset, i) {
                Outcome::Done(
                    seq![child(data, offset + 4 + 4 * n, object_base(data, offset), i as int)],
                )
            } else {
                Outcome::Undefined
            },
            Outcome::Done(None) => if member_fits(data, offset, 0) {
                Outcome::Done(Seq::empty())
            } else {
                Outcome::Undefined
            },
            Outcome::Failed(e) => Outcome::Failed(e),
            Outcome::Undefined => Outcome::Undefined,
        }
    }
}

/// Whether the place that `index` names in an array of `n` values can be
/// computed in 32 bits.
pub open spec fn index_fits(index: Index, n: int) -> bool {
    match index {
        Index::Index(_) => true,
        Index::LastIndex(i) => n + i <= i32::MAX && n + i - 1 >= i32::MIN,
    }
}

/// The place that `index` names in an array of `n` values, which need not be
/// a place of the array.
pub open spec fn place(index: Index, n: int) -> int {
    match index {
        Index::Index(i) => i as int,
        Index::LastIndex(i) => n + i - 1,
    }
}

/// The places of an array of `n` values from place `from` to place `to`.
pub open spec fn slice_places(from: int, to: int, n: int) -> Seq<usize> {
    let low = if from < 0 { 0 } else { from };
    let high = if to >= n { n - 1 } else { to };
    if low <= high {
        Seq::new((high - low + 1) as nat, |k: int| (low + k) as usize)
    } else {
        Seq::empty()
    }
}

/// Whether the places that `index` names can be computed in 32 bits.
pub open spec fn array_index_fits(index: ArrayIndex, n: int) -> bool {
    match index {
        ArrayIndex::Index(i) => index_fits(i, n),
        ArrayIndex::Slice((from, to)) => index_fits(from, n) && index_fits(to, n),
    }
}

/// The places that `index` picks in an array of `n` values.
pub open spec fn index_places(index: ArrayIndex, n: int) -> Seq<usize> {
    match index {
        ArrayIndex::Index(i) => slice_places(place(i, n), place(i, n), n),
        ArrayIndex::Slice((from, to)) => slice_places(place(from, n), place(to, n), n),
    }
}

/// The places that `indices` pick in an array of `n` values, one index after
/// the other.
pub open spec fn places(indices: Seq<ArrayIndex>, n: int) -> Seq<usize>
    decreases indices.len(),
{
    if indices.len() == 0 {
        Seq::empty()
    } else {
        places(indices.drop_last(), n) + index_places(indices.last(), n)
    }
}

/// The values of the array at `offset` that `indices` pick; nothing if it is
/// no array.
pub open spec fn values_by_indices(
    data: Seq<u8>,
    offset: int,
    indices: Seq<ArrayIndex>,
) -> Outcome<Seq<Position>> {
    let n = count_at(data, offset);
    let picked = places(indices, n as int);
    if offset > data.len() {
        Outcome::Undefined
    } else if offset + 4 > data.len() {
        Outcome::Failed(Error::InvalidJsonb)
    } else if kind_at(data, offset) != ARRAY_CONTAINER_TAG || n == 0 {
        Outcome::Done(Seq::empty())
    } else if !(forall|i: int| 0 <= i < indices.len() ==> #[trigger] array_index_fits(
        indices[i],
        n as int,
    )) {
        Outcome::Undefined
    } else if picked.len() == 0 {
        Outcome::Done(Seq::empty())
    } else if offset + 4 + 4 * n > data.len() {
        Outcome::Failed(Error::InvalidJsonb)
    } else if !array_fits(data, offset) {
        Outcome::Undefined
    } else {
        Outcome::Done(
            Seq::new(
                picked.len(),
                |k: int| child(data, offset + 4, offset + 4 + 4 * n, picked[k] as int),
            ),
        )
    }
}

/// What a selecting part of a path makes of a container.
pub open spec fn container_step(
    data: Seq<u8>,
    offset: usize,
    length: usize,
    path: Path,
) -> Outcome<Seq<Position>> {
    match path {
        Path::DotWildcard => object_values(data, offset as int),
        Path::BracketWildcard => array_values(data, offset, length),
        Path::ColonField(name) => value_by_name(data, offset as int, encode_utf8(name@)),
        Path::DotField(name) => value_by_name(data, offset as int, encode_utf8(name@)),
        Path::ObjectField(name) => value_by_name(data, offset as int, encode_utf8(name@)),
        Path::ArrayIndices(indices) => values_by_indices(data, offset as int, indices@),
        _ => Outcome::Undefined,
    }
}

/// What a selecting part of a path makes of a position. A scalar has no parts,
/// but `[*]` takes it for an array of one.
pub open spec fn step(data: Seq<u8>, pos: Position, path: Path) -> Outcome<Seq<Position>> {
    match pos {
        Position::Container((offset, length)) => container_step(data, offset, length, path),
        Position::Scalar(_) => Outcome::Done(
            if path is BracketWildcard {
                seq![pos]
            } else {
                Seq::empty()
            },
        ),
    }
}

/// `rest`, with `first` in front of its positions.
pub open spec fn after<T>(first: Seq<T>, rest: Outcome<Seq<T>>) -> Outcome<Seq<T>> {
    match rest {
        Outcome::Done(s) => Outcome::Done(first + s),
        Outcome::Failed(e) => Outcome::Failed(e),
        Outcome::Undefined => Outcome::Undefined,
    }
}

/// What a selecting part of a path makes of each of `poses`, one after the
/// other.
pub open spec fn step_all(data: Seq<u8>, poses: Seq<Position>, path: Path) -> Outcome<
    Seq<Position>,
>
    decreases poses.len(),
{
    if poses.len() == 0 {
        Outcome::Done(Seq::empty())
    } else {
        match step(data, poses[0], path) {
            Outcome::Done(first) => after(first, step_all(data, poses.skip(1), path)),
            Outcome::Failed(e) => Outcome::Failed(e),
            Outcome::Undefined => Outcome::Undefined,
        }
    }
}

/// The position of the whole document.
pub open spec fn root_position(data: Seq<u8>) -> Position {
    Position::Container((0, data.len() as usize))
}

/// Where a path inside an expression starts: at `pos` if it starts with `@`,
/// at the root otherwise.
pub open spec fn operand_start(data: Seq<u8>, pos: Position, paths: Seq<Path>) -> Position {
    if paths.len() > 0 && paths[0] is Current {
        pos
    } else {
        root_position(data)
    }
}

/// The parts of a path after its first, if it has one.
pub open spec fn parts_after_first<'a>(paths: Seq<Path<'a>>) -> Seq<Path<'a>> {
    if paths.len() > 0 {
        paths.skip(1)
    } else {
        paths
    }
}

/// Whether a part of a path selects parts of a value.
pub open spec fn is_selecting(path: Path) -> bool {
    match path {
        Path::Root | Path::Current | Path::FilterExpr(_) | Path::Predicate(_) => false,
        _ => true,
    }
}

/// What selecting parts of a path make of `poses`, one part after the other.
pub open spec fn operand_walk(data: Seq<u8>, poses: Seq<Position>, paths: Seq<Path>) -> Outcome<
    Seq<Position>,
>
    decreases paths.len(),
{
    if paths.len() == 0 {
        Outcome::Done(poses)
    } else if !is_selecting(paths[0]) {
        Outcome::Undefined
    } else {
        match step_all(data, poses, paths[0]) {
            Outcome::Done(next) => operand_walk(data, next, paths.skip(1)),
            Outcome::Failed(e) => Outcome::Failed(e),
            Outcome::Undefined => Outcome::Undefined,
        }
    }
}

/// The scalar of kind `ty` in the `length` bytes at `offset`.
pub open spec fn scalar_at(data: Seq<u8>, ty: u32, offset: int, length: int) -> Outcome<Scalar> {
    let bytes = data.subrange(offset, offset + length);
    if ty == NULL_TAG {
        Outcome::Done(Scalar::Null)
    } else if ty == TRUE_TAG {
        Outcome::Done(Scalar::Boolean(true))
    } else if ty == FALSE_TAG {
        Outcome::Done(Scalar::Boolean(false))
    } else if offset + length > data.len() {
        Outcome::Undefined
    } else if ty == NUMBER_TAG {
        match number_value(bytes) {
            Outcome::Done(n) => Outcome::Done(Scalar::Number(n)),
            Outcome::Failed(e) => Outcome::Failed(e),
            Outcome::Undefined => Outcome::Undefined,
        }
    } else if ty == STRING_TAG && valid_utf8(bytes) {
        Outcome::Done(Scalar::String(decode_utf8(bytes)))
    } else {
        Outcome::Undefined
    }
}

/// The scalars at `poses`; containers are left out.
pub open spec fn scalars_at(data: Seq<u8>, poses: Seq<Position>) -> Outcome<Seq<Scalar>>
    decreases poses.len(),
{
    if poses.len() == 0 {
        Outcome::Done(Seq::empty())
    } else {
        match poses[0] {
            Position::Container(_) => scalars_at(data, poses.skip(1)),
            Position::Scalar((ty, offset, length)) => match scalar_at(
                data,
                ty,
                offset as int,
                length as int,
            ) {
                Outcome::Done(s) => after(seq![s], scalars_at(data, poses.skip(1))),
                Outcome::Failed(e) => Outcome::Failed(e),
                Outcome::Undefined => Outcome::Undefined,
            },
        }
    }
}

/// The scalars that stand on one side of a comparison.
pub open spec fn operand(data: Seq<u8>, pos: Position, expr: Expr) -> Outcome<Seq<Scalar>> {
    match expr {
        Expr::Value(value) => Outcome::Done(seq![value@]),
        Expr::Paths(paths) => match operand_walk(
            data,
            seq![operand_start(data, pos, paths@)],
            parts_after_first(paths@),
        ) {
            Outcome::Done(poses) => scalars_at(data, poses),
            Outcome::Failed(e) => Outcome::Failed(e),
            Outcome::Undefined => Outcome::Undefined,
        },
        _ => Outcome::Undefined,
    }
}

/// Whether `op` compares two scalars.
pub open spec fn is_comparison(op: BinaryOperator) -> bool {
    op !is And && op !is Or
}

/// Whether `op` holds between scalars that are in the order `order`.
pub open spec fn order_satisfies(op: BinaryOperator, order: Ordering) -> bool {
    match op {
        BinaryOperator::Eq => order is Equal,
        BinaryOperator::NotEq => order !is Equal,
        BinaryOperator::Lt => order is Less,
        BinaryOperator::Lte => order !is Greater,
        BinaryOperator::Gt => order is Greater,
        BinaryOperator::Gte => order !is Less,
        _ => false,
    }
}

/// Whether two scalars have an order.
pub open spec fn has_order(left: Scalar, right: Scalar) -> bool {
    scalar_order(left, right) is Some
}

/// Whether `op` holds between two scalars; it never does if they have no order.
pub open spec fn scalars_satisfy(op: BinaryOperator, left: Scalar, right: Scalar) -> bool {
    scalar_order(left, right) matches Some(order) && order_satisfies(op, order)
}

/// Whether `op` holds between some scalar of `left` and some scalar of `right`.
pub open spec fn some_satisfy(op: BinaryOperator, left: Seq<Scalar>, right: Seq<Scalar>) -> bool {
    exists|i: int, j: int|
        0 <= i < left.len() && 0 <= j < right.len() && #[trigger] scalars_satisfy(
            op,
            left[i],
            right[j],
        )
}

/// Whether the value at `pos` passes the filter `expr`.
pub open spec fn passes(data: Seq<u8>, pos: Position, expr: Expr) -> Outcome<bool>
    decreases expr, 0nat, 0nat,
{
    match expr {
        Expr::BinaryOp { op, left, right } => {
            if is_comparison(op) {
                match (operand(data, pos, *left), operand(data, pos, *right)) {
                    (Outcome::Done(l), Outcome::Done(r)) => Outcome::Done(some_satisfy(op, l, r)),
                    (Outcome::Done(_), Outcome::Failed(e)) => Outcome::Failed(e),
                    (Outcome::Failed(e), _) => Outcome::Failed(e),
                    _ => Outcome::Undefined,
                }
            } else {
                match (passes(data, pos, *left), passes(data, pos, *right)) {
                    (Outcome::Done(l), Outcome::Done(r)) => Outcome::Done(
                        if op is Or {
                            l || r
                        } else {
                            l && r
                        },
                    ),
                    (Outcome::Done(_), Outcome::Failed(e)) => Outcome::Failed(e),
                    (Outcome::Failed(e), _) => Outcome::Failed(e),
                    _ => Outcome::Undefined,
                }
            }
        },
        Expr::FilterFunc(FilterFunc::Exists(paths)) => match positions(
            data,
            Some(pos),
            paths@,
        ) {
            Outcome::Done(found) => Outcome::Done(found.len() > 0),
            Outcome::Failed(e) => Outcome::Failed(e),
            Outcome::Undefined => Outcome::Undefined,
        },
        Expr::FilterFunc(FilterFunc::StartsWith(_)) => Outcome::Done(false),
        _ => Outcome::Undefined,
    }
}

/// Those of `poses` whose values pass the filter `expr`, in order.
pub open spec fn passing(data: Seq<u8>, poses: Seq<Position>, expr: Expr) -> Outcome<
    Seq<Position>,
>
    decreases expr, 1nat, poses.len(),
{
    if poses.len() == 0 {
        Outcome::Done(Seq::empty())
    } else {
        match passes(data, poses[0], expr) {
            Outcome::Done(keep) => after(
                if keep {
                    seq![poses[0]]
                } else {
                    Seq::empty()
                },
                passing(data, poses.skip(1), expr),
            ),
            Outcome::Failed(e) => Outcome::Failed(e),
            Outcome::Undefined => Outcome::Undefined,
        }
    }
}

/// What a part of a path makes of `poses`.
pub open spec fn advance(data: Seq<u8>, poses: Seq<Position>, path: Path) -> Outcome<
    Seq<Position>,
>
    decreases path, 0nat, 0nat,
{
    match path {
        Path::Root => Outcome::Done(poses),
        Path::Current => Outcome::Done(poses),
        Path::FilterExpr(expr) => passing(data, poses, *expr),
        Path::Predicate(expr) => passing(data, poses, *expr),
        _ => step_all(data, poses, path),
    }
}

/// What the parts of a path make of `poses`, one part after the other.
pub open spec fn walk(data: Seq<u8>, poses: Seq<Position>, paths: Seq<Path>) -> Outcome<
    Seq<Position>,
>
    decreases paths, 0nat, 0nat,
{
    if paths.len() == 0 {
        Outcome::Done(poses)
    } else {
        match advance(data, poses, paths[0]) {
            Outcome::Done(next) => walk(data, next, paths.skip(1)),
            Outcome::Failed(e) => Outcome::Failed(e),
            Outcome::Undefined => Outcome::Undefined,
        }
    }
}

/// The positions that a path leads to. It starts at `current` if its first part
/// is `@`, which then has to be there, and at the root otherwise.
pub open spec fn positions(data: Seq<u8>, current: Option<Position>, paths: Seq<Path>) -> Outcome<
    Seq<Position>,
>
    decreases paths, 1nat, 0nat,
{
    if paths.len() > 0 && paths[0] is Current {
        match current {
            Some(pos) => walk(data, seq![pos], paths),
            None => Outcome::Undefined,
        }
    } else {
        walk(data, seq![root_position(data)], paths)
    }
}

/// Whether the bytes of the value at `pos` lie inside the document. A scalar
/// without bytes lies nowhere, and is readable anyway.
pub open spec fn is_readable(data: Seq<u8>, pos: Position) -> bool {
    match pos {
        Position::Container((offset, length)) => offset + length <= data.len(),
        Position::Scalar((_, offset, length)) => length > 0 ==> offset + length <= data.len(),
    }
}

/// The bytes of the value at `pos`.
pub open spec fn content(data: Seq<u8>, pos: Position) -> Seq<u8> {
    match pos {
        Position::Container((offset, length)) => data.subrange(offset as int, offset + length),
        Position::Scalar((_, offset, length)) => if length > 0 {
            data.subrange(offset as int, offset + length)
        } else {
            Seq::empty()
        },
    }
}

/// The descriptor of the value at `pos`.
pub open spec fn descriptor(pos: Position) -> u32 {
    match pos {
        Position::Container((_, length)) => CONTAINER_TAG | (length as u32),
        Position::Scalar((ty, _, length)) => ty | (length as u32),
    }
}

/// The value at `pos` as a document of its own.
pub open spec fn value_document(data: Seq<u8>, pos: Position) -> Seq<u8> {
    match pos {
        Position::Container(_) => content(data, pos),
        Position::Scalar(_) => u32_bytes(SCALAR_CONTAINER_TAG) + u32_bytes(descriptor(pos))
            + content(data, pos),
    }
}

/// The descriptors of the values at `poses`, one after the other.
pub open spec fn descriptors(poses: Seq<Position>) -> Seq<u8>
    decreases poses.len(),
{
    if poses.len() == 0 {
        Seq::empty()
    } else {
        descriptors(poses.drop_last()) + u32_bytes(descriptor(poses.last()))
    }
}

/// The bytes of the values at `poses`, one value after the other.
pub open spec fn contents(data: Seq<u8>, poses: Seq<Position>) -> Seq<u8>
    decreases poses.len(),
{
    if poses.len() == 0 {
        Seq::empty()
    } else {
        contents(data, poses.drop_last()) + content(data, poses.last())
    }
}

/// A document that is an array of the values at `poses`.
pub open spec fn array_document(data: Seq<u8>, poses: Seq<Position>) -> Seq<u8> {
    u32_bytes(ARRAY_CONTAINER_TAG | (poses.len() as u32)) + descriptors(poses) + contents(
        data,
        poses,
    )
}

/// A document that is `true` or `false`.
pub open spec fn boolean_document(value: bool) -> Seq<u8> {
    u32_bytes(SCALAR_CONTAINER_TAG) + u32_bytes(
        if value {
            TRUE_TAG
        } else {
            FALSE_TAG
        },
    )
}

/// The values at `poses`, each as a document.
pub open spec fn value_documents(data: Seq<u8>, poses: Seq<Position>) -> Outcome<Seq<Seq<u8>>> {
    if forall|i: int| 0 <= i < poses.len() ==> is_readable(data, #[trigger] poses[i]) {
        Outcome::Done(Seq::new(poses.len(), |i: int| value_document(data, poses[i])))
    } else {
        Outcome::Undefined
    }
}

/// The values at `poses` as one document.
pub open spec fn array_documents(data: Seq<u8>, poses: Seq<Position>) -> Outcome<Seq<Seq<u8>>> {
    if forall|i: int| 0 <= i < poses.len() ==> is_readable(data, #[trigger] poses[i]) {
        Outcome::Done(seq![array_document(data, poses)])
    } else {
        Outcome::Undefined
    }
}

} // verus!
