//! The values that documents stand for, and what a path selects in a value.
//!
//! Here a document is read as the JSON value that it encodes, and a path is
//! given its meaning on values, without a word about bytes and offsets.

use vstd::prelude::*;
use vstd::utf8::encode_utf8;

use crate::constants::ARRAY_CONTAINER_TAG;
use crate::constants::CONTAINER_TAG;
use crate::constants::JENTRY_OFF_LEN_MASK;
use crate::constants::OBJECT_CONTAINER_TAG;
use crate::constants::SCALAR_CONTAINER_TAG;
use crate::outcome::Outcome;
use crate::path::ArrayIndex;
use crate::path::Expr;
use crate::path::FilterFunc;
use crate::path::Index;
use crate::path::JsonPath;
use crate::path::Path;
use crate::path::Scalar;
use crate::semantics::count_at;
use crate::semantics::entries_len;
use crate::semantics::is_comparison;
use crate::semantics::is_selecting;
use crate::semantics::kind_at;
use crate::semantics::object_base;
use crate::semantics::parts_after_first;
use crate::semantics::places;
use crate::semantics::scalar_at;
use crate::semantics::some_satisfy;
use crate::semantics::Position;
use crate::wire::jentry_at;

verus! {

/// A JSON value.
pub enum Json {
    /// A scalar inside an array or an object.
    Leaf(Scalar),
    /// A scalar that is a whole document.
    Document(Scalar),
    /// An array.
    Array(Seq<Json>),
    /// An object: its keys, as the bytes of their encoding, and their values.
    Object(Seq<(Seq<u8>, Json)>),
}

/// The scalar of kind `ty` that `bytes` encode, if they do.
pub open spec fn scalar_of(ty: u32, bytes: Seq<u8>) -> Option<Scalar> {
    match scalar_at(bytes, ty, 0, bytes.len() as int) {
        Outcome::Done(s) => Some(s),
        _ => None,
    }
}

/// Where entry `i` starts, among entries whose descriptors start at `table` and
/// whose contents start at `base`.
pub open spec fn entry_start(bytes: Seq<u8>, table: int, base: int, i: int) -> int {
    base + entries_len(bytes, table, i as nat)
}

/// The content of entry `i`.
pub open spec fn entry_bytes(bytes: Seq<u8>, table: int, base: int, i: int) -> Seq<u8> {
    let start = entry_start(bytes, table, base, i);
    bytes.subrange(start, start + jentry_at(bytes, table + 4 * i).1)
}

/// The value of an entry of kind `ty` with content `bytes`, if they make one.
pub open spec fn entry_value(ty: u32, bytes: Seq<u8>) -> Option<Json>
    decreases bytes.len(), 2nat, 0nat,
{
    if ty == CONTAINER_TAG {
        container_value(bytes)
    } else {
        match scalar_of(ty, bytes) {
            Some(s) => Some(Json::Leaf(s)),
            None => None,
        }
    }
}

/// The values of the first `k` entries, if each of them is one.
pub open spec fn entry_values(bytes: Seq<u8>, table: int, base: int, k: nat) -> Option<Seq<Json>>
    decreases bytes.len(), 0nat, k,
{
    if k == 0 {
        Some(Seq::empty())
    } else {
        let i = k - 1;
        let start = entry_start(bytes, table, base, i);
        if 0 < start && start + jentry_at(bytes, table + 4 * i).1 <= bytes.len() {
            match (
                entry_values(bytes, table, base, i as nat),
                entry_value(
                    jentry_at(bytes, table + 4 * i).0,
                    entry_bytes(bytes, table, base, i),
                ),
            ) {
                (Some(values), Some(value)) => Some(values.push(value)),
                _ => None,
            }
        } else {
            None
        }
    }
}

/// The value that the container in `bytes` encodes, if it is well-formed.
#[verifier::opaque]
pub open spec fn container_value(bytes: Seq<u8>) -> Option<Json>
    decreases bytes.len(), 1nat, 0nat,
{
    let n = count_at(bytes, 0);
    if bytes.len() < 4 {
        None
    } else if kind_at(bytes, 0) == SCALAR_CONTAINER_TAG {
        let jentry = jentry_at(bytes, 4);
        if 8 + jentry.1 <= bytes.len() {
            match scalar_of(jentry.0, bytes.subrange(8, 8 + jentry.1)) {
                Some(s) => Some(Json::Document(s)),
                None => None,
            }
        } else {
            None
        }
    } else if kind_at(bytes, 0) == ARRAY_CONTAINER_TAG {
        if 4 + 4 * n <= bytes.len() {
            match entry_values(bytes, 4, 4int + 4 * n, n) {
                Some(values) => Some(Json::Array(values)),
                None => None,
            }
        } else {
            None
        }
    } else if kind_at(bytes, 0) == OBJECT_CONTAINER_TAG {
        if 4 + 8 * n <= bytes.len() && object_base(bytes, 0) <= bytes.len() {
            match entry_values(bytes, 4int + 4 * n, object_base(bytes, 0), n) {
                Some(values) => Some(
                    Json::Object(
                        Seq::new(n, |i: int| (entry_bytes(bytes, 4, 4int + 8 * n, i), values[i])),
                    ),
                ),
                None => None,
            }
        } else {
            None
        }
    } else {
        None
    }
}

/// The value at a position of a document, if there is a well-formed one. A
/// scalar is no longer than a descriptor can say.
pub open spec fn value_at(data: Seq<u8>, pos: Position) -> Option<Json> {
    match pos {
        Position::Container((offset, length)) => if offset + length <= data.len() {
            container_value(data.subrange(offset as int, offset + length))
        } else {
            None
        },
        Position::Scalar((ty, offset, length)) => if offset + length <= data.len() && length
            <= JENTRY_OFF_LEN_MASK {
            match scalar_of(ty, data.subrange(offset as int, offset + length)) {
                Some(s) => Some(Json::Leaf(s)),
                None => None,
            }
        } else {
            None
        },
    }
}

/// A value as a document of its own.
pub open spec fn as_document(value: Json) -> Json {
    match value {
        Json::Leaf(s) => Json::Document(s),
        _ => value,
    }
}

/// Whether the values at `poses` are `values`.
pub open spec fn values_are(data: Seq<u8>, poses: Seq<Position>, values: Seq<Json>) -> bool {
    &&& poses.len() == values.len()
    &&& forall|i: int|
        0 <= i < poses.len() ==> value_at(data, #[trigger] poses[i]) == Some(values[i])
}

/// The first of `members`, from member `i` on, whose key is `name`.
pub open spec fn member_from(members: Seq<(Seq<u8>, Json)>, name: Seq<u8>, i: nat) -> Option<nat>
    decreases members.len() - i,
{
    if i >= members.len() {
        None
    } else if members[i as int].0 == name {
        Some(i)
    } else {
        member_from(members, name, i + 1)
    }
}

/// The value of an object under the first key that is `name`; nothing for any
/// other value.
pub open spec fn json_field(value: Json, name: Seq<u8>) -> Seq<Json> {
    match value {
        Json::Object(members) => match member_from(members, name, 0) {
            Some(i) => seq![members[i as int].1],
            None => Seq::empty(),
        },
        _ => Seq::empty(),
    }
}

/// What a selecting part of a path makes of a value. `[*]` takes whatever is no
/// array for an array of one.
pub open spec fn json_step(value: Json, path: Path) -> Seq<Json> {
    match path {
        Path::DotWildcard => match value {
            Json::Object(members) => Seq::new(members.len(), |i: int| members[i].1),
            _ => Seq::empty(),
        },
        Path::BracketWildcard => match value {
            Json::Array(values) => values,
            _ => seq![value],
        },
        Path::ColonField(name) => json_field(value, encode_utf8(name@)),
        Path::DotField(name) => json_field(value, encode_utf8(name@)),
        Path::ObjectField(name) => json_field(value, encode_utf8(name@)),
        Path::ArrayIndices(indices) => match value {
            Json::Array(values) => {
                let picked = places(indices@, values.len() as int);
                Seq::new(picked.len(), |k: int| values[picked[k] as int])
            },
            _ => Seq::empty(),
        },
        _ => Seq::empty(),
    }
}

/// What a selecting part of a path makes of each of `values`.
pub open spec fn json_step_all(values: Seq<Json>, path: Path) -> Seq<Json>
    decreases values.len(),
{
    if values.len() == 0 {
        Seq::empty()
    } else {
        json_step(values[0], path) + json_step_all(values.skip(1), path)
    }
}

/// What selecting parts of a path make of `values`, one part after the other.
pub open spec fn json_operand_walk(values: Seq<Json>, paths: Seq<Path>) -> Seq<Json>
    decreases paths.len(),
{
    if paths.len() == 0 {
        values
    } else {
        json_operand_walk(json_step_all(values, paths[0]), paths.skip(1))
    }
}

/// The scalars among `values` that stand inside an array or an object.
pub open spec fn leaves(values: Seq<Json>) -> Seq<Scalar>
    decreases values.len(),
{
    if values.len() == 0 {
        Seq::empty()
    } else {
        match values[0] {
            Json::Leaf(s) => seq![s] + leaves(values.skip(1)),
            _ => leaves(values.skip(1)),
        }
    }
}

/// The scalars that stand on one side of a comparison.
pub open spec fn json_operand(root: Json, current: Json, expr: Expr) -> Seq<Scalar> {
    match expr {
        Expr::Value(value) => seq![value@],
        Expr::Paths(paths) => {
            let start = if paths@.len() > 0 && paths@[0] is Current {
                current
            } else {
                root
            };
            leaves(json_operand_walk(seq![start], parts_after_first(paths@)))
        },
        _ => Seq::empty(),
    }
}

/// Whether a value passes a filter.
pub open spec fn json_passes(root: Json, current: Json, expr: Expr) -> bool
    decreases expr, 0nat, 0nat,
{
    match expr {
        Expr::BinaryOp { op, left, right } => {
            if is_comparison(op) {
                some_satisfy(
                    op,
                    json_operand(root, current, *left),
                    json_operand(root, current, *right),
                )
            } else if op is Or {
                json_passes(root, current, *left) || json_passes(root, current, *right)
            } else {
                json_passes(root, current, *left) && json_passes(root, current, *right)
            }
        },
        Expr::FilterFunc(FilterFunc::Exists(paths)) => json_select(root, current, paths@).len() > 0,
        _ => false,
    }
}

/// Those of `values` that pass a filter, in order.
pub open spec fn json_passing(root: Json, values: Seq<Json>, expr: Expr) -> Seq<Json>
    decreases expr, 1nat, values.len(),
{
    if values.len() == 0 {
        Seq::empty()
    } else if json_passes(root, values[0], expr) {
        seq![values[0]] + json_passing(root, values.skip(1), expr)
    } else {
        json_passing(root, values.skip(1), expr)
    }
}

/// What a part of a path makes of `values`.
pub open spec fn json_advance(root: Json, values: Seq<Json>, path: Path) -> Seq<Json>
    decreases path, 0nat, 0nat,
{
    match path {
        Path::Root => values,
        Path::Current => values,
        Path::FilterExpr(expr) => json_passing(root, values, *expr),
        Path::Predicate(expr) => json_passing(root, values, *expr),
        _ => json_step_all(values, path),
    }
}

/// What the parts of a path make of `values`, one part after the other.
pub open spec fn json_walk(root: Json, values: Seq<Json>, paths: Seq<Path>) -> Seq<Json>
    decreases paths, 0nat, 0nat,
{
    if paths.len() == 0 {
        values
    } else {
        json_walk(root, json_advance(root, values, paths[0]), paths.skip(1))
    }
}

/// The values that a path leads to, from `current` if its first part is `@` and
/// from `root` otherwise.
pub open spec fn json_select(root: Json, current: Json, paths: Seq<Path>) -> Seq<Json>
    decreases paths, 1nat, 0nat,
{
    if paths.len() > 0 && paths[0] is Current {
        json_walk(root, seq![current], paths)
    } else {
        json_walk(root, seq![root], paths)
    }
}

/// The larger of two numbers.
pub open spec fn larger(a: nat, b: nat) -> nat {
    if a < b {
        b
    } else {
        a
    }
}

/// The length of the longest array that a value is or holds; zero if there is
/// none.
pub open spec fn longest_array(value: Json) -> nat
    decreases value, 0nat,
{
    match value {
        Json::Array(values) => larger(values.len(), longest_of_values(values, values.len())),
        Json::Object(members) => longest_of_members(members, members.len()),
        _ => 0,
    }
}

/// The length of the longest array among the first `k` of `values`.
pub open spec fn longest_of_values(values: Seq<Json>, k: nat) -> nat
    decreases values, k,
{
    if k == 0 || k > values.len() {
        0
    } else {
        larger(longest_of_values(values, (k - 1) as nat), longest_array(values[k - 1]))
    }
}

/// The length of the longest array among the first `k` of `members`.
pub open spec fn longest_of_members(members: Seq<(Seq<u8>, Json)>, k: nat) -> nat
    decreases members, k,
{
    if k == 0 || k > members.len() {
        0
    } else {
        larger(longest_of_members(members, (k - 1) as nat), longest_array(members[k - 1].1))
    }
}

/// Whether counting from the last value of an array stays in 32 bits, if no array
/// is longer than `longest`.
pub open spec fn index_is_sound(index: Index, longest: nat) -> bool {
    index matches Index::LastIndex(i) ==> longest + i <= i32::MAX
}

/// Whether all of `indices` stay in 32 bits, if no array is longer than `longest`.
pub open spec fn indices_are_sound(indices: Seq<ArrayIndex>, longest: nat) -> bool {
    forall|k: int|
        0 <= k < indices.len() ==> match #[trigger] indices[k] {
            ArrayIndex::Index(i) => index_is_sound(i, longest),
            ArrayIndex::Slice((from, to)) => index_is_sound(from, longest) && index_is_sound(
                to,
                longest,
            ),
        }
}

/// Whether a part of a path selects parts of a value, and can do so if no array
/// is longer than `longest`.
pub open spec fn step_is_sound(path: Path, longest: nat) -> bool {
    is_selecting(path) && (path matches Path::ArrayIndices(indices) ==> indices_are_sound(
        indices@,
        longest,
    ))
}

/// Whether an expression can stand on one side of a comparison.
pub open spec fn operand_is_sound(expr: Expr, longest: nat) -> bool {
    match expr {
        Expr::Value(_) => true,
        Expr::Paths(paths) => forall|k: int|
            1 <= k < paths@.len() ==> step_is_sound(#[trigger] paths@[k], longest),
        _ => false,
    }
}

/// Whether an expression can be used as a filter.
pub open spec fn filter_is_sound(expr: Expr, longest: nat) -> bool
    decreases expr, 0nat,
{
    match expr {
        Expr::BinaryOp { op, left, right } => if is_comparison(op) {
            operand_is_sound(*left, longest) && operand_is_sound(*right, longest)
        } else {
            filter_is_sound(*left, longest) && filter_is_sound(*right, longest)
        },
        Expr::FilterFunc(FilterFunc::Exists(paths)) => parts_are_sound(paths@, longest),
        Expr::FilterFunc(FilterFunc::StartsWith(_)) => true,
        _ => false,
    }
}

/// Whether a part of a path has a meaning in every document whose arrays are no
/// longer than `longest`.
pub open spec fn part_is_sound(path: Path, longest: nat) -> bool
    decreases path, 0nat,
{
    match path {
        Path::Root => true,
        Path::Current => true,
        Path::FilterExpr(expr) => filter_is_sound(*expr, longest),
        Path::Predicate(expr) => filter_is_sound(*expr, longest),
        _ => step_is_sound(path, longest),
    }
}

/// Whether all parts of a path have a meaning in every document whose arrays are
/// no longer than `longest`.
pub open spec fn parts_are_sound(paths: Seq<Path>, longest: nat) -> bool
    decreases paths, 1nat,
{
    forall|k: int| 0 <= k < paths.len() ==> part_is_sound(#[trigger] paths[k], longest)
}

/// Whether a path has a meaning in every document whose arrays are no longer than
/// `longest`: no expression stands where it cannot be evaluated, no index leaves
/// 32 bits, and the path does not start at the value of a filter, as there is
/// none.
pub open spec fn path_is_sound(json_path: JsonPath, longest: nat) -> bool {
    &&& parts_are_sound(json_path.paths@, longest)
    &&& json_path.paths@.len() > 0 ==> json_path.paths@[0] !is Current
}

} // verus!
