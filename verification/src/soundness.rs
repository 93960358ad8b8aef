//! A path that has a meaning can be followed in every document whose arrays are
//! short enough for its indices.

use vstd::prelude::*;
use vstd::utf8::encode_utf8;

use crate::constants::CONTAINER_HEADER_LEN_MASK;
use crate::correspondence::lemma_array;
use crate::correspondence::lemma_count_bound;
use crate::correspondence::lemma_kinds;
use crate::correspondence::lemma_member_from_bound;
use crate::correspondence::lemma_places_bound;
use crate::correspondence::lemma_scalars;
use crate::correspondence::lemma_step;
use crate::document::container_value;
use crate::document::entry_bytes;
use crate::document::entry_value;
use crate::document::entry_values;
use crate::document::filter_is_sound;
use crate::document::json_step;
use crate::document::longest_array;
use crate::document::longest_of_members;
use crate::document::longest_of_values;
use crate::document::member_from;
use crate::document::operand_is_sound;
use crate::document::part_is_sound;
use crate::document::parts_are_sound;
use crate::document::path_is_sound;
use crate::document::step_is_sound;
use crate::document::value_at;
use crate::document::Json;
use crate::outcome::Outcome;
use crate::path::Expr;
use crate::path::FilterFunc;
use crate::path::JsonPath;
use crate::path::Path;
use crate::semantics::advance;
use crate::semantics::array_index_fits;
use crate::semantics::count_at;
use crate::semantics::is_comparison;
use crate::semantics::object_base;
use crate::semantics::operand;
use crate::semantics::operand_start;
use crate::semantics::operand_walk;
use crate::semantics::parts_after_first;
use crate::semantics::passes;
use crate::semantics::passing;
use crate::semantics::places;
use crate::semantics::positions;
use crate::semantics::root_position;
use crate::semantics::scalars_at;
use crate::semantics::step;
use crate::semantics::step_all;
use crate::semantics::walk;
use crate::semantics::Position;
use crate::wire::jentry_at;

verus! {

/// No value of an array holds a longer array than all of its values together.
pub(crate) proof fn lemma_longest_of_values(values: Seq<Json>, k: nat, i: int)
    requires
        0 <= i < k <= values.len(),
    ensures
        longest_array(values[i]) <= longest_of_values(values, k),
    decreases k,
{
    if i < k - 1 {
        lemma_longest_of_values(values, (k - 1) as nat, i);
    }
}

/// No value of an object holds a longer array than all of its values together.
pub(crate) proof fn lemma_longest_of_members(members: Seq<(Seq<u8>, Json)>, k: nat, i: int)
    requires
        0 <= i < k <= members.len(),
    ensures
        longest_array(members[i].1) <= longest_of_members(members, k),
    decreases k,
{
    if i < k - 1 {
        lemma_longest_of_members(members, (k - 1) as nat, i);
    }
}

/// The first values of a sequence are the same whatever follows them.
pub(crate) proof fn lemma_longest_of_first(values: Seq<Json>, more: Seq<Json>, k: nat)
    requires
        k <= values.len(),
        k <= more.len(),
        forall|i: int| 0 <= i < k ==> values[i] == more[i],
    ensures
        longest_of_values(values, k) == longest_of_values(more, k),
    decreases k,
{
    if k > 0 {
        lemma_longest_of_first(values, more, (k - 1) as nat);
    }
}

/// The keys of an object do not matter for the arrays that it holds.
pub(crate) proof fn lemma_longest_of_object(
    members: Seq<(Seq<u8>, Json)>,
    values: Seq<Json>,
    k: nat,
)
    requires
        k <= members.len(),
        k <= values.len(),
        forall|i: int| 0 <= i < k ==> (#[trigger] members[i]).1 == values[i],
    ensures
        longest_of_members(members, k) == longest_of_values(values, k),
    decreases k,
{
    if k > 0 {
        lemma_longest_of_object(members, values, (k - 1) as nat);
        assert(members[k - 1].1 == values[k - 1]);
    }
}

/// A part of a path leads from a value to values that hold no longer arrays.
proof fn lemma_step_keeps_longest(value: Json, path: Path, i: int)
    requires
        0 <= i < json_step(value, path).len(),
        value matches Json::Array(values) ==> values.len() <= CONTAINER_HEADER_LEN_MASK,
    ensures
        longest_array(json_step(value, path)[i]) <= longest_array(value),
{
    match value {
        Json::Array(values) => {
            if let Path::ArrayIndices(indices) = path {
                let n = values.len() as int;
                lemma_places_bound(indices@, n);
                let k = places(indices@, n)[i] as int;
                lemma_longest_of_values(values, values.len(), k);
            } else if path is BracketWildcard {
                lemma_longest_of_values(values, values.len(), i);
            }
        },
        Json::Object(members) => {
            match path {
                Path::DotWildcard => {
                    lemma_longest_of_members(members, members.len(), i);
                },
                Path::ColonField(name) => lemma_field_keeps_longest(members, encode_utf8(name@)),
                Path::DotField(name) => lemma_field_keeps_longest(members, encode_utf8(name@)),
                Path::ObjectField(name) => lemma_field_keeps_longest(members, encode_utf8(name@)),
                _ => {},
            }
        },
        _ => {},
    }
}

/// The value under a name holds no longer arrays than the object.
proof fn lemma_field_keeps_longest(members: Seq<(Seq<u8>, Json)>, name: Seq<u8>)
    ensures
        member_from(members, name, 0) matches Some(i) ==> longest_array(members[i as int].1)
            <= longest_array(Json::Object(members)),
{
    lemma_member_from_bound(members, name, 0);
    if let Some(i) = member_from(members, name, 0) {
        lemma_longest_of_members(members, members.len(), i as int);
    }
}

/// Whether there is a well-formed value at a position, whose arrays are no longer
/// than `longest`.
spec fn is_within(data: Seq<u8>, pos: Position, longest: nat) -> bool {
    value_at(data, pos) matches Some(value) && longest_array(value) <= longest
}

/// Whether there are such values at all of `poses`.
spec fn are_within(data: Seq<u8>, poses: Seq<Position>, longest: nat) -> bool {
    forall|i: int| 0 <= i < poses.len() ==> is_within(data, #[trigger] poses[i], longest)
}

/// A step keeps to values whose arrays are short enough.
proof fn lemma_step_keeps_within(data: Seq<u8>, pos: Position, path: Path, longest: nat)
    requires
        data.len() <= usize::MAX,
        is_within(data, pos, longest),
    ensures
        step(data, pos, path) matches Outcome::Done(found) ==> are_within(data, found, longest),
{
    let value = value_at(data, pos)->0;
    lemma_step(data, pos, value, path);
    if let Outcome::Done(found) = step(data, pos, path) {
        if let Position::Container((offset, length)) = pos {
            lemma_kinds(data, offset, length);
            lemma_count_bound(data, offset as int);
            if value is Array {
                lemma_array(data, offset, length);
            }
        }
        assert forall|i: int| 0 <= i < found.len() implies is_within(
            data,
            #[trigger] found[i],
            longest,
        ) by {
            lemma_step_keeps_longest(value, path, i);
        }
    }
}

/// A sound step can be taken from a value whose arrays are short enough.
proof fn lemma_sound_step(data: Seq<u8>, pos: Position, path: Path, longest: nat)
    requires
        data.len() <= usize::MAX,
        is_within(data, pos, longest),
        step_is_sound(path, longest),
    ensures
        step(data, pos, path) !is Undefined,
{
    let value = value_at(data, pos)->0;
    lemma_step(data, pos, value, path);
    if let Path::ArrayIndices(indices) = path {
        if let Position::Container((offset, length)) = pos {
            let n = count_at(data, offset as int);
            lemma_kinds(data, offset, length);
            lemma_count_bound(data, offset as int);
            if value is Array {
                lemma_array(data, offset, length);
                if n > 0 {
                    assert forall|k: int| 0 <= k < indices@.len() implies #[trigger] array_index_fits(
                        indices@[k],
                        n as int,
                    ) by {
                        let _index = indices@[k];
                    }
                }
            }
        }
    }
}

/// What holds of all positions holds of those after the first.
proof fn lemma_within_rest(data: Seq<u8>, poses: Seq<Position>, longest: nat)
    requires
        are_within(data, poses, longest),
        poses.len() > 0,
    ensures
        is_within(data, poses[0], longest),
        are_within(data, poses.skip(1), longest),
{
    let rest = poses.skip(1);
    assert forall|i: int| 0 <= i < rest.len() implies is_within(
        data,
        #[trigger] rest[i],
        longest,
    ) by {
        assert(rest[i] == poses[i + 1]);
    }
}

/// What holds of positions piece by piece holds of all.
proof fn lemma_within_concat(
    data: Seq<u8>,
    first: Seq<Position>,
    rest: Seq<Position>,
    longest: nat,
)
    requires
        are_within(data, first, longest),
        are_within(data, rest, longest),
    ensures
        are_within(data, first + rest, longest),
{
    let all = first + rest;
    assert forall|i: int| 0 <= i < all.len() implies is_within(
        data,
        #[trigger] all[i],
        longest,
    ) by {
        if i < first.len() {
            assert(all[i] == first[i]);
        } else {
            assert(all[i] == rest[i - first.len()]);
        }
    }
}

/// A selecting part that is sound can be applied to positions, and keeps to short
/// arrays.
proof fn lemma_sound_step_all(data: Seq<u8>, poses: Seq<Position>, path: Path, longest: nat)
    requires
        data.len() <= usize::MAX,
        are_within(data, poses, longest),
        step_is_sound(path, longest),
    ensures
        step_all(data, poses, path) !is Undefined,
        step_all(data, poses, path) matches Outcome::Done(found) ==> are_within(
            data,
            found,
            longest,
        ),
    decreases poses.len(),
{
    if poses.len() > 0 {
        lemma_within_rest(data, poses, longest);
        lemma_sound_step(data, poses[0], path, longest);
        lemma_step_keeps_within(data, poses[0], path, longest);
        lemma_sound_step_all(data, poses.skip(1), path, longest);
        if let Outcome::Done(first) = step(data, poses[0], path) {
            if let Outcome::Done(rest) = step_all(data, poses.skip(1), path) {
                lemma_within_concat(data, first, rest, longest);
            }
        }
    }
}

/// Selecting parts that are sound can be followed, and lead to scalars that can be
/// read.
proof fn lemma_sound_operand_walk(
    data: Seq<u8>,
    poses: Seq<Position>,
    paths: Seq<Path>,
    longest: nat,
)
    requires
        data.len() <= usize::MAX,
        are_within(data, poses, longest),
        forall|k: int| 0 <= k < paths.len() ==> step_is_sound(#[trigger] paths[k], longest),
    ensures
        operand_walk(data, poses, paths) !is Undefined,
        operand_walk(data, poses, paths) matches Outcome::Done(found) ==> scalars_at(data, found)
            !is Undefined,
    decreases paths.len(),
{
    if paths.len() > 0 {
        assert(step_is_sound(paths[0], longest));
        lemma_sound_step_all(data, poses, paths[0], longest);
        let rest = paths.skip(1);
        assert forall|k: int| 0 <= k < rest.len() implies step_is_sound(
            #[trigger] rest[k],
            longest,
        ) by {
            assert(rest[k] == paths[k + 1]);
        }
        if let Outcome::Done(next) = step_all(data, poses, paths[0]) {
            lemma_sound_operand_walk(data, next, rest, longest);
        }
    } else {
        let values = Seq::new(poses.len(), |i: int| value_at(data, poses[i])->0);
        assert forall|i: int| 0 <= i < poses.len() implies value_at(data, #[trigger] poses[i])
            == Some(values[i]) by {
            assert(is_within(data, poses[i], longest));
        }
        lemma_scalars(data, poses, values);
    }
}

/// One side of a comparison that is sound can be evaluated.
proof fn lemma_sound_operand(data: Seq<u8>, pos: Position, expr: Expr, longest: nat)
    requires
        data.len() <= usize::MAX,
        is_within(data, root_position(data), longest),
        is_within(data, pos, longest),
        operand_is_sound(expr, longest),
    ensures
        operand(data, pos, expr) !is Undefined,
{
    if let Expr::Paths(paths) = expr {
        let start = operand_start(data, pos, paths@);
        let rest = parts_after_first(paths@);
        assert(is_within(data, seq![start][0], longest));
        assert forall|k: int| 0 <= k < rest.len() implies step_is_sound(
            #[trigger] rest[k],
            longest,
        ) by {
            assert(rest[k] == paths@[k + 1]);
        }
        lemma_sound_operand_walk(data, seq![start], rest, longest);
    }
}

/// A sound filter can be evaluated.
proof fn lemma_sound_passes(data: Seq<u8>, pos: Position, expr: Expr, longest: nat)
    requires
        data.len() <= usize::MAX,
        is_within(data, root_position(data), longest),
        is_within(data, pos, longest),
        filter_is_sound(expr, longest),
    ensures
        passes(data, pos, expr) !is Undefined,
    decreases expr, 0nat, 0nat,
{
    match expr {
        Expr::BinaryOp { op, left, right } => {
            if is_comparison(op) {
                lemma_sound_operand(data, pos, *left, longest);
                lemma_sound_operand(data, pos, *right, longest);
            } else {
                lemma_sound_passes(data, pos, *left, longest);
                lemma_sound_passes(data, pos, *right, longest);
            }
        },
        Expr::FilterFunc(FilterFunc::Exists(paths)) => {
            lemma_sound_positions(data, Some(pos), paths@, longest);
        },
        _ => {},
    }
}

/// A sound filter can be applied to positions, and keeps to short arrays.
proof fn lemma_sound_passing(data: Seq<u8>, poses: Seq<Position>, expr: Expr, longest: nat)
    requires
        data.len() <= usize::MAX,
        is_within(data, root_position(data), longest),
        are_within(data, poses, longest),
        filter_is_sound(expr, longest),
    ensures
        passing(data, poses, expr) !is Undefined,
        passing(data, poses, expr) matches Outcome::Done(found) ==> are_within(
            data,
            found,
            longest,
        ),
    decreases expr, 1nat, poses.len(),
{
    if poses.len() > 0 {
        lemma_within_rest(data, poses, longest);
        lemma_sound_passes(data, poses[0], expr, longest);
        lemma_sound_passing(data, poses.skip(1), expr, longest);
        if let Outcome::Done(rest) = passing(data, poses.skip(1), expr) {
            lemma_within_concat(data, seq![poses[0]], rest, longest);
            lemma_within_concat(data, Seq::empty(), rest, longest);
        }
    }
}

/// A sound part of a path can be applied to positions, and keeps to short arrays.
proof fn lemma_sound_advance(data: Seq<u8>, poses: Seq<Position>, path: Path, longest: nat)
    requires
        data.len() <= usize::MAX,
        is_within(data, root_position(data), longest),
        are_within(data, poses, longest),
        part_is_sound(path, longest),
    ensures
        advance(data, poses, path) !is Undefined,
        advance(data, poses, path) matches Outcome::Done(found) ==> are_within(
            data,
            found,
            longest,
        ),
    decreases path, 0nat, 0nat,
{
    match path {
        Path::Root => {},
        Path::Current => {},
        Path::FilterExpr(expr) => lemma_sound_passing(data, poses, *expr, longest),
        Path::Predicate(expr) => lemma_sound_passing(data, poses, *expr, longest),
        _ => lemma_sound_step_all(data, poses, path, longest),
    }
}

/// Sound parts of a path can be followed.
proof fn lemma_sound_walk(data: Seq<u8>, poses: Seq<Position>, paths: Seq<Path>, longest: nat)
    requires
        data.len() <= usize::MAX,
        is_within(data, root_position(data), longest),
        are_within(data, poses, longest),
        parts_are_sound(paths, longest),
    ensures
        walk(data, poses, paths) !is Undefined,
    decreases paths, 0nat, 0nat,
{
    if paths.len() > 0 {
        assert(part_is_sound(paths[0], longest));
        assert(decreases_to!(paths => paths[0]));
        lemma_sound_advance(data, poses, paths[0], longest);
        let rest = paths.skip(1);
        assert forall|k: int| 0 <= k < rest.len() implies part_is_sound(
            #[trigger] rest[k],
            longest,
        ) by {
            assert(rest[k] == paths[k + 1]);
        }
        if let Outcome::Done(next) = advance(data, poses, paths[0]) {
            lemma_sound_walk(data, next, rest, longest);
        }
    }
}

/// A sound path can be followed.
proof fn lemma_sound_positions(
    data: Seq<u8>,
    current: Option<Position>,
    paths: Seq<Path>,
    longest: nat,
)
    requires
        data.len() <= usize::MAX,
        is_within(data, root_position(data), longest),
        match current {
            Some(pos) => is_within(data, pos, longest),
            None => paths.len() > 0 ==> paths[0] !is Current,
        },
        parts_are_sound(paths, longest),
    ensures
        positions(data, current, paths) !is Undefined,
    decreases paths, 1nat, 0nat,
{
    let start = if paths.len() > 0 && paths[0] is Current {
        current->0
    } else {
        root_position(data)
    };
    assert(is_within(data, seq![start][0], longest));
    lemma_sound_walk(data, seq![start], paths, longest);
}

/// A path whose indices suit the arrays of a well-formed document can be followed
/// in it.
pub(crate) proof fn lemma_sound_path(data: Seq<u8>, root: Json, json_path: JsonPath)
    requires
        data.len() <= usize::MAX,
        container_value(data) == Some(root),
        path_is_sound(json_path, longest_array(root)),
    ensures
        positions(data, None, json_path.paths@) !is Undefined,
{
    assert(data.subrange(0, data.len() as int) =~= data);
    lemma_sound_positions(data, None, json_path.paths@, longest_array(root));
}

/// A well-formed container holds no array that is longer than a header can count.
pub(crate) proof fn lemma_longest_bound(bytes: Seq<u8>)
    ensures
        container_value(bytes) matches Some(value) ==> longest_array(value)
            <= CONTAINER_HEADER_LEN_MASK,
    decreases bytes.len(), 1nat, 0nat,
{
    reveal(container_value);
    lemma_count_bound(bytes, 0);
    let n = count_at(bytes, 0);
    if let Some(value) = container_value(bytes) {
        if let Json::Array(values) = value {
            lemma_longest_bound_of_entries(bytes, 4, 4int + 4 * n, n);
        } else if let Json::Object(members) = value {
            let table = 4int + 4 * n;
            let base = object_base(bytes, 0);
            lemma_longest_bound_of_entries(bytes, table, base, n);
            lemma_longest_of_object(members, entry_values(bytes, table, base, n)->0, n);
        }
    }
}

/// The entries of a container hold no array that is longer than a header can count.
proof fn lemma_longest_bound_of_entries(bytes: Seq<u8>, table: int, base: int, k: nat)
    ensures
        entry_values(bytes, table, base, k) matches Some(values) ==> {
            &&& values.len() == k
            &&& longest_of_values(values, k) <= CONTAINER_HEADER_LEN_MASK
        },
    decreases bytes.len(), 0nat, k,
{
    if k > 0 {
        if let Some(values) = entry_values(bytes, table, base, k) {
            let i = k - 1;
            let content = entry_bytes(bytes, table, base, i);
            lemma_longest_bound_of_entries(bytes, table, base, i as nat);
            let before = entry_values(bytes, table, base, i as nat)->0;
            lemma_longest_of_first(before, values, i as nat);
            assert(content.len() < bytes.len());
            lemma_longest_bound(content);
            reveal(container_value);
            assert(entry_value(jentry_at(bytes, table + 4 * i).0, content) == Some(values[i]));
            assert(longest_array(values[i]) <= CONTAINER_HEADER_LEN_MASK);
            assert(longest_of_values(values, i as nat) <= CONTAINER_HEADER_LEN_MASK);
        }
    }
}

/// A filter that suits long arrays suits shorter ones.
proof fn lemma_sound_filter_shorter(expr: Expr, longest: nat, shorter: nat)
    requires
        shorter <= longest,
        filter_is_sound(expr, longest),
    ensures
        filter_is_sound(expr, shorter),
    decreases expr, 0nat,
{
    match expr {
        Expr::BinaryOp { op, left, right } => {
            if is_comparison(op) {
                lemma_sound_operand_shorter(*left, longest, shorter);
                lemma_sound_operand_shorter(*right, longest, shorter);
            } else {
                lemma_sound_filter_shorter(*left, longest, shorter);
                lemma_sound_filter_shorter(*right, longest, shorter);
            }
        },
        Expr::FilterFunc(FilterFunc::Exists(paths)) => {
            lemma_sound_parts_shorter(paths@, longest, shorter);
        },
        _ => {},
    }
}

/// One side of a comparison that suits long arrays suits shorter ones.
proof fn lemma_sound_operand_shorter(expr: Expr, longest: nat, shorter: nat)
    requires
        shorter <= longest,
        operand_is_sound(expr, longest),
    ensures
        operand_is_sound(expr, shorter),
{
    if let Expr::Paths(paths) = expr {
        assert forall|k: int| 1 <= k < paths@.len() implies step_is_sound(
            #[trigger] paths@[k],
            shorter,
        ) by {
            assert(step_is_sound(paths@[k], longest));
        }
    }
}

/// Parts of a path that suit long arrays suit shorter ones.
pub(crate) proof fn lemma_sound_parts_shorter(paths: Seq<Path>, longest: nat, shorter: nat)
    requires
        shorter <= longest,
        parts_are_sound(paths, longest),
    ensures
        parts_are_sound(paths, shorter),
    decreases paths, 1nat,
{
    assert forall|k: int| 0 <= k < paths.len() implies part_is_sound(
        #[trigger] paths[k],
        shorter,
    ) by {
        assert(part_is_sound(paths[k], longest));
        assert(decreases_to!(paths => paths[k]));
        match paths[k] {
            Path::FilterExpr(expr) => lemma_sound_filter_shorter(*expr, longest, shorter),
            Path::Predicate(expr) => lemma_sound_filter_shorter(*expr, longest, shorter),
            _ => {},
        }
    }
}

} // verus!
