//! Laws of paths: what each part of a path does, and how parts work together.

use std::borrow::Cow;
use vstd::prelude::*;
use vstd::utf8::encode_utf8;

use crate::correspondence::lemma_count_bound;
use crate::correspondence::lemma_places_bound;
use crate::document::json_advance;
use crate::document::json_operand;
use crate::document::json_operand_walk;
use crate::document::json_passes;
use crate::document::json_passing;
use crate::document::json_select;
use crate::document::json_step;
use crate::document::json_step_all;
use crate::document::json_walk;
use crate::document::leaves;
use crate::document::member_from;
use crate::document::Json;
use crate::error::Error;
use crate::laws::law_filter_keeps_what_passes;
use crate::laws::law_first_key_wins;
use crate::outcome::Outcome;
use crate::path::ArrayIndex;
use crate::path::Expr;
use crate::path::Index;
use crate::path::JsonPath;
use crate::path::Path;
use crate::semantics::advance;
use crate::semantics::array_index_fits;
use crate::semantics::array_values;
use crate::semantics::count_at;
use crate::semantics::is_selecting;
use crate::semantics::kind_at;
use crate::semantics::object_values;
use crate::semantics::passing;
use crate::semantics::places;
use crate::semantics::positions;
use crate::semantics::slice_places;
use crate::semantics::step;
use crate::semantics::step_all;
use crate::semantics::value_by_name;
use crate::semantics::values_by_indices;
use crate::semantics::walk;
use crate::semantics::Position;

verus! {

/// All parts of a path select but `$`, `@` and filters.
pub proof fn law_selecting_parts(path: Path)
    ensures
        is_selecting(path) <==> path !is Root && path !is Current && path !is FilterExpr && path
            !is Predicate,
{
}

/// A path is a predicate if and only if a predicate is all there is of it.
pub proof fn law_predicates_stand_alone(json_path: JsonPath, expr: Box<Expr>)
    ensures
        json_path.paths@ =~= seq![Path::Predicate(expr)] ==> json_path.predicate(),
        json_path.predicate() ==> json_path.paths@.len() == 1 && json_path.paths@[0] is Predicate,
{
    if json_path.paths@ =~= seq![Path::Predicate(expr)] {
        assert(json_path.paths@[0] is Predicate);
    }
}

/// Selecting from positions piece by piece is selecting from them as a whole: the
/// first piece that fails decides.
pub proof fn law_steps_go_piece_by_piece(
    data: Seq<u8>,
    first: Seq<Position>,
    rest: Seq<Position>,
    path: Path,
)
    ensures
        step_all(data, first + rest, path) == (match step_all(data, first, path) {
            Outcome::Done(found) => match step_all(data, rest, path) {
                Outcome::Done(others) => Outcome::Done(found + others),
                Outcome::Failed(e) => Outcome::Failed(e),
                Outcome::Undefined => Outcome::Undefined,
            },
            Outcome::Failed(e) => Outcome::Failed(e),
            Outcome::Undefined => Outcome::Undefined,
        }),
    decreases first.len(),
{
    if first.len() == 0 {
        assert(first + rest =~= rest);
        if let Outcome::Done(others) = step_all(data, rest, path) {
            assert(Seq::<Position>::empty() + others =~= others);
        }
    } else {
        let all = first + rest;
        assert(all[0] == first[0]);
        assert(all.skip(1) =~= first.skip(1) + rest);
        law_steps_go_piece_by_piece(data, first.skip(1), rest, path);
        if let Outcome::Done(head) = step(data, first[0], path) {
            if let Outcome::Done(found) = step_all(data, first.skip(1), path) {
                if let Outcome::Done(others) = step_all(data, rest, path) {
                    assert(head + (found + others) =~= (head + found) + others);
                }
            }
        }
    }
}

/// Selecting from no position gives nothing. Selecting from a scalar gives the
/// scalar itself with `[*]`, and nothing with any other part. Selecting from a
/// container is up to the kind of the part; the three ways to write a name are
/// the same.
#[verifier::rlimit(40)]
pub proof fn law_step_from_one_position(
    data: Seq<u8>,
    ty: u32,
    offset: usize,
    length: usize,
    path: Path,
)
    ensures
        step_all(data, Seq::empty(), path) == Outcome::Done(Seq::<Position>::empty()),
        step_all(data, seq![Position::Scalar((ty, offset, length))], path) == Outcome::Done(
            if path is BracketWildcard {
                seq![Position::Scalar((ty, offset, length))]
            } else {
                Seq::empty()
            },
        ),
        ({
            let found = step_all(data, seq![Position::Container((offset, length))], path);
            match path {
                Path::DotWildcard => found == object_values(data, offset as int),
                Path::BracketWildcard => found == array_values(data, offset, length),
                Path::ColonField(name) => found == value_by_name(
                    data,
                    offset as int,
                    encode_utf8(name@),
                ),
                Path::DotField(name) => found == value_by_name(
                    data,
                    offset as int,
                    encode_utf8(name@),
                ),
                Path::ObjectField(name) => found == value_by_name(
                    data,
                    offset as int,
                    encode_utf8(name@),
                ),
                Path::ArrayIndices(indices) => found == values_by_indices(
                    data,
                    offset as int,
                    indices@,
                ),
                _ => found is Undefined,
            }
        }),
{
    let scalar = seq![Position::Scalar((ty, offset, length))];
    let container = seq![Position::Container((offset, length))];
    assert(scalar.skip(1) =~= Seq::empty());
    assert(container.skip(1) =~= Seq::empty());
    assert(step_all(data, scalar.skip(1), path) == Outcome::Done(Seq::<Position>::empty()));
    assert(scalar + Seq::<Position>::empty() =~= scalar);
    assert(scalar[0] == Position::Scalar((ty, offset, length)));
    if let Outcome::Done(found) = step(data, container[0], path) {
        assert(found + Seq::<Position>::empty() =~= found);
    }
}

/// A path without parts leaves positions as they are, and so do `$` and `@`. A
/// filter, wherever it is written, filters them, and any other part selects from
/// them.
pub proof fn law_single_parts(data: Seq<u8>, poses: Seq<Position>, path: Path)
    ensures
        walk(data, poses, Seq::empty()) == Outcome::Done(poses),
        match path {
            Path::Root | Path::Current => walk(data, poses, seq![path]) == Outcome::Done(poses),
            Path::FilterExpr(expr) => walk(data, poses, seq![path]) == passing(data, poses, *expr),
            Path::Predicate(expr) => walk(data, poses, seq![path]) == passing(data, poses, *expr),
            _ => walk(data, poses, seq![path]) == step_all(data, poses, path),
        },
{
    let one = seq![path];
    assert(one.skip(1) =~= Seq::empty());
    assert(one[0] == path);
    let next = advance(data, poses, path);
    if let Outcome::Done(found) = next {
        assert(walk(data, found, one.skip(1)) == Outcome::Done(found));
    }
    assert(walk(data, poses, one) == next);
}

/// A path starts at the value of the filter that it stands in if its first part is
/// `@`, for which there has to be such a value, and at the root otherwise.
pub proof fn law_paths_start(data: Seq<u8>, current: Option<Position>, pos: Position, paths: Seq<Path>)
    ensures
        paths.len() == 0 || paths[0] !is Current ==> positions(data, current, paths) == walk(
            data,
            seq![Position::Container((0, data.len() as usize))],
            paths,
        ),
        paths.len() > 0 && paths[0] is Current ==> positions(data, Some(pos), paths) == walk(
            data,
            seq![pos],
            paths,
        ),
        paths.len() > 0 && paths[0] is Current ==> positions(data, None, paths) is Undefined,
{
}

/// A slice picks exactly the places of the array from its first end to its last,
/// both included, each of them once and in increasing order.
pub proof fn law_slice_picks_its_range(from: Index, to: Index, low: int, high: int, n: int, p: usize)
    requires
        0 <= n <= 0x1FFF_FFFF,
        from matches Index::Index(i) ==> low == i,
        from matches Index::LastIndex(i) ==> low == n - 1 + i,
        to matches Index::Index(i) ==> high == i,
        to matches Index::LastIndex(i) ==> high == n - 1 + i,
    ensures
        places(seq![ArrayIndex::Slice((from, to))], n).contains(p) <==> p < n && low <= p <= high,
        forall|j: int, k: int|
            0 <= j < k < places(seq![ArrayIndex::Slice((from, to))], n).len() ==> #[trigger] places(
                seq![ArrayIndex::Slice((from, to))],
                n,
            )[j] < #[trigger] places(seq![ArrayIndex::Slice((from, to))], n)[k],
{
    let one = seq![ArrayIndex::Slice((from, to))];
    assert(one.drop_last() =~= Seq::empty());
    assert(places(one.drop_last(), n) =~= Seq::empty());
    assert(places(one, n) =~= slice_places(low, high, n));
    let picked = slice_places(low, high, n);
    let first = if low < 0 {
        0
    } else {
        low
    };
    if p < n && low <= p <= high {
        assert(picked[p - first] == p);
    }
}

/// The places from one number to another that lie in an array of `n` values.
pub proof fn law_slice_places(low: int, high: int, n: int, p: usize)
    requires
        0 <= n <= 0x1FFF_FFFF,
    ensures
        slice_places(low, high, n).contains(p) <==> p < n && low <= p <= high,
        forall|j: int, k: int|
            0 <= j < k < slice_places(low, high, n).len() ==> #[trigger] slice_places(
                low,
                high,
                n,
            )[j] < #[trigger] slice_places(low, high, n)[k],
{
    let picked = slice_places(low, high, n);
    let first = if low < 0 {
        0
    } else {
        low
    };
    if p < n && low <= p <= high {
        assert(picked[p - first] == p);
    }
}

/// No index picks nothing. A single index picks its place if the array has it, and
/// nothing otherwise.
pub proof fn law_index_picks_its_place(index: Index, n: int, p: int)
    requires
        0 <= n <= 0x1FFF_FFFF,
        index matches Index::Index(i) ==> p == i,
        index matches Index::LastIndex(i) ==> p == n - 1 + i,
    ensures
        places(Seq::empty(), n) == Seq::<usize>::empty(),
        places(seq![ArrayIndex::Index(index)], n) == (if 0 <= p < n {
            seq![p as usize]
        } else {
            Seq::empty()
        }),
{
    let one = seq![ArrayIndex::Index(index)];
    assert(one.drop_last() =~= Seq::empty());
    assert(places(one.drop_last(), n) =~= Seq::empty());
    assert(places(one, n) =~= slice_places(p, p, n));
    if 0 <= p < n {
        assert(slice_places(p, p, n) =~= seq![p as usize]);
    }
}

/// An index can be computed in 32 bits if and only if its place, and the place
/// after it, are 32 bit integers. Both ends of a slice are computed.
pub proof fn law_indices_in_range(index: Index, other: Index, n: int)
    requires
        1 <= n <= 0x1FFF_FFFF,
    ensures
        index is Index ==> array_index_fits(ArrayIndex::Index(index), n),
        index matches Index::LastIndex(i) ==> (array_index_fits(ArrayIndex::Index(index), n) <==> n
            + i <= 0x7FFF_FFFF),
        array_index_fits(ArrayIndex::Slice((index, other)), n) <==> array_index_fits(
            ArrayIndex::Index(index),
            n,
        ) && array_index_fits(ArrayIndex::Index(other), n),
{
}

/// In any document, indices select, of all values of an array, those at the places
/// that they pick, in that order.
pub proof fn law_indices_select_among_all_values(
    data: Seq<u8>,
    offset: usize,
    length: usize,
    indices: Seq<ArrayIndex>,
)
    requires
        kind_at(data, offset as int) == 0x8000_0000,
        array_values(data, offset, length) is Done,
        forall|i: int|
            0 <= i < indices.len() ==> #[trigger] array_index_fits(
                indices[i],
                array_values(data, offset, length)->Done_0.len() as int,
            ),
    ensures
        ({
            let all = array_values(data, offset, length)->Done_0;
            let picked = places(indices, all.len() as int);
            &&& values_by_indices(data, offset as int, indices) matches Outcome::Done(found)
            &&& found.len() == picked.len()
            &&& forall|k: int|
                0 <= k < found.len() ==> #[trigger] picked[k] < all.len() && found[k]
                    == all[picked[k] as int]
        }),
{
    let n = count_at(data, offset as int);
    let all = array_values(data, offset, length)->Done_0;
    lemma_count_bound(data, offset as int);
    lemma_places_bound(indices, n as int);
    let picked = places(indices, n as int);
    if n == 0 && picked.len() > 0 {
        assert(picked[0] < 0);
    }
    assert(all.len() == n);
    assert forall|i: int| 0 <= i < indices.len() implies #[trigger] array_index_fits(
        indices[i],
        n as int,
    ) by {}
    let found = values_by_indices(data, offset as int, indices)->Done_0;
    assert(found.len() == picked.len());
    assert forall|k: int| 0 <= k < found.len() implies #[trigger] picked[k] < all.len() && found[k]
        == all[picked[k] as int] by {
        assert(picked[k] < n);
    }
}

/// When indices fail: with an array whose header is cut off, or whose descriptors
/// are cut off although a place is picked. From what is no array they select
/// nothing.
#[verifier::rlimit(40)]
pub proof fn law_indices_fail(data: Seq<u8>, offset: int, indices: Seq<ArrayIndex>)
    requires
        0 <= offset <= data.len(),
    ensures
        data.len() < offset + 4 ==> values_by_indices(data, offset, indices) == Outcome::<
            Seq<Position>,
        >::Failed(Error::InvalidJsonb),
        data.len() >= offset + 4 ==> {
            let n = count_at(data, offset);
            let fits = forall|i: int|
                0 <= i < indices.len() ==> #[trigger] array_index_fits(indices[i], n as int);
            &&& kind_at(data, offset) != 0x8000_0000 || n == 0 ==> values_by_indices(
                data,
                offset,
                indices,
            ) == Outcome::Done(Seq::<Position>::empty())
            &&& kind_at(data, offset) == 0x8000_0000 && n > 0 && fits && places(
                indices,
                n as int,
            ) == Seq::<usize>::empty() ==> values_by_indices(data, offset, indices)
                == Outcome::Done(Seq::<Position>::empty())
            &&& kind_at(data, offset) == 0x8000_0000 && n > 0 && fits && places(
                indices,
                n as int,
            ) != Seq::<usize>::empty() && data.len() < offset + 4 + 4 * n ==> values_by_indices(
                data,
                offset,
                indices,
            ) == Outcome::<Seq<Position>>::Failed(Error::InvalidJsonb)
        },
{
    if data.len() >= offset + 4 {
        let n = count_at(data, offset);
        let picked = places(indices, n as int);
        assert(picked.len() == 0 ==> picked =~= Seq::empty());
    }
}

/// On values too: selecting goes piece by piece, from no value there is nothing to
/// select, and from one value there is what its part selects.
pub proof fn law_steps_on_values(first: Seq<Json>, rest: Seq<Json>, value: Json, path: Path)
    ensures
        json_step_all(first + rest, path) == json_step_all(first, path) + json_step_all(rest, path),
        json_step_all(Seq::empty(), path) == Seq::<Json>::empty(),
        json_step_all(seq![value], path) == json_step(value, path),
    decreases first.len(),
{
    let one = seq![value];
    assert(one.skip(1) =~= Seq::empty());
    assert(json_step_all(one.skip(1), path) =~= Seq::empty());
    assert(json_step_all(one, path) =~= json_step(value, path));
    if first.len() == 0 {
        assert(first + rest =~= rest);
        assert(json_step_all(first, path) + json_step_all(rest, path) =~= json_step_all(
            rest,
            path,
        ));
    } else {
        let all = first + rest;
        assert(all[0] == first[0]);
        assert(all.skip(1) =~= first.skip(1) + rest);
        law_steps_on_values(first.skip(1), rest, value, path);
        assert(json_step_all(all, path) =~= json_step_all(first, path) + json_step_all(rest, path));
    }
}

/// What the parts of a path select in a value: `.*` all values of an object, `[*]`
/// all values of an array, indices those at the places that they pick. In any
/// other value `.*`, names and indices select nothing.
pub proof fn law_step_on_a_value(
    values: Seq<Json>,
    members: Seq<(Seq<u8>, Json)>,
    value: Json,
    path: Path,
    indices: Vec<ArrayIndex>,
    i: int,
)
    ensures
        json_step(Json::Array(values), Path::BracketWildcard) == values,
        json_step(Json::Object(members), Path::DotWildcard).len() == members.len(),
        0 <= i < members.len() ==> json_step(Json::Object(members), Path::DotWildcard)[i]
            == members[i].1,
        json_step(Json::Array(values), Path::ArrayIndices(indices)).len() == places(
            indices@,
            values.len() as int,
        ).len(),
        0 <= i < places(indices@, values.len() as int).len() ==> json_step(
            Json::Array(values),
            Path::ArrayIndices(indices),
        )[i] == values[places(indices@, values.len() as int)[i] as int],
        value !is Object && (path is DotWildcard || path is ColonField || path is DotField || path
            is ObjectField) ==> json_step(value, path) == Seq::<Json>::empty(),
        value !is Array && path is ArrayIndices ==> json_step(value, path) == Seq::<Json>::empty(),
{
}

/// A name selects the value of an object under the first key that is the encoding
/// of the name, however it is written, and nothing if no key is.
pub proof fn law_name_on_a_value(members: Seq<(Seq<u8>, Json)>, name: Cow<str>, i: int)
    requires
        0 <= i <= members.len(),
        forall|k: int| 0 <= k < i ==> (#[trigger] members[k]).0 != encode_utf8(name@),
        i < members.len() ==> members[i].0 == encode_utf8(name@),
    ensures
        ({
            let found = if i < members.len() {
                seq![members[i].1]
            } else {
                Seq::empty()
            };
            &&& json_step(Json::Object(members), Path::ColonField(name)) == found
            &&& json_step(Json::Object(members), Path::DotField(name)) == found
            &&& json_step(Json::Object(members), Path::ObjectField(name)) == found
        }),
{
    if i < members.len() {
        law_first_key_wins(members, encode_utf8(name@), i);
    } else {
        lemma_no_member(members, encode_utf8(name@), 0);
    }
}

/// The search for a key that no member has finds nothing.
proof fn lemma_no_member(members: Seq<(Seq<u8>, Json)>, name: Seq<u8>, from: nat)
    requires
        forall|k: int| from <= k < members.len() ==> (#[trigger] members[k]).0 != name,
    ensures
        member_from(members, name, from) is None,
    decreases members.len() - from,
{
    if from < members.len() {
        assert(members[from as int].0 != name);
        lemma_no_member(members, name, from + 1);
    }
}

/// Following one path on values and then another is following both as one path.
pub proof fn law_paths_compose_on_values(
    root: Json,
    values: Seq<Json>,
    first: Seq<Path>,
    second: Seq<Path>,
)
    ensures
        json_walk(root, values, first + second) == json_walk(
            root,
            json_walk(root, values, first),
            second,
        ),
    decreases first.len(),
{
    if first.len() == 0 {
        assert(first + second =~= second);
    } else {
        assert((first + second)[0] == first[0]);
        assert((first + second).skip(1) =~= first.skip(1) + second);
        law_paths_compose_on_values(
            root,
            json_advance(root, values, first[0]),
            first.skip(1),
            second,
        );
    }
}

/// What single parts of a path do with values.
pub proof fn law_single_parts_on_values(root: Json, values: Seq<Json>, path: Path)
    ensures
        json_walk(root, values, Seq::empty()) == values,
        match path {
            Path::Root | Path::Current => json_walk(root, values, seq![path]) == values,
            Path::FilterExpr(expr) => json_walk(root, values, seq![path]) == values.filter(
                |value: Json| json_passes(root, value, *expr),
            ),
            Path::Predicate(expr) => json_walk(root, values, seq![path]) == values.filter(
                |value: Json| json_passes(root, value, *expr),
            ),
            _ => json_walk(root, values, seq![path]) == json_step_all(values, path),
        },
{
    let one = seq![path];
    assert(one.skip(1) =~= Seq::empty());
    assert(one[0] == path);
    let next = json_advance(root, values, path);
    assert(json_walk(root, next, one.skip(1)) == next);
    match path {
        Path::FilterExpr(expr) => {
            law_filter_keeps_what_passes(root, values, *expr);
            assert(next == json_passing(root, values, *expr));
        },
        Path::Predicate(expr) => {
            law_filter_keeps_what_passes(root, values, *expr);
            assert(next == json_passing(root, values, *expr));
        },
        _ => {},
    }
    assert(json_walk(root, values, one) == next);
}

/// Where a path starts on values.
pub proof fn law_paths_start_on_values(root: Json, current: Json, paths: Seq<Path>)
    ensures
        json_select(root, current, paths) == json_walk(
            root,
            seq![
                if paths.len() > 0 && paths[0] is Current {
                    current
                } else {
                    root
                },
            ],
            paths,
        ),
{
}

/// One side of a comparison on values: a literal is itself; a path that starts with
/// `$` or `@` and then only selects has the leaves of the values that it leads to.
pub proof fn law_operand_on_values(root: Json, current: Json, expr: Expr)
    ensures
        expr matches Expr::Value(value) ==> json_operand(root, current, expr) == seq![value@],
        expr matches Expr::Paths(paths) ==> (paths@.len() > 0 && (paths@[0] is Root || paths@[0]
            is Current) && (forall|k: int| 1 <= k < paths@.len() ==> is_selecting(
            #[trigger] paths@[k],
        )) ==> json_operand(root, current, expr) == leaves(json_select(root, current, paths@))),
{
    if let Expr::Paths(paths) = expr {
        if paths@.len() > 0 && (paths@[0] is Root || paths@[0] is Current) && (forall|k: int|
            1 <= k < paths@.len() ==> is_selecting(#[trigger] paths@[k])) {
            let start = seq![
                if paths@[0] is Current {
                    current
                } else {
                    root
                },
            ];
            let rest = paths@.skip(1);
            assert forall|k: int| 0 <= k < rest.len() implies is_selecting(#[trigger] rest[k]) by {
                assert(rest[k] == paths@[k + 1]);
            }
            lemma_operand_walk_on_values(root, start, rest);
            assert(json_advance(root, start, paths@[0]) == start);
            assert(json_walk(root, start, paths@) == json_walk(root, start, rest));
        }
    }
}

/// Selecting parts do the same in a comparison as elsewhere, on values too.
proof fn lemma_operand_walk_on_values(root: Json, values: Seq<Json>, paths: Seq<Path>)
    requires
        forall|k: int| 0 <= k < paths.len() ==> is_selecting(#[trigger] paths[k]),
    ensures
        json_operand_walk(values, paths) == json_walk(root, values, paths),
    decreases paths.len(),
{
    if paths.len() > 0 {
        assert(is_selecting(paths[0]));
        let rest = paths.skip(1);
        assert forall|k: int| 0 <= k < rest.len() implies is_selecting(#[trigger] rest[k]) by {
            assert(rest[k] == paths[k + 1]);
        }
        assert(json_advance(root, values, paths[0]) == json_step_all(values, paths[0]));
        lemma_operand_walk_on_values(root, json_step_all(values, paths[0]), rest);
    }
}

} // verus!
