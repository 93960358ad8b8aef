//! Laws of selection over the bytes of a document, well-formed or not.

use vstd::prelude::*;
use vstd::utf8::encode_utf8;

use crate::constants::ARRAY_CONTAINER_TAG;
use crate::constants::FALSE_TAG;
use crate::constants::NULL_TAG;
use crate::constants::NUMBER_TAG;
use crate::constants::OBJECT_CONTAINER_TAG;
use crate::constants::SCALAR_CONTAINER_TAG;
use crate::constants::STRING_TAG;
use crate::constants::TRUE_TAG;
use crate::correspondence::lemma_count_bound;
use crate::correspondence::lemma_field_step;
use crate::correspondence::lemma_kinds;
use crate::correspondence::lemma_step;
use crate::document::container_value;
use crate::document::value_at;
use crate::error::Error;
use crate::outcome::Outcome;
use crate::path::ArrayIndex;
use crate::path::Expr;
use crate::path::FilterFunc;
use crate::path::Index;
use crate::path::Path;
use crate::path::Scalar;
use crate::readback::is_entry;
use crate::readback::lemma_child_is_entry;
use crate::readback::lemma_container_kind;
use crate::semantics::advance;
use crate::semantics::array_index_fits;
use crate::semantics::array_values;
use crate::semantics::child;
use crate::semantics::count_at;
use crate::semantics::entries_len;
use crate::semantics::index_places;
use crate::semantics::is_comparison;
use crate::semantics::is_selecting;
use crate::semantics::key_from;
use crate::semantics::kind_at;
use crate::semantics::object_values;
use crate::semantics::operand;
use crate::semantics::operand_start;
use crate::semantics::operand_walk;
use crate::semantics::parts_after_first;
use crate::semantics::passes;
use crate::semantics::passing;
use crate::semantics::place;
use crate::semantics::places;
use crate::semantics::positions;
use crate::semantics::root_position;
use crate::semantics::scalar_at;
use crate::semantics::scalars_at;
use crate::semantics::slice_places;
use crate::semantics::step;
use crate::semantics::step_all;
use crate::semantics::value_by_name;
use crate::semantics::values_by_indices;
use crate::semantics::walk;
use crate::semantics::Position;
use crate::wire::jentry_at;

verus! {

/// Whether all of `poses` have a property.
spec fn all_have(poses: Seq<Position>, property: spec_fn(Position) -> bool) -> bool {
    forall|i: int| 0 <= i < poses.len() ==> property(#[trigger] poses[i])
}

/// Whether selecting parts of a path only lead from positions that have a
/// property to positions that have it.
spec fn is_kept(data: Seq<u8>, property: spec_fn(Position) -> bool) -> bool {
    forall|pos: Position, path: Path|
        property(pos) ==> (#[trigger] step(data, pos, path) matches Outcome::Done(found)
            ==> all_have(found, property))
}

/// Positions that come first and positions that come later have a property if
/// all of them do.
proof fn lemma_all_have_concat(
    first: Seq<Position>,
    rest: Seq<Position>,
    property: spec_fn(Position) -> bool,
)
    requires
        all_have(first, property),
        all_have(rest, property),
    ensures
        all_have(first + rest, property),
{
    let all = first + rest;
    assert forall|i: int| 0 <= i < all.len() implies property(#[trigger] all[i]) by {
        if i < first.len() {
            assert(all[i] == first[i]);
        } else {
            assert(all[i] == rest[i - first.len()]);
        }
    }
}

/// A selecting part of a path keeps a property that its steps keep.
proof fn lemma_step_all_keeps(
    data: Seq<u8>,
    poses: Seq<Position>,
    path: Path,
    property: spec_fn(Position) -> bool,
)
    requires
        is_kept(data, property),
        all_have(poses, property),
    ensures
        step_all(data, poses, path) matches Outcome::Done(found) ==> all_have(found, property),
    decreases poses.len(),
{
    if poses.len() > 0 {
        let rest = poses.skip(1);
        assert(property(poses[0]));
        assert forall|i: int| 0 <= i < rest.len() implies property(#[trigger] rest[i]) by {
            assert(rest[i] == poses[i + 1]);
        }
        lemma_step_all_keeps(data, rest, path, property);
        if let Outcome::Done(first) = step(data, poses[0], path) {
            if let Outcome::Done(others) = step_all(data, rest, path) {
                lemma_all_have_concat(first, others, property);
            }
        }
    }
}

/// A filter keeps every property of positions.
proof fn lemma_passing_keeps(
    data: Seq<u8>,
    poses: Seq<Position>,
    expr: Expr,
    property: spec_fn(Position) -> bool,
)
    requires
        all_have(poses, property),
    ensures
        passing(data, poses, expr) matches Outcome::Done(found) ==> all_have(found, property),
    decreases poses.len(),
{
    if poses.len() > 0 {
        let rest = poses.skip(1);
        assert(property(poses[0]));
        assert forall|i: int| 0 <= i < rest.len() implies property(#[trigger] rest[i]) by {
            assert(rest[i] == poses[i + 1]);
        }
        lemma_passing_keeps(data, rest, expr, property);
        if let Outcome::Done(others) = passing(data, rest, expr) {
            lemma_all_have_concat(seq![poses[0]], others, property);
            lemma_all_have_concat(Seq::empty(), others, property);
        }
    }
}

/// A path keeps a property that its steps keep.
proof fn lemma_walk_keeps(
    data: Seq<u8>,
    poses: Seq<Position>,
    paths: Seq<Path>,
    property: spec_fn(Position) -> bool,
)
    requires
        is_kept(data, property),
        all_have(poses, property),
    ensures
        walk(data, poses, paths) matches Outcome::Done(found) ==> all_have(found, property),
    decreases paths.len(),
{
    if paths.len() > 0 {
        match paths[0] {
            Path::FilterExpr(expr) => {
                lemma_passing_keeps(data, poses, *expr, property);
                assert(advance(data, poses, paths[0]) == passing(data, poses, *expr));
            },
            Path::Predicate(expr) => {
                lemma_passing_keeps(data, poses, *expr, property);
                assert(advance(data, poses, paths[0]) == passing(data, poses, *expr));
            },
            _ => {
                lemma_step_all_keeps(data, poses, paths[0], property);
            },
        }
        if let Outcome::Done(next) = advance(data, poses, paths[0]) {
            lemma_walk_keeps(data, next, paths.skip(1), property);
        }
    }
}

/// A path leads to positions that have a property if it starts at one and its
/// steps keep the property.
proof fn lemma_positions_keep(
    data: Seq<u8>,
    current: Option<Position>,
    paths: Seq<Path>,
    property: spec_fn(Position) -> bool,
)
    requires
        is_kept(data, property),
        property(root_position(data)),
        current matches Some(pos) ==> property(pos),
    ensures
        positions(data, current, paths) matches Outcome::Done(found) ==> all_have(found, property),
{
    let start = if paths.len() > 0 && paths[0] is Current && current is Some {
        current->0
    } else {
        root_position(data)
    };
    assert(property(seq![start][0]));
    lemma_walk_keeps(data, seq![start], paths, property);
}

/// In a well-formed document a path leads to well-formed values, which lie
/// inside the document: a container with its header, a scalar with the kind of
/// a scalar. This holds of every path, sound or not, that leads anywhere.
pub proof fn law_positions_lie_in_the_document(
    data: Seq<u8>,
    current: Option<Position>,
    paths: Seq<Path>,
    i: int,
)
    requires
        data.len() <= usize::MAX,
        container_value(data) is Some,
        current matches Some(pos) ==> value_at(data, pos) is Some,
        positions(data, current, paths) is Done,
        0 <= i < positions(data, current, paths)->Done_0.len(),
    ensures
        value_at(data, positions(data, current, paths)->Done_0[i]) is Some,
        match positions(data, current, paths)->Done_0[i] {
            Position::Container((offset, length)) => {
                &&& 4 <= length
                &&& offset + length <= data.len()
                &&& {
                    ||| kind_at(data, offset as int) == SCALAR_CONTAINER_TAG
                    ||| kind_at(data, offset as int) == ARRAY_CONTAINER_TAG
                    ||| kind_at(data, offset as int) == OBJECT_CONTAINER_TAG
                }
            },
            Position::Scalar((ty, offset, length)) => {
                &&& offset + length <= data.len()
                &&& {
                    ||| ty == NULL_TAG
                    ||| ty == FALSE_TAG
                    ||| ty == TRUE_TAG
                    ||| ty == NUMBER_TAG
                    ||| ty == STRING_TAG
                }
            },
        },
{
    let property = |pos: Position| value_at(data, pos) is Some;
    assert forall|pos: Position, path: Path| property(pos) implies (#[trigger] step(
        data,
        pos,
        path,
    ) matches Outcome::Done(found) ==> all_have(found, property)) by {
        if let Outcome::Done(found) = step(data, pos, path) {
            lemma_step(data, pos, value_at(data, pos)->0, path);
            assert forall|k: int| 0 <= k < found.len() implies property(#[trigger] found[k]) by {
                assert(value_at(data, found[k]) is Some);
            }
        }
    }
    assert(data.subrange(0, data.len() as int) =~= data);
    lemma_positions_keep(data, current, paths, property);
    let pos = positions(data, current, paths)->Done_0[i];
    assert(property(pos));
    if let Position::Container((offset, length)) = pos {
        lemma_kinds(data, offset, length);
        reveal(container_value);
    }
}

/// Every position that a path leads to, in any document, has the kind of an
/// entry, and only containers have the kind of a container.
pub(crate) proof fn lemma_positions_are_entries(data: Seq<u8>, paths: Seq<Path>)
    requires
        positions(data, None, paths) is Done,
    ensures
        forall|i: int|
            0 <= i < positions(data, None, paths)->Done_0.len() ==> is_entry(
                #[trigger] positions(data, None, paths)->Done_0[i],
            ),
{
    let property = |pos: Position| is_entry(pos);
    assert forall|pos: Position, path: Path| property(pos) implies (#[trigger] step(
        data,
        pos,
        path,
    ) matches Outcome::Done(found) ==> all_have(found, property)) by {
        if let Outcome::Done(found) = step(data, pos, path) {
            lemma_step_gives_entries(data, pos, path);
        }
    }
    lemma_container_kind();
    lemma_positions_keep(data, None, paths, property);
    let found = positions(data, None, paths)->Done_0;
    assert forall|i: int| 0 <= i < found.len() implies is_entry(#[trigger] found[i]) by {
        assert(property(found[i]));
    }
}

/// A step leads to entries.
proof fn lemma_step_gives_entries(data: Seq<u8>, pos: Position, path: Path)
    requires
        is_entry(pos),
    ensures
        step(data, pos, path) matches Outcome::Done(found) ==> forall|i: int|
            0 <= i < found.len() ==> is_entry(#[trigger] found[i]),
{
    lemma_container_kind();
    assert forall|table: int, base: int, i: int| is_entry(
        #[trigger] child(data, table, base, i),
    ) by {
        lemma_child_is_entry(data, table, base, i);
    }
}

/// A failing evaluation reports a document that is too short or a number that is
/// broken, never anything else.
pub proof fn law_evaluation_errors(data: Seq<u8>, current: Option<Position>, paths: Seq<Path>)
    ensures
        positions(data, current, paths) matches Outcome::Failed(e) ==> is_document_error(e),
    decreases paths, 1nat, 0nat,
{
    if paths.len() > 0 && paths[0] is Current {
        if let Some(pos) = current {
            lemma_walk_errors(data, seq![pos], paths);
        }
    } else {
        lemma_walk_errors(data, seq![root_position(data)], paths);
    }
}

/// Whether an error says that a document is broken.
pub open spec fn is_document_error(e: Error) -> bool {
    e is InvalidJsonb || e is InvalidJsonbNumber
}

/// The errors of looking for a key.
proof fn lemma_key_errors(data: Seq<u8>, offset: int, name: Seq<u8>, i: nat)
    ensures
        key_from(data, offset, name, i) matches Outcome::Failed(e) ==> is_document_error(e),
    decreases count_at(data, offset) - i,
{
    if i < count_at(data, offset) {
        lemma_key_errors(data, offset, name, i + 1);
    }
}

/// The errors of a step.
proof fn lemma_step_errors(data: Seq<u8>, pos: Position, path: Path)
    ensures
        step(data, pos, path) matches Outcome::Failed(e) ==> is_document_error(e),
{
    if let Position::Container((offset, _)) = pos {
        match path {
            Path::ColonField(name) => lemma_key_errors(data, offset as int, encode_utf8(name@), 0),
            Path::DotField(name) => lemma_key_errors(data, offset as int, encode_utf8(name@), 0),
            Path::ObjectField(name) => lemma_key_errors(data, offset as int, encode_utf8(name@), 0),
            _ => {},
        }
    }
}

/// The errors of a selecting part of a path.
proof fn lemma_step_all_errors(data: Seq<u8>, poses: Seq<Position>, path: Path)
    ensures
        step_all(data, poses, path) matches Outcome::Failed(e) ==> is_document_error(e),
    decreases poses.len(),
{
    if poses.len() > 0 {
        lemma_step_errors(data, poses[0], path);
        lemma_step_all_errors(data, poses.skip(1), path);
    }
}

/// The errors of following a path in a comparison.
proof fn lemma_operand_walk_errors(data: Seq<u8>, poses: Seq<Position>, paths: Seq<Path>)
    ensures
        operand_walk(data, poses, paths) matches Outcome::Failed(e) ==> is_document_error(e),
    decreases paths.len(),
{
    if paths.len() > 0 {
        lemma_step_all_errors(data, poses, paths[0]);
        if let Outcome::Done(next) = step_all(data, poses, paths[0]) {
            lemma_operand_walk_errors(data, next, paths.skip(1));
        }
    }
}

/// The errors of reading scalars.
proof fn lemma_scalars_errors(data: Seq<u8>, poses: Seq<Position>)
    ensures
        scalars_at(data, poses) matches Outcome::Failed(e) ==> is_document_error(e),
    decreases poses.len(),
{
    if poses.len() > 0 {
        lemma_scalars_errors(data, poses.skip(1));
    }
}

/// The errors of one side of a comparison.
proof fn lemma_operand_errors(data: Seq<u8>, pos: Position, expr: Expr)
    ensures
        operand(data, pos, expr) matches Outcome::Failed(e) ==> is_document_error(e),
{
    if let Expr::Paths(paths) = expr {
        let start = seq![operand_start(data, pos, paths@)];
        let rest = parts_after_first(paths@);
        lemma_operand_walk_errors(data, start, rest);
        if let Outcome::Done(poses) = operand_walk(data, start, rest) {
            lemma_scalars_errors(data, poses);
        }
    }
}

/// The errors of a filter.
proof fn lemma_passes_errors(data: Seq<u8>, pos: Position, expr: Expr)
    ensures
        passes(data, pos, expr) matches Outcome::Failed(e) ==> is_document_error(e),
    decreases expr, 0nat, 0nat,
{
    match expr {
        Expr::BinaryOp { op, left, right } => {
            if is_comparison(op) {
                lemma_operand_errors(data, pos, *left);
                lemma_operand_errors(data, pos, *right);
            } else {
                lemma_passes_errors(data, pos, *left);
                lemma_passes_errors(data, pos, *right);
            }
        },
        Expr::FilterFunc(FilterFunc::Exists(paths)) => {
            law_evaluation_errors(data, Some(pos), paths@);
        },
        _ => {},
    }
}

/// The errors of filtering positions.
proof fn lemma_passing_errors(data: Seq<u8>, poses: Seq<Position>, expr: Expr)
    ensures
        passing(data, poses, expr) matches Outcome::Failed(e) ==> is_document_error(e),
    decreases expr, 1nat, poses.len(),
{
    if poses.len() > 0 {
        lemma_passes_errors(data, poses[0], expr);
        lemma_passing_errors(data, poses.skip(1), expr);
    }
}

/// The errors of a part of a path.
proof fn lemma_advance_errors(data: Seq<u8>, poses: Seq<Position>, path: Path)
    ensures
        advance(data, poses, path) matches Outcome::Failed(e) ==> is_document_error(e),
    decreases path, 0nat, 0nat,
{
    match path {
        Path::FilterExpr(expr) => lemma_passing_errors(data, poses, *expr),
        Path::Predicate(expr) => lemma_passing_errors(data, poses, *expr),
        _ => lemma_step_all_errors(data, poses, path),
    }
}

/// The errors of following a path.
proof fn lemma_walk_errors(data: Seq<u8>, poses: Seq<Position>, paths: Seq<Path>)
    ensures
        walk(data, poses, paths) matches Outcome::Failed(e) ==> is_document_error(e),
    decreases paths, 0nat, 0nat,
{
    if paths.len() > 0 {
        assert(decreases_to!(paths => paths[0]));
        lemma_advance_errors(data, poses, paths[0]);
        if let Outcome::Done(next) = advance(data, poses, paths[0]) {
            lemma_walk_errors(data, next, paths.skip(1));
        }
    }
}

/// Selecting parts of a path do the same in a comparison as elsewhere.
pub(crate) proof fn lemma_operand_walk_is_walk(data: Seq<u8>, poses: Seq<Position>, paths: Seq<Path>)
    requires
        forall|k: int| 0 <= k < paths.len() ==> is_selecting(#[trigger] paths[k]),
    ensures
        operand_walk(data, poses, paths) == walk(data, poses, paths),
    decreases paths.len(),
{
    if paths.len() > 0 {
        assert(is_selecting(paths[0]));
        assert(advance(data, poses, paths[0]) == step_all(data, poses, paths[0]));
        let rest = paths.skip(1);
        assert forall|k: int| 0 <= k < rest.len() implies is_selecting(#[trigger] rest[k]) by {
            assert(rest[k] == paths[k + 1]);
        }
        if let Outcome::Done(next) = step_all(data, poses, paths[0]) {
            lemma_operand_walk_is_walk(data, next, rest);
        }
    }
}

/// A path that starts with `$` or `@` and then only selects leads to the same
/// positions in a comparison as elsewhere.
pub proof fn law_operand_follows_its_path(data: Seq<u8>, pos: Position, paths: Seq<Path>)
    requires
        paths.len() > 0,
        paths[0] is Root || paths[0] is Current,
        forall|k: int| 1 <= k < paths.len() ==> is_selecting(#[trigger] paths[k]),
    ensures
        operand_walk(data, seq![operand_start(data, pos, paths)], parts_after_first(paths))
            == positions(data, Some(pos), paths),
{
    let start = seq![operand_start(data, pos, paths)];
    let rest = paths.skip(1);
    assert forall|k: int| 0 <= k < rest.len() implies is_selecting(#[trigger] rest[k]) by {
        assert(rest[k] == paths[k + 1]);
    }
    lemma_operand_walk_is_walk(data, start, rest);
    assert(advance(data, start, paths[0]) == Outcome::Done(start));
    assert(walk(data, start, paths) == walk(data, start, rest));
}

/// One side of a comparison that is a path has the scalars at the positions that
/// the path leads to: as many as there are scalar positions, each of them read
/// at its position, in order. Containers are left out.
pub proof fn law_operand_reads_the_scalars(data: Seq<u8>, pos: Position, expr: Expr)
    requires
        expr matches Expr::Paths(paths) && {
            &&& paths@.len() > 0
            &&& paths@[0] is Root || paths@[0] is Current
            &&& forall|k: int| 1 <= k < paths@.len() ==> is_selecting(#[trigger] paths@[k])
            &&& positions(data, Some(pos), paths@) is Done
        },
    ensures
        ({
            let poses = positions(data, Some(pos), expr->Paths_0@)->Done_0;
            let scalar_poses = poses.filter(|p: Position| p is Scalar);
            &&& operand(data, pos, expr) == scalars_at(data, poses)
            &&& operand(data, pos, expr) matches Outcome::Done(found) ==> scalars_are(
                data,
                scalar_poses,
                found,
            )
        }),
{
    let paths = expr->Paths_0@;
    law_operand_follows_its_path(data, pos, paths);
    lemma_scalars_of_positions(data, positions(data, Some(pos), paths)->Done_0);
}

/// Whether `poses` are scalars, and `found` are what they read.
pub open spec fn scalars_are(data: Seq<u8>, poses: Seq<Position>, found: Seq<Scalar>) -> bool {
    &&& poses.len() == found.len()
    &&& forall|i: int|
        0 <= i < poses.len() ==> match #[trigger] poses[i] {
            Position::Scalar((ty, offset, length)) => scalar_at(
                data,
                ty,
                offset as int,
                length as int,
            ) == Outcome::Done(found[i]),
            Position::Container(_) => false,
        }
}

/// The scalars at positions are read at those positions that are scalars.
proof fn lemma_scalars_of_positions(data: Seq<u8>, poses: Seq<Position>)
    ensures
        scalars_at(data, poses) matches Outcome::Done(found) ==> scalars_are(
            data,
            poses.filter(|p: Position| p is Scalar),
            found,
        ),
    decreases poses.len(),
{
    let test = |p: Position| p is Scalar;
    if poses.len() > 0 {
        let rest = poses.skip(1);
        lemma_scalars_of_positions(data, rest);
        let one = seq![poses[0]];
        assert(poses =~= one + rest);
        Seq::filter_distributes_over_add(one, rest, test);
        assert(one.drop_last() =~= Seq::empty());
        reveal_with_fuel(Seq::filter, 2);
        assert(one.filter(test) =~= if test(poses[0]) {
            one
        } else {
            Seq::empty()
        });
        if let Outcome::Done(found) = scalars_at(data, poses) {
            let kept = poses.filter(test);
            let others = scalars_at(data, rest)->Done_0;
            let kept_rest = rest.filter(test);
            if test(poses[0]) {
                assert forall|i: int| 0 <= i < kept.len() implies match #[trigger] kept[i] {
                    Position::Scalar((ty, offset, length)) => scalar_at(
                        data,
                        ty,
                        offset as int,
                        length as int,
                    ) == Outcome::Done(found[i]),
                    Position::Container(_) => false,
                } by {
                    if i > 0 {
                        assert(kept[i] == kept_rest[i - 1]);
                        assert(found[i] == others[i - 1]);
                    }
                }
            } else {
                assert(kept =~= kept_rest);
            }
        }
    } else {
        reveal_with_fuel(Seq::filter, 1);
        assert(poses.filter(test) =~= Seq::empty());
    }
}

/// The slice from a place to the same place is that index: the place if the
/// array has it, nothing otherwise.
pub proof fn law_slice_of_one_place_is_the_index(index: Index, n: int)
    ensures
        index_places(ArrayIndex::Slice((index, index)), n) == index_places(
            ArrayIndex::Index(index),
            n,
        ),
        index_places(ArrayIndex::Index(index), n) == (if 0 <= place(index, n) < n {
            seq![place(index, n) as usize]
        } else {
            Seq::empty()
        }),
        slice_places(place(index, n), place(index, n), n) == (if 0 <= place(index, n) < n {
            seq![place(index, n) as usize]
        } else {
            Seq::empty()
        }),
{
    let p = place(index, n);
    if 0 <= p < n {
        assert(slice_places(p, p, n) =~= seq![p as usize]);
    }
}

/// A list of indices picks what its front picks, then what its back picks:
/// places are neither sorted nor freed of duplicates.
pub proof fn law_places_concatenate(front: Seq<ArrayIndex>, back: Seq<ArrayIndex>, n: int)
    ensures
        places(front + back, n) == places(front, n) + places(back, n),
    decreases back.len(),
{
    if back.len() == 0 {
        assert(front + back =~= front);
        assert(places(front, n) + places(back, n) =~= places(front, n));
    } else {
        law_places_concatenate(front, back.drop_last(), n);
        assert((front + back).drop_last() =~= front + back.drop_last());
        assert(places(front + back, n) =~= places(front, n) + places(back, n));
    }
}

/// In any document, a list of indices selects what its front selects, then what
/// its back selects, and it can be followed if and only if both can.
pub proof fn law_indices_concatenate(
    data: Seq<u8>,
    offset: int,
    front: Seq<ArrayIndex>,
    back: Seq<ArrayIndex>,
)
    ensures
        values_by_indices(data, offset, front + back) is Done <==> values_by_indices(
            data,
            offset,
            front,
        ) is Done && values_by_indices(data, offset, back) is Done,
        values_by_indices(data, offset, front + back) matches Outcome::Done(found) ==> found
            == values_by_indices(data, offset, front)->Done_0 + values_by_indices(
            data,
            offset,
            back,
        )->Done_0,
{
    let n = count_at(data, offset);
    let all = front + back;
    law_places_concatenate(front, back, n as int);
    assert forall|i: int| 0 <= i < front.len() implies front[i] == #[trigger] all[i] by {}
    assert forall|i: int| 0 <= i < back.len() implies back[i] == #[trigger] all[front.len() + i] by {
    }
    if forall|i: int| 0 <= i < all.len() ==> #[trigger] array_index_fits(all[i], n as int) {
        assert forall|i: int| 0 <= i < front.len() implies #[trigger] array_index_fits(
            front[i],
            n as int,
        ) by {
            assert(array_index_fits(all[i], n as int));
        }
        assert forall|i: int| 0 <= i < back.len() implies #[trigger] array_index_fits(
            back[i],
            n as int,
        ) by {
            assert(array_index_fits(all[front.len() + i], n as int));
        }
    } else {
        let i = choose|i: int| 0 <= i < all.len() && !#[trigger] array_index_fits(all[i], n as int);
        if i < front.len() {
            assert(!array_index_fits(front[i], n as int));
        } else {
            assert(!array_index_fits(back[i - front.len()], n as int));
        }
    }
    if let Outcome::Done(found) = values_by_indices(data, offset, all) {
        assert(found =~= values_by_indices(data, offset, front)->Done_0 + values_by_indices(
            data,
            offset,
            back,
        )->Done_0);
    }
}

/// In any document, the slice from the first place of an array to the last
/// selects the same positions as `[*]`, in the same order.
pub proof fn law_full_slice_selects_all_positions(
    data: Seq<u8>,
    offset: usize,
    length: usize,
    indices: Seq<ArrayIndex>,
)
    requires
        kind_at(data, offset as int) == ARRAY_CONTAINER_TAG,
        array_values(data, offset, length) is Done,
        indices =~= seq![ArrayIndex::Slice((Index::Index(0), Index::LastIndex(0)))],
    ensures
        values_by_indices(data, offset as int, indices) == array_values(data, offset, length),
{
    let n = count_at(data, offset as int) as int;
    lemma_count_bound(data, offset as int);
    assert(indices.drop_last() =~= Seq::empty());
    assert(places(indices.drop_last(), n) =~= Seq::empty());
    assert(places(indices, n) =~= slice_places(0, n - 1, n));
    let found = values_by_indices(data, offset as int, indices);
    assert(array_index_fits(indices[0], n));
    assert(found->Done_0 =~= array_values(data, offset, length)->Done_0);
}

/// Whether key `i` of the object at `offset` lies in the document and is `name`,
/// byte for byte.
pub open spec fn key_is(data: Seq<u8>, offset: int, name: Seq<u8>, i: int) -> bool {
    let start = offset + 4 + 8 * count_at(data, offset) + entries_len(data, offset + 4, i as nat);
    let length = jentry_at(data, offset + 4 + 4 * i).1;
    start + length <= data.len() && data.subrange(start, start + length) == name
}

/// The search for a key, if it ends well, ends at the first key of that name.
proof fn lemma_first_key(data: Seq<u8>, offset: int, name: Seq<u8>, from: nat)
    requires
        0 <= offset,
        key_from(data, offset, name, from) is Done,
    ensures
        match key_from(data, offset, name, from)->Done_0 {
            Some(i) => {
                &&& from <= i < count_at(data, offset)
                &&& key_is(data, offset, name, i as int)
                &&& forall|k: int| from <= k < i ==> !#[trigger] key_is(data, offset, name, k)
            },
            None => forall|k: int|
                from <= k < count_at(data, offset) ==> !#[trigger] key_is(data, offset, name, k),
        },
    decreases count_at(data, offset) - from,
{
    if from < count_at(data, offset) {
        let start = offset + 4 + 8 * count_at(data, offset) + entries_len(data, offset + 4, from);
        let length = jentry_at(data, offset + 4 + 4 * from).1;
        if key_is(data, offset, name, from as int) {
            assert(data.subrange(start, start + length).len() == length);
        } else {
            lemma_first_key(data, offset, name, from + 1);
        }
    }
}

/// In any document, a name selects at most one value of an object: of all its
/// values, the one at the least index whose key is the name, or nothing if there
/// is no such key.
pub proof fn law_name_selects_the_first_member(data: Seq<u8>, offset: int, name: Seq<u8>)
    requires
        0 <= offset,
        object_values(data, offset) is Done,
        value_by_name(data, offset, name) is Done,
    ensures
        ({
            let all = object_values(data, offset)->Done_0;
            let found = value_by_name(data, offset, name)->Done_0;
            &&& found.len() <= 1
            &&& forall|i: int|
                0 <= i < all.len() && #[trigger] key_is(data, offset, name, i) && (forall|k: int|
                    0 <= k < i ==> !#[trigger] key_is(data, offset, name, k)) ==> found == seq![
                    all[i],
                ]
            &&& (forall|i: int| 0 <= i < all.len() ==> !#[trigger] key_is(data, offset, name, i))
                ==> found == Seq::<Position>::empty()
        }),
{
    let all = object_values(data, offset)->Done_0;
    let found = value_by_name(data, offset, name)->Done_0;
    if kind_at(data, offset) == OBJECT_CONTAINER_TAG && count_at(data, offset) > 0 {
        lemma_first_key(data, offset, name, 0);
        if let Some(first) = key_from(data, offset, name, 0)->Done_0 {
            assert(key_is(data, offset, name, first as int));
            assert(found =~= seq![all[first as int]]);
        }
    }
}

/// In a well-formed container, the values and the value under a name are found
/// without an error.
pub proof fn law_lookup_never_fails(data: Seq<u8>, offset: usize, length: usize, name: Seq<u8>)
    requires
        data.len() <= usize::MAX,
        value_at(data, Position::Container((offset, length))) is Some,
    ensures
        object_values(data, offset as int) is Done,
        value_by_name(data, offset as int, name) is Done,
{
    let value = value_at(data, Position::Container((offset, length)))->0;
    lemma_step(data, Position::Container((offset, length)), value, Path::DotWildcard);
    lemma_field_step(data, offset, length, value, name);
}

} // verus!
