//! Laws of selection: what holds of every document and every path.
//!
//! The first laws speak of well-formed documents and of paths that can be
//! followed in them. They say what the returned documents are in terms of the value that
//! the document encodes. The others hold of any bytes.

use vstd::prelude::*;

use crate::constants::CONTAINER_HEADER_LEN_MASK;
use crate::correspondence::lemma_places_bound;
use crate::correspondence::lemma_positions;
use crate::document::as_document;
use crate::document::container_value;
use crate::document::json_advance;
use crate::document::json_field;
use crate::document::json_passes;
use crate::document::json_passing;
use crate::document::json_select;
use crate::document::json_step;
use crate::document::json_walk;
use crate::document::longest_array;
use crate::document::member_from;
use crate::document::path_is_sound;
use crate::document::value_at;
use crate::document::values_are;
use crate::document::Json;
use crate::outcome::Outcome;
use crate::path::ArrayIndex;
use crate::path::Expr;
use crate::path::Index;
use crate::path::JsonPath;
use crate::path::Path;
use crate::path::Scalar;
use crate::position_laws::is_document_error;
use crate::position_laws::law_evaluation_errors;
use crate::position_laws::lemma_positions_are_entries;
use crate::readback::are_readable_entries;
use crate::readback::fits_array;
use crate::readback::lemma_array_child;
use crate::readback::lemma_array_document;
use crate::readback::lemma_array_entries_len;
use crate::readback::lemma_array_header;
use crate::readback::lemma_boolean_document;
use crate::readback::lemma_descriptors;
use crate::readback::lemma_position;
use crate::readback::lemma_value_document;
use crate::selector::selection;
use crate::selector::Mode;
use crate::semantics::advance;
use crate::semantics::array_document;
use crate::semantics::array_values;
use crate::semantics::boolean_document;
use crate::semantics::child;
use crate::semantics::is_readable;
use crate::semantics::places;
use crate::semantics::positions;
use crate::semantics::root_position;
use crate::semantics::slice_places;
use crate::semantics::step;
use crate::semantics::step_all;
use crate::semantics::value_document;
use crate::semantics::value_documents;
use crate::semantics::walk;
use crate::semantics::Position;
use crate::soundness::lemma_longest_bound;
use crate::soundness::lemma_sound_parts_shorter;
use crate::soundness::lemma_sound_path;

verus! {

/// The whole document, as a position, has the value of the document.
proof fn lemma_root(data: Seq<u8>)
    requires
        data.len() <= usize::MAX,
    ensures
        value_at(data, root_position(data)) == container_value(data),
{
    assert(data.subrange(0, data.len() as int) =~= data);
}

/// Every path that can be followed in a well-formed document leads to the
/// positions of the values that it leads to in the value of the document.
pub proof fn law_positions_of_values(data: Seq<u8>, root: Json, json_path: JsonPath)
    requires
        data.len() <= usize::MAX,
        container_value(data) == Some(root),
        positions(data, None, json_path.paths@) !is Undefined,
    ensures
        positions(data, None, json_path.paths@) matches Outcome::Done(poses) && values_are(
            data,
            poses,
            json_select(root, root, json_path.paths@),
        ),
{
    lemma_root(data);
    lemma_positions(data, root, None, root, json_path.paths@);
}

/// The documents of well-formed values are well-formed and have those values.
proof fn lemma_value_documents(data: Seq<u8>, poses: Seq<Position>, values: Seq<Json>)
    requires
        values_are(data, poses, values),
    ensures
        value_documents(data, poses) matches Outcome::Done(found) && {
            &&& found.len() == values.len()
            &&& forall|i: int|
                0 <= i < found.len() ==> container_value(#[trigger] found[i]) == Some(
                    as_document(values[i]),
                )
        },
{
    assert forall|i: int| 0 <= i < poses.len() implies is_readable(data, #[trigger] poses[i])
        && container_value(value_document(data, poses[i])) == Some(as_document(values[i])) by {
        assert(value_at(data, poses[i]) == Some(values[i]));
        lemma_position(data, poses[i]);
        lemma_value_document(data, poses[i]);
    }
}

/// In mode `All`, each value that the path leads to is returned as a document,
/// in order.
pub proof fn law_all_values(data: Seq<u8>, root: Json, json_path: JsonPath)
    requires
        data.len() <= usize::MAX,
        container_value(data) == Some(root),
        positions(data, None, json_path.paths@) !is Undefined,
        !json_path.predicate(),
    ensures
        selection(data, json_path, Mode::All) matches Outcome::Done(found) && {
            let values = json_select(root, root, json_path.paths@);
            &&& found.len() == values.len()
            &&& forall|i: int|
                0 <= i < found.len() ==> container_value(#[trigger] found[i]) == Some(
                    as_document(values[i]),
                )
        },
{
    law_positions_of_values(data, root, json_path);
    let poses = positions(data, None, json_path.paths@)->Done_0;
    lemma_value_documents(data, poses, json_select(root, root, json_path.paths@));
}

/// In mode `First`, only the first value that the path leads to is returned.
pub proof fn law_first_value(data: Seq<u8>, root: Json, json_path: JsonPath)
    requires
        data.len() <= usize::MAX,
        container_value(data) == Some(root),
        positions(data, None, json_path.paths@) !is Undefined,
        !json_path.predicate(),
    ensures
        selection(data, json_path, Mode::First) matches Outcome::Done(found) && {
            let values = json_select(root, root, json_path.paths@);
            if values.len() == 0 {
                found.len() == 0
            } else {
                found.len() == 1 && container_value(found[0]) == Some(as_document(values[0]))
            }
        },
{
    law_all_values(data, root, json_path);
    law_first_is_head_of_all(data, json_path);
}

/// In mode `Array`, one document is returned, the array of the values that the
/// path leads to, provided that a header can count them and descriptors can
/// tell their lengths.
pub proof fn law_array_of_values(data: Seq<u8>, root: Json, json_path: JsonPath)
    requires
        data.len() <= usize::MAX,
        container_value(data) == Some(root),
        positions(data, None, json_path.paths@) !is Undefined,
        !json_path.predicate(),
        fits_array(positions(data, None, json_path.paths@)->Done_0),
    ensures
        selection(data, json_path, Mode::Array) matches Outcome::Done(found) && {
            &&& found.len() == 1
            &&& container_value(found[0]) == Some(
                Json::Array(json_select(root, root, json_path.paths@)),
            )
        },
{
    law_positions_of_values(data, root, json_path);
    let poses = positions(data, None, json_path.paths@)->Done_0;
    let values = json_select(root, root, json_path.paths@);
    assert forall|i: int| 0 <= i < poses.len() implies is_readable(data, #[trigger] poses[i]) by {
        assert(value_at(data, poses[i]) == Some(values[i]));
        lemma_position(data, poses[i]);
    }
    lemma_array_document(data, poses, values);
}

/// In mode `Mixed`, several values are returned as one array, provided that a
/// header can count them and descriptors can tell their lengths, and a single
/// value is returned as it is.
pub proof fn law_mixed_values(data: Seq<u8>, root: Json, json_path: JsonPath)
    requires
        data.len() <= usize::MAX,
        container_value(data) == Some(root),
        positions(data, None, json_path.paths@) !is Undefined,
        !json_path.predicate(),
        positions(data, None, json_path.paths@)->Done_0.len() > 1 ==> fits_array(
            positions(data, None, json_path.paths@)->Done_0,
        ),
    ensures
        selection(data, json_path, Mode::Mixed) matches Outcome::Done(found) && {
            let values = json_select(root, root, json_path.paths@);
            if values.len() == 0 {
                found.len() == 0
            } else if values.len() == 1 {
                found.len() == 1 && container_value(found[0]) == Some(as_document(values[0]))
            } else {
                found.len() == 1 && container_value(found[0]) == Some(Json::Array(values))
            }
        },
{
    law_positions_of_values(data, root, json_path);
    law_all_values(data, root, json_path);
    if positions(data, None, json_path.paths@)->Done_0.len() > 1 {
        law_array_of_values(data, root, json_path);
    }
}

/// A predicate returns `true` if the value of the document passes its filter and
/// `false` if it does not, whatever the mode.
pub proof fn law_predicate_value(data: Seq<u8>, root: Json, json_path: JsonPath, mode: Mode)
    requires
        data.len() <= usize::MAX,
        container_value(data) == Some(root),
        positions(data, None, json_path.paths@) !is Undefined,
        json_path.predicate(),
    ensures
        selection(data, json_path, mode) matches Outcome::Done(found) && {
            &&& found.len() == 1
            &&& container_value(found[0]) == Some(
                Json::Document(
                    Scalar::Boolean(json_passes(root, root, *json_path.paths@[0]->Predicate_0)),
                ),
            )
        },
{
    law_positions_of_values(data, root, json_path);
    let paths = json_path.paths@;
    let expr = *paths[0]->Predicate_0;
    let poses = positions(data, None, paths)->Done_0;
    let values = json_select(root, root, paths);
    let one = seq![root];
    assert(values == json_walk(root, one, paths));
    assert(paths.skip(1) =~= Seq::empty());
    assert(json_walk(root, json_advance(root, one, paths[0]), paths.skip(1)) == json_advance(
        root,
        one,
        paths[0],
    ));
    assert(json_advance(root, one, paths[0]) == json_passing(root, one, expr));
    assert(one.skip(1) =~= Seq::empty());
    assert(json_passing(root, one.skip(1), expr) =~= Seq::empty());
    assert((values.len() > 0) == json_passes(root, root, expr));
    lemma_boolean_document(poses.len() > 0);
}

/// In any document, mode `First` returns the first of what mode `All` returns.
pub proof fn law_first_is_head_of_all(data: Seq<u8>, json_path: JsonPath)
    requires
        !json_path.predicate(),
        selection(data, json_path, Mode::All) is Done,
    ensures
        ({
            let all = selection(data, json_path, Mode::All)->Done_0;
            selection(data, json_path, Mode::First) == Outcome::Done(
                if all.len() > 1 {
                    all.take(1)
                } else {
                    all
                },
            )
        }),
{
    let poses = positions(data, None, json_path.paths@)->Done_0;
    let all = selection(data, json_path, Mode::All)->Done_0;
    if poses.len() > 1 {
        let first = poses.take(1);
        assert forall|i: int| 0 <= i < first.len() implies is_readable(
            data,
            #[trigger] first[i],
        ) by {
            assert(first[i] == poses[i]);
        }
        assert(Seq::new(first.len(), |i: int| value_document(data, first[i])) =~= all.take(1));
    }
}

/// In any document, mode `Mixed` returns what mode `Array` returns if mode `All`
/// returns several documents, and what mode `All` returns otherwise.
pub proof fn law_mixed_is_array_or_all(data: Seq<u8>, json_path: JsonPath)
    requires
        selection(data, json_path, Mode::All) is Done,
    ensures
        selection(data, json_path, Mode::Mixed) == (if selection(
            data,
            json_path,
            Mode::All,
        )->Done_0.len() > 1 {
            selection(data, json_path, Mode::Array)
        } else {
            selection(data, json_path, Mode::All)
        }),
{
}

/// In any document, a path exists if and only if mode `All` returns anything.
pub proof fn law_exists_if_anything_is_selected(data: Seq<u8>, json_path: JsonPath)
    requires
        !json_path.predicate(),
        selection(data, json_path, Mode::All) is Done,
    ensures
        positions(data, None, json_path.paths@) is Done,
        positions(data, None, json_path.paths@)->Done_0.len() > 0 <==> selection(
            data,
            json_path,
            Mode::All,
        )->Done_0.len() > 0,
{
}

/// In any document, a predicate returns the answer of the match as a document,
/// whatever the mode.
pub proof fn law_predicate_returns_its_match(data: Seq<u8>, json_path: JsonPath, mode: Mode)
    requires
        json_path.predicate(),
        positions(data, None, json_path.paths@) is Done,
    ensures
        selection(data, json_path, mode) == Outcome::Done(
            seq![boolean_document(positions(data, None, json_path.paths@)->Done_0.len() > 0)],
        ),
{
}

/// In any document, selection fails only if the document is broken.
pub proof fn law_selection_errors(data: Seq<u8>, json_path: JsonPath, mode: Mode)
    ensures
        selection(data, json_path, mode) matches Outcome::Failed(e) ==> is_document_error(e),
{
    law_evaluation_errors(data, None, json_path.paths@);
}

/// Following one path and then another is following both as one path.
pub proof fn law_paths_compose(
    data: Seq<u8>,
    poses: Seq<Position>,
    first: Seq<Path>,
    second: Seq<Path>,
)
    ensures
        walk(data, poses, first + second) == (match walk(data, poses, first) {
            Outcome::Done(found) => walk(data, found, second),
            Outcome::Failed(e) => Outcome::Failed(e),
            Outcome::Undefined => Outcome::Undefined,
        }),
    decreases first.len(),
{
    if first.len() == 0 {
        assert(first + second =~= second);
    } else {
        assert((first + second)[0] == first[0]);
        assert((first + second).skip(1) =~= first.skip(1) + second);
        if let Outcome::Done(next) = advance(data, poses, first[0]) {
            law_paths_compose(data, next, first.skip(1), second);
        }
    }
}

/// The path `$` returns the document itself.
pub proof fn law_root_returns_the_document(data: Seq<u8>, json_path: JsonPath, mode: Mode)
    requires
        data.len() <= usize::MAX,
        json_path.paths@ =~= seq![Path::Root],
        mode !is Array,
    ensures
        selection(data, json_path, mode) == Outcome::Done(seq![data]),
{
    let paths = json_path.paths@;
    let pos = root_position(data);
    assert(paths[0] is Root);
    assert(paths.skip(1) =~= Seq::empty());
    assert(walk(data, seq![pos], paths.skip(1)) == Outcome::Done(seq![pos]));
    assert(advance(data, seq![pos], paths[0]) == Outcome::Done(seq![pos]));
    assert(walk(data, seq![pos], paths) == Outcome::Done(seq![pos]));
    assert(positions(data, None, paths) == Outcome::Done(seq![pos]));
    assert(value_document(data, pos) =~= data);
    assert(is_readable(data, seq![pos][0]));
    assert(Seq::new(1, |i: int| value_document(data, seq![pos][i])) =~= seq![data]);
}

/// A filter keeps exactly what passes it, in order.
pub proof fn law_filter_keeps_what_passes(root: Json, values: Seq<Json>, expr: Expr)
    ensures
        json_passing(root, values, expr) == values.filter(
            |value: Json| json_passes(root, value, expr),
        ),
    decreases values.len(),
{
    let test = |value: Json| json_passes(root, value, expr);
    if values.len() > 0 {
        let rest = values.skip(1);
        law_filter_keeps_what_passes(root, rest, expr);
        assert(values =~= seq![values[0]] + rest);
        Seq::filter_distributes_over_add(seq![values[0]], rest, test);
        assert(seq![values[0]].drop_last() =~= Seq::empty());
        reveal_with_fuel(Seq::filter, 2);
        assert(seq![values[0]].filter(test) =~= if test(values[0]) {
            seq![values[0]]
        } else {
            Seq::empty()
        });
        assert(Seq::<Json>::empty() + rest.filter(test) =~= rest.filter(test));
    } else {
        reveal_with_fuel(Seq::filter, 1);
        assert(values.filter(test) =~= Seq::empty());
    }
}

/// The slice from the first place to the last picks the same values as `[*]`.
pub proof fn law_full_slice_is_wildcard(values: Seq<Json>, path: Path)
    requires
        values.len() <= CONTAINER_HEADER_LEN_MASK,
        path matches Path::ArrayIndices(indices) && indices@ =~= seq![
            ArrayIndex::Slice((Index::Index(0), Index::LastIndex(0))),
        ],
    ensures
        json_step(Json::Array(values), path) == json_step(
            Json::Array(values),
            Path::BracketWildcard,
        ),
{
    let n = values.len() as int;
    let indices = path->ArrayIndices_0@;
    assert(indices.drop_last() =~= Seq::empty());
    assert(places(indices.drop_last(), n) =~= Seq::empty());
    assert(places(indices, n) =~= slice_places(0, n - 1, n));
    assert(json_step(Json::Array(values), path) =~= values);
}

/// A path that can be followed in a well-formed document never fails on it,
/// whatever the mode.
pub proof fn law_selection_never_fails(data: Seq<u8>, root: Json, json_path: JsonPath, mode: Mode)
    requires
        data.len() <= usize::MAX,
        container_value(data) == Some(root),
        positions(data, None, json_path.paths@) !is Undefined,
    ensures
        positions(data, None, json_path.paths@) is Done,
        selection(data, json_path, mode) is Done,
{
    law_positions_of_values(data, root, json_path);
    let poses = positions(data, None, json_path.paths@)->Done_0;
    let values = json_select(root, root, json_path.paths@);
    assert forall|i: int| 0 <= i < poses.len() implies is_readable(data, #[trigger] poses[i]) by {
        assert(value_at(data, poses[i]) == Some(values[i]));
        lemma_position(data, poses[i]);
    }
    if !json_path.predicate() {
        law_all_values(data, root, json_path);
        law_first_is_head_of_all(data, json_path);
    }
}

/// A path that has a meaning can be followed in a well-formed document, and does
/// not fail on it, if its indices stay in 32 bits for the longest array that the
/// document holds.
pub proof fn law_sound_paths_are_followed(
    data: Seq<u8>,
    root: Json,
    json_path: JsonPath,
    mode: Mode,
)
    requires
        data.len() <= usize::MAX,
        container_value(data) == Some(root),
        path_is_sound(json_path, longest_array(root)),
    ensures
        positions(data, None, json_path.paths@) is Done,
        selection(data, json_path, mode) is Done,
{
    lemma_sound_path(data, root, json_path);
    law_selection_never_fails(data, root, json_path, mode);
}

/// Indices that suit the longest array that a header can count suit the arrays of
/// every well-formed document.
pub proof fn law_sound_paths_suit_every_document(data: Seq<u8>, root: Json, json_path: JsonPath)
    requires
        container_value(data) == Some(root),
        path_is_sound(json_path, CONTAINER_HEADER_LEN_MASK as nat),
    ensures
        longest_array(root) <= CONTAINER_HEADER_LEN_MASK,
        path_is_sound(json_path, longest_array(root)),
{
    lemma_longest_bound(data);
    lemma_sound_parts_shorter(
        json_path.paths@,
        CONTAINER_HEADER_LEN_MASK as nat,
        longest_array(root),
    );
}

/// In any document, the array that mode `Array` returns gives its values back:
/// `$[*]` on it returns, byte by byte, what mode `All` returns for the path. All
/// that is needed is that a header can count the values and that descriptors can
/// tell their lengths.
pub proof fn law_array_gives_its_values_back(data: Seq<u8>, json_path: JsonPath, wildcard: JsonPath)
    requires
        !json_path.predicate(),
        selection(data, json_path, Mode::All) is Done,
        fits_array(positions(data, None, json_path.paths@)->Done_0),
        array_document(data, positions(data, None, json_path.paths@)->Done_0).len() <= usize::MAX,
        wildcard.paths@ =~= seq![Path::Root, Path::BracketWildcard],
    ensures
        selection(data, json_path, Mode::Array) matches Outcome::Done(found) && found.len() == 1
            && selection(found[0], wildcard, Mode::All) == selection(data, json_path, Mode::All),
{
    let poses = positions(data, None, json_path.paths@)->Done_0;
    lemma_positions_are_entries(data, json_path.paths@);
    assert(are_readable_entries(data, poses));
    let out = array_document(data, poses);
    let children = array_children(out, poses.len());
    lemma_array_children(data, poses);
    lemma_wildcard_positions(out, wildcard, children);
    lemma_same_documents(data, poses);
}

/// The positions of the first `n` entries of an array that is a whole document.
spec fn array_children(data: Seq<u8>, n: nat) -> Seq<Position> {
    Seq::new(n, |i: int| child(data, 4, 4int + 4 * n, i))
}

/// The values of an array that was made of values are at its entries.
proof fn lemma_array_children(data: Seq<u8>, poses: Seq<Position>)
    requires
        are_readable_entries(data, poses),
        fits_array(poses),
        array_document(data, poses).len() <= usize::MAX,
    ensures
        ({
            let out = array_document(data, poses);
            array_values(out, 0, out.len() as usize) == Outcome::Done(
                array_children(out, poses.len()),
            )
        }),
{
    let out = array_document(data, poses);
    let n = poses.len();
    lemma_array_header(data, poses);
    lemma_descriptors(poses);
    lemma_array_entries_len(data, poses, n);
    assert(poses.take(n as int) =~= poses);
    let found = array_values(out, 0, out.len() as usize);
    assert(found is Done);
    assert(found->Done_0 =~= array_children(out, n));
}

/// The values of an array that was made of values are returned as they were.
proof fn lemma_same_documents(data: Seq<u8>, poses: Seq<Position>)
    requires
        are_readable_entries(data, poses),
        fits_array(poses),
        array_document(data, poses).len() <= usize::MAX,
    ensures
        ({
            let out = array_document(data, poses);
            value_documents(out, array_children(out, poses.len())) == Outcome::Done(
                Seq::new(poses.len(), |i: int| value_document(data, poses[i])),
            )
        }),
{
    let out = array_document(data, poses);
    let n = poses.len();
    let children = array_children(out, n);
    assert forall|i: int| 0 <= i < n implies is_readable(out, #[trigger] children[i])
        && value_document(out, children[i]) == value_document(data, poses[i]) by {
        lemma_array_child(data, poses, i);
    }
    assert(Seq::new(n, |i: int| value_document(out, children[i])) =~= Seq::new(
        n,
        |i: int| value_document(data, poses[i]),
    ));
}

/// Where the path `$[*]` leads in an array.
proof fn lemma_wildcard_positions(data: Seq<u8>, wildcard: JsonPath, children: Seq<Position>)
    requires
        data.len() <= usize::MAX,
        wildcard.paths@ =~= seq![Path::Root, Path::BracketWildcard],
        array_values(data, 0, data.len() as usize) == Outcome::Done(children),
    ensures
        positions(data, None, wildcard.paths@) == Outcome::Done(children),
{
    let paths = wildcard.paths@;
    let one = seq![root_position(data)];
    let rest = paths.skip(1);
    assert(rest =~= seq![Path::BracketWildcard]);
    assert(rest.skip(1) =~= Seq::empty());
    assert(one.skip(1) =~= Seq::empty());
    assert(step(data, one[0], rest[0]) == Outcome::Done(children));
    assert(step_all(data, one.skip(1), rest[0]) == Outcome::Done(Seq::<Position>::empty()));
    assert(children + Seq::<Position>::empty() =~= children);
    assert(step_all(data, one, rest[0]) == Outcome::Done(children));
    assert(advance(data, one, rest[0]) == Outcome::Done(children));
    assert(walk(data, children, rest.skip(1)) == Outcome::Done(children));
    assert(walk(data, one, rest) == Outcome::Done(children));
    assert(advance(data, one, paths[0]) == Outcome::Done(one));
    assert(walk(data, one, paths) == Outcome::Done(children));
}

/// A conjunction keeps what its left side keeps and then its right side keeps.
pub proof fn law_conjunction_filters_twice(root: Json, values: Seq<Json>, expr: Expr)
    requires
        expr matches Expr::BinaryOp { op, left: _, right: _ } && op is And,
    ensures
        json_passing(root, values, expr) == json_passing(
            root,
            json_passing(root, values, *expr->left),
            *expr->right,
        ),
    decreases values.len(),
{
    if values.len() > 0 {
        let rest = values.skip(1);
        law_conjunction_filters_twice(root, rest, expr);
        let kept = json_passing(root, values, *expr->left);
        let first = values[0];
        assert(json_passes(root, first, expr) == (json_passes(root, first, *expr->left)
            && json_passes(root, first, *expr->right)));
        if json_passes(root, values[0], *expr->left) {
            assert(kept[0] == first);
            assert(kept.skip(1) =~= json_passing(root, rest, *expr->left));
        }
    }
}

/// The bracket wildcard takes whatever is no array for an array of one.
pub proof fn law_wildcard_is_lax(value: Json)
    requires
        value !is Array,
    ensures
        json_step(value, Path::BracketWildcard) == seq![value],
{
}

/// Of several members with the same key, a name selects the first.
pub proof fn law_first_key_wins(members: Seq<(Seq<u8>, Json)>, name: Seq<u8>, i: int)
    requires
        0 <= i < members.len(),
        members[i].0 == name,
        forall|k: int| 0 <= k < i ==> (#[trigger] members[k]).0 != name,
    ensures
        json_field(Json::Object(members), name) == seq![members[i].1],
{
    lemma_first_member(members, name, 0, i);
}

/// The search for a member stops at the first one that has the key.
proof fn lemma_first_member(members: Seq<(Seq<u8>, Json)>, name: Seq<u8>, from: nat, i: int)
    requires
        from <= i < members.len(),
        members[i].0 == name,
        forall|k: int| 0 <= k < i ==> (#[trigger] members[k]).0 != name,
    ensures
        member_from(members, name, from) == Some(i as nat),
    decreases i - from,
{
    if from < i {
        lemma_first_member(members, name, from + 1, i);
    }
}

/// Indices pick nothing outside of an array.
pub proof fn law_picked_places_exist(indices: Seq<ArrayIndex>, n: int, k: int)
    requires
        0 <= n <= CONTAINER_HEADER_LEN_MASK,
        0 <= k < places(indices, n).len(),
    ensures
        places(indices, n)[k] < n,
{
    lemma_places_bound(indices, n);
}

} // verus!
