//! A path does the same on the bytes of a document as on the value that they
//! encode.

use vstd::prelude::*;
use vstd::utf8::encode_utf8;

use crate::constants::ARRAY_CONTAINER_TAG;
use crate::constants::CONTAINER_HEADER_LEN_MASK;
use crate::constants::JENTRY_OFF_LEN_MASK;
use crate::constants::OBJECT_CONTAINER_TAG;
use crate::constants::SCALAR_CONTAINER_TAG;
use crate::document::container_value;
use crate::document::entry_bytes;
use crate::document::entry_start;
use crate::document::entry_value;
use crate::document::entry_values;
use crate::document::json_advance;
use crate::document::json_field;
use crate::document::json_operand;
use crate::document::json_operand_walk;
use crate::document::json_passes;
use crate::document::json_passing;
use crate::document::json_select;
use crate::document::json_step;
use crate::document::json_step_all;
use crate::document::json_walk;
use crate::document::leaves;
use crate::document::member_from;
use crate::document::value_at;
use crate::document::values_are;
use crate::document::Json;
use crate::outcome::Outcome;
use crate::path::ArrayIndex;
use crate::path::Expr;
use crate::path::FilterFunc;
use crate::path::Path;
use crate::semantics::advance;
use crate::semantics::array_fits;
use crate::semantics::child;
use crate::semantics::container_step;
use crate::semantics::count_at;
use crate::semantics::entries_len;
use crate::semantics::index_places;
use crate::semantics::is_comparison;
use crate::semantics::is_selecting;
use crate::semantics::key_from;
use crate::semantics::kind_at;
use crate::semantics::object_base;
use crate::semantics::object_fits;
use crate::semantics::operand;
use crate::semantics::operand_start;
use crate::semantics::operand_walk;
use crate::semantics::parts_after_first;
use crate::semantics::passes;
use crate::semantics::passing;
use crate::semantics::places;
use crate::semantics::positions;
use crate::semantics::root_position;
use crate::semantics::scalars_at;
use crate::semantics::step;
use crate::semantics::step_all;
use crate::semantics::value_by_name;
use crate::semantics::walk;
use crate::semantics::Position;
use crate::wire::jentry_at;
use crate::wire::u32_at;

verus! {

/// The entries of a part of a document are as long as in the whole.
proof fn lemma_entries_len_of_part(data: Seq<u8>, offset: int, length: int, table: int, k: nat)
    requires
        0 <= offset,
        0 <= table,
        offset + length <= data.len(),
        table + 4 * k <= length,
    ensures
        entries_len(data.subrange(offset, offset + length), table, k) == entries_len(
            data,
            offset + table,
            k,
        ),
    decreases k,
{
    if k > 0 {
        lemma_entries_len_of_part(data, offset, length, table, (k - 1) as nat);
        let part = data.subrange(offset, offset + length);
        let at = table + 4 * (k - 1);
        assert(u32_at(part, at) == u32_at(data, offset + at));
    }
}

/// Well-formed entries lie inside their container, and each has its value.
pub(crate) proof fn lemma_entry_values(bytes: Seq<u8>, table: int, base: int, k: nat)
    requires
        entry_values(bytes, table, base, k) is Some,
    ensures
        entry_values(bytes, table, base, k)->0.len() == k,
        k > 0 ==> base + entries_len(bytes, table, k) <= bytes.len(),
        forall|i: int|
            #![trigger entry_bytes(bytes, table, base, i)]
            0 <= i < k ==> {
                &&& 0 < entry_start(bytes, table, base, i)
                &&& entry_start(bytes, table, base, i) + jentry_at(bytes, table + 4 * i).1
                    <= bytes.len()
                &&& entry_value(
                    jentry_at(bytes, table + 4 * i).0,
                    entry_bytes(bytes, table, base, i),
                ) == Some(entry_values(bytes, table, base, k)->0[i])
            },
    decreases k,
{
    if k > 0 {
        lemma_entry_values(bytes, table, base, (k - 1) as nat);
    }
}

/// An entry of a container has the same value as a position of the document.
proof fn lemma_child_value(
    data: Seq<u8>,
    offset: int,
    length: int,
    table: int,
    base: int,
    i: int,
)
    requires
        0 <= offset,
        0 <= table,
        0 <= base,
        0 <= i,
        offset + length <= data.len() <= usize::MAX,
        table + 4 * (i + 1) <= length,
        entry_start(data.subrange(offset, offset + length), table, base, i) + jentry_at(
            data.subrange(offset, offset + length),
            table + 4 * i,
        ).1 <= length,
    ensures
        value_at(data, child(data, offset + table, offset + base, i)) == entry_value(
            jentry_at(data.subrange(offset, offset + length), table + 4 * i).0,
            entry_bytes(data.subrange(offset, offset + length), table, base, i),
        ),
{
    let part = data.subrange(offset, offset + length);
    reveal(container_value);
    lemma_entries_len_of_part(data, offset, length, table, i as nat);
    let at = table + 4 * i;
    assert(u32_at(part, at) == u32_at(data, offset + at));
    let start = entry_start(part, table, base, i);
    let size = jentry_at(part, at).1;
    let word = u32_at(part, at);
    assert(word & JENTRY_OFF_LEN_MASK <= JENTRY_OFF_LEN_MASK) by (bit_vector);
    assert(data.subrange(offset + start, offset + start + size) =~= entry_bytes(
        part,
        table,
        base,
        i,
    ));
}

/// The values of a well-formed array are found at its entries.
pub(crate) proof fn lemma_array(data: Seq<u8>, offset: usize, length: usize)
    requires
        data.len() <= usize::MAX,
        value_at(data, Position::Container((offset, length))) is Some,
        kind_at(data, offset as int) == ARRAY_CONTAINER_TAG,
    ensures
        ({
            let n = count_at(data, offset as int);
            let value = value_at(data, Position::Container((offset, length)))->0;
            &&& value is Array
            &&& value->Array_0.len() == n
            &&& offset + 4 + 4 * n <= data.len()
            &&& array_fits(data, offset as int)
            &&& forall|i: int|
                0 <= i < n ==> value_at(
                    data,
                    #[trigger] child(data, offset + 4, offset + 4 + 4 * n, i),
                ) == Some(value->Array_0[i])
        }),
{
    let o = offset as int;
    let l = length as int;
    let part = data.subrange(o, o + l);
    reveal(container_value);
    assert(u32_at(part, 0) == u32_at(data, o));
    let n = count_at(data, o);
    let base = 4int + 4 * n;
    lemma_entry_values(part, 4, base, n);
    lemma_entries_len_of_part(data, o, l, 4, n);
    let values = entry_values(part, 4, base, n)->0;
    assert forall|i: int| 0 <= i < n implies value_at(
        data,
        #[trigger] child(data, offset + 4, offset + 4 + 4 * n, i),
    ) == Some(values[i]) by {
        let b = entry_bytes(part, 4, base, i);
        lemma_child_value(data, o, l, 4, base, i);
    }
}

/// More entries are at least as long.
pub(crate) proof fn lemma_entries_len_bound(data: Seq<u8>, table: int, j: nat, k: nat)
    requires
        j <= k,
    ensures
        entries_len(data, table, j) <= entries_len(data, table, k),
    decreases k,
{
    if j < k {
        lemma_entries_len_bound(data, table, j, (k - 1) as nat);
    }
}

/// A key of an object is the same in a part of a document as in the whole.
proof fn lemma_key_of_part(data: Seq<u8>, offset: int, length: int, n: nat, i: int)
    requires
        0 <= offset,
        offset + length <= data.len(),
        0 <= i < n,
        4 + 8 * n + entries_len(data.subrange(offset, offset + length), 4, n) <= length,
    ensures
        entry_bytes(data.subrange(offset, offset + length), 4, 4int + 8 * n, i) == entry_bytes(
            data,
            offset + 4,
            offset + 4 + 8 * n,
            i,
        ),
{
    let part = data.subrange(offset, offset + length);
    let at = 4 + 4 * i;
    assert(u32_at(part, at) == u32_at(data, offset + at));
    lemma_entries_len_of_part(data, offset, length, 4, i as nat);
    lemma_entries_len_bound(part, 4, (i + 1) as nat, n);
    assert(entry_bytes(part, 4, 4int + 8 * n, i) =~= entry_bytes(
        data,
        offset + 4,
        offset + 4 + 8 * n,
        i,
    ));
}

/// A well-formed object has an entry for each of its members.
proof fn lemma_object_parts(data: Seq<u8>, offset: usize, length: usize)
    requires
        value_at(data, Position::Container((offset, length))) is Some,
        kind_at(data, offset as int) == OBJECT_CONTAINER_TAG,
    ensures
        ({
            let part = data.subrange(offset as int, offset + length);
            let n = count_at(data, offset as int);
            let table = 4int + 4 * n;
            let values = entry_values(part, table, object_base(part, 0), n);
            &&& count_at(part, 0) == n
            &&& 4 + 8 * n <= length
            &&& object_base(part, 0) <= length
            &&& offset + length <= data.len()
            &&& values is Some
            &&& value_at(data, Position::Container((offset, length))) == Some(
                Json::Object(
                    Seq::new(n, |i: int| (entry_bytes(part, 4, 4int + 8 * n, i), values->0[i])),
                ),
            )
        }),
{
    let o = offset as int;
    let part = data.subrange(o, o + length);
    reveal(container_value);
    assert(u32_at(part, 0) == u32_at(data, o));
}

/// The keys of a well-formed object are found at its entries.
proof fn lemma_object_keys(data: Seq<u8>, offset: usize, length: usize)
    requires
        value_at(data, Position::Container((offset, length))) is Some,
        kind_at(data, offset as int) == OBJECT_CONTAINER_TAG,
    ensures
        ({
            let n = count_at(data, offset as int);
            let value = value_at(data, Position::Container((offset, length)))->0;
            forall|i: int|
                0 <= i < n ==> (#[trigger] value->Object_0[i]).0 == entry_bytes(
                    data,
                    offset + 4,
                    offset + 4 + 8 * n,
                    i,
                )
        }),
{
    let o = offset as int;
    let n = count_at(data, o);
    lemma_object_parts(data, offset, length);
    let members = value_at(data, Position::Container((offset, length)))->0->Object_0;
    assert forall|i: int| 0 <= i < n implies (#[trigger] members[i]).0 == entry_bytes(
        data,
        offset + 4,
        offset + 4 + 8 * n,
        i,
    ) by {
        lemma_key_of_part(data, o, length as int, n, i);
    }
}

/// The values of a well-formed object are found at its entries.
proof fn lemma_object(data: Seq<u8>, offset: usize, length: usize)
    requires
        data.len() <= usize::MAX,
        value_at(data, Position::Container((offset, length))) is Some,
        kind_at(data, offset as int) == OBJECT_CONTAINER_TAG,
    ensures
        ({
            let n = count_at(data, offset as int);
            let base = object_base(data, offset as int);
            let value = value_at(data, Position::Container((offset, length)))->0;
            &&& value is Object
            &&& value->Object_0.len() == n
            &&& offset + 4 + 8 * n <= data.len()
            &&& base <= data.len()
            &&& object_fits(data, offset as int)
            &&& forall|i: int|
                0 <= i < n ==> value_at(
                    data,
                    #[trigger] child(data, offset + 4 + 4 * n, base, i),
                ) == Some(value->Object_0[i].1)
        }),
{
    let o = offset as int;
    let l = length as int;
    let part = data.subrange(o, o + l);
    let n = count_at(data, o);
    let table = 4int + 4 * n;
    let base = object_base(part, 0);
    lemma_object_parts(data, offset, length);
    lemma_entries_len_of_part(data, o, l, 4, n);
    lemma_entries_len_of_part(data, o, l, table, n);
    lemma_entry_values(part, table, base, n);
    assert(object_base(data, o) == o + base);
    assert(object_fits(data, o));
    let values = entry_values(part, table, base, n)->0;
    assert forall|i: int| 0 <= i < n implies value_at(
        data,
        #[trigger] child(data, offset + 4 + 4 * n, object_base(data, o), i),
    ) == Some(values[i]) by {
        let b = entry_bytes(part, table, base, i);
        lemma_child_value(data, o, l, table, base, i);
    }
}

/// A well-formed container is a lone scalar, an array or an object.
pub(crate) proof fn lemma_kinds(data: Seq<u8>, offset: usize, length: usize)
    requires
        value_at(data, Position::Container((offset, length))) is Some,
    ensures
        offset + 4 <= data.len(),
        match value_at(data, Position::Container((offset, length)))->0 {
            Json::Leaf(_) => false,
            Json::Document(_) => kind_at(data, offset as int) == SCALAR_CONTAINER_TAG,
            Json::Array(_) => kind_at(data, offset as int) == ARRAY_CONTAINER_TAG,
            Json::Object(_) => kind_at(data, offset as int) == OBJECT_CONTAINER_TAG,
        },
{
    let part = data.subrange(offset as int, offset + length);
    reveal(container_value);
    assert(u32_at(part, 0) == u32_at(data, offset as int));
}

/// No container has more entries than a header can count.
pub(crate) proof fn lemma_count_bound(data: Seq<u8>, offset: int)
    ensures
        count_at(data, offset) <= CONTAINER_HEADER_LEN_MASK,
{
    let header = u32_at(data, offset);
    assert(header & CONTAINER_HEADER_LEN_MASK <= CONTAINER_HEADER_LEN_MASK) by (bit_vector);
}

/// Looking a key up in the bytes of an object finds the first member of that name.
proof fn lemma_key_from(
    data: Seq<u8>,
    offset: int,
    members: Seq<(Seq<u8>, Json)>,
    name: Seq<u8>,
    i: nat,
)
    requires
        0 <= offset,
        members.len() == count_at(data, offset),
        object_base(data, offset) <= data.len(),
        forall|k: int|
            0 <= k < members.len() ==> (#[trigger] members[k]).0 == entry_bytes(
                data,
                offset + 4,
                offset + 4 + 8 * members.len(),
                k,
            ),
    ensures
        key_from(data, offset, name, i) == Outcome::Done(member_from(members, name, i)),
    decreases members.len() - i,
{
    let n = members.len();
    if i < n {
        lemma_key_from(data, offset, members, name, i + 1);
        lemma_entries_len_bound(data, offset + 4, i + 1, n);
        let start = offset + 4 + 8 * n + entries_len(data, offset + 4, i);
        let length = jentry_at(data, offset + 4 + 4 * i).1;
        let key = members[i as int].0;
        assert(key == data.subrange(start, start + length));
        assert(key.len() == length);
    }
}

/// Indices only pick places of the array.
pub(crate) proof fn lemma_places_bound(indices: Seq<ArrayIndex>, n: int)
    requires
        0 <= n <= CONTAINER_HEADER_LEN_MASK,
    ensures
        forall|k: int| 0 <= k < places(indices, n).len() ==> #[trigger] places(indices, n)[k] < n,
    decreases indices.len(),
{
    if indices.len() > 0 {
        lemma_places_bound(indices.drop_last(), n);
        let before = places(indices.drop_last(), n);
        let last = index_places(indices.last(), n);
        assert forall|k: int| 0 <= k < places(indices, n).len() implies #[trigger] places(
            indices,
            n,
        )[k] < n by {
            if k < before.len() {
                assert(places(indices, n)[k] == before[k]);
            } else {
                assert(places(indices, n)[k] == last[k - before.len()]);
            }
        }
    }
}

/// Looking a name up in a container selects the value under that name.
pub(crate) proof fn lemma_field_step(data: Seq<u8>, offset: usize, length: usize, value: Json, name: Seq<u8>)
    requires
        data.len() <= usize::MAX,
        value_at(data, Position::Container((offset, length))) == Some(value),
    ensures
        value_by_name(data, offset as int, name) matches Outcome::Done(found) && values_are(
            data,
            found,
            json_field(value, name),
        ),
{
    let o = offset as int;
    lemma_kinds(data, offset, length);
    if kind_at(data, o) == OBJECT_CONTAINER_TAG {
        lemma_object(data, offset, length);
        lemma_object_keys(data, offset, length);
        let members = value->Object_0;
        lemma_key_from(data, o, members, name, 0);
        lemma_member_from_bound(members, name, 0);
        let n = count_at(data, o);
        let found = member_from(members, name, 0);
        let i = if found is Some { found->0 } else { 0 };
        lemma_entries_len_bound(data, o + 4 + 4 * n, i, n);
    }
}

/// A member that was found is a member.
pub(crate) proof fn lemma_member_from_bound(members: Seq<(Seq<u8>, Json)>, name: Seq<u8>, i: nat)
    ensures
        member_from(members, name, i) matches Some(k) ==> i <= k < members.len()
            && members[k as int].0 == name,
    decreases members.len() - i,
{
    if i < members.len() {
        lemma_member_from_bound(members, name, i + 1);
    }
}

/// Picking places of a container selects the values at those places.
proof fn lemma_indices_step(
    data: Seq<u8>,
    offset: usize,
    length: usize,
    value: Json,
    path: Path,
)
    requires
        data.len() <= usize::MAX,
        value_at(data, Position::Container((offset, length))) == Some(value),
        path is ArrayIndices,
        container_step(data, offset, length, path) !is Undefined,
    ensures
        container_step(data, offset, length, path) matches Outcome::Done(found) && values_are(
            data,
            found,
            json_step(value, path),
        ),
{
    let o = offset as int;
    let indices = path->ArrayIndices_0@;
    let n = count_at(data, o);
    lemma_kinds(data, offset, length);
    lemma_count_bound(data, o);
    lemma_places_bound(indices, n as int);
    if kind_at(data, o) == ARRAY_CONTAINER_TAG {
        lemma_array(data, offset, length);
        if n == 0 && places(indices, 0).len() > 0 {
            assert(places(indices, 0)[0] < 0);
        }
    }
}

/// A part of a path that can be applied to a value does the same on its bytes as
/// on the value. Only indices, and parts that do not select, cannot be applied to
/// every value.
pub(crate) proof fn lemma_step(data: Seq<u8>, pos: Position, value: Json, path: Path)
    requires
        data.len() <= usize::MAX,
        value_at(data, pos) == Some(value),
    ensures
        step(data, pos, path) !is Undefined ==> (step(data, pos, path) matches Outcome::Done(found)
            && values_are(data, found, json_step(value, path))),
        is_selecting(path) && path !is ArrayIndices ==> step(data, pos, path) !is Undefined,
{
    match pos {
        Position::Scalar(_) => {},
        Position::Container((offset, length)) => {
            let o = offset as int;
            lemma_kinds(data, offset, length);
            match path {
                Path::ColonField(name) => {
                    lemma_field_step(data, offset, length, value, encode_utf8(name@));
                },
                Path::DotField(name) => {
                    lemma_field_step(data, offset, length, value, encode_utf8(name@));
                },
                Path::ObjectField(name) => {
                    lemma_field_step(data, offset, length, value, encode_utf8(name@));
                },
                Path::ArrayIndices(_) => {
                    if step(data, pos, path) !is Undefined {
                        lemma_indices_step(data, offset, length, value, path);
                    }
                },
                Path::DotWildcard => {
                    if kind_at(data, o) == OBJECT_CONTAINER_TAG {
                        lemma_object(data, offset, length);
                    }
                },
                Path::BracketWildcard => {
                    if kind_at(data, o) == ARRAY_CONTAINER_TAG {
                        lemma_array(data, offset, length);
                    }
                },
                _ => {},
            }
        },
    }
}

/// Positions and values that match piece by piece match as a whole.
proof fn lemma_values_are_concat(
    data: Seq<u8>,
    first: Seq<Position>,
    rest: Seq<Position>,
    first_values: Seq<Json>,
    rest_values: Seq<Json>,
)
    requires
        values_are(data, first, first_values),
        values_are(data, rest, rest_values),
    ensures
        values_are(data, first + rest, first_values + rest_values),
{
    let all = first + rest;
    let values = first_values + rest_values;
    assert forall|i: int| 0 <= i < all.len() implies value_at(data, #[trigger] all[i]) == Some(
        values[i],
    ) by {
        if i < first.len() {
            assert(all[i] == first[i]);
        } else {
            assert(all[i] == rest[i - first.len()]);
        }
    }
}

/// What holds of all positions holds of those after the first.
proof fn lemma_values_are_rest(data: Seq<u8>, poses: Seq<Position>, values: Seq<Json>)
    requires
        values_are(data, poses, values),
        poses.len() > 0,
    ensures
        value_at(data, poses[0]) == Some(values[0]),
        values_are(data, poses.skip(1), values.skip(1)),
{
    let rest = poses.skip(1);
    assert forall|i: int| 0 <= i < rest.len() implies value_at(data, #[trigger] rest[i]) == Some(
        values.skip(1)[i],
    ) by {
        assert(rest[i] == poses[i + 1]);
    }
}

/// A selecting part of a path does the same on all positions as on their values.
proof fn lemma_step_all(data: Seq<u8>, poses: Seq<Position>, values: Seq<Json>, path: Path)
    requires
        data.len() <= usize::MAX,
        values_are(data, poses, values),
    ensures
        step_all(data, poses, path) !is Undefined ==> (step_all(data, poses, path) matches
            Outcome::Done(found) && values_are(data, found, json_step_all(values, path))),
    decreases poses.len(),
{
    if poses.len() > 0 && step_all(data, poses, path) !is Undefined {
        lemma_values_are_rest(data, poses, values);
        lemma_step(data, poses[0], values[0], path);
        lemma_step_all(data, poses.skip(1), values.skip(1), path);
        lemma_values_are_concat(
            data,
            step(data, poses[0], path)->Done_0,
            step_all(data, poses.skip(1), path)->Done_0,
            json_step(values[0], path),
            json_step_all(values.skip(1), path),
        );
    }
}

/// The parts of a path in a comparison do the same on positions as on values.
proof fn lemma_operand_walk(
    data: Seq<u8>,
    poses: Seq<Position>,
    values: Seq<Json>,
    paths: Seq<Path>,
)
    requires
        data.len() <= usize::MAX,
        values_are(data, poses, values),
    ensures
        operand_walk(data, poses, paths) !is Undefined ==> (operand_walk(data, poses, paths) matches
            Outcome::Done(found) && values_are(data, found, json_operand_walk(values, paths))),
    decreases paths.len(),
{
    if paths.len() > 0 && operand_walk(data, poses, paths) !is Undefined {
        lemma_step_all(data, poses, values, paths[0]);
        lemma_operand_walk(
            data,
            step_all(data, poses, paths[0])->Done_0,
            json_step_all(values, paths[0]),
            paths.skip(1),
        );
    }
}

/// The scalars at positions are the leaves among their values.
pub(crate) proof fn lemma_scalars(data: Seq<u8>, poses: Seq<Position>, values: Seq<Json>)
    requires
        values_are(data, poses, values),
    ensures
        scalars_at(data, poses) == Outcome::Done(leaves(values)),
    decreases poses.len(),
{
    if poses.len() > 0 {
        lemma_values_are_rest(data, poses, values);
        lemma_scalars(data, poses.skip(1), values.skip(1));
        match poses[0] {
            Position::Container((offset, length)) => {
                lemma_kinds(data, offset, length);
            },
            Position::Scalar((ty, offset, length)) => {
                let bytes = data.subrange(offset as int, offset + length);
                assert(bytes.subrange(0, bytes.len() as int) =~= bytes);
            },
        }
    }
}

/// One side of a comparison has the same scalars on positions as on values.
proof fn lemma_operand(data: Seq<u8>, root: Json, pos: Position, value: Json, expr: Expr)
    requires
        data.len() <= usize::MAX,
        value_at(data, root_position(data)) == Some(root),
        value_at(data, pos) == Some(value),
    ensures
        operand(data, pos, expr) !is Undefined ==> operand(data, pos, expr) == Outcome::Done(
            json_operand(root, value, expr),
        ),
{
    if let Expr::Paths(paths) = expr {
        let start = operand_start(data, pos, paths@);
        let first = if paths@.len() > 0 && paths@[0] is Current {
            value
        } else {
            root
        };
        let rest = parts_after_first(paths@);
        assert(values_are(data, seq![start], seq![first]));
        lemma_operand_walk(data, seq![start], seq![first], rest);
        if let Outcome::Done(poses) = operand_walk(data, seq![start], rest) {
            lemma_scalars(data, poses, json_operand_walk(seq![first], rest));
        }
    }
}

/// A filter has the same answer on a position as on its value.
proof fn lemma_passes(data: Seq<u8>, root: Json, pos: Position, value: Json, expr: Expr)
    requires
        data.len() <= usize::MAX,
        value_at(data, root_position(data)) == Some(root),
        value_at(data, pos) == Some(value),
    ensures
        passes(data, pos, expr) !is Undefined ==> passes(data, pos, expr) == Outcome::Done(
            json_passes(root, value, expr),
        ),
    decreases expr, 0nat, 0nat,
{
    match expr {
        Expr::BinaryOp { op, left, right } => {
            if is_comparison(op) {
                lemma_operand(data, root, pos, value, *left);
                lemma_operand(data, root, pos, value, *right);
            } else {
                lemma_passes(data, root, pos, value, *left);
                lemma_passes(data, root, pos, value, *right);
            }
        },
        Expr::FilterFunc(FilterFunc::Exists(paths)) => {
            lemma_positions(data, root, Some(pos), value, paths@);
        },
        _ => {},
    }
}

/// A filter keeps the positions of the values that it keeps.
proof fn lemma_passing(
    data: Seq<u8>,
    root: Json,
    poses: Seq<Position>,
    values: Seq<Json>,
    expr: Expr,
)
    requires
        data.len() <= usize::MAX,
        value_at(data, root_position(data)) == Some(root),
        values_are(data, poses, values),
    ensures
        passing(data, poses, expr) !is Undefined ==> (passing(data, poses, expr) matches
            Outcome::Done(found) && values_are(data, found, json_passing(root, values, expr))),
    decreases expr, 1nat, poses.len(),
{
    if poses.len() > 0 && passing(data, poses, expr) !is Undefined {
        lemma_values_are_rest(data, poses, values);
        lemma_passes(data, root, poses[0], values[0], expr);
        lemma_passing(data, root, poses.skip(1), values.skip(1), expr);
        let rest = passing(data, poses.skip(1), expr)->Done_0;
        let rest_values = json_passing(root, values.skip(1), expr);
        if json_passes(root, values[0], expr) {
            assert(values_are(data, seq![poses[0]], seq![values[0]]));
            lemma_values_are_concat(data, seq![poses[0]], rest, seq![values[0]], rest_values);
        } else {
            assert(Seq::<Position>::empty() + rest =~= rest);
        }
    }
}

/// A part of a path does the same on positions as on values.
proof fn lemma_advance(
    data: Seq<u8>,
    root: Json,
    poses: Seq<Position>,
    values: Seq<Json>,
    path: Path,
)
    requires
        data.len() <= usize::MAX,
        value_at(data, root_position(data)) == Some(root),
        values_are(data, poses, values),
    ensures
        advance(data, poses, path) !is Undefined ==> (advance(data, poses, path) matches
            Outcome::Done(found) && values_are(data, found, json_advance(root, values, path))),
    decreases path, 0nat, 0nat,
{
    match path {
        Path::Root => {},
        Path::Current => {},
        Path::FilterExpr(expr) => {
            lemma_passing(data, root, poses, values, *expr);
        },
        Path::Predicate(expr) => {
            lemma_passing(data, root, poses, values, *expr);
        },
        _ => {
            lemma_step_all(data, poses, values, path);
        },
    }
}

/// The parts of a path do the same on positions as on values.
proof fn lemma_walk(
    data: Seq<u8>,
    root: Json,
    poses: Seq<Position>,
    values: Seq<Json>,
    paths: Seq<Path>,
)
    requires
        data.len() <= usize::MAX,
        value_at(data, root_position(data)) == Some(root),
        values_are(data, poses, values),
    ensures
        walk(data, poses, paths) !is Undefined ==> (walk(data, poses, paths) matches Outcome::Done(
            found,
        ) && values_are(data, found, json_walk(root, values, paths))),
    decreases paths, 0nat, 0nat,
{
    if paths.len() > 0 && walk(data, poses, paths) !is Undefined {
        assert(decreases_to!(paths => paths[0]));
        lemma_advance(data, root, poses, values, paths[0]);
        lemma_walk(
            data,
            root,
            advance(data, poses, paths[0])->Done_0,
            json_advance(root, values, paths[0]),
            paths.skip(1),
        );
    }
}

/// A path leads to the positions of the values that it leads to.
pub(crate) proof fn lemma_positions(
    data: Seq<u8>,
    root: Json,
    current: Option<Position>,
    value: Json,
    paths: Seq<Path>,
)
    requires
        data.len() <= usize::MAX,
        value_at(data, root_position(data)) == Some(root),
        current matches Some(pos) ==> value_at(data, pos) == Some(value),
    ensures
        positions(data, current, paths) !is Undefined ==> (positions(data, current, paths) matches
            Outcome::Done(found) && values_are(data, found, json_select(root, value, paths))),
    decreases paths, 1nat, 0nat,
{
    if paths.len() > 0 && paths[0] is Current {
        if let Some(pos) = current {
            assert(values_are(data, seq![pos], seq![value]));
            lemma_walk(data, root, seq![pos], seq![value], paths);
        }
    } else {
        let pos = root_position(data);
        assert(values_are(data, seq![pos], seq![root]));
        lemma_walk(data, root, seq![pos], seq![root], paths);
    }
}

} // verus!
