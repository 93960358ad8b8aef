//! Selecting the parts of a container.

use std::collections::VecDeque;
use vstd::prelude::*;
use vstd::utf8::encode_utf8;

use crate::constants::ARRAY_CONTAINER_TAG;
use crate::constants::CONTAINER_HEADER_LEN_MASK;
use crate::constants::CONTAINER_TAG;
use crate::constants::OBJECT_CONTAINER_TAG;
use crate::error::Error;
use crate::outcome::Outcome;
use crate::path::str_of;
use crate::path::ArrayIndex;
use crate::path::Index;
use crate::path::Path;
use crate::raw::tail;
use crate::raw::RawJsonb;
use crate::selector::Selector;
use crate::semantics::after;
use crate::semantics::array_index_fits;
use crate::semantics::array_values;
use crate::semantics::child;
use crate::semantics::container_step;
use crate::semantics::count_at;
use crate::semantics::entries_len;
use crate::semantics::entry_position;
use crate::semantics::index_fits;
use crate::semantics::key_from;
use crate::semantics::object_base;
use crate::semantics::object_values;
use crate::semantics::place;
use crate::semantics::places;
use crate::semantics::slice_places;
use crate::semantics::step;
use crate::semantics::step_all;
use crate::semantics::value_by_name;
use crate::semantics::values_by_indices;
use crate::semantics::Position;
use crate::wire::decode_header;
use crate::wire::decode_jentries;
use crate::wire::decode_string;
use crate::wire::jentry_at;
use crate::wire::u32_at;

verus! {

/// The total length of the first `k` of `jentries`.
spec fn total_len(jentries: Seq<(u32, usize)>, k: nat) -> nat
    decreases k,
{
    if k == 0 {
        0
    } else {
        total_len(jentries, (k - 1) as nat) + jentries[k - 1].1 as nat
    }
}

/// The positions of the entries that `jentries` describe, laid out from `base` on.
spec fn laid_out(jentries: Seq<(u32, usize)>, base: int) -> Seq<Position> {
    Seq::new(
        jentries.len(),
        |i: int| entry_position(jentries[i], (base + total_len(jentries, i as nat)) as usize),
    )
}

/// More entries are at least as long.
proof fn lemma_total_len_monotone(jentries: Seq<(u32, usize)>, j: nat, k: nat)
    requires
        j <= k,
    ensures
        total_len(jentries, j) <= total_len(jentries, k),
    decreases k,
{
    if j < k {
        lemma_total_len_monotone(jentries, j, (k - 1) as nat);
    }
}

/// Decoded descriptors are as long as their bytes say.
proof fn lemma_total_len(
    data: Seq<u8>,
    table: int,
    input: Seq<u8>,
    jentries: Seq<(u32, usize)>,
    k: nat,
)
    requires
        0 <= table,
        table + 4 * jentries.len() <= data.len(),
        input == data.skip(table),
        jentries == Seq::new(jentries.len(), |i: int| jentry_at(input, 4 * i)),
        k <= jentries.len(),
    ensures
        total_len(jentries, k) == entries_len(data, table, k),
    decreases k,
{
    if k > 0 {
        lemma_total_len(data, table, input, jentries, (k - 1) as nat);
        assert(jentries[k - 1] == jentry_at(input, 4 * (k - 1)));
        assert(jentry_at(input, 4 * (k - 1)) == jentry_at(data, table + 4 * (k - 1)));
    }
}

/// Decoded descriptors lay entries out as their bytes say.
proof fn lemma_laid_out(
    data: Seq<u8>,
    table: int,
    base: int,
    input: Seq<u8>,
    jentries: Seq<(u32, usize)>,
)
    requires
        0 <= table,
        table + 4 * jentries.len() <= data.len(),
        input == data.skip(table),
        jentries == Seq::new(jentries.len(), |i: int| jentry_at(input, 4 * i)),
    ensures
        total_len(jentries, jentries.len()) == entries_len(data, table, jentries.len()),
        laid_out(jentries, base) == Seq::new(
            jentries.len(),
            |i: int| child(data, table, base, i),
        ),
{
    lemma_total_len(data, table, input, jentries, jentries.len());
    assert forall|i: int| 0 <= i < jentries.len() implies laid_out(jentries, base)[i] == child(
        data,
        table,
        base,
        i,
    ) by {
        lemma_total_len(data, table, input, jentries, i as nat);
        assert(jentries[i] == jentry_at(input, 4 * i));
        assert(jentry_at(input, 4 * i) == jentry_at(data, table + 4 * i));
    }
    assert(laid_out(jentries, base) =~= Seq::new(
        jentries.len(),
        |i: int| child(data, table, base, i),
    ));
}

/// The position of an entry that starts at `offset`.
fn position_of(jentry: (u32, usize), offset: usize) -> (pos: Position)
    ensures
        pos == entry_position(jentry, offset),
{
    if jentry.0 == CONTAINER_TAG {
        Position::Container((offset, jentry.1))
    } else {
        Position::Scalar((jentry.0, offset, jentry.1))
    }
}

/// The offset behind the entries that `jentries` describe.
fn end_of(jentries: &Vec<(u32, usize)>, start: usize) -> (end: usize)
    requires
        start + total_len(jentries@, jentries@.len()) <= usize::MAX,
    ensures
        end == start + total_len(jentries@, jentries@.len()),
{
    let mut offset: usize = start;
    let mut i: usize = 0;
    while i < jentries.len()
        invariant
            i <= jentries@.len(),
            start + total_len(jentries@, jentries@.len()) <= usize::MAX,
            offset == start + total_len(jentries@, i as nat),
        decreases jentries@.len() - i,
    {
        proof {
            lemma_total_len_monotone(jentries@, (i + 1) as nat, jentries@.len());
        }
        offset += jentries[i].1;
        i += 1;
    }
    offset
}

/// Appends the positions of the entries that `jentries` describe.
fn push_entries(jentries: &Vec<(u32, usize)>, start: usize, poses: &mut VecDeque<Position>)
    requires
        start + total_len(jentries@, jentries@.len()) <= usize::MAX,
    ensures
        final(poses)@ == old(poses)@ + laid_out(jentries@, start as int),
{
    let ghost before = poses@;
    let ghost found = laid_out(jentries@, start as int);
    let mut offset: usize = start;
    let mut i: usize = 0;
    assert(before + found.take(0) =~= before);
    while i < jentries.len()
        invariant
            i <= jentries@.len(),
            start + total_len(jentries@, jentries@.len()) <= usize::MAX,
            offset == start + total_len(jentries@, i as nat),
            found == laid_out(jentries@, start as int),
            poses@ == before + found.take(i as int),
        decreases jentries@.len() - i,
    {
        proof {
            lemma_total_len_monotone(jentries@, (i + 1) as nat, jentries@.len());
        }
        poses.push_back(position_of(jentries[i], offset));
        offset += jentries[i].1;
        i += 1;
        assert(poses@ =~= before + found.take(i as int));
    }
    assert(found.take(i as int) =~= found);
}

/// Whether two byte slices are equal.
fn same_bytes(left: &[u8], right: &[u8]) -> (same: bool)
    ensures
        same == (left@ == right@),
{
    if left.len() != right.len() {
        return false;
    }
    let mut i: usize = 0;
    while i < left.len()
        invariant
            i <= left@.len(),
            left@.len() == right@.len(),
            forall|k: int| 0 <= k < i ==> left@[k] == right@[k],
        decreases left@.len() - i,
    {
        if left[i] != right[i] {
            return false;
        }
        i += 1;
    }
    assert(left@ =~= right@);
    true
}

/// A search for a key that fails does so inside the document.
proof fn lemma_failed_key(data: Seq<u8>, offset: int, name: Seq<u8>, i: nat)
    requires
        key_from(data, offset, name, i) is Failed,
    ensures
        offset + 4 + 8 * count_at(data, offset) + entries_len(data, offset + 4, i) <= data.len(),
    decreases count_at(data, offset) - i,
{
    let start = offset + 4 + 8 * count_at(data, offset) + entries_len(data, offset + 4, i);
    if start > data.len() {
        lemma_failed_key(data, offset, name, i + 1);
    }
}

/// A key that was found is a key of the object.
proof fn lemma_found_key(data: Seq<u8>, offset: int, name: Seq<u8>, i: nat)
    ensures
        key_from(data, offset, name, i) matches Outcome::Done(Some(k)) ==> i <= k < count_at(
            data,
            offset,
        ),
    decreases count_at(data, offset) - i,
{
    if i < count_at(data, offset) {
        lemma_found_key(data, offset, name, i + 1);
    }
}

/// Looks for the first key of the object at `root_offset` that is `wanted`, and
/// finds the end of all keys.
fn find_key(
    root: RawJsonb<'_>,
    root_offset: usize,
    jentries: &Vec<(u32, usize)>,
    wanted: &[u8],
) -> (res: Result<(Option<usize>, usize), Error>)
    requires
        jentries@.len() == count_at(root@, root_offset as int),
        root_offset + 4 + 8 * jentries@.len() <= root@.len(),
        jentries@ == Seq::new(
            jentries@.len(),
            |k: int| jentry_at(root@, root_offset + 4 + 4 * k),
        ),
        key_from(root@, root_offset as int, wanted@, 0) is Done ==> root_offset + 4 + 8
            * jentries@.len() + total_len(jentries@, jentries@.len()) <= usize::MAX,
        key_from(root@, root_offset as int, wanted@, 0) !is Undefined,
    ensures
        match key_from(root@, root_offset as int, wanted@, 0) {
            Outcome::Done(found) => {
                &&& res matches Ok((idx, end))
                &&& end == root_offset + 4 + 8 * jentries@.len() + total_len(
                    jentries@,
                    jentries@.len(),
                )
                &&& match found {
                    Some(i) => idx == Some(i as usize) && i < jentries@.len(),
                    None => idx is None,
                }
            },
            Outcome::Failed(e) => res == Err::<(Option<usize>, usize), Error>(e),
            Outcome::Undefined => false,
        },
{
    let ghost data = root@;
    let ghost at = root_offset as int;
    assert(root@.len() == root.data.len());
    let length: usize = jentries.len();
    let mut found: Option<usize> = None;
    let mut offset: usize = root_offset + 4 + length * 8;
    let mut i: usize = 0;
    while i < length
        invariant
            i <= length,
            length == jentries@.len(),
            length == count_at(data, at),
            data == root@,
            0 <= at,
            at + 4 + 8 * length <= data.len(),
            at == root_offset,
            jentries@ == Seq::new(length as nat, |k: int| jentry_at(data, at + 4 + 4 * k)),
            key_from(data, at, wanted@, 0) is Done ==> at + 4 + 8 * length + total_len(
                jentries@,
                length as nat,
            ) <= usize::MAX,
            data.len() <= usize::MAX,
            offset == at + 4 + 8 * length + total_len(jentries@, i as nat),
            total_len(jentries@, i as nat) == entries_len(data, at + 4, i as nat),
            key_from(data, at, wanted@, 0) !is Undefined,
            match found {
                Some(idx) => idx < length && key_from(data, at, wanted@, 0) == Outcome::Done(
                    Some(idx as nat),
                ),
                None => key_from(data, at, wanted@, 0) == key_from(data, at, wanted@, i as nat),
            },
        decreases length - i,
    {
        let jlength: usize = jentries[i].1;
        proof {
            lemma_total_len_monotone(jentries@, (i + 1) as nat, length as nat);
            assert(jentries@[i as int] == jentry_at(data, at + 4 + 4 * i));
        }
        if wanted.len() == jlength && found.is_none() {
            let key: &[u8] = match decode_string(tail(root, offset), jlength) {
                Ok((_, key)) => key,
                Err(e) => {
                    return Err(e);
                },
            };
            assert(key@ =~= data.subrange(offset as int, offset + jlength));
            if same_bytes(wanted, key) {
                found = Some(i);
            }
        }
        proof {
            if key_from(data, at, wanted@, 0) is Failed {
                lemma_failed_key(data, at, wanted@, (i + 1) as nat);
            }
        }
        offset += jlength;
        i += 1;
    }
    Ok((found, offset))
}

impl<'a> Selector<'a> {
    /// Selects all values in an object.
    pub(crate) fn select_object_values(
        &self,
        root: RawJsonb<'_>,
        root_offset: usize,
        poses: &mut VecDeque<Position>,
    ) -> (res: Result<(), Error>)
        requires
            object_values(root@, root_offset as int) !is Undefined,
        ensures
            match object_values(root@, root_offset as int) {
                Outcome::Done(found) => res is Ok && final(poses)@ == old(poses)@ + found,
                Outcome::Failed(e) => res == Err::<(), Error>(e) && final(poses)@ == old(poses)@,
                Outcome::Undefined => false,
            },
    {
        let ghost data = root@;
        let ghost at = root_offset as int;
        let header: &[u8] = tail(root, root_offset);
        let (rest, (ty, length)) = match decode_header(header) {
            Ok(found) => found,
            Err(e) => {
                return Err(e);
            },
        };
        assert(u32_at(header@, 0) == u32_at(data, at));
        if ty != OBJECT_CONTAINER_TAG || length == 0 {
            assert(poses@ + Seq::<Position>::empty() =~= poses@);
            return Ok(());
        }
        assert(rest@ =~= data.skip(at + 4));
        let (values, key_jentries) = match decode_jentries(rest, length) {
            Ok(found) => found,
            Err(e) => {
                return Err(e);
            },
        };
        assert(values@ =~= data.skip(at + 4 + 4 * length));
        let (_, val_jentries) = match decode_jentries(values, length) {
            Ok(found) => found,
            Err(e) => {
                return Err(e);
            },
        };
        proof {
            let table = at + 4 + 4 * length;
            lemma_laid_out(data, at + 4, 0, rest@, key_jentries@);
            lemma_laid_out(data, table, object_base(data, at), values@, val_jentries@);
        }
        let offset: usize = end_of(&key_jentries, root_offset + 4 + length * 8);
        push_entries(&val_jentries, offset, poses);
        Ok(())
    }

    /// Selects all values in an array. In lax mode the bracket wildcard takes
    /// anything else for an array of one.
    pub(crate) fn select_array_values(
        &self,
        root: RawJsonb<'_>,
        root_offset: usize,
        root_length: usize,
        poses: &mut VecDeque<Position>,
    ) -> (res: Result<(), Error>)
        requires
            array_values(root@, root_offset, root_length) !is Undefined,
        ensures
            match array_values(root@, root_offset, root_length) {
                Outcome::Done(found) => res is Ok && final(poses)@ == old(poses)@ + found,
                Outcome::Failed(e) => res == Err::<(), Error>(e) && final(poses)@ == old(poses)@,
                Outcome::Undefined => false,
            },
    {
        let ghost data = root@;
        let ghost at = root_offset as int;
        let header: &[u8] = tail(root, root_offset);
        let (rest, (ty, length)) = match decode_header(header) {
            Ok(found) => found,
            Err(e) => {
                return Err(e);
            },
        };
        assert(u32_at(header@, 0) == u32_at(data, at));
        if ty != ARRAY_CONTAINER_TAG {
            poses.push_back(Position::Container((root_offset, root_length)));
            return Ok(());
        }
        assert(rest@ =~= data.skip(at + 4));
        let (_, val_jentries) = match decode_jentries(rest, length) {
            Ok(found) => found,
            Err(e) => {
                return Err(e);
            },
        };
        proof {
            lemma_laid_out(data, at + 4, at + 4 + 4 * length, rest@, val_jentries@);
        }
        push_entries(&val_jentries, root_offset + 4 + length * 4, poses);
        Ok(())
    }

    /// Selects the value in an object under a name.
    pub(crate) fn select_by_name(
        &self,
        root: RawJsonb<'_>,
        root_offset: usize,
        name: &str,
        poses: &mut VecDeque<Position>,
    ) -> (res: Result<(), Error>)
        requires
            value_by_name(root@, root_offset as int, encode_utf8(name@)) !is Undefined,
        ensures
            match value_by_name(root@, root_offset as int, encode_utf8(name@)) {
                Outcome::Done(found) => res is Ok && final(poses)@ == old(poses)@ + found,
                Outcome::Failed(e) => res == Err::<(), Error>(e) && final(poses)@ == old(poses)@,
                Outcome::Undefined => false,
            },
    {
        let ghost data = root@;
        let ghost at = root_offset as int;
        let header: &[u8] = tail(root, root_offset);
        let (rest, (ty, length)) = match decode_header(header) {
            Ok(found) => found,
            Err(e) => {
                return Err(e);
            },
        };
        assert(u32_at(header@, 0) == u32_at(data, at));
        if ty != OBJECT_CONTAINER_TAG || length == 0 {
            assert(poses@ + Seq::<Position>::empty() =~= poses@);
            return Ok(());
        }
        assert(rest@ =~= data.skip(at + 4));
        let (values, key_jentries) = match decode_jentries(rest, length) {
            Ok(found) => found,
            Err(e) => {
                return Err(e);
            },
        };
        assert(values@ =~= data.skip(at + 4 + 4 * length));
        let (_, val_jentries) = match decode_jentries(values, length) {
            Ok(found) => found,
            Err(e) => {
                return Err(e);
            },
        };
        let ghost table = at + 4 + 4 * length;
        let ghost base = object_base(data, at);
        proof {
            lemma_laid_out(data, at + 4, 0, rest@, key_jentries@);
            lemma_laid_out(data, table, base, values@, val_jentries@);
            assert(key_jentries@ =~= Seq::new(
                length as nat,
                |k: int| jentry_at(data, at + 4 + 4 * k),
            ));
            lemma_found_key(data, at, encode_utf8(name@), 0);
        }
        let (found, end) = match find_key(root, root_offset, &key_jentries, name.as_bytes()) {
            Ok(read) => read,
            Err(e) => {
                return Err(e);
            },
        };
        let idx: usize = match found {
            Some(idx) => idx,
            None => {
                assert(poses@ + Seq::<Position>::empty() =~= poses@);
                return Ok(());
            },
        };
        let mut offset: usize = end;
        proof {
            lemma_total_len(data, table, values@, val_jentries@, idx as nat);
        }
        let mut i: usize = 0;
        while i < idx
            invariant
                i <= idx < length,
                length == val_jentries@.len(),
                base + total_len(val_jentries@, idx as nat) <= usize::MAX,
                offset == base + total_len(val_jentries@, i as nat),
            decreases idx - i,
        {
            proof {
                lemma_total_len_monotone(val_jentries@, (i + 1) as nat, idx as nat);
            }
            offset += val_jentries[i].1;
            i += 1;
        }
        poses.push_back(position_of(val_jentries[idx], offset));
        assert(laid_out(val_jentries@, base)[idx as int] == child(data, table, base, idx as int));
        Ok(())
    }

    /// The place in an array of `length` values that `index` names, if it is one.
    pub(crate) fn convert_index(index: &Index, length: i32) -> (res: Option<usize>)
        requires
            index_fits(*index, length as int),
        ensures
            res == (if 0 <= place(*index, length as int) < length {
                Some(place(*index, length as int) as usize)
            } else {
                None
            }),
    {
        let idx: i32 = match index {
            Index::Index(idx) => *idx,
            Index::LastIndex(idx) => length + *idx - 1,
        };
        if idx >= 0 && idx < length {
            Some(idx as usize)
        } else {
            None
        }
    }

    /// The places in an array of `length` values from `start` to `end`, if there
    /// are any. An empty array has none, so it must be seen without counting
    /// back from its last place.
    pub(crate) fn convert_slice(start: &Index, end: &Index, length: i32) -> (res: Option<Vec<usize>>)
        requires
            index_fits(*start, length as int),
            index_fits(*end, length as int),
            length >= 1 || place(*start, length as int) > place(*end, length as int) || place(
                *start,
                length as int,
            ) >= length || place(*end, length as int) < 0,
        ensures
            res is None <==> place(*start, length as int) > place(*end, length as int) || place(
                *start,
                length as int,
            ) >= length || place(*end, length as int) < 0,
            res matches Some(found) ==> found@ == slice_places(
                place(*start, length as int),
                place(*end, length as int),
                length as int,
            ),
    {
        let start: i32 = match start {
            Index::Index(idx) => *idx,
            Index::LastIndex(idx) => length + *idx - 1,
        };
        let end: i32 = match end {
            Index::Index(idx) => *idx,
            Index::LastIndex(idx) => length + *idx - 1,
        };
        if start > end || start >= length || end < 0 {
            None
        } else {
            let low: usize = if start < 0 {
                0
            } else {
                start as usize
            };
            let high: usize = if end >= length {
                (length - 1) as usize
            } else {
                end as usize
            };
            let mut found: Vec<usize> = Vec::new();
            let mut next: usize = low;
            while next <= high
                invariant
                    low <= next <= high + 1,
                    high < i32::MAX,
                    found@ == Seq::new((next - low) as nat, |k: int| (low + k) as usize),
                decreases high + 1 - next,
            {
                found.push(next);
                next += 1;
                assert(found@ =~= Seq::new((next - low) as nat, |k: int| (low + k) as usize));
            }
            assert(found@ =~= slice_places(start as int, end as int, length as int));
            Some(found)
        }
    }

    /// Selects the values in an array at the places that `indices` pick.
    pub(crate) fn select_by_indices(
        &self,
        root: RawJsonb<'_>,
        root_offset: usize,
        indices: &Vec<ArrayIndex>,
        poses: &mut VecDeque<Position>,
    ) -> (res: Result<(), Error>)
        requires
            values_by_indices(root@, root_offset as int, indices@) !is Undefined,
        ensures
            match values_by_indices(root@, root_offset as int, indices@) {
                Outcome::Done(found) => res is Ok && final(poses)@ == old(poses)@ + found,
                Outcome::Failed(e) => res == Err::<(), Error>(e) && final(poses)@ == old(poses)@,
                Outcome::Undefined => false,
            },
    {
        let ghost data = root@;
        let ghost at = root_offset as int;
        let header: &[u8] = tail(root, root_offset);
        let (rest, (ty, length)) = match decode_header(header) {
            Ok(found) => found,
            Err(e) => {
                return Err(e);
            },
        };
        assert(u32_at(header@, 0) == u32_at(data, at));
        if ty != ARRAY_CONTAINER_TAG || length == 0 {
            assert(poses@ + Seq::<Position>::empty() =~= poses@);
            return Ok(());
        }
        let mut val_indices: Vec<usize> = Vec::new();
        let mut i: usize = 0;
        while i < indices.len()
            invariant
                i <= indices@.len(),
                1 <= length <= CONTAINER_HEADER_LEN_MASK,
                forall|k: int|
                    0 <= k < indices@.len() ==> #[trigger] array_index_fits(
                        indices@[k],
                        length as int,
                    ),
                val_indices@ == places(indices@.take(i as int), length as int),
                forall|k: int| 0 <= k < val_indices@.len() ==> #[trigger] val_indices@[k] < length,
            decreases indices@.len() - i,
        {
            assert(array_index_fits(indices@[i as int], length as int));
            assert(indices@.take(i + 1).drop_last() =~= indices@.take(i as int));
            match &indices[i] {
                ArrayIndex::Index(index) => {
                    if let Some(idx) = Self::convert_index(index, length as i32) {
                        val_indices.push(idx);
                    }
                },
                ArrayIndex::Slice((start, end)) => {
                    if let Some(mut idxes) = Self::convert_slice(start, end, length as i32) {
                        val_indices.append(&mut idxes);
                    }
                },
            }
            assert(val_indices@ =~= places(indices@.take(i + 1), length as int));
            i += 1;
        }
        assert(indices@.take(i as int) =~= indices@);
        if val_indices.is_empty() {
            assert(poses@ + Seq::<Position>::empty() =~= poses@);
            return Ok(());
        }
        assert(rest@ =~= data.skip(at + 4));
        let (_, jentries) = match decode_jentries(rest, length) {
            Ok(found) => found,
            Err(e) => {
                return Err(e);
            },
        };
        let ghost base = at + 4 + 4 * length;
        proof {
            lemma_laid_out(data, at + 4, base, rest@, jentries@);
        }
        let mut offset: usize = root_offset + 4 + length * 4;
        let mut offsets: Vec<usize> = Vec::with_capacity(jentries.len());
        let mut i: usize = 0;
        while i < jentries.len()
            invariant
                i <= jentries@.len(),
                base + total_len(jentries@, jentries@.len()) <= usize::MAX,
                offset == base + total_len(jentries@, i as nat),
                offsets@ == Seq::new(i as nat, |k: int| (base + total_len(jentries@, k as nat)) as usize),
            decreases jentries@.len() - i,
        {
            proof {
                lemma_total_len_monotone(jentries@, (i + 1) as nat, jentries@.len());
            }
            offsets.push(offset);
            offset += jentries[i].1;
            i += 1;
            assert(offsets@ =~= Seq::new(
                i as nat,
                |k: int| (base + total_len(jentries@, k as nat)) as usize,
            ));
        }
        let ghost before = poses@;
        let ghost found = Seq::new(
            val_indices@.len(),
            |k: int| child(data, at + 4, base, val_indices@[k] as int),
        );
        let mut i: usize = 0;
        assert(before + found.take(0) =~= before);
        while i < val_indices.len()
            invariant
                i <= val_indices@.len(),
                jentries@.len() == length,
                forall|k: int| 0 <= k < val_indices@.len() ==> #[trigger] val_indices@[k] < length,
                offsets@ == Seq::new(
                    length as nat,
                    |k: int| (base + total_len(jentries@, k as nat)) as usize,
                ),
                laid_out(jentries@, base) == Seq::new(
                    length as nat,
                    |k: int| child(data, at + 4, base, k),
                ),
                found == Seq::new(
                    val_indices@.len(),
                    |k: int| child(data, at + 4, base, val_indices@[k] as int),
                ),
                poses@ == before + found.take(i as int),
            decreases val_indices@.len() - i,
        {
            let idx: usize = val_indices[i];
            poses.push_back(position_of(jentries[idx], offsets[idx]));
            assert(laid_out(jentries@, base)[idx as int] == child(data, at + 4, base, idx as int));
            i += 1;
            assert(poses@ =~= before + found.take(i as int));
        }
        assert(found.take(i as int) =~= found);
        Ok(())
    }

    /// Applies a selecting part of a path to a container.
    pub(crate) fn select_path(
        &self,
        root: RawJsonb<'_>,
        offset: usize,
        length: usize,
        path: &Path<'_>,
        poses: &mut VecDeque<Position>,
    ) -> (res: Result<(), Error>)
        requires
            container_step(root@, offset, length, *path) !is Undefined,
        ensures
            match container_step(root@, offset, length, *path) {
                Outcome::Done(found) => res is Ok && final(poses)@ == old(poses)@ + found,
                Outcome::Failed(e) => res == Err::<(), Error>(e) && final(poses)@ == old(poses)@,
                Outcome::Undefined => false,
            },
    {
        match path {
            Path::DotWildcard => self.select_object_values(root, offset, poses),
            Path::BracketWildcard => self.select_array_values(root, offset, length, poses),
            Path::ColonField(name) | Path::DotField(name) | Path::ObjectField(name) => {
                self.select_by_name(root, offset, str_of(name), poses)
            },
            Path::ArrayIndices(indices) => self.select_by_indices(root, offset, indices, poses),
            _ => Ok(()),
        }
    }

    /// Applies a selecting part of a path to every selected position. In lax mode
    /// the bracket wildcard takes a scalar for an array of one.
    pub(crate) fn select_each(
        &self,
        root: RawJsonb<'_>,
        path: &Path<'_>,
        poses: &mut VecDeque<Position>,
    ) -> (res: Result<(), Error>)
        requires
            step_all(root@, old(poses)@, *path) !is Undefined,
        ensures
            match step_all(root@, old(poses)@, *path) {
                Outcome::Done(found) => res is Ok && final(poses)@ == found,
                Outcome::Failed(e) => res == Err::<(), Error>(e),
                Outcome::Undefined => false,
            },
    {
        let ghost start = poses@;
        let ghost mut out = Seq::<Position>::empty();
        let len: usize = poses.len();
        let mut k: usize = 0;
        assert(start.skip(0) =~= start);
        assert(start.skip(0) + out =~= start);
        proof {
            if let Outcome::Done(s) = step_all(root@, start, *path) {
                assert(out + s =~= s);
            }
        }
        while k < len
            invariant
                k <= len,
                len == start.len(),
                poses@ == start.skip(k as int) + out,
                step_all(root@, start, *path) !is Undefined,
                step_all(root@, start, *path) == after(
                    out,
                    step_all(root@, start.skip(k as int), *path),
                ),
                start == old(poses)@,
            decreases len - k,
        {
            let ghost todo = start.skip(k as int);
            assert(todo.len() > 0 && todo[0] == start[k as int]);
            assert(todo.skip(1) =~= start.skip(k + 1));
            let pos: Position = poses.pop_front().unwrap();
            assert(poses@ =~= start.skip(k + 1) + out);
            match pos {
                Position::Container((offset, length)) => {
                    match self.select_path(root, offset, length, path, poses) {
                        Ok(()) => {},
                        Err(e) => {
                            return Err(e);
                        },
                    }
                },
                Position::Scalar(_) => {
                    if matches!(path, Path::BracketWildcard) {
                        poses.push_back(pos);
                    }
                },
            }
            proof {
                let next = step(root@, pos, *path)->Done_0;
                assert(poses@ =~= start.skip(k + 1) + (out + next));
                if let Outcome::Done(s) = step_all(root@, start.skip(k + 1), *path) {
                    assert(out + (next + s) =~= (out + next) + s);
                }
                out = out + next;
            }
            k += 1;
        }
        assert(start.skip(len as int) =~= Seq::empty());
        assert(poses@ =~= out);
        assert(out + Seq::<Position>::empty() =~= out);
        Ok(())
    }
}

} // verus!
