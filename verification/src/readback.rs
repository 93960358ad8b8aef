//! What is returned reads back as what was selected.

use vstd::prelude::*;

use crate::constants::ARRAY_CONTAINER_TAG;
use crate::constants::CONTAINER_HEADER_LEN_MASK;
use crate::constants::CONTAINER_HEADER_TYPE_MASK;
use crate::constants::CONTAINER_TAG;
use crate::constants::FALSE_TAG;
use crate::constants::JENTRY_OFF_LEN_MASK;
use crate::constants::JENTRY_TYPE_MASK;
use crate::constants::NULL_TAG;
use crate::constants::NUMBER_TAG;
use crate::constants::SCALAR_CONTAINER_TAG;
use crate::constants::STRING_TAG;
use crate::constants::TRUE_TAG;
use crate::correspondence::lemma_kinds;
use crate::document::as_document;
use crate::document::container_value;
use crate::document::entry_bytes;
use crate::document::entry_start;
use crate::document::entry_value;
use crate::document::entry_values;
use crate::document::value_at;
use crate::document::values_are;
use crate::document::Json;
use crate::path::Scalar;
use crate::semantics::array_document;
use crate::semantics::boolean_document;
use crate::semantics::child;
use crate::semantics::content;
use crate::semantics::contents;
use crate::semantics::count_at;
use crate::semantics::descriptor;
use crate::semantics::descriptors;
use crate::semantics::entries_len;
use crate::semantics::is_readable;
use crate::semantics::kind_at;
use crate::semantics::value_document;
use crate::semantics::Position;
use crate::wire::jentry_at;
use crate::wire::jentry_len;
use crate::wire::jentry_type;
use crate::wire::u32_at;
use crate::wire::u32_bytes;

verus! {

/// A number is read back from its bytes, wherever they stand.
pub(crate) proof fn lemma_word_reads_back(data: Seq<u8>, at: int, n: u32)
    requires
        0 <= at,
        at + 4 <= data.len(),
        data.subrange(at, at + 4) == u32_bytes(n),
    ensures
        u32_at(data, at) == n,
{
    let bytes = data.subrange(at, at + 4);
    assert(data[at] == bytes[0]);
    assert(data[at + 1] == bytes[1]);
    assert(data[at + 2] == bytes[2]);
    assert(data[at + 3] == bytes[3]);
    assert(n == (n / 0x100_0000) * 0x100_0000 + (n / 0x1_0000 % 0x100) * 0x1_0000 + (n / 0x100
        % 0x100) * 0x100 + n % 0x100);
}

/// A descriptor is taken apart into the kind and the length that it was made of.
proof fn lemma_jentry_reads_back(ty: u32, length: u32)
    requires
        ty & JENTRY_TYPE_MASK == ty,
        length <= JENTRY_OFF_LEN_MASK,
    ensures
        jentry_type(ty | length) == ty,
        jentry_len(ty | length) == length,
{
    assert((ty | length) & JENTRY_TYPE_MASK == ty) by (bit_vector)
        requires
            ty & JENTRY_TYPE_MASK == ty,
            length <= JENTRY_OFF_LEN_MASK,
    ;
    assert((ty | length) & JENTRY_OFF_LEN_MASK == length) by (bit_vector)
        requires
            ty & JENTRY_TYPE_MASK == ty,
            length <= JENTRY_OFF_LEN_MASK,
    ;
}

/// The kinds of entries are kinds.
proof fn lemma_entry_kinds()
    ensures
        NULL_TAG & JENTRY_TYPE_MASK == NULL_TAG,
        STRING_TAG & JENTRY_TYPE_MASK == STRING_TAG,
        NUMBER_TAG & JENTRY_TYPE_MASK == NUMBER_TAG,
        FALSE_TAG & JENTRY_TYPE_MASK == FALSE_TAG,
        TRUE_TAG & JENTRY_TYPE_MASK == TRUE_TAG,
        CONTAINER_TAG & JENTRY_TYPE_MASK == CONTAINER_TAG,
        SCALAR_CONTAINER_TAG & CONTAINER_HEADER_TYPE_MASK == SCALAR_CONTAINER_TAG,
{
    assert(NULL_TAG & JENTRY_TYPE_MASK == NULL_TAG) by (bit_vector);
    assert(STRING_TAG & JENTRY_TYPE_MASK == STRING_TAG) by (bit_vector);
    assert(NUMBER_TAG & JENTRY_TYPE_MASK == NUMBER_TAG) by (bit_vector);
    assert(FALSE_TAG & JENTRY_TYPE_MASK == FALSE_TAG) by (bit_vector);
    assert(TRUE_TAG & JENTRY_TYPE_MASK == TRUE_TAG) by (bit_vector);
    assert(CONTAINER_TAG & JENTRY_TYPE_MASK == CONTAINER_TAG) by (bit_vector);
    assert(SCALAR_CONTAINER_TAG & CONTAINER_HEADER_TYPE_MASK == SCALAR_CONTAINER_TAG)
        by (bit_vector);
}

/// The kind of the entry at a position.
pub open spec fn kind_of(pos: Position) -> u32 {
    match pos {
        Position::Container(_) => CONTAINER_TAG,
        Position::Scalar((ty, _, _)) => ty,
    }
}

/// The length of the value at a position.
pub open spec fn length_of(pos: Position) -> usize {
    match pos {
        Position::Container((_, length)) => length,
        Position::Scalar((_, _, length)) => length,
    }
}

/// Whether the kind of the entry at a position is a kind, and that of a container
/// if and only if the position is.
pub open spec fn is_entry(pos: Position) -> bool {
    &&& kind_of(pos) & JENTRY_TYPE_MASK == kind_of(pos)
    &&& pos is Scalar ==> kind_of(pos) != CONTAINER_TAG
}

/// Whether all of `poses` are entries whose bytes lie inside the document.
pub open spec fn are_readable_entries(data: Seq<u8>, poses: Seq<Position>) -> bool {
    forall|i: int|
        0 <= i < poses.len() ==> is_entry(#[trigger] poses[i]) && is_readable(data, poses[i])
}

/// A container is an entry.
pub(crate) proof fn lemma_container_kind()
    ensures
        forall|offset: usize, length: usize|
            #[trigger] is_entry(Position::Container((offset, length))),
{
    lemma_entry_kinds();
}

/// What a descriptor announces is an entry.
pub(crate) proof fn lemma_child_is_entry(data: Seq<u8>, table: int, base: int, i: int)
    ensures
        is_entry(child(data, table, base, i)),
{
    lemma_entry_kinds();
    let word = u32_at(data, table + 4 * i);
    assert((word & JENTRY_TYPE_MASK) & JENTRY_TYPE_MASK == word & JENTRY_TYPE_MASK)
        by (bit_vector);
}

/// The descriptor of an entry tells its kind and its length.
proof fn lemma_descriptor(pos: Position)
    requires
        is_entry(pos),
        length_of(pos) <= JENTRY_OFF_LEN_MASK,
    ensures
        jentry_type(descriptor(pos)) == kind_of(pos),
        jentry_len(descriptor(pos)) == length_of(pos),
{
    lemma_jentry_reads_back(kind_of(pos), length_of(pos) as u32);
}

/// A well-formed value is an entry that has bytes and a length.
pub(crate) proof fn lemma_position(data: Seq<u8>, pos: Position)
    requires
        value_at(data, pos) is Some,
    ensures
        is_entry(pos),
        is_readable(data, pos),
        entry_value(kind_of(pos), content(data, pos)) == value_at(data, pos),
{
    reveal(container_value);
    lemma_entry_kinds();
    match pos {
        Position::Container((offset, length)) => {},
        Position::Scalar((ty, offset, length)) => {
            let bytes = data.subrange(offset as int, offset + length);
            assert(content(data, pos) =~= bytes);
            assert(ty != CONTAINER_TAG);
        },
    }
}

/// A document that was made of a single value has that value.
pub(crate) proof fn lemma_value_document(data: Seq<u8>, pos: Position)
    requires
        value_at(data, pos) is Some,
    ensures
        container_value(value_document(data, pos)) == Some(as_document(value_at(data, pos)->0)),
{
    lemma_position(data, pos);
    let bytes = value_document(data, pos);
    match pos {
        Position::Container((offset, length)) => {
            lemma_kinds(data, offset, length);
        },
        Position::Scalar((ty, offset, length)) => {
            reveal(container_value);
            lemma_entry_kinds();
            lemma_descriptor(pos);
            assert(bytes.subrange(0, 4) =~= u32_bytes(SCALAR_CONTAINER_TAG));
            assert(bytes.subrange(4, 8) =~= u32_bytes(descriptor(pos)));
            lemma_word_reads_back(bytes, 0, SCALAR_CONTAINER_TAG);
            lemma_word_reads_back(bytes, 4, descriptor(pos));
            assert(bytes.subrange(8, 8 + length) =~= content(data, pos));
        },
    }
}

/// The table of descriptors holds a word for each value, in order.
pub(crate) proof fn lemma_descriptors(poses: Seq<Position>)
    ensures
        descriptors(poses).len() == 4 * poses.len(),
        forall|i: int|
            #![trigger poses[i]]
            0 <= i < poses.len() ==> descriptors(poses).subrange(4 * i, 4 * i + 4) == u32_bytes(
                descriptor(poses[i]),
            ),
    decreases poses.len(),
{
    if poses.len() > 0 {
        let before = poses.drop_last();
        lemma_descriptors(before);
        assert forall|i: int|
            #![trigger poses[i]]
            0 <= i < poses.len() implies descriptors(poses).subrange(4 * i, 4 * i + 4)
            == u32_bytes(descriptor(poses[i])) by {
            if i < before.len() {
                assert(before[i] == poses[i]);
                assert(descriptors(poses).subrange(4 * i, 4 * i + 4) =~= descriptors(
                    before,
                ).subrange(4 * i, 4 * i + 4));
            } else {
                assert(descriptors(poses).subrange(4 * i, 4 * i + 4) =~= u32_bytes(
                    descriptor(poses[i]),
                ));
            }
        }
    }
}

/// The contents of the values stand one after the other.
pub(crate) proof fn lemma_contents(data: Seq<u8>, poses: Seq<Position>, i: int)
    requires
        0 <= i < poses.len(),
    ensures
        ({
            let start = contents(data, poses.take(i)).len() as int;
            let bytes = content(data, poses[i]);
            &&& contents(data, poses.take(i + 1)).len() == start + bytes.len()
            &&& start + bytes.len() <= contents(data, poses).len()
            &&& contents(data, poses).subrange(start, start + bytes.len()) == bytes
        }),
    decreases poses.len(),
{
    let before = poses.drop_last();
    let start = contents(data, poses.take(i)).len() as int;
    let bytes = content(data, poses[i]);
    assert(poses.take(i + 1).drop_last() =~= poses.take(i));
    if i < before.len() {
        lemma_contents(data, before, i);
        assert(before.take(i) =~= poses.take(i));
        assert(before[i] == poses[i]);
        assert(contents(data, poses).subrange(start, start + bytes.len()) =~= contents(
            data,
            before,
        ).subrange(start, start + bytes.len()));
    } else {
        assert(poses.take(i) =~= before);
        assert(contents(data, poses).subrange(start, start + bytes.len()) =~= bytes);
    }
}

/// Whether the format can hold an array of the values at `poses`: their number
/// fits in a header and their lengths fit in descriptors.
pub open spec fn fits_array(poses: Seq<Position>) -> bool {
    &&& poses.len() <= CONTAINER_HEADER_LEN_MASK
    &&& forall|i: int|
        0 <= i < poses.len() ==> length_of(#[trigger] poses[i]) <= JENTRY_OFF_LEN_MASK
}

/// The header of an array tells its kind and its length.
pub(crate) proof fn lemma_array_header(data: Seq<u8>, poses: Seq<Position>)
    requires
        fits_array(poses),
    ensures
        kind_at(array_document(data, poses), 0) == ARRAY_CONTAINER_TAG,
        count_at(array_document(data, poses), 0) == poses.len(),
{
    let out = array_document(data, poses);
    let n = poses.len() as u32;
    let header = ARRAY_CONTAINER_TAG | n;
    lemma_descriptors(poses);
    assert(out.subrange(0, 4) =~= u32_bytes(header));
    lemma_word_reads_back(out, 0, header);
    assert(header & CONTAINER_HEADER_TYPE_MASK == ARRAY_CONTAINER_TAG) by (bit_vector)
        requires
            header == ARRAY_CONTAINER_TAG | n,
            n <= CONTAINER_HEADER_LEN_MASK,
    ;
    assert(header & CONTAINER_HEADER_LEN_MASK == n) by (bit_vector)
        requires
            header == ARRAY_CONTAINER_TAG | n,
            n <= CONTAINER_HEADER_LEN_MASK,
    ;
}

/// The descriptor of a value in an array tells its kind and its length.
proof fn lemma_array_jentry(data: Seq<u8>, poses: Seq<Position>, i: int)
    requires
        are_readable_entries(data, poses),
        fits_array(poses),
        0 <= i < poses.len(),
    ensures
        jentry_at(array_document(data, poses), 4 + 4 * i) == (
            kind_of(poses[i]),
            length_of(poses[i]),
        ),
        length_of(poses[i]) == content(data, poses[i]).len(),
{
    let out = array_document(data, poses);
    let pos = poses[i];
    lemma_descriptor(pos);
    lemma_descriptors(poses);
    assert(out.subrange(4 + 4 * i, 4 + 4 * i + 4) =~= descriptors(poses).subrange(
        4 * i,
        4 * i + 4,
    ));
    lemma_word_reads_back(out, 4 + 4 * i, descriptor(pos));
}

/// The first values of an array are as long as their contents.
pub(crate) proof fn lemma_array_entries_len(data: Seq<u8>, poses: Seq<Position>, k: nat)
    requires
        are_readable_entries(data, poses),
        fits_array(poses),
        k <= poses.len(),
    ensures
        entries_len(array_document(data, poses), 4, k) == contents(
            data,
            poses.take(k as int),
        ).len(),
    decreases k,
{
    if k > 0 {
        lemma_array_entries_len(data, poses, (k - 1) as nat);
        lemma_array_jentry(data, poses, k - 1);
        lemma_contents(data, poses, k - 1);
    } else {
        assert(poses.take(0) =~= Seq::empty());
    }
}

/// The content of a value in an array is the content that it had.
proof fn lemma_array_entry(data: Seq<u8>, poses: Seq<Position>, i: int)
    requires
        are_readable_entries(data, poses),
        fits_array(poses),
        0 <= i < poses.len(),
    ensures
        ({
            let out = array_document(data, poses);
            let base = 4int + 4 * poses.len();
            let start = entry_start(out, 4, base, i);
            &&& 4 <= start
            &&& start + length_of(poses[i]) <= out.len()
            &&& entry_bytes(out, 4, base, i) == content(data, poses[i])
        }),
{
    let out = array_document(data, poses);
    let base = 4int + 4 * poses.len();
    let start = entry_start(out, 4, base, i);
    let bytes = content(data, poses[i]);
    lemma_array_jentry(data, poses, i);
    lemma_array_entries_len(data, poses, i as nat);
    lemma_contents(data, poses, i);
    lemma_descriptors(poses);
    let from = contents(data, poses.take(i)).len() as int;
    assert(out.subrange(start, start + bytes.len()) =~= contents(data, poses).subrange(
        from,
        from + bytes.len(),
    ));
}

/// Well-formed values are entries.
proof fn lemma_well_formed_entries(
    data: Seq<u8>,
    poses: Seq<Position>,
    values: Seq<Json>,
)
    requires
        values_are(data, poses, values),
    ensures
        are_readable_entries(data, poses),
{
    assert forall|i: int| 0 <= i < poses.len() implies is_entry(#[trigger] poses[i]) && is_readable(
        data,
        poses[i],
    ) by {
        assert(value_at(data, poses[i]) == Some(values[i]));
        lemma_position(data, poses[i]);
    }
}

/// The first values of an array are the first values that it was made of.
proof fn lemma_array_values(
    data: Seq<u8>,
    poses: Seq<Position>,
    values: Seq<Json>,
    k: nat,
)
    requires
        are_readable_entries(data, poses),
        fits_array(poses),
        values_are(data, poses, values),
        k <= poses.len(),
    ensures
        entry_values(array_document(data, poses), 4, 4int + 4 * poses.len(), k) == Some(
            values.take(k as int),
        ),
    decreases k,
{
    let out = array_document(data, poses);
    if k > 0 {
        let i = k - 1;
        lemma_array_values(data, poses, values, i as nat);
        lemma_array_jentry(data, poses, i);
        lemma_array_entry(data, poses, i);
        lemma_position(data, poses[i]);
        assert(value_at(data, poses[i]) == Some(values[i]));
        assert(values.take(k as int) =~= values.take(i).push(values[i]));
    } else {
        assert(values.take(0) =~= Seq::empty());
    }
}

/// A document that was made of several values is the array of those values.
pub(crate) proof fn lemma_array_document(data: Seq<u8>, poses: Seq<Position>, values: Seq<Json>)
    requires
        fits_array(poses),
        values_are(data, poses, values),
    ensures
        container_value(array_document(data, poses)) == Some(Json::Array(values)),
{
    reveal(container_value);
    lemma_well_formed_entries(data, poses, values);
    lemma_array_header(data, poses);
    lemma_array_values(data, poses, values, poses.len());
    lemma_descriptors(poses);
    assert(values.take(poses.len() as int) =~= values);
}

/// The document of a truth value has that value.
pub(crate) proof fn lemma_boolean_document(value: bool)
    ensures
        container_value(boolean_document(value)) == Some(Json::Document(Scalar::Boolean(value))),
{
    reveal(container_value);
    lemma_entry_kinds();
    let bytes = boolean_document(value);
    let tag = if value {
        TRUE_TAG
    } else {
        FALSE_TAG
    };
    assert(bytes.subrange(0, 4) =~= u32_bytes(SCALAR_CONTAINER_TAG));
    assert(bytes.subrange(4, 8) =~= u32_bytes(tag));
    lemma_word_reads_back(bytes, 0, SCALAR_CONTAINER_TAG);
    lemma_word_reads_back(bytes, 4, tag);
    assert(TRUE_TAG & JENTRY_OFF_LEN_MASK == 0) by (bit_vector);
    assert(FALSE_TAG & JENTRY_OFF_LEN_MASK == 0) by (bit_vector);
}

/// A value of an array, taken out of it, is the document that it was before.
pub(crate) proof fn lemma_array_child(data: Seq<u8>, poses: Seq<Position>, i: int)
    requires
        are_readable_entries(data, poses),
        fits_array(poses),
        array_document(data, poses).len() <= usize::MAX,
        0 <= i < poses.len(),
    ensures
        ({
            let out = array_document(data, poses);
            let pos = child(out, 4, 4int + 4 * poses.len(), i);
            is_readable(out, pos) && value_document(out, pos) == value_document(data, poses[i])
        }),
{
    let out = array_document(data, poses);
    let pos = child(out, 4, 4int + 4 * poses.len(), i);
    lemma_array_jentry(data, poses, i);
    lemma_array_entry(data, poses, i);
    assert(content(out, pos) =~= content(data, poses[i]));
    assert(descriptor(pos) == descriptor(poses[i]));
}

} // verus!
