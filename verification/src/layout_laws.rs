//! Laws of the binary format: where the values of a document lie, what they are,
//! and how the returned documents are laid out.

use vstd::prelude::*;

use crate::correspondence::lemma_entries_len_bound;
use crate::correspondence::lemma_entry_values;
use crate::document::container_value;
use crate::document::entry_bytes;
use crate::document::entry_start;
use crate::document::entry_value;
use crate::document::entry_values;
use crate::document::value_at;
use crate::document::Json;
use crate::error::Error;
use crate::outcome::Outcome;
use crate::readback::lemma_word_reads_back;
use crate::semantics::array_values;
use crate::semantics::child;
use crate::semantics::count_at;
use crate::semantics::entries_len;
use crate::semantics::key_from;
use crate::semantics::kind_at;
use crate::semantics::object_base;
use crate::semantics::object_values;
use crate::semantics::scalar_at;
use crate::semantics::value_by_name;
use crate::semantics::Position;
use crate::wire::jentry_at;
use crate::wire::u32_at;
use crate::wire::u32_bytes;

verus! {

/// A header holds the kind of a container in its top three bits and the number of
/// its entries in the others.
pub proof fn law_headers(data: Seq<u8>, offset: int)
    ensures
        kind_at(data, offset) == u32_at(data, offset) / 0x2000_0000 * 0x2000_0000,
        count_at(data, offset) == u32_at(data, offset) % 0x2000_0000,
{
    let word = u32_at(data, offset);
    assert(word & 0xE000_0000 == word / 0x2000_0000 * 0x2000_0000) by (bit_vector);
    assert(word & 0x1FFF_FFFF == word % 0x2000_0000) by (bit_vector);
}

/// A descriptor holds the kind of an entry in three bits below the top one and its
/// length in the bits below those.
pub proof fn law_descriptors(data: Seq<u8>, at: int)
    ensures
        jentry_at(data, at).0 == u32_at(data, at) / 0x1000_0000 % 8 * 0x1000_0000,
        jentry_at(data, at).1 == u32_at(data, at) % 0x1000_0000,
{
    let word = u32_at(data, at);
    assert(word & 0x7000_0000 == word / 0x1000_0000 % 8 * 0x1000_0000) by (bit_vector);
    assert(word & 0x0FFF_FFFF == word % 0x1000_0000) by (bit_vector);
}

/// A number is read back from the four bytes that it is written as.
pub proof fn law_words_read_back(n: u32)
    ensures
        u32_bytes(n).len() == 4,
        u32_at(u32_bytes(n), 0) == n,
        u32_at(u32_bytes(n), 0) == u32_bytes(n)[0] * 0x100_0000 + u32_bytes(n)[1] * 0x1_0000
            + u32_bytes(n)[2] * 0x100 + u32_bytes(n)[3],
{
    let bytes = u32_bytes(n);
    assert(bytes.subrange(0, 4) =~= bytes);
    lemma_word_reads_back(bytes, 0, n);
}

/// Each entry starts after the lengths of those before it.
proof fn lemma_starts(data: Seq<u8>, table: int, starts: Seq<int>, i: nat)
    requires
        forall|k: int|
            0 <= k < starts.len() - 1 ==> #[trigger] starts[k + 1] == starts[k] + u32_at(
                data,
                table + 4 * k,
            ) % 0x1000_0000,
        i < starts.len(),
    ensures
        starts[i as int] == starts[0] + entries_len(data, table, i),
    decreases i,
{
    if i > 0 {
        lemma_starts(data, table, starts, (i - 1) as nat);
        law_descriptors(data, table + 4 * (i - 1));
        assert(starts[(i - 1) + 1] == starts[i - 1] + u32_at(data, table + 4 * (i - 1))
            % 0x1000_0000);
    }
}

/// The lengths of entries add up piece by piece.
proof fn lemma_entries_len_adds(data: Seq<u8>, table: int, j: nat, k: nat)
    ensures
        entries_len(data, table, j + k) == entries_len(data, table, j) + entries_len(
            data,
            table + 4 * j,
            k,
        ),
    decreases k,
{
    if k > 0 {
        lemma_entries_len_adds(data, table, j, (k - 1) as nat);
        assert(table + 4 * j + 4 * (k - 1) == table + 4 * (j + k - 1));
        assert(((j + k) - 1) as nat == j + (k - 1) as nat);
    }
}

/// In any document, the values of an array are its entries, one position for each:
/// they start behind the descriptors, each where the one before it ends, and have
/// the lengths and the kinds that the descriptors tell.
pub proof fn law_array_positions(data: Seq<u8>, offset: usize, length: usize, starts: Seq<int>)
    requires
        offset + 4 <= data.len(),
        u32_at(data, offset as int) / 0x2000_0000 == 4,
        starts.len() == u32_at(data, offset as int) % 0x2000_0000 + 1,
        offset + 4 * starts.len() <= data.len(),
        starts[0] == offset + 4 * starts.len(),
        forall|k: int|
            0 <= k < starts.len() - 1 ==> #[trigger] starts[k + 1] == starts[k] + u32_at(
                data,
                offset + 4 + 4 * k,
            ) % 0x1000_0000,
        starts.last() <= usize::MAX,
    ensures
        array_values(data, offset, length) matches Outcome::Done(found) && {
            &&& found.len() == starts.len() - 1
            &&& forall|i: int|
                0 <= i < found.len() ==> {
                    let word = u32_at(data, offset + 4 + 4 * i);
                    #[trigger] found[i] == if word / 0x1000_0000 % 8 == 5 {
                        Position::Container((starts[i] as usize, (word % 0x1000_0000) as usize))
                    } else {
                        Position::Scalar(
                            (
                                (word / 0x1000_0000 % 8 * 0x1000_0000) as u32,
                                starts[i] as usize,
                                (word % 0x1000_0000) as usize,
                            ),
                        )
                    }
                }
        },
{
    let o = offset as int;
    law_headers(data, o);
    let n = count_at(data, o);
    lemma_starts(data, o + 4, starts, n);
    let found = array_values(data, offset, length)->Done_0;
    assert forall|i: int| 0 <= i < found.len() implies {
        let word = u32_at(data, offset + 4 + 4 * i);
        #[trigger] found[i] == if word / 0x1000_0000 % 8 == 5 {
            Position::Container((starts[i] as usize, (word % 0x1000_0000) as usize))
        } else {
            Position::Scalar(
                (
                    (word / 0x1000_0000 % 8 * 0x1000_0000) as u32,
                    starts[i] as usize,
                    (word % 0x1000_0000) as usize,
                ),
            )
        }
    } by {
        lemma_starts(data, o + 4, starts, i as nat);
        law_descriptors(data, o + 4 + 4 * i);
    }
}

/// `[*]` fails if a header or the descriptors of an array are cut off, and gives
/// back whatever is no array.
pub proof fn law_array_positions_fail(data: Seq<u8>, offset: usize, length: usize)
    requires
        offset <= data.len(),
    ensures
        data.len() < offset + 4 ==> array_values(data, offset, length) == Outcome::<
            Seq<Position>,
        >::Failed(Error::InvalidJsonb),
        data.len() >= offset + 4 ==> {
            let word = u32_at(data, offset as int);
            &&& word / 0x2000_0000 != 4 ==> array_values(data, offset, length) == Outcome::Done(
                seq![Position::Container((offset, length))],
            )
            &&& word / 0x2000_0000 == 4 && data.len() < offset + 4 + 4 * (word % 0x2000_0000)
                ==> array_values(data, offset, length) == Outcome::<Seq<Position>>::Failed(
                Error::InvalidJsonb,
            )
        },
{
    law_headers(data, offset as int);
}

/// In any document, the values of an object are the second half of its entries: the
/// first half are its keys. They start behind the descriptors, each where the one
/// before it ends, and have the lengths and the kinds that the descriptors tell.
pub proof fn law_object_positions(data: Seq<u8>, offset: int, starts: Seq<int>)
    requires
        0 <= offset,
        offset + 4 <= data.len(),
        u32_at(data, offset) / 0x2000_0000 == 2,
        starts.len() == 2 * (u32_at(data, offset) % 0x2000_0000) + 1,
        offset + 4 * starts.len() <= data.len(),
        starts[0] == offset + 4 * starts.len(),
        forall|k: int|
            0 <= k < starts.len() - 1 ==> #[trigger] starts[k + 1] == starts[k] + u32_at(
                data,
                offset + 4 + 4 * k,
            ) % 0x1000_0000,
        starts.last() <= usize::MAX,
    ensures
        object_values(data, offset) matches Outcome::Done(found) && {
            let n = u32_at(data, offset) % 0x2000_0000;
            &&& found.len() == n
            &&& forall|i: int|
                0 <= i < found.len() ==> {
                    let word = u32_at(data, offset + 4 + 4 * (n + i));
                    #[trigger] found[i] == if word / 0x1000_0000 % 8 == 5 {
                        Position::Container((starts[n + i] as usize, (word % 0x1000_0000) as usize))
                    } else {
                        Position::Scalar(
                            (
                                (word / 0x1000_0000 % 8 * 0x1000_0000) as u32,
                                starts[n + i] as usize,
                                (word % 0x1000_0000) as usize,
                            ),
                        )
                    }
                }
        },
{
    law_headers(data, offset);
    let n = count_at(data, offset);
    lemma_starts(data, offset + 4, starts, (n + n) as nat);
    lemma_entries_len_adds(data, offset + 4, n, n);
    let found = object_values(data, offset)->Done_0;
    assert forall|i: int| 0 <= i < found.len() implies {
        let word = u32_at(data, offset + 4 + 4 * (n + i));
        #[trigger] found[i] == if word / 0x1000_0000 % 8 == 5 {
            Position::Container((starts[n + i] as usize, (word % 0x1000_0000) as usize))
        } else {
            Position::Scalar(
                (
                    (word / 0x1000_0000 % 8 * 0x1000_0000) as u32,
                    starts[n + i] as usize,
                    (word % 0x1000_0000) as usize,
                ),
            )
        }
    } by {
        lemma_member(data, offset, starts, n, i);
    }
}

/// The position of a value of an object.
proof fn lemma_member(data: Seq<u8>, offset: int, starts: Seq<int>, n: nat, i: int)
    requires
        0 <= i < n,
        n == count_at(data, offset),
        starts.len() == 2 * n + 1,
        starts[0] == offset + 4 * starts.len(),
        forall|k: int|
            0 <= k < starts.len() - 1 ==> #[trigger] starts[k + 1] == starts[k] + u32_at(
                data,
                offset + 4 + 4 * k,
            ) % 0x1000_0000,
    ensures
        object_base(data, offset) == starts[n as int],
        object_base(data, offset) + entries_len(data, offset + 4 + 4 * n, i as nat) == starts[n
            + i],
        child(data, offset + 4 + 4 * n, object_base(data, offset), i) == ({
            let word = u32_at(data, offset + 4 + 4 * (n + i));
            if word / 0x1000_0000 % 8 == 5 {
                Position::Container((starts[n + i] as usize, (word % 0x1000_0000) as usize))
            } else {
                Position::Scalar(
                    (
                        (word / 0x1000_0000 % 8 * 0x1000_0000) as u32,
                        starts[n + i] as usize,
                        (word % 0x1000_0000) as usize,
                    ),
                )
            }
        }),
{
    lemma_starts(data, offset + 4, starts, n);
    lemma_starts(data, offset + 4, starts, (n + i) as nat);
    lemma_entries_len_adds(data, offset + 4, n, i as nat);
    law_descriptors(data, offset + 4 + 4 * n + 4 * i);
    assert(offset + 4 + 4 * n + 4 * i == offset + 4 + 4 * (n + i));
}

/// `.*` and names fail if a header or the descriptors of an object are cut off, and
/// select nothing from an empty object or from what is no object.
pub proof fn law_object_positions_fail(data: Seq<u8>, offset: int, name: Seq<u8>)
    requires
        0 <= offset <= data.len(),
    ensures
        data.len() < offset + 4 ==> {
            &&& object_values(data, offset) == Outcome::<Seq<Position>>::Failed(Error::InvalidJsonb)
            &&& value_by_name(data, offset, name) == Outcome::<Seq<Position>>::Failed(
                Error::InvalidJsonb,
            )
        },
        data.len() >= offset + 4 ==> {
            let word = u32_at(data, offset);
            &&& word / 0x2000_0000 != 2 || word % 0x2000_0000 == 0 ==> {
                &&& object_values(data, offset) == Outcome::Done(Seq::<Position>::empty())
                &&& value_by_name(data, offset, name) == Outcome::Done(Seq::<Position>::empty())
            }
            &&& word / 0x2000_0000 == 2 && word % 0x2000_0000 > 0 && data.len() < offset + 4 + 8 * (
            word % 0x2000_0000) ==> {
                &&& object_values(data, offset) == Outcome::<Seq<Position>>::Failed(
                    Error::InvalidJsonb,
                )
                &&& value_by_name(data, offset, name) == Outcome::<Seq<Position>>::Failed(
                    Error::InvalidJsonb,
                )
            }
        },
{
    law_headers(data, offset);
}

/// In any document, a name is compared, byte for byte, to the keys of an object in
/// order, but only to those that have its length. The first key that is equal
/// decides which value is selected; a key that is cut off before makes the search
/// fail; without either, nothing is selected.
#[verifier::rlimit(40)]
pub proof fn law_name_search(data: Seq<u8>, offset: int, name: Seq<u8>, starts: Seq<int>, i: int)
    requires
        0 <= offset,
        offset + 4 <= data.len(),
        u32_at(data, offset) / 0x2000_0000 == 2,
        u32_at(data, offset) % 0x2000_0000 > 0,
        starts.len() == 2 * (u32_at(data, offset) % 0x2000_0000) + 1,
        offset + 4 * starts.len() <= data.len(),
        starts[0] == offset + 4 * starts.len(),
        forall|k: int|
            0 <= k < starts.len() - 1 ==> #[trigger] starts[k + 1] == starts[k] + u32_at(
                data,
                offset + 4 + 4 * k,
            ) % 0x1000_0000,
        starts.last() <= usize::MAX,
        0 <= i <= u32_at(data, offset) % 0x2000_0000,
        forall|k: int|
            0 <= k < i ==> {
                ||| #[trigger] starts[k + 1] - starts[k] != name.len()
                ||| starts[k + 1] <= data.len() && data.subrange(starts[k], starts[k + 1]) != name
            },
    ensures
        ({
            let n = u32_at(data, offset) % 0x2000_0000;
            let word = u32_at(data, offset + 4 + 4 * (n + i));
            &&& i == n ==> value_by_name(data, offset, name) == Outcome::Done(
                Seq::<Position>::empty(),
            )
            &&& i < n && starts[i + 1] <= data.len() && data.subrange(starts[i], starts[i + 1])
                == name ==> value_by_name(data, offset, name) == Outcome::Done(
                seq![
                    if word / 0x1000_0000 % 8 == 5 {
                        Position::Container((starts[n + i] as usize, (word % 0x1000_0000) as usize))
                    } else {
                        Position::Scalar(
                            (
                                (word / 0x1000_0000 % 8 * 0x1000_0000) as u32,
                                starts[n + i] as usize,
                                (word % 0x1000_0000) as usize,
                            ),
                        )
                    },
                ],
            )
            &&& i < n && starts[i + 1] - starts[i] == name.len() && starts[i] <= data.len()
                < starts[i + 1] ==> value_by_name(data, offset, name) == Outcome::<
                Seq<Position>,
            >::Failed(Error::InvalidJsonb)
        }),
{
    law_headers(data, offset);
    let n = count_at(data, offset);
    lemma_search_reaches(data, offset, name, starts, i as nat, 0);
    lemma_starts(data, offset + 4, starts, n);
    lemma_starts(data, offset + 4, starts, (n + n) as nat);
    lemma_entries_len_adds(data, offset + 4, n, n);
    lemma_entries_len_bound(data, offset + 4 + 4 * n, 0, n);
    if i < n {
        lemma_key(data, offset, starts, n, i);
        lemma_member(data, offset, starts, n, i);
        lemma_entries_len_bound(data, offset + 4 + 4 * n, i as nat, n);
        assert(data.subrange(starts[i], starts[i + 1]).len() == starts[i + 1] - starts[i]
            || starts[i + 1] > data.len());
    }
}

/// Where a key of an object lies.
proof fn lemma_key(data: Seq<u8>, offset: int, starts: Seq<int>, n: nat, i: int)
    requires
        0 <= i < n,
        starts.len() == 2 * n + 1,
        starts[0] == offset + 4 * starts.len(),
        forall|k: int|
            0 <= k < starts.len() - 1 ==> #[trigger] starts[k + 1] == starts[k] + u32_at(
                data,
                offset + 4 + 4 * k,
            ) % 0x1000_0000,
    ensures
        offset + 4 + 8 * n + entries_len(data, offset + 4, i as nat) == starts[i],
        jentry_at(data, offset + 4 + 4 * i).1 == starts[i + 1] - starts[i],
{
    lemma_starts(data, offset + 4, starts, i as nat);
    law_descriptors(data, offset + 4 + 4 * i);
    assert(starts[i + 1] == starts[i] + u32_at(data, offset + 4 + 4 * i) % 0x1000_0000);
}

/// A search that no key stops before key `i` reaches key `i`.
proof fn lemma_search_reaches(
    data: Seq<u8>,
    offset: int,
    name: Seq<u8>,
    starts: Seq<int>,
    i: nat,
    from: nat,
)
    requires
        0 <= offset,
        starts.len() == 2 * count_at(data, offset) + 1,
        starts[0] == offset + 4 * starts.len(),
        forall|k: int|
            0 <= k < starts.len() - 1 ==> #[trigger] starts[k + 1] == starts[k] + u32_at(
                data,
                offset + 4 + 4 * k,
            ) % 0x1000_0000,
        from <= i <= count_at(data, offset),
        forall|k: int|
            0 <= k < i ==> {
                ||| #[trigger] starts[k + 1] - starts[k] != name.len()
                ||| starts[k + 1] <= data.len() && data.subrange(starts[k], starts[k + 1]) != name
            },
    ensures
        key_from(data, offset, name, from) == key_from(data, offset, name, i),
    decreases i - from,
{
    if from < i {
        let k = from as int;
        lemma_key(data, offset, starts, count_at(data, offset), k);
        assert(starts[k + 1] - starts[k] != name.len() || starts[k + 1] <= data.len());
        lemma_search_reaches(data, offset, name, starts, i, from + 1);
    }
}

/// A well-formed document that is a lone scalar: a header, a descriptor, and as many
/// bytes as that tells.
pub proof fn law_scalar_documents(bytes: Seq<u8>)
    requires
        bytes.len() >= 4,
        u32_at(bytes, 0) / 0x2000_0000 == 1,
    ensures
        bytes.len() < 8 ==> container_value(bytes) is None,
        bytes.len() >= 8 ==> {
            let word = u32_at(bytes, 4);
            let size = (word % 0x1000_0000) as int;
            &&& 8 + size > bytes.len() ==> container_value(bytes) is None
            &&& 8 + size <= bytes.len() ==> container_value(bytes) == (match scalar_at(
                bytes,
                (word / 0x1000_0000 % 8 * 0x1000_0000) as u32,
                8,
                size,
            ) {
                Outcome::Done(s) => Some(Json::Document(s)),
                _ => None,
            })
        },
{
    reveal(container_value);
    law_headers(bytes, 0);
    law_descriptors(bytes, 4);
    if bytes.len() >= 8 {
        let size = (u32_at(bytes, 4) % 0x1000_0000) as int;
        if 8 + size <= bytes.len() {
            lemma_scalar_in_part(bytes, jentry_at(bytes, 4).0, 8, size);
        }
    }
}

/// A scalar is the same in its own bytes as in the document around them.
proof fn lemma_scalar_in_part(data: Seq<u8>, ty: u32, offset: int, length: int)
    requires
        0 <= offset,
        0 <= length,
        offset + length <= data.len(),
    ensures
        scalar_at(data.subrange(offset, offset + length), ty, 0, length) == scalar_at(
            data,
            ty,
            offset,
            length,
        ),
{
    let part = data.subrange(offset, offset + length);
    assert(part.subrange(0, length) =~= part);
}

/// Documents that are too short for a header, or whose header has no kind, are not
/// well-formed.
pub proof fn law_other_documents(bytes: Seq<u8>)
    ensures
        bytes.len() < 4 ==> container_value(bytes) is None,
        bytes.len() >= 4 && u32_at(bytes, 0) / 0x2000_0000 != 1 && u32_at(bytes, 0) / 0x2000_0000
            != 2 && u32_at(bytes, 0) / 0x2000_0000 != 4 ==> container_value(bytes) is None,
{
    reveal(container_value);
    law_headers(bytes, 0);
}

/// The value of an entry: a container is read by itself, anything else is a scalar.
pub open spec fn entry_is(data: Seq<u8>, at: int, start: int, value: Json) -> bool {
    let word = u32_at(data, at);
    let size = (word % 0x1000_0000) as int;
    if word / 0x1000_0000 % 8 == 5 {
        container_value(data.subrange(start, start + size)) == Some(value)
    } else {
        scalar_at(data, (word / 0x1000_0000 % 8 * 0x1000_0000) as u32, start, size) matches
            Outcome::Done(s) && value == Json::Leaf(s)
    }
}

/// The value of entry `i` is what its kind and its bytes make of it.
proof fn lemma_entry_is(bytes: Seq<u8>, table: int, starts: Seq<int>, i: int, value: Json)
    requires
        0 <= i < starts.len() - 1,
        0 <= starts[0],
        forall|k: int|
            0 <= k < starts.len() - 1 ==> #[trigger] starts[k + 1] == starts[k] + u32_at(
                bytes,
                table + 4 * k,
            ) % 0x1000_0000,
        starts[i + 1] <= bytes.len(),
    ensures
        entry_start(bytes, table, starts[0], i) == starts[i],
        starts[i] + jentry_at(bytes, table + 4 * i).1 == starts[i + 1],
        (entry_value(
            jentry_at(bytes, table + 4 * i).0,
            entry_bytes(bytes, table, starts[0], i),
        ) == Some(value)) == entry_is(bytes, table + 4 * i, starts[i], value),
{
    reveal(container_value);
    lemma_starts(bytes, table, starts, i as nat);
    law_descriptors(bytes, table + 4 * i);
    let size = jentry_at(bytes, table + 4 * i).1 as int;
    assert(starts[i + 1] == starts[i] + size);
    lemma_scalar_in_part(bytes, jentry_at(bytes, table + 4 * i).0, starts[i], size);
}

/// Entries that are all values make up the values of a container.
proof fn lemma_entries_make_values(
    bytes: Seq<u8>,
    table: int,
    starts: Seq<int>,
    values: Seq<Json>,
    k: nat,
)
    requires
        values.len() == starts.len() - 1,
        k <= values.len(),
        0 < starts[0],
        forall|j: int|
            0 <= j < starts.len() - 1 ==> #[trigger] starts[j + 1] == starts[j] + u32_at(
                bytes,
                table + 4 * j,
            ) % 0x1000_0000,
        starts.last() <= bytes.len(),
        forall|i: int|
            0 <= i < values.len() ==> entry_is(
                bytes,
                table + 4 * i,
                starts[i],
                #[trigger] values[i],
            ),
    ensures
        entry_values(bytes, table, starts[0], k) == Some(values.take(k as int)),
    decreases k,
{
    if k > 0 {
        let i = k - 1;
        lemma_entries_make_values(bytes, table, starts, values, i as nat);
        lemma_starts(bytes, table, starts, k);
        lemma_starts(bytes, table, starts, values.len());
        lemma_entries_len_bound(bytes, table, k, values.len());
        assert(entry_is(bytes, table + 4 * i, starts[i], values[i]));
        lemma_entry_is(bytes, table, starts, i, values[i]);
        assert(values.take(k as int) =~= values.take(i).push(values[i]));
    } else {
        assert(values.take(0) =~= Seq::empty());
    }
}

/// The values of a container are those of its entries, all of which lie inside it.
proof fn lemma_values_are_entries(bytes: Seq<u8>, table: int, starts: Seq<int>, values: Seq<Json>)
    requires
        starts.len() > 0,
        0 <= starts[0] <= bytes.len(),
        forall|j: int|
            0 <= j < starts.len() - 1 ==> #[trigger] starts[j + 1] == starts[j] + u32_at(
                bytes,
                table + 4 * j,
            ) % 0x1000_0000,
        entry_values(bytes, table, starts[0], (starts.len() - 1) as nat) == Some(values),
    ensures
        values.len() == starts.len() - 1,
        starts.last() <= bytes.len(),
        forall|i: int|
            0 <= i < values.len() ==> entry_is(
                bytes,
                table + 4 * i,
                starts[i],
                #[trigger] values[i],
            ),
{
    let n = (starts.len() - 1) as nat;
    lemma_entry_values(bytes, table, starts[0], n);
    lemma_starts(bytes, table, starts, n);
    assert forall|i: int| 0 <= i < values.len() implies entry_is(
        bytes,
        table + 4 * i,
        starts[i],
        #[trigger] values[i],
    ) by {
        let b = entry_bytes(bytes, table, starts[0], i);
        lemma_starts(bytes, table, starts, (i + 1) as nat);
        lemma_entries_len_bound(bytes, table, (i + 1) as nat, n);
        lemma_entry_is(bytes, table, starts, i, values[i]);
    }
}

/// A document is a well-formed array of values if and only if its descriptors are
/// there, its entries lie inside it, and each of them is one of the values: no more
/// of them, no less, and in order.
#[verifier::rlimit(40)]
pub proof fn law_array_documents(bytes: Seq<u8>, starts: Seq<int>, values: Seq<Json>)
    requires
        bytes.len() >= 4,
        u32_at(bytes, 0) / 0x2000_0000 == 4,
        starts.len() == u32_at(bytes, 0) % 0x2000_0000 + 1,
        starts[0] == 4 * starts.len(),
        forall|k: int|
            0 <= k < starts.len() - 1 ==> #[trigger] starts[k + 1] == starts[k] + u32_at(
                bytes,
                4 + 4 * k,
            ) % 0x1000_0000,
    ensures
        container_value(bytes) == Some(Json::Array(values)) <==> {
            &&& values.len() == starts.len() - 1
            &&& starts.last() <= bytes.len()
            &&& forall|i: int|
                0 <= i < values.len() ==> entry_is(bytes, 4 + 4 * i, starts[i], #[trigger] values[i])
        },
        container_value(bytes) is None || container_value(bytes)->0 is Array,
{
    reveal(container_value);
    law_headers(bytes, 0);
    let n = count_at(bytes, 0);
    lemma_starts(bytes, 4, starts, n);
    if container_value(bytes) == Some(Json::Array(values)) {
        lemma_values_are_entries(bytes, 4, starts, values);
    }
    if values.len() == starts.len() - 1 && starts.last() <= bytes.len() && (forall|i: int|
        0 <= i < values.len() ==> entry_is(bytes, 4 + 4 * i, starts[i], #[trigger] values[i])) {
        lemma_entries_make_values(bytes, 4, starts, values, n);
        assert(values.take(n as int) =~= values);
    }
}

/// A document is a well-formed object of members if and only if its descriptors are
/// there, its keys and its values lie inside it, and each of them is that of one of
/// the members: no more of them, no less, and in order.
#[verifier::rlimit(40)]
pub proof fn law_object_documents(
    bytes: Seq<u8>,
    starts: Seq<int>,
    members: Seq<(Seq<u8>, Json)>,
)
    requires
        bytes.len() >= 4,
        u32_at(bytes, 0) / 0x2000_0000 == 2,
        starts.len() == 2 * (u32_at(bytes, 0) % 0x2000_0000) + 1,
        starts[0] == 4 * starts.len(),
        forall|k: int|
            0 <= k < starts.len() - 1 ==> #[trigger] starts[k + 1] == starts[k] + u32_at(
                bytes,
                4 + 4 * k,
            ) % 0x1000_0000,
    ensures
        container_value(bytes) == Some(Json::Object(members)) <==> {
            let n = u32_at(bytes, 0) % 0x2000_0000;
            &&& members.len() == n
            &&& starts.last() <= bytes.len()
            &&& forall|i: int|
                0 <= i < members.len() ==> {
                    &&& (#[trigger] members[i]).0 == bytes.subrange(starts[i], starts[i + 1])
                    &&& entry_is(bytes, 4 + 4 * (n + i), starts[n + i], members[i].1)
                }
        },
        container_value(bytes) is None || container_value(bytes)->0 is Object,
{
    reveal(container_value);
    law_headers(bytes, 0);
    let n = count_at(bytes, 0);
    let table = 4int + 4 * n;
    let later = starts.skip(n as int);
    lemma_starts(bytes, 4, starts, n);
    lemma_starts(bytes, 4, starts, (n + n) as nat);
    lemma_entries_len_adds(bytes, 4, n, n);
    assert(object_base(bytes, 0) == starts[n as int]);
    assert(later[0] == starts[n as int]);
    assert(later.last() == starts.last());
    assert forall|k: int| 0 <= k < later.len() - 1 implies #[trigger] later[k + 1] == later[k]
        + u32_at(bytes, table + 4 * k) % 0x1000_0000 by {
        assert(starts[(n + k) + 1] == starts[n + k] + u32_at(bytes, 4 + 4 * (n + k)) % 0x1000_0000);
        assert(4 + 4 * (n + k) == table + 4 * k);
    }
    assert forall|i: int| 0 <= i < n implies entry_bytes(bytes, 4, 4int + 8 * n, i)
        == #[trigger] bytes.subrange(starts[i], starts[i + 1]) by {
        lemma_key(bytes, 0, starts, n, i);
    }
    let made = entry_values(bytes, table, object_base(bytes, 0), n);
    if container_value(bytes) == Some(Json::Object(members)) {
        lemma_values_are_entries(bytes, table, later, made->0);
        assert forall|i: int| 0 <= i < members.len() implies {
            &&& (#[trigger] members[i]).0 == bytes.subrange(starts[i], starts[i + 1])
            &&& entry_is(bytes, 4 + 4 * (n + i), starts[n + i], members[i].1)
        } by {
            let value = made->0[i];
            assert(members[i].1 == value);
            assert(later[i] == starts[n + i]);
            assert(table + 4 * i == 4 + 4 * (n + i));
            assert(bytes.subrange(starts[i], starts[i + 1]) == entry_bytes(
                bytes,
                4,
                4int + 8 * n,
                i,
            ));
        }
    }
    if members.len() == n && starts.last() <= bytes.len() && (forall|i: int|
        0 <= i < members.len() ==> {
            &&& (#[trigger] members[i]).0 == bytes.subrange(starts[i], starts[i + 1])
            &&& entry_is(bytes, 4 + 4 * (n + i), starts[n + i], members[i].1)
        }) {
        let values = Seq::new(n, |i: int| members[i].1);
        assert forall|i: int| 0 <= i < values.len() implies entry_is(
            bytes,
            table + 4 * i,
            later[i],
            #[trigger] values[i],
        ) by {
            let member = members[i];
            assert(later[i] == starts[n + i]);
            assert(table + 4 * i == 4 + 4 * (n + i));
        }
        lemma_entries_make_values(bytes, table, later, values, n);
        assert(values.take(n as int) =~= values);
        lemma_entries_len_bound(bytes, table, 0, n);
        assert forall|i: int| 0 <= i < n implies #[trigger] members[i] == (
            entry_bytes(bytes, 4, 4int + 8 * n, i),
            values[i],
        ) by {
            assert(members[i].0 == bytes.subrange(starts[i], starts[i + 1]));
        }
        assert(members =~= Seq::new(
            n,
            |i: int| (entry_bytes(bytes, 4, 4int + 8 * n, i), values[i]),
        ));
    }
}

/// The value at a position: a container is read by itself, a scalar by its kind.
/// There is none where the bytes do not lie in the document.
pub proof fn law_values_at_positions(data: Seq<u8>, ty: u32, offset: usize, length: usize)
    ensures
        offset + length > data.len() ==> {
            &&& value_at(data, Position::Container((offset, length))) is None
            &&& value_at(data, Position::Scalar((ty, offset, length))) is None
        },
        offset + length <= data.len() ==> value_at(data, Position::Container((offset, length)))
            == container_value(data.subrange(offset as int, offset + length)),
        offset + length <= data.len() && length < 0x1000_0000 ==> value_at(
            data,
            Position::Scalar((ty, offset, length)),
        ) == (match scalar_at(data, ty, offset as int, length as int) {
            Outcome::Done(s) => Some(Json::Leaf(s)),
            _ => None,
        }),
{
    if offset + length <= data.len() {
        lemma_scalar_in_part(data, ty, offset as int, length as int);
    }
}

} // verus!
