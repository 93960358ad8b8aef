//! Laws of what is returned, in any document: the bytes of the returned documents,
//! and how the modes differ.

use vstd::prelude::*;

use crate::document::as_document;
use crate::document::Json;
use crate::outcome::Outcome;
use crate::path::JsonPath;
use crate::path::Scalar;
use crate::raw::documents;
use crate::raw::OwnedJsonb;
use crate::raw::RawJsonb;
use crate::readback::lemma_contents;
use crate::readback::lemma_descriptors;
use crate::readback::lemma_word_reads_back;
use crate::selector::selection;
use crate::selector::Mode;
use crate::semantics::array_document;
use crate::semantics::array_documents;
use crate::semantics::boolean_document;
use crate::semantics::content;
use crate::semantics::contents;
use crate::semantics::descriptor;
use crate::semantics::descriptors;
use crate::semantics::is_readable;
use crate::semantics::positions;
use crate::semantics::value_document;
use crate::semantics::value_documents;
use crate::semantics::Position;
use crate::wire::u32_at;
use crate::wire::u32_bytes;

verus! {

/// A document is its bytes, and the bytes of returned documents are those that they own.
pub proof fn law_owned_documents(raw: RawJsonb, owned: Seq<OwnedJsonb>, i: int)
    ensures
        raw@ == raw.data@,
        documents(owned).len() == owned.len(),
        0 <= i < owned.len() ==> documents(owned)[i] == owned[i].data@,
{
}

/// A container is returned as it stands in the document. A scalar is returned behind
/// the header of a lone scalar and its descriptor. What does not lie in the document
/// cannot be returned, but for a scalar without bytes, which lies nowhere.
pub proof fn law_document_of_one_value(data: Seq<u8>, ty: u32, offset: usize, length: usize)
    ensures
        value_documents(data, seq![Position::Container((offset, length))]) == (if offset + length
            <= data.len() {
            Outcome::Done(seq![data.subrange(offset as int, offset + length)])
        } else {
            Outcome::Undefined
        }),
        0 < length && offset + length <= data.len() ==> value_documents(
            data,
            seq![Position::Scalar((ty, offset, length))],
        ) == Outcome::Done(
            seq![
                seq![0x20u8, 0u8, 0u8, 0u8] + u32_bytes(ty | (length as u32)) + data.subrange(
                    offset as int,
                    offset + length,
                ),
            ],
        ),
        length == 0 ==> value_documents(data, seq![Position::Scalar((ty, offset, length))])
            == Outcome::Done(seq![seq![0x20u8, 0u8, 0u8, 0u8] + u32_bytes(ty)]),
        0 < length && offset + length > data.len() ==> value_documents(
            data,
            seq![Position::Scalar((ty, offset, length))],
        ) is Undefined,
{
    let container = seq![Position::Container((offset, length))];
    let scalar = seq![Position::Scalar((ty, offset, length))];
    assert(container[0] == Position::Container((offset, length)));
    assert(scalar[0] == Position::Scalar((ty, offset, length)));
    assert(u32_bytes(0x2000_0000) =~= seq![0x20u8, 0u8, 0u8, 0u8]);
    assert(ty | 0u32 == ty) by (bit_vector);
    if offset + length <= data.len() {
        assert(value_documents(data, container)->Done_0 =~= seq![
            data.subrange(offset as int, offset + length),
        ]);
        if length > 0 {
            assert(value_documents(data, scalar)->Done_0 =~= seq![
                seq![0x20u8, 0u8, 0u8, 0u8] + u32_bytes(ty | (length as u32)) + data.subrange(
                    offset as int,
                    offset + length,
                ),
            ]);
        }
    }
    if length == 0 {
        let bytes = seq![0x20u8, 0u8, 0u8, 0u8] + u32_bytes(ty);
        assert(value_document(data, scalar[0]) =~= bytes);
        assert(value_documents(data, scalar)->Done_0 =~= seq![bytes]);
    }
}

/// Values are returned one by one: the documents of all are those of the first ones,
/// then those of the others.
pub proof fn law_documents_go_piece_by_piece(
    data: Seq<u8>,
    first: Seq<Position>,
    rest: Seq<Position>,
)
    ensures
        value_documents(data, Seq::empty()) == Outcome::Done(Seq::<Seq<u8>>::empty()),
        value_documents(data, first + rest) is Done <==> value_documents(data, first) is Done
            && value_documents(data, rest) is Done,
        value_documents(data, first + rest) matches Outcome::Done(found) ==> found
            == value_documents(data, first)->Done_0 + value_documents(data, rest)->Done_0,
        value_documents(data, first) !is Failed,
{
    let none = Seq::<Position>::empty();
    assert(Seq::new(none.len(), |i: int| value_document(data, none[i])) =~= Seq::<
        Seq<u8>,
    >::empty());
    let all = first + rest;
    assert forall|i: int| 0 <= i < first.len() implies all[i] == #[trigger] first[i] by {}
    assert forall|i: int| 0 <= i < rest.len() implies all[first.len() + i] == #[trigger] rest[i] by {
    }
    if value_documents(data, all) is Done {
        assert forall|i: int| 0 <= i < first.len() implies is_readable(data, #[trigger] first[i]) by {
            assert(is_readable(data, all[i]));
        }
        assert forall|i: int| 0 <= i < rest.len() implies is_readable(data, #[trigger] rest[i]) by {
            assert(is_readable(data, all[first.len() + i]));
        }
        assert(value_documents(data, all)->Done_0 =~= value_documents(data, first)->Done_0
            + value_documents(data, rest)->Done_0);
    }
    if value_documents(data, first) is Done && value_documents(data, rest) is Done {
        assert forall|i: int| 0 <= i < all.len() implies is_readable(data, #[trigger] all[i]) by {
            if i < first.len() {
                assert(all[i] == first[i]);
            } else {
                assert(all[i] == rest[i - first.len()]);
            }
        }
    }
}

/// Values are returned as one array if and only if they can be returned one by one.
/// The array has a header with their number, a descriptor for each of them, and then
/// their bytes, each where those of the one before end.
#[verifier::rlimit(40)]
pub proof fn law_array_of_positions(data: Seq<u8>, poses: Seq<Position>, starts: Seq<int>)
    requires
        value_documents(data, poses) is Done,
        poses.len() < 0x2000_0000,
        starts.len() == poses.len() + 1,
        starts[0] == 4 * starts.len(),
        forall|i: int|
            0 <= i < poses.len() ==> #[trigger] starts[i + 1] == starts[i] + (match poses[i] {
                Position::Container((_, length)) => length,
                Position::Scalar((_, _, length)) => length,
            }),
    ensures
        array_documents(data, poses) matches Outcome::Done(found) && {
            &&& found.len() == 1
            &&& found[0].len() == starts.last()
            &&& u32_at(found[0], 0) == 0x8000_0000 + poses.len()
            &&& forall|i: int|
                0 <= i < poses.len() ==> match #[trigger] poses[i] {
                    Position::Container((offset, length)) => {
                        &&& u32_at(found[0], 4 + 4 * i) == 0x5000_0000 | (length as u32)
                        &&& found[0].subrange(starts[i], starts[i + 1]) == data.subrange(
                            offset as int,
                            offset + length,
                        )
                    },
                    Position::Scalar((ty, offset, length)) => {
                        &&& u32_at(found[0], 4 + 4 * i) == ty | (length as u32)
                        &&& length > 0 ==> found[0].subrange(starts[i], starts[i + 1])
                            == data.subrange(offset as int, offset + length)
                    },
                }
        },
{
    let out = array_document(data, poses);
    let n = poses.len() as u32;
    let header = 0x8000_0000u32 | n;
    assert(header == 0x8000_0000 + n) by (bit_vector)
        requires
            header == 0x8000_0000u32 | n,
            n < 0x2000_0000,
    ;
    lemma_descriptors(poses);
    assert(out.subrange(0, 4) =~= u32_bytes(header));
    lemma_word_reads_back(out, 0, header);
    lemma_content_starts(data, poses, starts, poses.len());
    assert(poses.take(poses.len() as int) =~= poses);
    assert forall|i: int| 0 <= i < poses.len() implies match #[trigger] poses[i] {
        Position::Container((offset, length)) => {
            &&& u32_at(out, 4 + 4 * i) == 0x5000_0000 | (length as u32)
            &&& out.subrange(starts[i], starts[i + 1]) == data.subrange(
                offset as int,
                offset + length,
            )
        },
        Position::Scalar((ty, offset, length)) => {
            &&& u32_at(out, 4 + 4 * i) == ty | (length as u32)
            &&& length > 0 ==> out.subrange(starts[i], starts[i + 1]) == data.subrange(
                offset as int,
                offset + length,
            )
        },
    } by {
        let pos = poses[i];
        assert(out.subrange(4 + 4 * i, 4 + 4 * i + 4) =~= descriptors(poses).subrange(
            4 * i,
            4 * i + 4,
        ));
        lemma_word_reads_back(out, 4 + 4 * i, descriptor(pos));
        lemma_content_starts(data, poses, starts, i as nat);
        lemma_content_starts(data, poses, starts, (i + 1) as nat);
        lemma_contents(data, poses, i);
        assert(is_readable(data, poses[i]));
        let bytes = content(data, pos);
        let from = contents(data, poses.take(i)).len() as int;
        assert(out.subrange(starts[i], starts[i + 1]) =~= contents(data, poses).subrange(
            from,
            from + bytes.len(),
        ));
    }
}

/// The bytes of the first values of an array end where the next value starts.
proof fn lemma_content_starts(data: Seq<u8>, poses: Seq<Position>, starts: Seq<int>, k: nat)
    requires
        value_documents(data, poses) is Done,
        starts.len() == poses.len() + 1,
        forall|i: int|
            0 <= i < poses.len() ==> #[trigger] starts[i + 1] == starts[i] + (match poses[i] {
                Position::Container((_, length)) => length,
                Position::Scalar((_, _, length)) => length,
            }),
        k <= poses.len(),
    ensures
        starts[k as int] == starts[0] + contents(data, poses.take(k as int)).len(),
    decreases k,
{
    if k > 0 {
        let i = k - 1;
        lemma_content_starts(data, poses, starts, i as nat);
        assert(poses.take(k as int).drop_last() =~= poses.take(i));
        assert(is_readable(data, poses[i]));
        assert(starts[i + 1] == starts[i] + (match poses[i] {
            Position::Container((_, length)) => length,
            Position::Scalar((_, _, length)) => length,
        }));
    } else {
        assert(poses.take(0) =~= Seq::empty());
    }
}

/// A scalar of a container becomes a lone scalar when it is returned, and anything else
/// stays what it is.
pub proof fn law_values_as_documents(value: Json, s: Scalar)
    ensures
        as_document(Json::Leaf(s)) == Json::Document(s),
        value !is Leaf ==> as_document(value) == value,
{
}

/// What the modes return, in terms of the positions that the path leads to: each
/// value, the first value, one array, or one array where there are several values.
/// A path that fails makes every mode fail.
#[verifier::rlimit(40)]
pub proof fn law_modes(data: Seq<u8>, json_path: JsonPath)
    requires
        !json_path.predicate(),
    ensures
        match positions(data, None, json_path.paths@) {
            Outcome::Done(poses) => {
                &&& selection(data, json_path, Mode::All) == value_documents(data, poses)
                &&& selection(data, json_path, Mode::Array) == array_documents(data, poses)
                &&& poses.len() == 0 ==> {
                    &&& selection(data, json_path, Mode::First) == Outcome::Done(
                        Seq::<Seq<u8>>::empty(),
                    )
                    &&& selection(data, json_path, Mode::Mixed) == Outcome::Done(
                        Seq::<Seq<u8>>::empty(),
                    )
                }
                &&& poses.len() > 0 ==> selection(data, json_path, Mode::First) == value_documents(
                    data,
                    seq![poses[0]],
                )
                &&& poses.len() == 1 ==> selection(data, json_path, Mode::Mixed) == value_documents(
                    data,
                    seq![poses[0]],
                )
                &&& poses.len() > 1 ==> selection(data, json_path, Mode::Mixed) == array_documents(
                    data,
                    poses,
                )
            },
            Outcome::Failed(e) => forall|mode: Mode| #[trigger] selection(data, json_path, mode)
                == Outcome::<Seq<Seq<u8>>>::Failed(e),
            Outcome::Undefined => true,
        },
{
    if let Outcome::Done(poses) = positions(data, None, json_path.paths@) {
        law_documents_go_piece_by_piece(data, poses, poses);
        if poses.len() == 0 {
            assert(poses =~= Seq::empty());
        } else {
            assert(poses.take(1) =~= seq![poses[0]]);
            if poses.len() == 1 {
                assert(poses =~= seq![poses[0]]);
            }
        }
    }
}

/// A predicate returns one document, the truth value of whether its path leads
/// anywhere, in every mode. A predicate that fails returns its error.
#[verifier::rlimit(40)]
pub proof fn law_predicate_bytes(data: Seq<u8>, json_path: JsonPath, mode: Mode)
    requires
        json_path.predicate(),
    ensures
        match positions(data, None, json_path.paths@) {
            Outcome::Done(poses) => selection(data, json_path, mode) == Outcome::Done(
                seq![
                    seq![
                        0x20u8,
                        0u8,
                        0u8,
                        0u8,
                        if poses == Seq::<Position>::empty() {
                            0x30u8
                        } else {
                            0x40u8
                        },
                        0u8,
                        0u8,
                        0u8,
                    ],
                ],
            ),
            Outcome::Failed(e) => selection(data, json_path, mode) == Outcome::<
                Seq<Seq<u8>>,
            >::Failed(e),
            Outcome::Undefined => true,
        },
{
    if let Outcome::Done(poses) = positions(data, None, json_path.paths@) {
        assert(poses.len() == 0 ==> poses =~= Seq::empty());
        lemma_boolean_bytes(poses.len() > 0);
    }
}

/// The bytes of a truth value.
proof fn lemma_boolean_bytes(value: bool)
    ensures
        boolean_document(value) == seq![
            0x20u8,
            0u8,
            0u8,
            0u8,
            if value {
                0x40u8
            } else {
                0x30u8
            },
            0u8,
            0u8,
            0u8,
        ],
{
}

} // verus!
