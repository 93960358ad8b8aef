//! Returning what was selected.

use std::collections::VecDeque;
use vstd::prelude::*;

use crate::constants::ARRAY_CONTAINER_TAG;
use crate::constants::CONTAINER_TAG;
use crate::constants::FALSE_TAG;
use crate::constants::SCALAR_CONTAINER_TAG;
use crate::constants::TRUE_TAG;
use crate::error::Error;
use crate::outcome::Outcome;
use crate::raw::bytes_at;
use crate::raw::documents;
use crate::raw::OwnedJsonb;
use crate::raw::RawJsonb;
use crate::selector::Selector;
use crate::semantics::array_document;
use crate::semantics::array_documents;
use crate::semantics::boolean_document;
use crate::semantics::content;
use crate::semantics::contents;
use crate::semantics::descriptor;
use crate::semantics::descriptors;
use crate::semantics::is_readable;
use crate::semantics::value_document;
use crate::semantics::value_documents;
use crate::semantics::Position;
use crate::wire::put_u32;
use crate::wire::u32_bytes;

verus! {

/// Appends `bytes` to `data`.
fn put_bytes(data: &mut Vec<u8>, bytes: &[u8])
    ensures
        final(data)@ == old(data)@ + bytes@,
{
    data.extend_from_slice(bytes);
    assert(data@ =~= old(data)@ + bytes@);
}

/// Appends four zero bytes to `data`, to be overwritten later.
fn put_placeholder(data: &mut Vec<u8>)
    ensures
        final(data)@ == old(data)@ + seq![0u8, 0u8, 0u8, 0u8],
{
    data.push(0);
    data.push(0);
    data.push(0);
    data.push(0);
    assert(data@ =~= old(data)@ + seq![0u8, 0u8, 0u8, 0u8]);
}

/// Puts the four bytes of `n`, most significant first, in the place of those at `at`.
fn overwrite_u32(data: &mut Vec<u8>, at: usize, n: u32)
    requires
        at + 4 <= old(data)@.len(),
    ensures
        final(data)@ == old(data)@.take(at as int) + u32_bytes(n) + old(data)@.skip(at + 4),
{
    assert(data@.len() == data.len());
    data[at] = (n / 0x100_0000) as u8;
    data[at + 1] = (n / 0x1_0000 % 0x100) as u8;
    data[at + 2] = (n / 0x100 % 0x100) as u8;
    data[at + 3] = (n % 0x100) as u8;
    assert(data@ =~= old(data)@.take(at as int) + u32_bytes(n) + old(data)@.skip(at + 4));
}

impl<'a> Selector<'a> {
    /// `true` if a position is left, `false` if none is.
    pub(crate) fn build_predicate_result(poses: &mut VecDeque<Position>) -> (res: Result<
        Vec<OwnedJsonb>,
        Error,
    >)
        ensures
            res matches Ok(owned) && documents(owned@) == seq![
                boolean_document(old(poses)@.len() > 0),
            ],
            final(poses)@ == (if old(poses)@.len() > 0 {
                old(poses)@.skip(1)
            } else {
                old(poses)@
            }),
    {
        let ghost before = poses@;
        let jentry: u32 = match poses.pop_front() {
            Some(_) => TRUE_TAG,
            None => FALSE_TAG,
        };
        assert(before.len() > 0 ==> poses@ =~= before.skip(1));
        let mut data: Vec<u8> = Vec::with_capacity(8);
        match put_u32(&mut data, SCALAR_CONTAINER_TAG) {
            Ok(()) => {},
            Err(e) => {
                return Err(e);
            },
        }
        match put_u32(&mut data, jentry) {
            Ok(()) => {},
            Err(e) => {
                return Err(e);
            },
        }
        let mut owned_jsonbs: Vec<OwnedJsonb> = Vec::new();
        assert(data@ =~= boolean_document(before.len() > 0));
        owned_jsonbs.push(OwnedJsonb::new(data));
        assert(documents(owned_jsonbs@) =~= seq![boolean_document(before.len() > 0)]);
        Ok(owned_jsonbs)
    }

    /// The value at each position as a document.
    pub(crate) fn build_values(root: RawJsonb<'_>, poses: &mut VecDeque<Position>) -> (res: Result<
        Vec<OwnedJsonb>,
        Error,
    >)
        requires
            value_documents(root@, old(poses)@) !is Undefined,
        ensures
            res matches Ok(owned) && value_documents(root@, old(poses)@) == Outcome::Done(
                documents(owned@),
            ),
            final(poses)@ == Seq::<Position>::empty(),
    {
        let ghost start = poses@;
        let mut owned_jsonbs: Vec<OwnedJsonb> = Vec::with_capacity(poses.len());
        assert(start.skip(0) =~= start);
        let ghost mut k: int = 0;
        while poses.len() > 0
            invariant
                0 <= k <= start.len(),
                poses@ == start.skip(k),
                forall|i: int| 0 <= i < start.len() ==> is_readable(root@, #[trigger] start[i]),
                documents(owned_jsonbs@) == Seq::new(
                    k as nat,
                    |i: int| value_document(root@, start[i]),
                ),
            decreases poses@.len(),
        {
            let pos: Position = poses.pop_front().unwrap();
            assert(pos == start[k]);
            assert(poses@ =~= start.skip(k + 1));
            let mut data: Vec<u8> = Vec::new();
            match pos {
                Position::Container((offset, length)) => {
                    put_bytes(&mut data, bytes_at(root, offset, length));
                },
                Position::Scalar((ty, offset, length)) => {
                    match put_u32(&mut data, SCALAR_CONTAINER_TAG) {
                        Ok(()) => {},
                        Err(e) => {
                            return Err(e);
                        },
                    }
                    let jentry: u32 = ty | length as u32;
                    match put_u32(&mut data, jentry) {
                        Ok(()) => {},
                        Err(e) => {
                            return Err(e);
                        },
                    }
                    if length > 0 {
                        put_bytes(&mut data, bytes_at(root, offset, length));
                    }
                },
            }
            assert(data@ =~= value_document(root@, pos));
            let ghost done = owned_jsonbs@;
            owned_jsonbs.push(OwnedJsonb::new(data));
            proof {
                k = k + 1;
                assert(documents(owned_jsonbs@) =~= documents(done).push(
                    value_document(root@, pos),
                ));
                assert(documents(owned_jsonbs@) =~= Seq::new(
                    k as nat,
                    |i: int| value_document(root@, start[i]),
                ));
            }
        }
        Ok(owned_jsonbs)
    }

    /// The values at all positions as one array.
    pub(crate) fn build_scalar_array(root: RawJsonb<'_>, poses: &mut VecDeque<Position>) -> (res: Result<
        Vec<OwnedJsonb>,
        Error,
    >)
        requires
            array_documents(root@, old(poses)@) !is Undefined,
        ensures
            res matches Ok(owned) && array_documents(root@, old(poses)@) == Outcome::Done(
                documents(owned@),
            ),
            final(poses)@ == Seq::<Position>::empty(),
    {
        let ghost start = poses@;
        let mut data: Vec<u8> = Vec::new();
        let len: usize = poses.len();
        let header: u32 = ARRAY_CONTAINER_TAG | len as u32;
        match put_u32(&mut data, header) {
            Ok(()) => {},
            Err(e) => {
                return Err(e);
            },
        }
        let mut jentry_offset: usize = data.len();
        // Reserve space for the descriptors.
        let mut i: usize = 0;
        while i < len
            invariant
                i <= len,
                data@.len() == 4 + 4 * i,
                data@.take(4) == u32_bytes(header),
            decreases len - i,
        {
            let ghost before = data@;
            put_placeholder(&mut data);
            assert(data@.take(4) =~= before.take(4));
            i += 1;
        }
        let ghost mut k: int = 0;
        let ghost mut table = Seq::<u8>::empty();
        let ghost mut space = data@.skip(4);
        let ghost mut written = Seq::<u8>::empty();
        proof {
            assert(start.skip(0) =~= start);
            assert(start.take(0) =~= Seq::empty());
            assert(data@ =~= u32_bytes(header) + table + space + written);
        }
        while poses.len() > 0
            invariant
                0 <= k <= len,
                len == start.len(),
                poses@ == start.skip(k),
                forall|i: int| 0 <= i < start.len() ==> is_readable(root@, #[trigger] start[i]),
                data@ == u32_bytes(header) + table + space + written,
                table == descriptors(start.take(k)),
                table.len() == 4 * k,
                space.len() == 4 * (len - k),
                written == contents(root@, start.take(k)),
                jentry_offset == 4 + 4 * k,
            decreases poses@.len(),
        {
            let pos: Position = poses.pop_front().unwrap();
            assert(pos == start[k]);
            assert(poses@ =~= start.skip(k + 1));
            let ghost before = data@;
            let jentry: u32 = match pos {
                Position::Container((offset, length)) => {
                    put_bytes(&mut data, bytes_at(root, offset, length));
                    CONTAINER_TAG | length as u32
                },
                Position::Scalar((ty, offset, length)) => {
                    if length > 0 {
                        put_bytes(&mut data, bytes_at(root, offset, length));
                    }
                    ty | length as u32
                },
            };
            assert(data@ =~= before + content(root@, pos));
            assert(jentry == descriptor(pos));
            overwrite_u32(&mut data, jentry_offset, jentry);
            assert(data@.len() == data.len());
            jentry_offset += 4;
            proof {
                let next = start.take(k + 1);
                assert(next.drop_last() =~= start.take(k));
                assert(next.last() == pos);
                let added = written + content(root@, pos);
                let longer = table + u32_bytes(jentry);
                assert(data@ =~= u32_bytes(header) + longer + space.skip(4) + added);
                table = longer;
                space = space.skip(4);
                written = added;
                k = k + 1;
            }
        }
        proof {
            assert(start.take(k) =~= start);
            assert(data@ =~= array_document(root@, start));
        }
        let mut owned_jsonbs: Vec<OwnedJsonb> = Vec::new();
        owned_jsonbs.push(OwnedJsonb::new(data));
        assert(documents(owned_jsonbs@) =~= seq![array_document(root@, start)]);
        Ok(owned_jsonbs)
    }
}

} // verus!
