//! Documents in the binary format.

use vstd::prelude::*;

verus! {

/// A borrowed document.
#[derive(Clone, Copy, Debug)]
pub struct RawJsonb<'a> {
    /// The bytes of the document.
    pub data: &'a [u8],
}

impl<'a> View for RawJsonb<'a> {
    type V = Seq<u8>;

    open spec fn view(&self) -> Seq<u8> {
        self.data@
    }
}

impl<'a> RawJsonb<'a> {
    /// The document whose bytes are `data`.
    pub fn new(data: &'a [u8]) -> (raw: RawJsonb<'a>)
        ensures
            raw@ == data@,
    {
        RawJsonb { data }
    }

    /// The length of the document in bytes.
    pub fn len(&self) -> (length: usize)
        ensures
            length == self@.len(),
    {
        self.data.len()
    }
}

/// A document that owns its bytes.
#[derive(Debug, PartialEq, Eq)]
pub struct OwnedJsonb {
    /// The bytes of the document.
    pub data: Vec<u8>,
}

impl View for OwnedJsonb {
    type V = Seq<u8>;

    open spec fn view(&self) -> Seq<u8> {
        self.data@
    }
}

impl OwnedJsonb {
    /// The document whose bytes are `data`.
    pub fn new(data: Vec<u8>) -> (owned: OwnedJsonb)
        ensures
            owned@ == data@,
    {
        OwnedJsonb { data }
    }

    /// Borrows the document.
    pub fn as_raw(&self) -> (raw: RawJsonb<'_>)
        ensures
            raw@ == self@,
    {
        RawJsonb { data: self.data.as_slice() }
    }
}

/// The bytes of each of `owned`.
pub open spec fn documents(owned: Seq<OwnedJsonb>) -> Seq<Seq<u8>> {
    Seq::new(owned.len(), |i: int| owned[i]@)
}

/// The bytes of a document from `offset` on.
pub(crate) fn tail<'b>(root: RawJsonb<'b>, offset: usize) -> (bytes: &'b [u8])
    requires
        offset <= root@.len(),
    ensures
        bytes@ == root@.skip(offset as int),
{
    let bytes: &'b [u8] = &root.data[offset..root.data.len()];
    assert(bytes@ =~= root@.skip(offset as int));
    bytes
}

/// The `length` bytes of a document from `offset` on.
pub(crate) fn bytes_at<'b>(root: RawJsonb<'b>, offset: usize, length: usize) -> (bytes: &'b [u8])
    requires
        offset + length <= root@.len(),
    ensures
        bytes@ == root@.subrange(offset as int, offset + length),
{
    assert(root@.len() == root.data.len());
    &root.data[offset..offset + length]
}

} // verus!
