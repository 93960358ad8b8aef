//! Reading and writing the words of the binary format.

use byteorder::BigEndian;
use byteorder::WriteBytesExt;
use nom::error::Error as NomError;
use std::io::Error as IoError;
use vstd::prelude::*;

use crate::constants::CONTAINER_HEADER_LEN_MASK;
use crate::constants::CONTAINER_HEADER_TYPE_MASK;
use crate::constants::JENTRY_OFF_LEN_MASK;
use crate::constants::JENTRY_TYPE_MASK;
use crate::error::Error;

verus! {

/// Declares `nom::Err`, which is passed on without a look inside.
#[verifier::external_type_specification]
#[verifier::external_body]
#[verifier::reject_recursive_types(E)]
pub struct ExNomErr<E>(nom::Err<E>);

/// Declares `nom::error::Error`, which is passed on without a look inside.
#[verifier::external_type_specification]
#[verifier::external_body]
#[verifier::reject_recursive_types(I)]
pub struct ExNomError<I>(NomError<I>);

/// Declares `std::io::Error`, which is passed on without a look inside.
#[verifier::external_type_specification]
#[verifier::external_body]
pub struct ExIoError(IoError);

/// The big-endian number in the four bytes of `data` that start at `at`.
pub open spec fn u32_at(data: Seq<u8>, at: int) -> u32 {
    (data[at] * 0x100_0000 + data[at + 1] * 0x1_0000 + data[at + 2] * 0x100 + data[at + 3]) as u32
}

/// The four bytes of `n`, most significant first.
pub open spec fn u32_bytes(n: u32) -> Seq<u8> {
    seq![
        (n / 0x100_0000) as u8,
        (n / 0x1_0000 % 0x100) as u8,
        (n / 0x100 % 0x100) as u8,
        (n % 0x100) as u8,
    ]
}

/// The kind of the container whose header is `header`.
pub open spec fn header_type(header: u32) -> u32 {
    header & CONTAINER_HEADER_TYPE_MASK
}

/// The number of entries of the container whose header is `header`.
pub open spec fn header_len(header: u32) -> nat {
    (header & CONTAINER_HEADER_LEN_MASK) as nat
}

/// The kind of the entry that `jentry` describes.
pub open spec fn jentry_type(jentry: u32) -> u32 {
    jentry & JENTRY_TYPE_MASK
}

/// The length in bytes of the entry that `jentry` describes.
pub open spec fn jentry_len(jentry: u32) -> nat {
    (jentry & JENTRY_OFF_LEN_MASK) as nat
}

/// The kind and the length of the entry whose descriptor starts at `at`.
pub open spec fn jentry_at(data: Seq<u8>, at: int) -> (u32, usize) {
    (jentry_type(u32_at(data, at)), jentry_len(u32_at(data, at)) as usize)
}

/// Calls `nom::number::complete::be_u32` on a byte slice.
///
/// Claims: with four bytes or more it gives the big-endian number of the
/// first four and the bytes after them, with fewer it gives an error.
#[verifier::external_body]
fn be_u32(input: &[u8]) -> (res: Result<(&[u8], u32), nom::Err<NomError<&[u8]>>>)
    ensures
        match res {
            Ok((rest, n)) => input@.len() >= 4 && rest@ == input@.skip(4) && n == u32_at(input@, 0),
            Err(_) => input@.len() < 4,
        },
{
    nom::number::complete::be_u32(input)
}

/// Calls `nom::bytes::complete::take` on a byte slice.
///
/// Claims: with `length` bytes or more it gives the bytes after the first
/// `length` and those first `length` bytes, with fewer it gives an error.
#[verifier::external_body]
fn take(input: &[u8], length: usize) -> (res: Result<
    (&[u8], &[u8]),
    nom::Err<NomError<&[u8]>>,
>)
    ensures
        match res {
            Ok((rest, taken)) => {
                &&& input@.len() >= length
                &&& rest@ == input@.skip(length as int)
                &&& taken@ == input@.take(length as int)
            },
            Err(_) => input@.len() < length,
        },
{
    nom::bytes::complete::take(length)(input)
}

/// Calls `byteorder::WriteBytesExt::write_u32` with `BigEndian` on a vector.
///
/// Claims: it appends the four bytes of `n`, most significant first, and
/// succeeds: it hands them to `write_all`, and a vector takes what is written
/// to it by growing.
#[verifier::external_body]
fn write_u32(data: &mut Vec<u8>, n: u32) -> (res: Result<(), IoError>)
    ensures
        res is Ok,
        final(data)@ == old(data)@ + u32_bytes(n),
{
    data.write_u32::<BigEndian>(n)
}

/// Appends the four bytes of `n`, most significant first, to `data`.
pub(crate) fn put_u32(data: &mut Vec<u8>, n: u32) -> (res: Result<(), Error>)
    ensures
        res is Ok,
        final(data)@ == old(data)@ + u32_bytes(n),
{
    match write_u32(data, n) {
        Ok(()) => Ok(()),
        Err(_) => Err(Error::Io),
    }
}

/// Reads a container header: its kind and the number of its entries.
pub(crate) fn decode_header(input: &[u8]) -> (res: Result<(&[u8], (u32, usize)), Error>)
    ensures
        match res {
            Ok((rest, (ty, length))) => {
                &&& input@.len() >= 4
                &&& rest@ == input@.skip(4)
                &&& ty == header_type(u32_at(input@, 0))
                &&& length as nat == header_len(u32_at(input@, 0))
                &&& length <= CONTAINER_HEADER_LEN_MASK
            },
            Err(e) => input@.len() < 4 && e == Error::InvalidJsonb,
        },
{
    match be_u32(input) {
        Ok((rest, header)) => {
            let length: u32 = header & CONTAINER_HEADER_LEN_MASK;
            assert(length <= CONTAINER_HEADER_LEN_MASK) by (bit_vector)
                requires
                    length == header & CONTAINER_HEADER_LEN_MASK,
            ;
            Ok((rest, (header & CONTAINER_HEADER_TYPE_MASK, length as usize)))
        },
        Err(_) => Err(Error::InvalidJsonb),
    }
}

/// Reads an entry descriptor: the kind of the entry and its length in bytes.
pub(crate) fn decode_jentry(input: &[u8]) -> (res: Result<(&[u8], (u32, usize)), Error>)
    ensures
        match res {
            Ok((rest, jentry)) => {
                &&& input@.len() >= 4
                &&& rest@ == input@.skip(4)
                &&& jentry == jentry_at(input@, 0)
            },
            Err(e) => input@.len() < 4 && e == Error::InvalidJsonb,
        },
{
    match be_u32(input) {
        Ok((rest, jentry)) => {
            let length: u32 = jentry & JENTRY_OFF_LEN_MASK;
            Ok((rest, (jentry & JENTRY_TYPE_MASK, length as usize)))
        },
        Err(_) => Err(Error::InvalidJsonb),
    }
}

/// Reads `length` entry descriptors in a row.
pub(crate) fn decode_jentries(input: &[u8], length: usize) -> (res: Result<
    (&[u8], Vec<(u32, usize)>),
    Error,
>)
    ensures
        match res {
            Ok((rest, jentries)) => {
                &&& input@.len() >= 4 * length
                &&& rest@ == input@.skip(4 * length)
                &&& jentries@ == Seq::new(length as nat, |i: int| jentry_at(input@, 4 * i))
            },
            Err(e) => input@.len() < 4 * length && e == Error::InvalidJsonb,
        },
{
    let mut jentries: Vec<(u32, usize)> = Vec::new();
    let mut rest: &[u8] = input;
    let mut i: usize = 0;
    while i < length
        invariant
            i <= length,
            input@.len() >= 4 * i,
            rest@ == input@.skip(4 * i),
            jentries@ == Seq::new(i as nat, |k: int| jentry_at(input@, 4 * k)),
        decreases length - i,
    {
        match decode_jentry(rest) {
            Ok((next, jentry)) => {
                assert(jentry_at(rest@, 0) == jentry_at(input@, 4 * i));
                jentries.push(jentry);
                rest = next;
            },
            Err(e) => {
                return Err(e);
            },
        }
        i += 1;
        assert(jentries@ =~= Seq::new(i as nat, |k: int| jentry_at(input@, 4 * k)));
    }
    Ok((rest, jentries))
}

/// Reads a string of `length` bytes.
pub(crate) fn decode_string(input: &[u8], length: usize) -> (res: Result<(&[u8], &[u8]), Error>)
    ensures
        match res {
            Ok((rest, string)) => {
                &&& input@.len() >= length
                &&& rest@ == input@.skip(length as int)
                &&& string@ == input@.take(length as int)
            },
            Err(e) => input@.len() < length && e == Error::InvalidJsonb,
        },
{
    match take(input, length) {
        Ok(found) => Ok(found),
        Err(_) => Err(Error::InvalidJsonb),
    }
}

} // verus!
