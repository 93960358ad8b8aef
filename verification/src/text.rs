//! Strings in the binary format.

use std::string::FromUtf8Error;
use vstd::prelude::*;
use vstd::utf8::decode_utf8;
use vstd::utf8::valid_utf8;

verus! {

/// Declares `std::string::FromUtf8Error`, which is passed on without a look
/// inside.
#[verifier::external_type_specification]
#[verifier::external_body]
pub struct ExFromUtf8Error(FromUtf8Error);

/// Specifies `String::from_utf8`.
///
/// Claims: it gives the string that the bytes encode if they are valid UTF-8,
/// and an error if they are not.
pub assume_specification[ std::string::String::from_utf8 ](vec: Vec<u8>) -> (res: Result<
    std::string::String,
    FromUtf8Error,
>)
    ensures
        match res {
            Ok(s) => valid_utf8(vec@) && s@ == decode_utf8(vec@),
            Err(_) => !valid_utf8(vec@),
        },
;

} // verus!
