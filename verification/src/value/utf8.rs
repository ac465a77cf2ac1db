//! Text from bytes, through the standard library's UTF-8 check.
use vstd::prelude::*;
use vstd::string::StringSliceAdditionalSpecFns;
use vstd::utf8::valid_utf8;

verus! {

/// Calls `std::str::from_utf8`: the bytes as a `&str` where they are valid UTF-8, and the
/// empty string where they are not. The contract claims that std's check agrees with
/// `vstd::utf8::valid_utf8`.
#[verifier::external_body]
pub(crate) fn str_from_utf8_or_empty(bytes: &[u8]) -> (s: &str)
    ensures
        valid_utf8(bytes@) ==> s.spec_bytes() == bytes@,
        !valid_utf8(bytes@) ==> s.spec_bytes() == Seq::<u8>::empty(),
{
    std::str::from_utf8(bytes).unwrap_or("")
}

} // verus!
