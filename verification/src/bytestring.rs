//! Byte strings of the `bstr` crate.

use vstd::prelude::*;
use vstd::utf8::{decode_utf8, valid_utf8};

verus! {

/// `bstr::BString`, an owned string of arbitrary bytes.
#[verifier::external_type_specification]
#[verifier::external_body]
pub struct ExBString(bstr::BString);

/// The bytes that a byte string holds.
pub uninterp spec fn bstring_bytes(s: bstr::BString) -> Seq<u8>;

/// The text that bytes which are no UTF-8 become when a byte string is displayed.
pub uninterp spec fn bstr_lossy(bytes: Seq<u8>) -> Seq<char>;

/// The text that a byte string displays as.
pub open spec fn display_text(bytes: Seq<u8>) -> Seq<char> {
    if valid_utf8(bytes) {
        decode_utf8(bytes)
    } else {
        bstr_lossy(bytes)
    }
}

/// Calls `BString::new`: the byte string holds the given bytes.
#[verifier::external_body]
pub(crate) fn bstring_new(bytes: Vec<u8>) -> (s: bstr::BString)
    ensures
        bstring_bytes(s) == bytes@,
{
    bstr::BString::new(bytes)
}

/// Calls `<BString as AsRef<[u8]>>::as_ref`: the bytes that the byte string holds.
#[verifier::external_body]
pub(crate) fn bstring_as_ref(s: &bstr::BString) -> (bytes: &[u8])
    ensures
        bytes@ == bstring_bytes(*s),
{
    s.as_ref()
}

/// Calls `<BString as Clone>::clone`: the copy holds the same bytes.
#[verifier::external_body]
pub(crate) fn bstring_clone(s: &bstr::BString) -> (copy: bstr::BString)
    ensures
        bstring_bytes(copy) == bstring_bytes(*s),
{
    s.clone()
}

/// Calls `to_string` through `<BString as Display>::fmt`: bytes that are valid UTF-8 are
/// decoded as they stand, and any others become a text that depends on the bytes alone.
#[verifier::external_body]
pub(crate) fn bstring_to_string(s: &bstr::BString) -> (text: String)
    ensures
        valid_utf8(bstring_bytes(*s)) ==> text@ == decode_utf8(bstring_bytes(*s)),
        !valid_utf8(bstring_bytes(*s)) ==> text@ == bstr_lossy(bstring_bytes(*s)),
{
    s.to_string()
}

} // verus!
