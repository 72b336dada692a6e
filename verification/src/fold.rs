//! Case folding of a field for case-insensitive comparison.
//!
//! A field folds to its lowercased text when its bytes are valid UTF-8, and
//! to nothing otherwise; a field that folds to nothing acts as the end of its
//! key, which is the deterministic rule the comparator documents for
//! undecodable fields.

use vstd::prelude::*;
use vstd::string::StrSliceExecFns;
use vstd::utf8::{decode_utf8, encode_utf8, valid_utf8};

verus! {

/// The characters of `str::to_lowercase` applied to `s`; the result depends
/// on the characters alone.
pub uninterp spec fn lower_of(s: Seq<char>) -> Seq<char>;

/// Relies on core::str::from_utf8: it returns `Ok` exactly when the bytes
/// are a valid UTF-8 encoding, and the returned string slice then views as
/// the decoded characters of those bytes.
#[verifier::external_body]
pub(crate) fn decode_field<'a>(b: &'a [u8]) -> (r: Option<&'a str>)
    ensures
        r is Some <==> valid_utf8(b@),
        r matches Some(s) ==> s@ == decode_utf8(b@),
{
    core::str::from_utf8(b).ok()
}

/// Relies on str::to_lowercase: the result is a function of the characters
/// alone, named `lower_of`.
#[verifier::external_body]
pub(crate) fn lowercase(s: &str) -> (r: String)
    ensures
        r@ == lower_of(s@),
{
    s.to_lowercase()
}

/// The folded image of one field: the UTF-8 bytes of its lowercased text,
/// or nothing when the field does not decode.
pub open spec fn fold_field(f: Seq<u8>) -> Option<Seq<u8>> {
    if valid_utf8(f) {
        Some(encode_utf8(lower_of(decode_utf8(f))))
    } else {
        None
    }
}

/// Computes `fold_field` of one field.
pub(crate) fn fold_field_exec(f: &Vec<u8>) -> (r: Option<Vec<u8>>)
    ensures
        match r {
            Some(v) => fold_field(f@) == Some(v@),
            None => fold_field(f@) is None,
        },
{
    match decode_field(f.as_slice()) {
        Some(s) => {
            let low = lowercase(s);
            Some(low.as_str().as_bytes_vec())
        },
        None => None,
    }
}

} // verus!
