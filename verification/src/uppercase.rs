//! Upper-casing of a text buffer.

use vstd::prelude::*;
use vstd::slice::slice_to_vec;
use vstd::utf8::*;

use crate::text::{decode, encode};

verus! {

/// The upper-case equivalent of `text` under the Unicode case mapping that
/// `str::to_uppercase` applies.
pub uninterp spec fn uppercase_text(text: Seq<char>) -> Seq<char>;

/// `str::to_uppercase` maps a text to its upper-case equivalent.  The mapping is
/// fixed by the Unicode tables of the standard library and depends on nothing but
/// the text; the contract gives it a name and claims no more.
pub assume_specification[ str::to_uppercase ](text: &str) -> (upper: String)
    ensures
        upper@ == uppercase_text(text@),
;

/// What `uppercase` answers to the buffer `input`.
pub open spec fn uppercased(input: Seq<u8>) -> Seq<u8> {
    if valid_utf8(input) {
        encode_utf8(uppercase_text(decode_utf8(input)))
    } else {
        input
    }
}

/// Upper-cases a UTF-8 buffer.  A buffer that is not well-formed UTF-8 is handed
/// back as it is.
pub fn uppercase(input: &[u8]) -> (output: Vec<u8>)
    ensures
        output@ == uppercased(input@),
{
    match decode(input) {
        Some(text) => {
            let upper = text.to_uppercase();
            encode(upper.as_str())
        },
        None => slice_to_vec(input),
    }
}

} // verus!
