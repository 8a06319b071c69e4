//! Decoding of a project file's raw bytes: UTF-8, with an optional byte
//! order mark stripped before parsing.  A malformed byte sequence is a
//! failure, never silently ignored.

use vstd::prelude::*;

verus! {

/// The input bytes were not valid UTF-8.
#[derive(Debug, Clone, PartialEq, Eq)]
pub struct DecodeError;

/// The result of UTF-8-decoding `b` after removal of a leading byte order
/// mark: the decoded characters, and whether any malformed sequence had to
/// be replaced.  A pure function of the bytes.
pub uninterp spec fn utf8_bom_decode(b: Seq<u8>) -> (Seq<char>, bool);

/// Relies on encoding_rs's `UTF_8.decode_with_bom_removal`: strips a
/// leading UTF-8 byte order mark, decodes the rest replacing malformed
/// sequences with the replacement character, and reports whether any
/// replacement happened.  The result depends on the bytes alone.
#[verifier::external_body]
fn decode_with_bom_removal(b: &Vec<u8>) -> (r: (String, bool))
    ensures
        r.0@ == utf8_bom_decode(b@).0,
        r.1 == utf8_bom_decode(b@).1,
{
    let (text, had_replacements) = encoding_rs::UTF_8.decode_with_bom_removal(b.as_slice());
    (text.into_owned(), had_replacements)
}

/// Decodes the raw bytes of a project file; `Err` exactly when the decoder
/// reported a malformed sequence.
pub fn decode_project_text(b: &Vec<u8>) -> (r: Result<String, DecodeError>)
    ensures
        match r {
            Ok(s) => utf8_bom_decode(b@).1 == false && s@ == utf8_bom_decode(b@).0,
            Err(_) => utf8_bom_decode(b@).1 == true,
        },
{
    let (text, had_replacements) = decode_with_bom_removal(b);
    if had_replacements {
        Err(DecodeError)
    } else {
        Ok(text)
    }
}

} // verus!
