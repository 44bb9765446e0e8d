//! The byte-level capabilities that encoded-word decoding consumes: MIME
//! Base64, tolerant quoted-printable, charset resolution, and the Unicode
//! whitespace predicate. Each comes from an outside library through a
//! trusted wrapper; the wrapper's contract names the call's result, and the
//! rest of the crate is verified against those names.

use vstd::prelude::*;
use vstd::utf8::encode_utf8;

verus! {

/// Whether a character has the Unicode `White_Space` property, as
/// `char::is_whitespace` reports it.
pub uninterp spec fn is_unicode_space(c: char) -> bool;

/// What `data_encoding::BASE64_MIME.decode` returns on the given bytes:
/// the decoded bytes, or `None` where the input is not well-formed
/// MIME Base64.
pub uninterp spec fn base64_mime_decoded(input: Seq<u8>) -> Option<Seq<u8>>;

/// What `quoted_printable::decode` in `ParseMode::Robust` returns on the
/// given bytes: the decoded bytes, or `None` where even tolerant parsing
/// fails.
pub uninterp spec fn qp_decoded_robust(input: Seq<u8>) -> Option<Seq<u8>>;

/// The text that the charset named by `label` assigns to `input`:
/// `None` where `label` resolves to no known charset, and otherwise the
/// best-effort decoding of `input` under that charset (invalid sequences
/// replaced, a leading byte-order mark kept as ordinary input).
pub uninterp spec fn charset_decoded(label: Seq<u8>, input: Seq<u8>) -> Option<Seq<char>>;

/// Relies on `char::is_whitespace`: true exactly for characters with the
/// Unicode `White_Space` property, a function of the character alone.
#[verifier::external_body]
pub fn char_is_whitespace(c: char) -> (r: bool)
    ensures
        r == is_unicode_space(c),
{
    c.is_whitespace()
}

#[verifier::external_type_specification]
#[verifier::external_body]
pub struct ExDecodeError(data_encoding::DecodeError);

#[verifier::external_type_specification]
#[verifier::external_body]
pub struct ExQuotedPrintableError(quoted_printable::QuotedPrintableError);

/// Relies on `data_encoding::BASE64_MIME.decode`: decodes MIME Base64,
/// a function of the input bytes alone.
#[verifier::external_body]
pub fn base64_mime_decode(input: &str) -> (r: Result<Vec<u8>, data_encoding::DecodeError>)
    ensures
        match r {
            Ok(v) => base64_mime_decoded(encode_utf8(input@)) == Some(v@),
            Err(_) => base64_mime_decoded(encode_utf8(input@)) is None,
        },
{
    data_encoding::BASE64_MIME.decode(input.as_bytes())
}

/// Relies on `quoted_printable::decode` with `ParseMode::Robust`: decodes
/// quoted-printable tolerantly, a function of the input bytes alone.
#[verifier::external_body]
pub fn qp_decode_robust(input: &str) -> (r: Result<
    Vec<u8>,
    quoted_printable::QuotedPrintableError,
>)
    ensures
        match r {
            Ok(v) => qp_decoded_robust(encode_utf8(input@)) == Some(v@),
            Err(_) => qp_decoded_robust(encode_utf8(input@)) is None,
        },
{
    quoted_printable::decode(input, quoted_printable::ParseMode::Robust)
}

/// Relies on `charset::Charset::for_label_no_replacement` to resolve the
/// label (case-insensitively, with the standard aliases and no replacement
/// fallback) and on `charset::Charset::decode_without_bom_handling` to turn
/// the bytes into text; the composition is a function of label and bytes
/// alone.
#[verifier::external_body]
pub fn charset_decode(label: &str, input: &Vec<u8>) -> (r: Option<String>)
    ensures
        match r {
            Some(s) => charset_decoded(encode_utf8(label@), input@) == Some(s@),
            None => charset_decoded(encode_utf8(label@), input@) is None,
        },
{
    let cs = charset::Charset::for_label_no_replacement(label.as_bytes())?;
    let (cow, _) = cs.decode_without_bom_handling(input);
    Some(cow.into_owned())
}

} // verus!
