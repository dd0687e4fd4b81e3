//! Undoing a part's `Content-Transfer-Encoding`, and turning body bytes into
//! text with the part's charset.

use vstd::prelude::*;
use crate::error::{ErrorView, MailError};
use crate::model::TransferEncoding;
use crate::qp::{decode_quoted_printable, qp_robust};
use crate::scan::{strip_ascii_whitespace, strip_whitespace};

verus! {

/// What `base64_simd::STANDARD.decode_to_vec` returns, `None` for a refusal.
pub uninterp spec fn base64_standard(input: Seq<u8>) -> Option<Seq<u8>>;

/// What `data_encoding::BASE64_MIME_PERMISSIVE.decode` returns; an error as
/// its display text.
pub uninterp spec fn base64_mime_permissive(input: Seq<u8>) -> Result<Seq<u8>, Seq<char>>;

/// Whether `charset::Charset::for_label` recognises the label.
pub uninterp spec fn charset_known(label: Seq<u8>) -> bool;

/// The text `charset::Charset::decode` produces for `bytes` under the label's
/// charset (BOM sniffing and malformed-sequence replacement included).
pub uninterp spec fn charset_decoding(label: Seq<u8>, bytes: Seq<u8>) -> Seq<char>;

/// ASCII decoding: every byte below 0x80 is itself, every other is U+FFFD.
pub open spec fn ascii_decoding(bytes: Seq<u8>) -> Seq<char> {
    Seq::new(bytes.len(), |i: int| if bytes[i] < 128u8 { bytes[i] as char } else { '\u{FFFD}' })
}

/// `base64_simd::STANDARD.decode_to_vec`; `None` where it refuses the input.
/// Claimed besides the name: the output is never longer than the input (the
/// crate sizes it by `decoded_length`, three bytes per four symbols).
#[verifier::external_body]
fn simd_decode(input: &[u8]) -> (res: Option<Vec<u8>>)
    ensures
        match res {
            Some(v) => base64_standard(input@) == Some(v@) && v@.len() <= input@.len(),
            None => base64_standard(input@) is None,
        },
{
    match base64_simd::STANDARD.decode_to_vec(input) {
        Ok(decoded) => Some(decoded),
        Err(_) => None,
    }
}

/// `data_encoding::BASE64_MIME_PERMISSIVE.decode`, its error as display text.
/// Its `decode_len` asserts `len <= usize::MAX / 8`, so longer input is left
/// out. Claimed besides the name: the output is never longer than the input
/// (it is truncated from `decode_len`, six bits per symbol).
#[verifier::external_body]
fn permissive_decode(input: &[u8]) -> (res: Result<Vec<u8>, String>)
    requires
        input@.len() <= usize::MAX / 8,
    ensures
        match res {
            Ok(v) => base64_mime_permissive(input@) == Ok::<Seq<u8>, Seq<char>>(v@) && v@.len() <= input@.len(),
            Err(e) => base64_mime_permissive(input@) == Err::<Seq<u8>, Seq<char>>(e@),
        },
{
    match data_encoding::BASE64_MIME_PERMISSIVE.decode(input) {
        Ok(decoded) => Ok(decoded),
        Err(error) => Err(error.to_string()),
    }
}

/// `charset::Charset::for_label` and, when it recognises the label,
/// `Charset::decode`'s text; `None` for an unrecognised label.
#[verifier::external_body]
fn charset_decode(label: &[u8], bytes: &[u8]) -> (res: Option<String>)
    ensures
        res is Some == charset_known(label@),
        res matches Some(s) ==> s@ == charset_decoding(label@, bytes@),
{
    match charset::Charset::for_label(label) {
        Some(charset) => Some(charset.decode(bytes).0.into_owned()),
        None => None,
    }
}

/// `charset::decode_ascii`: non-ASCII bytes become U+FFFD.
#[verifier::external_body]
fn ascii_decode(bytes: &[u8]) -> (res: String)
    ensures
        res@ == ascii_decoding(bytes@),
{
    charset::decode_ascii(bytes).into_owned()
}

/// The error for a body too long for the permissive decoder, which asserts
/// that its input is at most `usize::MAX / 8` bytes.
pub const ERR_BASE64_TOO_LONG: &'static str = "base64 body too long to decode";

/// What decoding a base64 body gives: whitespace stripped, then the SIMD
/// decoder, with the permissive decoder deciding whatever that one refuses.
pub open spec fn base64_decoding(body: Seq<u8>) -> Result<Seq<u8>, Seq<char>> {
    let cleaned = strip_whitespace(body);
    match base64_standard(cleaned) {
        Some(v) => Ok(v),
        None => if cleaned.len() <= usize::MAX / 8 {
            base64_mime_permissive(cleaned)
        } else {
            Err(ERR_BASE64_TOO_LONG@)
        },
    }
}

/// Decode a base64 body. Decoding never lengthens it.
///
/// A body the SIMD decoder refuses goes to the permissive decoder, unless it
/// is longer than that decoder accepts; then it is refused with
/// `ERR_BASE64_TOO_LONG`.
pub fn decode_base64(body: &[u8]) -> (res: Result<Vec<u8>, String>)
    ensures
        match res {
            Ok(v) => base64_decoding(body@) == Ok::<Seq<u8>, Seq<char>>(v@) && v@.len() <= body@.len(),
            Err(e) => base64_decoding(body@) == Err::<Seq<u8>, Seq<char>>(e@),
        },
{
    let cleaned = strip_ascii_whitespace(body);
    proof {
        crate::scan::lemma_strip_whitespace_len(body@);
    }
    match simd_decode(cleaned.as_slice()) {
        Some(decoded) => Ok(decoded),
        None => if cleaned.len() <= usize::MAX / 8 {
            permissive_decode(cleaned.as_slice())
        } else {
            Err(String::from_str(ERR_BASE64_TOO_LONG))
        },
    }
}

/// The bytes a part's body decodes to under its transfer encoding.
pub open spec fn transfer_decoded(encoding: TransferEncoding, raw: Seq<u8>) -> Result<Seq<u8>, ErrorView> {
    match encoding {
        TransferEncoding::Base64 => match base64_decoding(raw) {
            Ok(v) => Ok(v),
            Err(e) => Err(ErrorView::Base64(e)),
        },
        TransferEncoding::QuotedPrintable => Ok(qp_robust(raw)),
        _ => Ok(raw),
    }
}

/// Undo the transfer encoding of a body. Decoding never more than doubles a
/// body: quoted-printable turns a bare LF into CRLF, base64 shrinks.
pub fn body_to_vec(encoding: TransferEncoding, raw: &[u8]) -> (res: Result<Vec<u8>, MailError>)
    ensures
        match res {
            Ok(v) => transfer_decoded(encoding, raw@) == Ok::<Seq<u8>, ErrorView>(v@) && v@.len() <= 2 * raw@.len(),
            Err(e) => transfer_decoded(encoding, raw@) == Err::<Seq<u8>, ErrorView>(e@),
        },
{
    match encoding {
        TransferEncoding::Base64 => match decode_base64(raw) {
            Ok(v) => Ok(v),
            Err(e) => Err(MailError::Base64(e)),
        },
        TransferEncoding::QuotedPrintable => {
            proof {
                crate::qp::lemma_qp_robust_len(raw@);
            }
            Ok(decode_quoted_printable(raw))
        },
        _ => Ok(vstd::slice::slice_to_vec(raw)),
    }
}

/// The label bytes of a charset name.
pub open spec fn label_bytes(charset: Seq<char>) -> Seq<u8> {
    vstd::utf8::encode_utf8(charset)
}

/// Text for `bytes` under `label`, and whether the label was unrecognised and
/// the bytes were read as us-ascii instead (a lossy repair).
pub open spec fn charset_text(label: Seq<u8>, bytes: Seq<u8>) -> (Seq<char>, bool) {
    if charset_known(label) {
        (charset_decoding(label, bytes), false)
    } else {
        (ascii_decoding(bytes), true)
    }
}

/// Decode transfer-decoded body bytes into text with the part's charset,
/// falling back to us-ascii when the label is not recognised.
pub fn decode_charset(bytes: &[u8], charset: &String) -> (res: (String, bool))
    ensures
        (res.0@, res.1) == charset_text(label_bytes(charset@), bytes@),
{
    let label = charset.as_str().as_bytes();
    match charset_decode(label, bytes) {
        Some(text) => (text, false),
        None => (ascii_decode(bytes), true),
    }
}

/// What a body part's text is: transfer-decoded, then charset-decoded.
pub open spec fn body_text(encoding: TransferEncoding, raw: Seq<u8>, charset: Seq<char>) -> Result<(Seq<char>, bool), ErrorView> {
    match transfer_decoded(encoding, raw) {
        Ok(bytes) => Ok(charset_text(label_bytes(charset), bytes)),
        Err(e) => Err(e),
    }
}

/// Decode a body part to text.
pub fn decode_body(encoding: TransferEncoding, raw: &[u8], charset: &String) -> (res: Result<(String, bool), MailError>)
    ensures
        match res {
            Ok((text, fell_back)) => body_text(encoding, raw@, charset@) == Ok::<(Seq<char>, bool), ErrorView>((text@, fell_back)),
            Err(e) => body_text(encoding, raw@, charset@) == Err::<(Seq<char>, bool), ErrorView>(e@),
        },
{
    match encoding {
        TransferEncoding::SevenBit | TransferEncoding::EightBit | TransferEncoding::Binary => Ok(decode_charset(raw, charset)),
        _ => {
            let bytes = body_to_vec(encoding, raw)?;
            Ok(decode_charset(bytes.as_slice(), charset))
        },
    }
}

} // verus!
