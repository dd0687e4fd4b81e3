//! Lossy repairs a parse performed, recorded instead of raised.

use vstd::prelude::*;
use crate::text::{concat, debug_quoted, debug_text, decimal, decimal_text};

verus! {

pub const KIND_CHARSET_FALLBACK: &'static str = "charset-fallback";
pub const KIND_ADDRESS_UNPARSEABLE: &'static str = "address-unparseable";
pub const KIND_DATE_UNPARSEABLE: &'static str = "date-unparseable";
pub const KIND_UNTERMINATED_HEADERS: &'static str = "unterminated-header-block";
pub const KIND_TRANSFER_DECODE_LOSSY: &'static str = "transfer-decode-lossy";

pub const DETAIL_UNTERMINATED_HEADERS: &'static str = "the header block was not terminated by an empty line (RFC 5322 2.1); the separator was restored before parsing, so no part was lost -- the stdlib calls this defect MissingHeaderBodySeparatorDefect";

/// One lossy repair the parser performed.
///
/// An empty list of these says nothing was patched up, so the list is exact:
/// every repair is reported, and nothing else is.
#[derive(Debug)]
pub struct Warning {
    pub kind: &'static str,
    /// Where the affected part landed in the result -- `"text_plain[0]"` -- or
    /// `""` when the warning is about the message rather than one part.
    pub part_path: String,
    pub detail: String,
}

pub struct WarningView {
    pub kind: Seq<char>,
    pub part_path: Seq<char>,
    pub detail: Seq<char>,
}

impl View for Warning {
    type V = WarningView;

    open spec fn view(&self) -> WarningView {
        WarningView { kind: self.kind@, part_path: self.part_path@, detail: self.detail@ }
    }
}

/// `field[index]`, the locator of a part in the result.
pub open spec fn part_path_text(field: Seq<char>, index: nat) -> Seq<char> {
    field + "["@ + decimal_text(index) + "]"@
}

fn part_path(field: &str, index: usize) -> (p: String)
    ensures
        p@ == part_path_text(field@, index as nat),
{
    let s = concat(String::from_str(field), "[");
    let s = concat(s, decimal(index).as_str());
    concat(s, "]")
}

pub open spec fn charset_warning(field: Seq<char>, index: nat, label: Seq<char>) -> WarningView {
    WarningView {
        kind: KIND_CHARSET_FALLBACK@,
        part_path: part_path_text(field, index),
        detail: "unrecognised charset "@ + debug_text(label)
            + "; the part was decoded as us-ascii, so every non-ASCII byte in it is now U+FFFD"@,
    }
}

pub fn warn_charset(field: &str, index: usize, label: &str) -> (w: Warning)
    ensures
        w@ == charset_warning(field@, index as nat, label@),
{
    let detail = concat(String::from_str("unrecognised charset "), debug_quoted(label).as_str());
    let detail = concat(detail, "; the part was decoded as us-ascii, so every non-ASCII byte in it is now U+FFFD");
    Warning { kind: KIND_CHARSET_FALLBACK, part_path: part_path(field, index), detail }
}

pub open spec fn address_warning(name: Seq<char>) -> WarningView {
    WarningView {
        kind: KIND_ADDRESS_UNPARSEABLE@,
        part_path: Seq::empty(),
        detail: "the "@ + name
            + " header is not a parseable address list; no mailboxes were reported for it, and its raw value is in headers"@,
    }
}

pub fn warn_address(name: &str) -> (w: Warning)
    ensures
        w@ == address_warning(name@),
{
    let detail = concat(String::from_str("the "), name);
    let detail = concat(detail, " header is not a parseable address list; no mailboxes were reported for it, and its raw value is in headers");
    Warning { kind: KIND_ADDRESS_UNPARSEABLE, part_path: String::new(), detail }
}

pub open spec fn separator_warning() -> WarningView {
    WarningView {
        kind: KIND_UNTERMINATED_HEADERS@,
        part_path: Seq::empty(),
        detail: DETAIL_UNTERMINATED_HEADERS@,
    }
}

pub fn warn_separator() -> (w: Warning)
    ensures
        w@ == separator_warning(),
{
    Warning {
        kind: KIND_UNTERMINATED_HEADERS,
        part_path: String::new(),
        detail: String::from_str(DETAIL_UNTERMINATED_HEADERS),
    }
}

pub open spec fn transfer_warning(field: Seq<char>, index: nat, at: nat) -> WarningView {
    WarningView {
        kind: KIND_TRANSFER_DECODE_LOSSY@,
        part_path: part_path_text(field, index),
        detail: "the quoted-printable escape at byte "@ + decimal_text(at)
            + " of the encoded body is neither `=` followed by two hex digits nor a soft line break; it was passed through as literal text rather than decoded"@,
    }
}

pub fn warn_transfer_decode(field: &str, index: usize, at: usize) -> (w: Warning)
    ensures
        w@ == transfer_warning(field@, index as nat, at as nat),
{
    let detail = concat(String::from_str("the quoted-printable escape at byte "), decimal(at).as_str());
    let detail = concat(detail, " of the encoded body is neither `=` followed by two hex digits nor a soft line break; it was passed through as literal text rather than decoded");
    Warning { kind: KIND_TRANSFER_DECODE_LOSSY, part_path: part_path(field, index), detail }
}

pub open spec fn date_warning(date: Seq<char>) -> WarningView {
    WarningView {
        kind: KIND_DATE_UNPARSEABLE@,
        part_path: Seq::empty(),
        detail: "the Date header "@ + debug_text(date)
            + " is not a parseable date; date_parsed is None while date keeps the raw value"@,
    }
}

pub fn warn_date(date: &str) -> (w: Warning)
    ensures
        w@ == date_warning(date@),
{
    let detail = concat(String::from_str("the Date header "), debug_quoted(date).as_str());
    let detail = concat(detail, " is not a parseable date; date_parsed is None while date keeps the raw value");
    Warning { kind: KIND_DATE_UNPARSEABLE, part_path: String::new(), detail }
}

} // verus!
