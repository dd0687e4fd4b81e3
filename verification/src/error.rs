//! How a parse fails.

use vstd::prelude::*;
use crate::text::concat;

verus! {

/// The payload is larger than `MAX_INPUT_BYTES`.
pub const ERR_INPUT_TOO_LARGE: &'static str = "Input exceeds maximum allowed size";

/// MIME nesting reaches `MAX_MIME_DEPTH`.
pub const ERR_MIME_DEPTH: &'static str = "MIME nesting exceeds maximum allowed depth";

/// Why a message could not be parsed.
#[derive(Debug)]
pub enum MailError {
    /// The header section could not be parsed; `mailparse`'s description.
    Header(String),
    /// A base64 body did not decode; the decoder's description.
    Base64(String),
    /// The payload exceeds `MAX_INPUT_BYTES`.
    InputTooLarge,
    /// MIME nesting reached `MAX_MIME_DEPTH`.
    MimeDepth,
}

/// A `MailError` with its texts as character sequences.
pub enum ErrorView {
    Header(Seq<char>),
    Base64(Seq<char>),
    InputTooLarge,
    MimeDepth,
}

impl View for MailError {
    type V = ErrorView;

    open spec fn view(&self) -> ErrorView {
        match self {
            MailError::Header(s) => ErrorView::Header(s@),
            MailError::Base64(s) => ErrorView::Base64(s@),
            MailError::InputTooLarge => ErrorView::InputTooLarge,
            MailError::MimeDepth => ErrorView::MimeDepth,
        }
    }
}

pub open spec fn error_message(e: ErrorView) -> Seq<char> {
    match e {
        ErrorView::Header(s) => s,
        ErrorView::Base64(s) => "Base64 decode error: "@ + s,
        ErrorView::InputTooLarge => ERR_INPUT_TOO_LARGE@,
        ErrorView::MimeDepth => ERR_MIME_DEPTH@,
    }
}

impl MailError {
    /// A second error equal to this one.
    pub fn duplicate(&self) -> (e: MailError)
        ensures
            e@ == self@,
    {
        match self {
            MailError::Header(s) => MailError::Header(s.clone()),
            MailError::Base64(s) => MailError::Base64(s.clone()),
            MailError::InputTooLarge => MailError::InputTooLarge,
            MailError::MimeDepth => MailError::MimeDepth,
        }
    }

    /// The error's text, as `mailparse` would display the same failure.
    pub fn message(&self) -> (m: String)
        ensures
            m@ == error_message(self@),
    {
        match self {
            MailError::Header(s) => s.clone(),
            MailError::Base64(s) => concat(String::from_str("Base64 decode error: "), s.as_str()),
            MailError::InputTooLarge => String::from_str(ERR_INPUT_TOO_LARGE),
            MailError::MimeDepth => String::from_str(ERR_MIME_DEPTH),
        }
    }
}

} // verus!
