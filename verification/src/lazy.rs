//! Lazy mode: bodies decoded as in the full parse, attachments retained
//! encoded and decoded on demand.

use vstd::prelude::*;
use crate::bridge::{
    encoded_body_of, mailparse_accepts, mailparse_refusal, mp_encoded_body, parse_structure, root_of,
};
use crate::decode::{body_text, body_to_vec, decode_body, transfer_decoded};
use crate::envelope::{
    date_name, envelope, envelope_of, header_mailboxes, parse_date_epoch,
    subject_name, value_or_empty, Envelope,
};
use crate::error::{ErrorView, MailError};
use crate::flat::{
    charset_warnings, envelope_warnings, escape_warnings, first_mailbox, flat_parts, flatten,
    lemma_flat_fits, lossy_escape, opt_text, parsed_buffer, table_view, texts, warning_views,
    MAX_INPUT_BYTES,
};
use crate::model::{parse_mail, Address, RawMessage, RawPart, TransferEncoding};
use crate::parts::{
    classify_part, first_value, header_table, is_body, is_container, is_text_html,
    part_content_id, part_disposition, part_filename, part_identity,
};
use crate::retained::{Retained, RetainedView};
use crate::scan::{first_invalid_escape, repair_missing_separator, repaired_payload};
use crate::text::str_eq;
use crate::warning::{
    separator_warning, warn_charset, warn_date, warn_separator, warn_transfer_decode, Warning,
    WarningView,
};

verus! {

/// A non-body part kept encoded, to be decoded on demand.
#[derive(Debug)]
pub struct LazyAttachment {
    pub mimetype: String,
    pub filename: String,
    pub content_id: Option<String>,
    pub disposition: Option<String>,
    /// Bytes the part's body occupies before transfer-decoding.
    pub encoded_size: usize,
    /// The part exactly as it sits in the message (its headers, the
    /// separator and its encoded body), relative to the buffer the parse ran
    /// over: the caller's payload, or `LazyMail::repaired` when that is set.
    pub raw: Retained,
}

pub struct LazyAttachmentView {
    pub mimetype: Seq<char>,
    pub filename: Seq<char>,
    pub content_id: Option<Seq<char>>,
    pub disposition: Option<Seq<char>>,
    pub encoded_size: nat,
    pub raw: RetainedView,
}

impl View for LazyAttachment {
    type V = LazyAttachmentView;

    open spec fn view(&self) -> LazyAttachmentView {
        LazyAttachmentView {
            mimetype: self.mimetype@,
            filename: self.filename@,
            content_id: opt_text(self.content_id),
            disposition: opt_text(self.disposition),
            encoded_size: self.encoded_size as nat,
            raw: self.raw@,
        }
    }
}

/// A message with its bodies decoded and its attachments deferred.
#[derive(Debug)]
pub struct LazyMail {
    /// The rebuilt payload, when the header block had to be repaired: the
    /// attachments' ranges index it rather than the caller's payload.
    pub repaired: Option<Vec<u8>>,
    pub subject: String,
    pub text_plain: Vec<String>,
    pub text_html: Vec<String>,
    pub date: String,
    pub from_: Option<Address>,
    pub to: Vec<Address>,
    pub cc: Vec<Address>,
    pub bcc: Vec<Address>,
    pub reply_to: Vec<Address>,
    pub attachments: Vec<LazyAttachment>,
    pub headers: Vec<(String, Vec<String>)>,
    pub warnings: Vec<Warning>,
}

pub struct LazyMailView {
    pub repaired: Option<Seq<u8>>,
    pub subject: Seq<char>,
    pub text_plain: Seq<Seq<char>>,
    pub text_html: Seq<Seq<char>>,
    pub date: Seq<char>,
    pub from_: Option<Address>,
    pub to: Seq<Address>,
    pub cc: Seq<Address>,
    pub bcc: Seq<Address>,
    pub reply_to: Seq<Address>,
    pub attachments: Seq<LazyAttachmentView>,
    pub headers: Seq<(Seq<char>, Seq<Seq<char>>)>,
    pub warnings: Seq<WarningView>,
}

pub open spec fn opt_bytes(o: Option<Vec<u8>>) -> Option<Seq<u8>> {
    match o {
        Some(v) => Some(v@),
        None => None,
    }
}

impl View for LazyMail {
    type V = LazyMailView;

    open spec fn view(&self) -> LazyMailView {
        LazyMailView {
            repaired: opt_bytes(self.repaired),
            subject: self.subject@,
            text_plain: texts(self.text_plain@),
            text_html: texts(self.text_html@),
            date: self.date@,
            from_: self.from_,
            to: self.to@,
            cc: self.cc@,
            bcc: self.bcc@,
            reply_to: self.reply_to@,
            attachments: self.attachments@.map_values(|a: LazyAttachment| a@),
            headers: table_view(self.headers@),
            warnings: warning_views(self.warnings@),
        }
    }
}

/// What the lazy parts loop has produced so far.
pub struct LazyOutcome {
    pub plain: Seq<Seq<char>>,
    pub html: Seq<Seq<char>>,
    pub attachments: Seq<LazyAttachmentView>,
    pub warnings: Seq<WarningView>,
}

/// One part through the lazy parse: as the full parse, except that an
/// attachment is described and retained rather than decoded.
pub open spec fn lazy_step(acc: LazyOutcome, p: RawPart, base: Seq<u8>) -> Result<LazyOutcome, ErrorView> {
    let raw = p.body.bytes_in(base);
    let escape = lossy_escape(p, raw);
    if is_container(p) {
        Ok(acc)
    } else if !is_body(p) {
        Ok(LazyOutcome {
            attachments: acc.attachments.push(LazyAttachmentView {
                mimetype: p.mimetype@,
                filename: part_filename(p),
                content_id: part_content_id(p),
                disposition: part_disposition(p),
                encoded_size: raw.len(),
                raw: p.raw@,
            }),
            warnings: acc.warnings + escape_warnings("attachments"@, acc.attachments.len(), escape),
            ..acc
        })
    } else {
        match body_text(p.encoding, raw, p.charset@) {
            Err(e) => Err(e),
            Ok((text, fell_back)) => if is_text_html(p) {
                Ok(LazyOutcome {
                    html: acc.html.push(text),
                    warnings: acc.warnings + charset_warnings("text_html"@, acc.html.len(), fell_back, p.charset@)
                        + escape_warnings("text_html"@, acc.html.len(), escape),
                    ..acc
                })
            } else {
                Ok(LazyOutcome {
                    plain: acc.plain.push(text),
                    warnings: acc.warnings + charset_warnings("text_plain"@, acc.plain.len(), fell_back, p.charset@)
                        + escape_warnings("text_plain"@, acc.plain.len(), escape),
                    ..acc
                })
            },
        }
    }
}

pub open spec fn lazy_fold(parts: Seq<RawPart>, base: Seq<u8>, init: LazyOutcome) -> Result<LazyOutcome, ErrorView>
    decreases parts.len(),
{
    if parts.len() == 0 {
        Ok(init)
    } else {
        match lazy_fold(parts.drop_last(), base, init) {
            Ok(acc) => lazy_step(acc, parts.last(), base),
            Err(e) => Err(e),
        }
    }
}

pub open spec fn lazy_init(msg: RawMessage) -> LazyOutcome {
    LazyOutcome {
        plain: Seq::empty(),
        html: Seq::empty(),
        attachments: Seq::empty(),
        warnings: envelope_warnings(msg),
    }
}

/// The lazy parse of a message read from `base`.
pub open spec fn lazy_view(msg: RawMessage, base: Seq<u8>) -> Result<LazyMailView, ErrorView> {
    let root = msg.root;
    match flat_parts(root, 0) {
        None => Err(ErrorView::MimeDepth),
        Some(parts) => match lazy_fold(parts, base, lazy_init(msg)) {
            Err(e) => Err(e),
            Ok(o) => Ok(LazyMailView {
                repaired: None,
                subject: value_or_empty(first_value(root.headers@, subject_name())),
                text_plain: o.plain,
                text_html: o.html,
                date: value_or_empty(first_value(root.headers@, date_name())),
                from_: first_mailbox(msg),
                to: header_mailboxes(msg.to),
                cc: header_mailboxes(msg.cc),
                bcc: header_mailboxes(msg.bcc),
                reply_to: header_mailboxes(msg.reply_to),
                attachments: o.attachments,
                headers: header_table(root.headers@),
                warnings: o.warnings,
            }),
        },
    }
}

/// The lazy parse of a payload whose structure `mailparse` read as `msg`:
/// a repaired payload travels with the result, and the repair is the first
/// warning.
pub open spec fn payload_lazy_view(msg: RawMessage, payload: Seq<u8>) -> Result<LazyMailView, ErrorView> {
    match lazy_view(msg, parsed_buffer(payload)) {
        Ok(v) => Ok(match repaired_payload(payload) {
            Some(fixed) => LazyMailView {
                repaired: Some(fixed),
                warnings: seq![separator_warning()] + v.warnings,
                ..v
            },
            None => v,
        }),
        Err(e) => Err(e),
    }
}

proof fn lemma_lazy_fold_err_extends(parts: Seq<RawPart>, k: int, base: Seq<u8>, init: LazyOutcome)
    requires
        0 <= k <= parts.len(),
        lazy_fold(parts.subrange(0, k), base, init) is Err,
    ensures
        lazy_fold(parts, base, init) == lazy_fold(parts.subrange(0, k), base, init),
    decreases parts.len() - k,
{
    if k < parts.len() {
        assert(parts.subrange(0, k + 1).drop_last() =~= parts.subrange(0, k));
        lemma_lazy_fold_err_extends(parts, k + 1, base, init);
    } else {
        assert(parts.subrange(0, k) =~= parts);
    }
}

proof fn lemma_lazy_fold_err_kind(parts: Seq<RawPart>, base: Seq<u8>, init: LazyOutcome)
    ensures
        lazy_fold(parts, base, init) matches Err(e) ==> e is Base64,
    decreases parts.len(),
{
    if parts.len() > 0 {
        lemma_lazy_fold_err_kind(parts.drop_last(), base, init);
    }
}

/// The lazy parse of a message `mailparse` read from `base`: bodies decoded
/// exactly as the full parse decodes them, attachments retained.
pub fn lazy_from_message(msg: RawMessage, base: &[u8]) -> (res: Result<LazyMail, MailError>)
    requires
        msg.root.fits(base@.len()),
    ensures
        match res {
            Ok(mail) => lazy_view(msg, base@) == Ok::<LazyMailView, ErrorView>(mail@),
            Err(e) => lazy_view(msg, base@) == Err::<LazyMailView, ErrorView>(e@),
        },
{
    let ghost gm = msg;
    let RawMessage { root, from_, to, cc, bcc, reply_to } = msg;
    let mut warnings: Vec<Warning> = Vec::new();
    let env = envelope(&root, from_, to, cc, bcc, reply_to, &mut warnings);
    assert(envelope_of(env, gm));
    let Envelope { headers, subject, date, from_, to, cc, bcc, reply_to } = env;
    assert(table_view(headers@) =~= header_table(gm.root.headers@));
    if !date.as_str().is_empty() && parse_date_epoch(date.as_str()).is_none() {
        warnings.push(warn_date(date.as_str()));
    }
    assert(warning_views(warnings@) =~= envelope_warnings(gm));
    let mut parts: Vec<&RawPart> = Vec::new();
    if !flatten(&root, 0, &mut parts) {
        return Err(MailError::MimeDepth);
    }
    let ghost flat = flat_parts(gm.root, 0)->0;
    let ghost init = lazy_init(gm);
    assert(parts@.map_values(|r: &RawPart| *r) =~= flat);
    proof {
        lemma_flat_fits(gm.root, 0, base@.len() as nat);
    }
    let mut text_plain: Vec<String> = Vec::new();
    let mut text_html: Vec<String> = Vec::new();
    let mut attachments: Vec<LazyAttachment> = Vec::new();
    assert(texts(text_plain@) =~= Seq::<Seq<char>>::empty());
    assert(texts(text_html@) =~= Seq::<Seq<char>>::empty());
    assert(attachments@.map_values(|a: LazyAttachment| a@) =~= Seq::<LazyAttachmentView>::empty());
    assert(flat.subrange(0, 0) =~= Seq::<RawPart>::empty());
    let mut i: usize = 0;
    while i < parts.len()
        invariant
            i <= parts@.len() == flat.len(),
            flat_parts(gm.root, 0) == Some(flat),
            gm == msg,
            init == lazy_init(gm),
            forall|k: int| 0 <= k < flat.len() ==> (#[trigger] flat[k]).fits(base@.len()),
            forall|k: int| 0 <= k < parts@.len() ==> *(#[trigger] parts@[k]) == flat[k],
            lazy_fold(flat.subrange(0, i as int), base@, init) == Ok::<LazyOutcome, ErrorView>(LazyOutcome {
                plain: texts(text_plain@),
                html: texts(text_html@),
                attachments: attachments@.map_values(|a: LazyAttachment| a@),
                warnings: warning_views(warnings@),
            }),
        decreases parts@.len() - i,
    {
        let part: &RawPart = parts[i];
        let ghost acc = LazyOutcome {
            plain: texts(text_plain@),
            html: texts(text_html@),
            attachments: attachments@.map_values(|a: LazyAttachment| a@),
            warnings: warning_views(warnings@),
        };
        proof {
            assert(flat.subrange(0, i + 1).drop_last() =~= flat.subrange(0, i as int));
            assert(flat.subrange(0, i + 1).last() == flat[i as int]);
            assert(part.fits(base@.len()));
        }
        match classify_part(part) {
            None => {},
            Some(info) => {
                let raw = part.body.slice(base);
                let escape = if part.encoding == TransferEncoding::QuotedPrintable {
                    first_invalid_escape(raw)
                } else {
                    None
                };
                if !info.is_body {
                    if let Some(at) = escape {
                        warnings.push(warn_transfer_decode("attachments", attachments.len(), at));
                    }
                    let id = part_identity(part);
                    attachments.push(LazyAttachment {
                        mimetype: String::from_str(info.mime),
                        filename: id.filename,
                        content_id: id.content_id,
                        disposition: id.disposition,
                        encoded_size: raw.len(),
                        raw: part.raw.duplicate(),
                    });
                    proof {
                        assert(attachments@.map_values(|a: LazyAttachment| a@) =~= acc.attachments.push(attachments@.last()@));
                        assert(warning_views(warnings@) =~= acc.warnings + escape_warnings("attachments"@, acc.attachments.len(), lossy_escape(*part, raw@)));
                    }
                } else {
                    let (text, fell_back) = match decode_body(part.encoding, raw, &part.charset) {
                        Ok(r) => r,
                        Err(e) => {
                            proof {
                                lemma_lazy_fold_err_extends(flat, i as int + 1, base@, init);
                                assert(lazy_fold(flat.subrange(0, i + 1), base@, init) == Err::<LazyOutcome, ErrorView>(e@));
                            }
                            return Err(e);
                        },
                    };
                    if str_eq(info.mime, "text/html") {
                        let index = text_html.len();
                        if fell_back {
                            warnings.push(warn_charset("text_html", index, part.charset.as_str()));
                        }
                        if let Some(at) = escape {
                            warnings.push(warn_transfer_decode("text_html", index, at));
                        }
                        text_html.push(text);
                        proof {
                            assert(texts(text_html@) =~= acc.html.push(text@));
                            assert(warning_views(warnings@) =~= acc.warnings + charset_warnings("text_html"@, acc.html.len(), fell_back, part.charset@)
                                + escape_warnings("text_html"@, acc.html.len(), lossy_escape(*part, raw@)));
                        }
                    } else {
                        let index = text_plain.len();
                        if fell_back {
                            warnings.push(warn_charset("text_plain", index, part.charset.as_str()));
                        }
                        if let Some(at) = escape {
                            warnings.push(warn_transfer_decode("text_plain", index, at));
                        }
                        text_plain.push(text);
                        proof {
                            assert(texts(text_plain@) =~= acc.plain.push(text@));
                            assert(warning_views(warnings@) =~= acc.warnings + charset_warnings("text_plain"@, acc.plain.len(), fell_back, part.charset@)
                                + escape_warnings("text_plain"@, acc.plain.len(), lossy_escape(*part, raw@)));
                        }
                    }
                }
            },
        }
        i = i + 1;
    }
    assert(flat.subrange(0, flat.len() as int) =~= flat);
    Ok(LazyMail {
        repaired: None,
        subject,
        text_plain,
        text_html,
        date,
        from_,
        to,
        cc,
        bcc,
        reply_to,
        attachments,
        headers,
        warnings,
    })
}

/// What a lazy parse of `payload` gives: as the full parse, refused over the
/// cap or by `mailparse`, and otherwise the lazy view of the message read
/// from `mailparse`'s parse of it.
pub open spec fn lazy_parsed_as(payload: Seq<u8>, res: Result<LazyMail, MailError>) -> bool {
    let buffer = parsed_buffer(payload);
    if payload.len() > MAX_INPUT_BYTES {
        res matches Err(MailError::InputTooLarge)
    } else if !mailparse_accepts(buffer) {
        res matches Err(MailError::Header(t)) && mailparse_refusal(buffer) == Some(t@)
    } else {
        exists|msg: RawMessage| #[trigger] msg.read_from(buffer, false) && match res {
            Ok(mail) => payload_lazy_view(msg, payload) == Ok::<LazyMailView, ErrorView>(mail@),
            Err(e) => payload_lazy_view(msg, payload) == Err::<LazyMailView, ErrorView>(e@),
        }
    }
}

/// Parse a message, decoding the bodies and deferring the attachments.
///
/// A payload over `MAX_INPUT_BYTES` is refused. A message missing its
/// header/body separator is parsed from a repaired copy, which is returned in
/// `repaired` because the attachments' ranges index it; the repair is the
/// first warning.
pub fn parse_email_lazy(payload: &[u8]) -> (res: Result<LazyMail, MailError>)
    ensures
        lazy_parsed_as(payload@, res),
{
    if payload.len() > MAX_INPUT_BYTES {
        return Err(MailError::InputTooLarge);
    }
    let repaired = repair_missing_separator(payload);
    let parsed_from_repair = repaired.is_some();
    let mut mail = {
        let base: &[u8] = match &repaired {
            Some(fixed) => fixed.as_slice(),
            None => payload,
        };
        assert(base@ == parsed_buffer(payload@));
        let msg = match parse_mail(base, false) {
            Ok(m) => m,
            Err(e) => {
                return Err(e);
            },
        };
        let ghost gm = msg;
        match lazy_from_message(msg, base) {
            Ok(m) => {
                assert(gm.read_from(parsed_buffer(payload@), false));
                assert(lazy_view(gm, parsed_buffer(payload@)) == Ok::<LazyMailView, ErrorView>(m@));
                assert(exists|msg: RawMessage| #[trigger] msg.read_from(parsed_buffer(payload@), false)
                    && lazy_view(msg, parsed_buffer(payload@)) == Ok::<LazyMailView, ErrorView>(m@));
                m
            },
            Err(e) => {
                proof {
                    if let Some(parts) = flat_parts(gm.root, 0) {
                        lemma_lazy_fold_err_kind(parts, base@, lazy_init(gm));
                    }
                }
                assert(gm.read_from(parsed_buffer(payload@), false));
                return Err(e);
            },
        }
    };
    let ghost before = mail@;
    let ghost witness = choose|msg: RawMessage| msg.read_from(parsed_buffer(payload@), false)
        && lazy_view(msg, parsed_buffer(payload@)) == Ok::<LazyMailView, ErrorView>(before);
    if parsed_from_repair {
        mail.warnings.insert(0, warn_separator());
        assert(warning_views(mail.warnings@) =~= seq![separator_warning()] + before.warnings);
    }
    mail.repaired = repaired;
    assert(payload_lazy_view(witness, payload@) == Ok::<LazyMailView, ErrorView>(mail@));
    Ok(mail)
}

/// A retained part's content, decoded as the full parse decodes a part: the
/// part's own header block is parsed again to find its transfer encoding,
/// and its body is decoded under it. Bytes whose header block `mailparse`
/// refuses fail with its error.
pub fn decode_part(raw: &[u8]) -> (res: Result<Vec<u8>, MailError>)
    ensures
        !mailparse_accepts(raw@) ==> (res matches Err(MailError::Header(t)) && mailparse_refusal(raw@) == Some(t@)),
        mailparse_accepts(raw@) ==> match res {
            Ok(v) => transfer_decoded(mp_encoded_body(raw@, Seq::empty()).0, mp_encoded_body(raw@, Seq::empty()).1)
                == Ok::<Seq<u8>, ErrorView>(v@),
            Err(e) => transfer_decoded(mp_encoded_body(raw@, Seq::empty()).0, mp_encoded_body(raw@, Seq::empty()).1)
                == Err::<Seq<u8>, ErrorView>(e@),
        },
{
    let parsed = match parse_structure(raw) {
        Ok(p) => p,
        Err(text) => {
            return Err(MailError::Header(text));
        },
    };
    let root = root_of(&parsed);
    let (encoding, body) = encoded_body_of(&root);
    body_to_vec(encoding, body)
}

} // verus!
