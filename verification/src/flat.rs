//! The flat projection of a message: bodies in two lists, attachments in a
//! third, `multipart/*` containers dropped.

use vstd::prelude::*;
use crate::bridge::{mailparse_accepts, mailparse_refusal};
use crate::decode::{body_text, body_to_vec, decode_body, transfer_decoded};
use crate::envelope::{
    address_warnings, date_epoch, date_name, envelope, envelope_of, header_mailboxes,
    parse_date_epoch, subject_name, value_or_empty, Envelope,
};
use crate::error::{ErrorView, MailError};
use crate::metadata::{describe, inventory, AttachmentMetadataView};
use crate::model::{parse_mail, Address, RawMessage, RawPart, TransferEncoding, MAX_MIME_DEPTH};
use crate::parts::{
    classify_part, first_value, header_table, is_body, is_container, is_text_html,
    part_content_id, part_disposition, part_filename, part_identity,
};
use crate::scan::{invalid_escape_from, repaired_payload, repair_missing_separator, first_invalid_escape};
use crate::text::str_eq;
use crate::warning::{
    charset_warning, date_warning, separator_warning, transfer_warning, warn_charset, warn_date,
    warn_separator, warn_transfer_decode, Warning, WarningView,
};

verus! {

/// Payloads larger than this are refused before parsing.
pub const MAX_INPUT_BYTES: usize = 100 * 1024 * 1024;

pub open spec fn opt_text(o: Option<String>) -> Option<Seq<char>> {
    match o {
        Some(s) => Some(s@),
        None => None,
    }
}

/// Every part of the tree below `p` (nested `depth` deep), children before
/// their parent; `None` when some part is nested `MAX_MIME_DEPTH` deep.
pub open spec fn flat_parts(p: RawPart, depth: int) -> Option<Seq<RawPart>>
    decreases p, 1int,
{
    if depth >= MAX_MIME_DEPTH {
        None
    } else {
        match flat_list(p.subparts@, depth + 1) {
            Some(s) => Some(s.push(p)),
            None => None,
        }
    }
}

pub open spec fn flat_list(ps: Seq<RawPart>, depth: int) -> Option<Seq<RawPart>>
    decreases ps, 0int,
{
    if ps.len() == 0 {
        Some(Seq::empty())
    } else {
        match flat_list(ps.drop_last(), depth) {
            Some(a) => match flat_parts(ps.last(), depth) {
                Some(b) => Some(a + b),
                None => None,
            },
            None => None,
        }
    }
}

pub proof fn lemma_flat_fits(p: RawPart, depth: int, len: nat)
    requires
        p.fits(len),
        flat_parts(p, depth) is Some,
    ensures
        forall|k: int| 0 <= k < flat_parts(p, depth)->0.len() ==> (#[trigger] flat_parts(p, depth)->0[k]).fits(len),
    decreases p, 1int,
{
    crate::model::lemma_fits_children(p, len);
    lemma_flat_list_fits(p.subparts@, depth + 1, len);
}

pub proof fn lemma_flat_list_fits(ps: Seq<RawPart>, depth: int, len: nat)
    requires
        forall|i: int| 0 <= i < ps.len() ==> (#[trigger] ps[i]).fits(len),
        flat_list(ps, depth) is Some,
    ensures
        forall|k: int| 0 <= k < flat_list(ps, depth)->0.len() ==> (#[trigger] flat_list(ps, depth)->0[k]).fits(len),
    decreases ps, 0int,
{
    if ps.len() > 0 {
        assert forall|i: int| 0 <= i < ps.drop_last().len() implies (#[trigger] ps.drop_last()[i]).fits(len) by {
            assert(ps.drop_last()[i] == ps[i]);
        }
        lemma_flat_list_fits(ps.drop_last(), depth, len);
        lemma_flat_fits(ps.last(), depth, len);
    }
}

/// Collect every part below `p`, children before their parent.
pub(crate) fn flatten<'p>(p: &'p RawPart, depth: usize, out: &mut Vec<&'p RawPart>) -> (ok: bool)
    ensures
        ok == flat_parts(*p, depth as int) is Some,
        ok ==> final(out)@.map_values(|r: &RawPart| *r) == old(out)@.map_values(|r: &RawPart| *r)
            + flat_parts(*p, depth as int)->0,
    decreases p,
{
    if depth >= MAX_MIME_DEPTH {
        return false;
    }
    let ghost start = out@.map_values(|r: &RawPart| *r);
    let mut i: usize = 0;
    while i < p.subparts.len()
        invariant
            depth < MAX_MIME_DEPTH,
            i <= p.subparts@.len(),
            flat_list(p.subparts@.subrange(0, i as int), depth + 1) is Some,
            out@.map_values(|r: &RawPart| *r) == start + flat_list(p.subparts@.subrange(0, i as int), depth + 1)->0,
        decreases p.subparts@.len() - i,
    {
        proof {
            assert(p.subparts@.subrange(0, i + 1).drop_last() =~= p.subparts@.subrange(0, i as int));
            assert(p.subparts@.subrange(0, i + 1).last() == p.subparts@[i as int]);
        }
        if !flatten(&p.subparts[i], depth + 1, out) {
            proof {
                assert(p.subparts@.subrange(0, p.subparts@.len() as int) =~= p.subparts@);
                lemma_flat_list_none_extends(p.subparts@, i as int + 1, depth + 1);
            }
            return false;
        }
        proof {
            assert(out@.map_values(|r: &RawPart| *r) =~= start + flat_list(p.subparts@.subrange(0, i + 1), depth + 1)->0);
        }
        i = i + 1;
    }
    assert(p.subparts@.subrange(0, p.subparts@.len() as int) =~= p.subparts@);
    let ghost mid = out@.map_values(|r: &RawPart| *r);
    out.push(p);
    assert(out@.map_values(|r: &RawPart| *r) =~= mid.push(*p));
    true
}

/// A failure in a prefix of the subparts fails the whole list.
proof fn lemma_flat_list_none_extends(ps: Seq<RawPart>, k: int, depth: int)
    requires
        0 <= k <= ps.len(),
        flat_list(ps.subrange(0, k), depth) is None,
    ensures
        flat_list(ps, depth) is None,
    decreases ps.len() - k,
{
    if k < ps.len() {
        assert(ps.subrange(0, k + 1).drop_last() =~= ps.subrange(0, k));
        lemma_flat_list_none_extends(ps, k + 1, depth);
    } else {
        assert(ps.subrange(0, k) =~= ps);
    }
}

/// A non-body part, decoded.
#[derive(Debug)]
pub struct Attachment {
    pub mimetype: String,
    pub content: Vec<u8>,
    pub filename: String,
    pub content_id: Option<String>,
    pub disposition: Option<String>,
}

pub struct AttachmentView {
    pub mimetype: Seq<char>,
    pub content: Seq<u8>,
    pub filename: Seq<char>,
    pub content_id: Option<Seq<char>>,
    pub disposition: Option<Seq<char>>,
}

impl View for Attachment {
    type V = AttachmentView;

    open spec fn view(&self) -> AttachmentView {
        AttachmentView {
            mimetype: self.mimetype@,
            content: self.content@,
            filename: self.filename@,
            content_id: opt_text(self.content_id),
            disposition: opt_text(self.disposition),
        }
    }
}

/// What the parts loop has produced so far.
pub struct FlatOutcome {
    pub plain: Seq<Seq<char>>,
    pub html: Seq<Seq<char>>,
    pub attachments: Seq<AttachmentView>,
    pub warnings: Seq<WarningView>,
}

/// Where a quoted-printable part's first invalid escape is.
pub open spec fn lossy_escape(p: RawPart, raw: Seq<u8>) -> Option<int> {
    if p.encoding == TransferEncoding::QuotedPrintable {
        invalid_escape_from(raw, 0)
    } else {
        None
    }
}

pub open spec fn escape_warnings(field: Seq<char>, index: nat, escape: Option<int>) -> Seq<WarningView> {
    match escape {
        Some(at) => seq![transfer_warning(field, index, at as nat)],
        None => Seq::empty(),
    }
}

pub open spec fn charset_warnings(field: Seq<char>, index: nat, fell_back: bool, label: Seq<char>) -> Seq<WarningView> {
    if fell_back {
        seq![charset_warning(field, index, label)]
    } else {
        Seq::empty()
    }
}

/// One part through the full parse: containers skipped, bodies decoded to
/// text, everything else decoded to an attachment.
pub open spec fn full_step(acc: FlatOutcome, p: RawPart, base: Seq<u8>) -> Result<FlatOutcome, ErrorView> {
    let raw = p.body.bytes_in(base);
    let escape = lossy_escape(p, raw);
    if is_container(p) {
        Ok(acc)
    } else if !is_body(p) {
        match transfer_decoded(p.encoding, raw) {
            Ok(bytes) => Ok(FlatOutcome {
                attachments: acc.attachments.push(AttachmentView {
                    mimetype: p.mimetype@,
                    content: bytes,
                    filename: part_filename(p),
                    content_id: part_content_id(p),
                    disposition: part_disposition(p),
                }),
                warnings: acc.warnings + escape_warnings("attachments"@, acc.attachments.len(), escape),
                ..acc
            }),
            Err(e) => Err(e),
        }
    } else {
        match body_text(p.encoding, raw, p.charset@) {
            Err(e) => Err(e),
            Ok((text, fell_back)) => if is_text_html(p) {
                Ok(FlatOutcome {
                    html: acc.html.push(text),
                    warnings: acc.warnings + charset_warnings("text_html"@, acc.html.len(), fell_back, p.charset@)
                        + escape_warnings("text_html"@, acc.html.len(), escape),
                    ..acc
                })
            } else {
                Ok(FlatOutcome {
                    plain: acc.plain.push(text),
                    warnings: acc.warnings + charset_warnings("text_plain"@, acc.plain.len(), fell_back, p.charset@)
                        + escape_warnings("text_plain"@, acc.plain.len(), escape),
                    ..acc
                })
            },
        }
    }
}

/// The parts, in order, through `full_step`; the first failure stops it.
pub open spec fn full_fold(parts: Seq<RawPart>, base: Seq<u8>, init: FlatOutcome) -> Result<FlatOutcome, ErrorView>
    decreases parts.len(),
{
    if parts.len() == 0 {
        Ok(init)
    } else {
        match full_fold(parts.drop_last(), base, init) {
            Ok(acc) => full_step(acc, parts.last(), base),
            Err(e) => Err(e),
        }
    }
}

/// The warnings a message produces before any part is looked at: address
/// headers that do not parse, then a `Date` that does not.
pub open spec fn envelope_warnings(msg: RawMessage) -> Seq<WarningView> {
    let date = value_or_empty(first_value(msg.root.headers@, date_name()));
    address_warnings(msg) + if date.len() > 0 && date_epoch(date) is None {
        seq![date_warning(date)]
    } else {
        Seq::empty()
    }
}

/// A parsed message.
#[derive(Debug)]
pub struct Mail {
    pub subject: String,
    pub text_plain: Vec<String>,
    pub text_html: Vec<String>,
    pub date: String,
    pub from_: Option<Address>,
    pub to: Vec<Address>,
    pub cc: Vec<Address>,
    pub bcc: Vec<Address>,
    pub reply_to: Vec<Address>,
    pub attachments: Vec<Attachment>,
    pub headers: Vec<(String, Vec<String>)>,
    /// Every lossy repair this parse made, in the order it made them.
    pub warnings: Vec<Warning>,
}

pub struct MailView {
    pub subject: Seq<char>,
    pub text_plain: Seq<Seq<char>>,
    pub text_html: Seq<Seq<char>>,
    pub date: Seq<char>,
    pub from_: Option<Address>,
    pub to: Seq<Address>,
    pub cc: Seq<Address>,
    pub bcc: Seq<Address>,
    pub reply_to: Seq<Address>,
    pub attachments: Seq<AttachmentView>,
    pub headers: Seq<(Seq<char>, Seq<Seq<char>>)>,
    pub warnings: Seq<WarningView>,
}

pub open spec fn texts(v: Seq<String>) -> Seq<Seq<char>> {
    v.map_values(|s: String| s@)
}

pub open spec fn table_view(t: Seq<(String, Vec<String>)>) -> Seq<(Seq<char>, Seq<Seq<char>>)> {
    t.map_values(|e: (String, Vec<String>)| (e.0@, texts(e.1@)))
}

pub open spec fn warning_views(w: Seq<Warning>) -> Seq<WarningView> {
    w.map_values(|x: Warning| x@)
}

impl View for Mail {
    type V = MailView;

    open spec fn view(&self) -> MailView {
        MailView {
            subject: self.subject@,
            text_plain: texts(self.text_plain@),
            text_html: texts(self.text_html@),
            date: self.date@,
            from_: self.from_,
            to: self.to@,
            cc: self.cc@,
            bcc: self.bcc@,
            reply_to: self.reply_to@,
            attachments: self.attachments@.map_values(|a: Attachment| a@),
            headers: table_view(self.headers@),
            warnings: warning_views(self.warnings@),
        }
    }
}

/// The first mailbox of the `From` header.
pub open spec fn first_mailbox(msg: RawMessage) -> Option<Address> {
    if header_mailboxes(msg.from_).len() > 0 {
        Some(header_mailboxes(msg.from_)[0])
    } else {
        None
    }
}

/// The full parse of a message read from `base`.
pub open spec fn mail_view(msg: RawMessage, base: Seq<u8>) -> Result<MailView, ErrorView> {
    let root = msg.root;
    let init = FlatOutcome {
        plain: Seq::empty(),
        html: Seq::empty(),
        attachments: Seq::empty(),
        warnings: envelope_warnings(msg),
    };
    match flat_parts(root, 0) {
        None => Err(ErrorView::MimeDepth),
        Some(parts) => match full_fold(parts, base, init) {
            Err(e) => Err(e),
            Ok(o) => Ok(MailView {
                subject: value_or_empty(first_value(root.headers@, subject_name())),
                text_plain: o.plain,
                text_html: o.html,
                date: value_or_empty(first_value(root.headers@, date_name())),
                from_: first_mailbox(msg),
                to: header_mailboxes(msg.to),
                cc: header_mailboxes(msg.cc),
                bcc: header_mailboxes(msg.bcc),
                reply_to: header_mailboxes(msg.reply_to),
                attachments: o.attachments,
                headers: header_table(root.headers@),
                warnings: o.warnings,
            }),
        },
    }
}

/// Decoding never more than doubles an attachment: each attachment's content
/// is at most twice the size its body occupies on the wire, as metadata mode
/// describes the same part.
pub open spec fn decoded_within_double(attachments: Seq<AttachmentView>, described: Seq<AttachmentMetadataView>) -> bool {
    &&& attachments.len() == described.len()
    &&& forall|k: int| 0 <= k < attachments.len() ==> (#[trigger] attachments[k]).content.len() <= 2
        * described[k].encoded_size
}

/// `decoded_within_double` for a full parse of `msg` read from `base`.
pub open spec fn sizes_within_double(mail: MailView, msg: RawMessage, base: Seq<u8>) -> bool {
    flat_parts(msg.root, 0) is Some && decoded_within_double(mail.attachments, inventory(flat_parts(msg.root, 0)->0, base))
}

/// The buffer a payload is parsed from: the payload, or its repair.
pub open spec fn parsed_buffer(payload: Seq<u8>) -> Seq<u8> {
    match repaired_payload(payload) {
        Some(fixed) => fixed,
        None => payload,
    }
}

/// What a full parse of `payload` gives: a payload over the cap is refused;
/// one whose (repaired) header block `mailparse` refuses fails with
/// `mailparse`'s error; any other is the full view of the message read from
/// `mailparse`'s parse of it, `Ok` or the decoding error that view meets.
pub open spec fn parsed_as(payload: Seq<u8>, res: Result<Mail, MailError>) -> bool {
    let buffer = parsed_buffer(payload);
    if payload.len() > MAX_INPUT_BYTES {
        res matches Err(MailError::InputTooLarge)
    } else if !mailparse_accepts(buffer) {
        res matches Err(MailError::Header(t)) && mailparse_refusal(buffer) == Some(t@)
    } else {
        exists|msg: RawMessage| #[trigger] msg.read_from(buffer, false) && match res {
            Ok(mail) => payload_view(msg, payload) == Ok::<MailView, ErrorView>(mail@)
                && sizes_within_double(mail@, msg, buffer),
            Err(e) => payload_view(msg, payload) == Err::<MailView, ErrorView>(e@),
        }
    }
}

/// The full parse of a payload whose structure `mailparse` read as `msg`: the
/// separator repair, when one was made, is the first warning.
pub open spec fn payload_view(msg: RawMessage, payload: Seq<u8>) -> Result<MailView, ErrorView> {
    match mail_view(msg, parsed_buffer(payload)) {
        Ok(v) => Ok(if repaired_payload(payload) is Some {
            MailView { warnings: seq![separator_warning()] + v.warnings, ..v }
        } else {
            v
        }),
        Err(e) => Err(e),
    }
}

proof fn lemma_header_table(t: Seq<(String, Vec<String>)>, hs: Seq<crate::model::HeaderField>)
    requires
        t.len() == crate::parts::header_groups(hs).len(),
        forall|k: int| 0 <= k < t.len() ==> (#[trigger] t[k]).0 == crate::parts::header_groups(hs)[k].key
            && t[k].1@ == crate::parts::header_groups(hs)[k].values,
    ensures
        table_view(t) == header_table(hs),
{
    assert(table_view(t) =~= header_table(hs));
}

impl Mail {
    /// The full parse of a message `mailparse` read from `base`: bodies decoded
    /// to text, attachments decoded, warnings for every lossy repair.
    pub fn from_message(msg: RawMessage, base: &[u8]) -> (res: Result<Mail, MailError>)
        requires
            msg.root.fits(base@.len()),
        ensures
            match res {
                Ok(mail) => mail_view(msg, base@) == Ok::<MailView, ErrorView>(mail@),
                Err(e) => mail_view(msg, base@) == Err::<MailView, ErrorView>(e@),
            },
            res matches Ok(mail) ==> sizes_within_double(mail@, msg, base@),
    {
        let ghost gm = msg;
        let RawMessage { root, from_, to, cc, bcc, reply_to } = msg;
        let mut warnings: Vec<Warning> = Vec::new();
        let env = envelope(&root, from_, to, cc, bcc, reply_to, &mut warnings);
        assert(envelope_of(env, gm));
        let Envelope { headers, subject, date, from_, to, cc, bcc, reply_to } = env;
        proof {
            lemma_header_table(headers@, gm.root.headers@);
        }
        if !date.as_str().is_empty() && parse_date_epoch(date.as_str()).is_none() {
            warnings.push(warn_date(date.as_str()));
        }
        assert(warning_views(warnings@) =~= envelope_warnings(gm));
        let mut parts: Vec<&RawPart> = Vec::new();
        if !flatten(&root, 0, &mut parts) {
            return Err(MailError::MimeDepth);
        }
        let ghost flat = flat_parts(gm.root, 0)->0;
        assert(parts@.map_values(|r: &RawPart| *r) =~= flat);
        proof {
            lemma_flat_fits(gm.root, 0, base@.len() as nat);
        }
        let ghost init = FlatOutcome {
            plain: Seq::empty(),
            html: Seq::empty(),
            attachments: Seq::empty(),
            warnings: envelope_warnings(gm),
        };
        let mut text_plain: Vec<String> = Vec::new();
        let mut text_html: Vec<String> = Vec::new();
        let mut attachments: Vec<Attachment> = Vec::new();
        assert(texts(text_plain@) =~= Seq::<Seq<char>>::empty());
        assert(texts(text_html@) =~= Seq::<Seq<char>>::empty());
        assert(attachments@.map_values(|a: Attachment| a@) =~= Seq::<AttachmentView>::empty());
        assert(flat.subrange(0, 0) =~= Seq::<RawPart>::empty());
        let mut i: usize = 0;
        while i < parts.len()
            invariant
                i <= parts@.len() == flat.len(),
                flat_parts(gm.root, 0) == Some(flat),
                gm == msg,
                init == (FlatOutcome {
                    plain: Seq::empty(),
                    html: Seq::empty(),
                    attachments: Seq::empty(),
                    warnings: envelope_warnings(gm),
                }),
                forall|k: int| 0 <= k < flat.len() ==> (#[trigger] flat[k]).fits(base@.len()),
                forall|k: int| 0 <= k < parts@.len() ==> *(#[trigger] parts@[k]) == flat[k],
                attachments@.len() == inventory(flat.subrange(0, i as int), base@).len(),
                forall|k: int| 0 <= k < attachments@.len() ==> (#[trigger] attachments@[k]).content@.len() <= 2
                    * inventory(flat.subrange(0, i as int), base@)[k].encoded_size,
                full_fold(flat.subrange(0, i as int), base@, init) == Ok::<FlatOutcome, ErrorView>(FlatOutcome {
                    plain: texts(text_plain@),
                    html: texts(text_html@),
                    attachments: attachments@.map_values(|a: Attachment| a@),
                    warnings: warning_views(warnings@),
                }),
            decreases parts@.len() - i,
        {
            let part: &RawPart = parts[i];
            let ghost acc = FlatOutcome {
                plain: texts(text_plain@),
                html: texts(text_html@),
                attachments: attachments@.map_values(|a: Attachment| a@),
                warnings: warning_views(warnings@),
            };
            proof {
                assert(flat.subrange(0, i + 1).drop_last() =~= flat.subrange(0, i as int));
                assert(flat.subrange(0, i + 1).last() == flat[i as int]);
                assert(part.fits(base@.len()));
            }
            match classify_part(part) {
                None => {},
                Some(info) => {
                    let raw = part.body.slice(base);
                    let escape = if part.encoding == TransferEncoding::QuotedPrintable {
                        first_invalid_escape(raw)
                    } else {
                        None
                    };
                    if !info.is_body {
                        let id = part_identity(part);
                        let content = match body_to_vec(part.encoding, raw) {
                            Ok(c) => c,
                            Err(e) => {
                                proof {
                                    lemma_full_fold_err_extends(flat, i as int + 1, base@, init);
                                    assert(full_fold(flat.subrange(0, i + 1), base@, init) == Err::<FlatOutcome, ErrorView>(e@));
                                }
                                return Err(e);
                            },
                        };
                        if let Some(at) = escape {
                            warnings.push(warn_transfer_decode("attachments", attachments.len(), at));
                        }
                        attachments.push(Attachment {
                            mimetype: String::from_str(info.mime),
                            content,
                            filename: id.filename,
                            content_id: id.content_id,
                            disposition: id.disposition,
                        });
                        proof {
                            assert(inventory(flat.subrange(0, i + 1), base@) == inventory(flat.subrange(0, i as int), base@).push(describe(*part, base@)));
                            assert(attachments@.map_values(|a: Attachment| a@) =~= acc.attachments.push(attachments@.last()@));
                            assert(warning_views(warnings@) =~= acc.warnings + escape_warnings("attachments"@, acc.attachments.len(), lossy_escape(*part, raw@)));
                        }
                    } else {
                        let (text, fell_back) = match decode_body(part.encoding, raw, &part.charset) {
                            Ok(r) => r,
                            Err(e) => {
                                proof {
                                    lemma_full_fold_err_extends(flat, i as int + 1, base@, init);
                                    assert(full_fold(flat.subrange(0, i + 1), base@, init) == Err::<FlatOutcome, ErrorView>(e@));
                                }
                                return Err(e);
                            },
                        };
                        if str_eq(info.mime, "text/html") {
                            let index = text_html.len();
                            if fell_back {
                                warnings.push(warn_charset("text_html", index, part.charset.as_str()));
                            }
                            if let Some(at) = escape {
                                warnings.push(warn_transfer_decode("text_html", index, at));
                            }
                            text_html.push(text);
                            proof {
                                assert(texts(text_html@) =~= acc.html.push(text@));
                                assert(warning_views(warnings@) =~= acc.warnings + charset_warnings("text_html"@, acc.html.len(), fell_back, part.charset@)
                                    + escape_warnings("text_html"@, acc.html.len(), lossy_escape(*part, raw@)));
                            }
                        } else {
                            let index = text_plain.len();
                            if fell_back {
                                warnings.push(warn_charset("text_plain", index, part.charset.as_str()));
                            }
                            if let Some(at) = escape {
                                warnings.push(warn_transfer_decode("text_plain", index, at));
                            }
                            text_plain.push(text);
                            proof {
                                assert(texts(text_plain@) =~= acc.plain.push(text@));
                                assert(warning_views(warnings@) =~= acc.warnings + charset_warnings("text_plain"@, acc.plain.len(), fell_back, part.charset@)
                                    + escape_warnings("text_plain"@, acc.plain.len(), lossy_escape(*part, raw@)));
                            }
                        }
                    }
                },
            }
            i = i + 1;
        }
        assert(flat.subrange(0, flat.len() as int) =~= flat);
        assert(attachments@.map_values(|a: Attachment| a@).len() == attachments@.len());
        let mail = Mail {
            subject,
            text_plain,
            text_html,
            date,
            from_,
            to,
            cc,
            bcc,
            reply_to,
            attachments,
            headers,
            warnings,
        };
        Ok(mail)
    }

    /// Parse one message.
    ///
    /// A payload over `MAX_INPUT_BYTES` is refused. A message missing its
    /// header/body separator is parsed from a repaired copy, and the repair is
    /// the first warning.
    pub fn new(payload: &[u8]) -> (res: Result<Mail, MailError>)
        ensures
            parsed_as(payload@, res),
    {
        if payload.len() > MAX_INPUT_BYTES {
            return Err(MailError::InputTooLarge);
        }
        let repaired = repair_missing_separator(payload);
        let base: &[u8] = match &repaired {
            Some(fixed) => fixed.as_slice(),
            None => payload,
        };
        assert(base@ == parsed_buffer(payload@));
        let msg = match parse_mail(base, false) {
            Ok(m) => m,
            Err(e) => {
                return Err(e);
            },
        };
        let ghost gm = msg;
        let mut mail = match Mail::from_message(msg, base) {
            Ok(m) => m,
            Err(e) => {
                proof {
                    if let Some(parts) = flat_parts(gm.root, 0) {
                        lemma_full_fold_err_kind(parts, base@, FlatOutcome {
                            plain: Seq::empty(),
                            html: Seq::empty(),
                            attachments: Seq::empty(),
                            warnings: envelope_warnings(gm),
                        });
                    }
                }
                assert(gm.read_from(parsed_buffer(payload@), false));
                return Err(e);
            },
        };
        if repaired.is_some() {
            let ghost before = mail@;
            mail.warnings.insert(0, warn_separator());
            assert(warning_views(mail.warnings@) =~= seq![separator_warning()] + before.warnings);
        }
        assert(gm.read_from(parsed_buffer(payload@), false));
        Ok(mail)
    }
}

/// The parts loop fails only on a transfer decode.
proof fn lemma_full_fold_err_kind(parts: Seq<RawPart>, base: Seq<u8>, init: FlatOutcome)
    ensures
        full_fold(parts, base, init) matches Err(e) ==> e is Base64,
    decreases parts.len(),
{
    if parts.len() > 0 {
        lemma_full_fold_err_kind(parts.drop_last(), base, init);
    }
}

proof fn lemma_full_fold_err_extends(parts: Seq<RawPart>, k: int, base: Seq<u8>, init: FlatOutcome)
    requires
        0 <= k <= parts.len(),
        full_fold(parts.subrange(0, k), base, init) is Err,
    ensures
        full_fold(parts, base, init) == full_fold(parts.subrange(0, k), base, init),
    decreases parts.len() - k,
{
    if k < parts.len() {
        assert(parts.subrange(0, k + 1).drop_last() =~= parts.subrange(0, k));
        lemma_full_fold_err_extends(parts, k + 1, base, init);
    } else {
        assert(parts.subrange(0, k) =~= parts);
    }
}

/// Parse one message: see `Mail::new`.
pub fn parse_email(payload: &[u8]) -> (res: Result<Mail, MailError>)
    ensures
        parsed_as(payload@, res),
{
    Mail::new(payload)
}

} // verus!
