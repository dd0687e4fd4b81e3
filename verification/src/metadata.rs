//! Metadata mode: the envelope and the attachment inventory, with nothing
//! transfer-decoded.

use vstd::prelude::*;
use crate::bridge::{mailparse_accepts, mailparse_refusal};
use crate::envelope::{
    date_name, envelope, envelope_of, header_mailboxes, subject_name, value_or_empty, Envelope,
};
use crate::error::{ErrorView, MailError};
use crate::flat::{
    first_mailbox, flat_parts, flatten, lemma_flat_fits, opt_text, parsed_buffer, table_view,
    MAX_INPUT_BYTES,
};
use crate::model::{parse_mail, Address, RawMessage, RawPart};
use crate::parts::{
    classify_part, first_value, header_table, is_body, is_container, part_content_id,
    part_disposition, part_filename, part_identity,
};
use crate::scan::repair_missing_separator;
use crate::warning::Warning;

verus! {

/// A non-body part, described but not decoded.
#[derive(Debug)]
pub struct AttachmentMetadata {
    pub mimetype: String,
    pub filename: String,
    pub content_id: Option<String>,
    pub disposition: Option<String>,
    /// Bytes the part's body occupies before transfer-decoding.
    pub encoded_size: usize,
}

pub struct AttachmentMetadataView {
    pub mimetype: Seq<char>,
    pub filename: Seq<char>,
    pub content_id: Option<Seq<char>>,
    pub disposition: Option<Seq<char>>,
    pub encoded_size: nat,
}

impl View for AttachmentMetadata {
    type V = AttachmentMetadataView;

    open spec fn view(&self) -> AttachmentMetadataView {
        AttachmentMetadataView {
            mimetype: self.mimetype@,
            filename: self.filename@,
            content_id: opt_text(self.content_id),
            disposition: opt_text(self.disposition),
            encoded_size: self.encoded_size as nat,
        }
    }
}

/// What a message says about itself, without decoding what it carries.
///
/// It has no `text_plain`/`text_html`: an empty list would be
/// indistinguishable from "this message has no text part".
#[derive(Debug)]
pub struct MailMetadata {
    pub subject: String,
    pub date: String,
    pub from_: Option<Address>,
    pub to: Vec<Address>,
    pub cc: Vec<Address>,
    pub bcc: Vec<Address>,
    pub reply_to: Vec<Address>,
    pub attachments: Vec<AttachmentMetadata>,
    pub headers: Vec<(String, Vec<String>)>,
}

pub struct MailMetadataView {
    pub subject: Seq<char>,
    pub date: Seq<char>,
    pub from_: Option<Address>,
    pub to: Seq<Address>,
    pub cc: Seq<Address>,
    pub bcc: Seq<Address>,
    pub reply_to: Seq<Address>,
    pub attachments: Seq<AttachmentMetadataView>,
    pub headers: Seq<(Seq<char>, Seq<Seq<char>>)>,
}

impl View for MailMetadata {
    type V = MailMetadataView;

    open spec fn view(&self) -> MailMetadataView {
        MailMetadataView {
            subject: self.subject@,
            date: self.date@,
            from_: self.from_,
            to: self.to@,
            cc: self.cc@,
            bcc: self.bcc@,
            reply_to: self.reply_to@,
            attachments: self.attachments@.map_values(|a: AttachmentMetadata| a@),
            headers: table_view(self.headers@),
        }
    }
}

/// One part described: what it is called and how large its body is on the
/// wire.
pub open spec fn describe(p: RawPart, base: Seq<u8>) -> AttachmentMetadataView {
    AttachmentMetadataView {
        mimetype: p.mimetype@,
        filename: part_filename(p),
        content_id: part_content_id(p),
        disposition: part_disposition(p),
        encoded_size: p.body.bytes_in(base).len(),
    }
}

/// The attachment inventory: every part that is neither a container nor body
/// text, described, in order.
pub open spec fn inventory(parts: Seq<RawPart>, base: Seq<u8>) -> Seq<AttachmentMetadataView>
    decreases parts.len(),
{
    if parts.len() == 0 {
        Seq::empty()
    } else {
        let acc = inventory(parts.drop_last(), base);
        let p = parts.last();
        if is_container(p) || is_body(p) {
            acc
        } else {
            acc.push(describe(p, base))
        }
    }
}

/// The metadata of a message read from `base`.
pub open spec fn metadata_view(msg: RawMessage, base: Seq<u8>) -> Result<MailMetadataView, ErrorView> {
    let root = msg.root;
    match flat_parts(root, 0) {
        None => Err(ErrorView::MimeDepth),
        Some(parts) => Ok(MailMetadataView {
            subject: value_or_empty(first_value(root.headers@, subject_name())),
            date: value_or_empty(first_value(root.headers@, date_name())),
            from_: first_mailbox(msg),
            to: header_mailboxes(msg.to),
            cc: header_mailboxes(msg.cc),
            bcc: header_mailboxes(msg.bcc),
            reply_to: header_mailboxes(msg.reply_to),
            attachments: inventory(parts, base),
            headers: header_table(root.headers@),
        }),
    }
}

/// The metadata of a message `mailparse` read from `base`.
///
/// The address-repair warnings the envelope notices are dropped: this mode
/// never reads a body, so an empty list could not mean that nothing was
/// repaired.
pub fn metadata_from_message(msg: RawMessage, base: &[u8]) -> (res: Result<MailMetadata, MailError>)
    requires
        msg.root.fits(base@.len()),
    ensures
        match res {
            Ok(m) => metadata_view(msg, base@) == Ok::<MailMetadataView, ErrorView>(m@),
            Err(e) => metadata_view(msg, base@) == Err::<MailMetadataView, ErrorView>(e@),
        },
{
    let ghost gm = msg;
    let RawMessage { root, from_, to, cc, bcc, reply_to } = msg;
    let mut discarded: Vec<Warning> = Vec::new();
    let env = envelope(&root, from_, to, cc, bcc, reply_to, &mut discarded);
    assert(envelope_of(env, gm));
    let Envelope { headers, subject, date, from_, to, cc, bcc, reply_to } = env;
    assert(table_view(headers@) =~= header_table(gm.root.headers@));
    let mut parts: Vec<&RawPart> = Vec::new();
    if !flatten(&root, 0, &mut parts) {
        return Err(MailError::MimeDepth);
    }
    let ghost flat = flat_parts(gm.root, 0)->0;
    assert(parts@.map_values(|r: &RawPart| *r) =~= flat);
    proof {
        lemma_flat_fits(gm.root, 0, base@.len() as nat);
    }
    let mut attachments: Vec<AttachmentMetadata> = Vec::new();
    assert(attachments@.map_values(|a: AttachmentMetadata| a@) =~= inventory(flat.subrange(0, 0), base@));
    let mut i: usize = 0;
    while i < parts.len()
        invariant
            i <= parts@.len() == flat.len(),
            forall|k: int| 0 <= k < flat.len() ==> (#[trigger] flat[k]).fits(base@.len()),
            forall|k: int| 0 <= k < parts@.len() ==> *(#[trigger] parts@[k]) == flat[k],
            attachments@.map_values(|a: AttachmentMetadata| a@) == inventory(flat.subrange(0, i as int), base@),
        decreases parts@.len() - i,
    {
        let part: &RawPart = parts[i];
        let ghost before = attachments@.map_values(|a: AttachmentMetadata| a@);
        proof {
            assert(flat.subrange(0, i + 1).drop_last() =~= flat.subrange(0, i as int));
            assert(flat.subrange(0, i + 1).last() == flat[i as int]);
        }
        match classify_part(part) {
            None => {},
            Some(info) => {
                if !info.is_body {
                    let id = part_identity(part);
                    let encoded_size = part.body.slice(base).len();
                    attachments.push(AttachmentMetadata {
                        mimetype: String::from_str(info.mime),
                        filename: id.filename,
                        content_id: id.content_id,
                        disposition: id.disposition,
                        encoded_size,
                    });
                    assert(attachments@.map_values(|a: AttachmentMetadata| a@) =~= before.push(describe(*part, base@)));
                }
            },
        }
        i = i + 1;
    }
    assert(flat.subrange(0, flat.len() as int) =~= flat);
    Ok(MailMetadata { subject, date, from_, to, cc, bcc, reply_to, attachments, headers })
}

/// The metadata of a payload whose structure `mailparse` read as `msg`.
pub open spec fn payload_metadata_view(msg: RawMessage, payload: Seq<u8>) -> Result<MailMetadataView, ErrorView> {
    metadata_view(msg, parsed_buffer(payload))
}

/// What a metadata parse of `payload` gives: as the full parse, refused
/// over the cap or by `mailparse`, and otherwise the metadata view of the
/// message read from `mailparse`'s parse of it.
pub open spec fn metadata_parsed_as(payload: Seq<u8>, res: Result<MailMetadata, MailError>) -> bool {
    let buffer = parsed_buffer(payload);
    if payload.len() > MAX_INPUT_BYTES {
        res matches Err(MailError::InputTooLarge)
    } else if !mailparse_accepts(buffer) {
        res matches Err(MailError::Header(t)) && mailparse_refusal(buffer) == Some(t@)
    } else {
        exists|msg: RawMessage| #[trigger] msg.read_from(buffer, false) && match res {
            Ok(m) => payload_metadata_view(msg, payload) == Ok::<MailMetadataView, ErrorView>(m@),
            Err(e) => payload_metadata_view(msg, payload) == Err::<MailMetadataView, ErrorView>(e@),
        }
    }
}

/// Parse headers and the attachment inventory, decoding nothing.
///
/// A payload over `MAX_INPUT_BYTES` is refused. A message missing its
/// header/body separator is read from a repaired copy, exactly as the full
/// parse reads it.
pub fn parse_email_metadata(payload: &[u8]) -> (res: Result<MailMetadata, MailError>)
    ensures
        metadata_parsed_as(payload@, res),
{
    if payload.len() > MAX_INPUT_BYTES {
        return Err(MailError::InputTooLarge);
    }
    let repaired = repair_missing_separator(payload);
    let base: &[u8] = match &repaired {
        Some(fixed) => fixed.as_slice(),
        None => payload,
    };
    assert(base@ == parsed_buffer(payload@));
    let msg = match parse_mail(base, false) {
        Ok(m) => m,
        Err(e) => {
            return Err(e);
        },
    };
    let ghost gm = msg;
    let res = metadata_from_message(msg, base);
    assert(gm.read_from(parsed_buffer(payload@), false));
    res
}

} // verus!
