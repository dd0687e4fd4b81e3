//! The trusted boundary to `mailparse`, which parses a message's header block
//! and MIME structure. Each item here makes one outside call and converts its
//! result to the plain values of `crate::model`; Verus believes its contract.
//!
//! `mailparse::parse_mail` is a pure function of the bytes it is given, so
//! what it reads is named here: a part of its parse is identified by the
//! buffer that was parsed and its path from the root (the index of each
//! subpart taken on the way down), and each accessor's result is the name of
//! that accessor applied to the part's buffer and path. A `PartRef` carries
//! that buffer and path beside the parsed part it refers to; only the three
//! items that hand one out (`parse_structure`, `root_of`, `subpart`) build
//! one, and each sets them from its own arguments.

use vstd::prelude::*;
use crate::text::has_prefix;
use crate::model::{
    entries_view, AddressEntry, AddressEntryView, DispositionKind, DispositionView, TransferEncoding,
    Address, text_pairs,
};

verus! {

#[verifier::external_type_specification]
#[verifier::external_body]
pub struct ExParsedMail<'a>(mailparse::ParsedMail<'a>);

/// What `mailparse::dateparse` returns for a `Date` header value, `None` for
/// an error. Its date grammar is `mailparse`'s own and is not restated here.
pub uninterp spec fn mail_date_epoch(date: Seq<char>) -> Option<i64>;

/// What `mailparse::parse_mail` says of these bytes: `None` when it parses
/// them, and the display text of its error when it refuses them. Which bytes
/// it refuses is its own grammar and is not restated here.
pub uninterp spec fn mailparse_refusal(raw: Seq<u8>) -> Option<Seq<char>>;

/// `mailparse::parse_mail` parses these bytes.
pub open spec fn mailparse_accepts(raw: Seq<u8>) -> bool {
    mailparse_refusal(raw) is None
}

/// The length of the `subparts` field of the part at `path` of the parse of
/// `src`.
pub uninterp spec fn mp_subpart_count(src: Seq<u8>, path: Seq<int>) -> nat;

/// The height of the tree of subparts below the part at `path` of the parse
/// of `src`: each subpart's is smaller than its parent's, as in any finite
/// tree.
pub uninterp spec fn mp_height(src: Seq<u8>, path: Seq<int>) -> nat;

/// The length of the `headers` field of the part at `path`.
pub uninterp spec fn mp_header_count(src: Seq<u8>, path: Seq<int>) -> nat;

/// `MailHeader::get_key_raw` of header `i` of the part at `path`.
pub uninterp spec fn mp_header_key_raw(src: Seq<u8>, path: Seq<int>, i: int) -> Seq<u8>;

/// `MailHeader::get_key` of header `i` of the part at `path`.
pub uninterp spec fn mp_header_key(src: Seq<u8>, path: Seq<int>, i: int) -> Seq<char>;

/// `MailHeader::get_value` of header `i` of the part at `path`.
pub uninterp spec fn mp_header_value(src: Seq<u8>, path: Seq<int>, i: int) -> Seq<char>;

/// The `ctype` field of the part at `path`: media type, charset, and the
/// parameters in key order.
pub uninterp spec fn mp_content_type(src: Seq<u8>, path: Seq<int>) -> (Seq<char>, Seq<char>, Seq<(Seq<char>, Seq<char>)>);

/// `ParsedMail::get_content_disposition` of the part at `path`: its type and
/// its parameters in key order.
pub uninterp spec fn mp_disposition(src: Seq<u8>, path: Seq<int>) -> (DispositionView, Seq<(Seq<char>, Seq<char>)>);

/// `ParsedMail::get_body_encoded` of the part at `path`: which variant, and
/// its raw bytes.
pub uninterp spec fn mp_encoded_body(src: Seq<u8>, path: Seq<int>) -> (TransferEncoding, Seq<u8>);

/// The `raw_bytes` field of the part at `path`.
pub uninterp spec fn mp_raw_bytes(src: Seq<u8>, path: Seq<int>) -> Seq<u8>;

/// `mailparse::addrparse_header` on header `i` of the part at `path`, `None`
/// where it fails.
pub uninterp spec fn mp_address_list(src: Seq<u8>, path: Seq<int>, i: int) -> Option<Seq<AddressEntryView>>;

/// A whole parse, with the bytes it was parsed from.
pub struct MailTree<'a> {
    mail: mailparse::ParsedMail<'a>,
    source: Ghost<Seq<u8>>,
}

impl<'a> MailTree<'a> {
    pub closed spec fn source(&self) -> Seq<u8> {
        self.source@
    }
}

/// One part of a parse, with the bytes the whole was parsed from and the
/// part's path from the root.
pub struct PartRef<'b, 'a> {
    mail: &'b mailparse::ParsedMail<'a>,
    source: Ghost<Seq<u8>>,
    path: Ghost<Seq<int>>,
}

impl<'b, 'a> PartRef<'b, 'a> {
    pub closed spec fn source(&self) -> Seq<u8> {
        self.source@
    }

    pub closed spec fn path(&self) -> Seq<int> {
        self.path@
    }
}

/// `<[u8]>::as_ptr` as an integer. Nothing is claimed of the value: it is an
/// address, and the caller checks what it concludes from it against the bytes.
#[verifier::external_body]
pub(crate) fn address_of(s: &[u8]) -> usize {
    s.as_ptr() as usize
}

/// Calls `mailparse::parse_mail`. Claimed: it succeeds exactly when
/// `mailparse_refusal` is `None`, and otherwise fails with that text, its
/// error's display text.
#[verifier::external_body]
pub(crate) fn parse_structure(raw: &[u8]) -> (res: Result<MailTree<'_>, String>)
    ensures
        match res {
            Ok(t) => mailparse_refusal(raw@) is None && t.source() == raw@,
            Err(text) => mailparse_refusal(raw@) == Some(text@),
        },
{
    match mailparse::parse_mail(raw) {
        Ok(mail) => Ok(MailTree { mail, source: Ghost(raw@) }),
        Err(error) => Err(error.to_string()),
    }
}

/// The root part of a parse.
#[verifier::external_body]
pub(crate) fn root_of<'b, 'a>(t: &'b MailTree<'a>) -> (p: PartRef<'b, 'a>)
    ensures
        p.source() == t.source(),
        p.path() == Seq::<int>::empty(),
{
    PartRef { mail: &t.mail, source: Ghost(t.source@), path: Ghost(Seq::empty()) }
}

/// Entry `i` of the `subparts` field.
#[verifier::external_body]
pub(crate) fn subpart<'b, 'a>(p: &PartRef<'b, 'a>, i: usize) -> (c: PartRef<'b, 'a>)
    requires
        i < mp_subpart_count(p.source(), p.path()),
    ensures
        c.source() == p.source(),
        c.path() == p.path().push(i as int),
        mp_height(c.source(), c.path()) < mp_height(p.source(), p.path()),
{
    let mail: &'b mailparse::ParsedMail<'a> = p.mail;
    PartRef { mail: &mail.subparts[i], source: Ghost(p.source@), path: Ghost(p.path@.push(i as int)) }
}

/// The length of the `subparts` field. `mailparse::parse_mail` splits a
/// part into subparts only when its media type starts with `multipart/`, so
/// any other part has none.
#[verifier::external_body]
pub(crate) fn subpart_count(p: &PartRef<'_, '_>) -> (n: usize)
    ensures
        n == mp_subpart_count(p.source(), p.path()),
        n > 0 ==> has_prefix(mp_content_type(p.source(), p.path()).0, "multipart/"@),
{
    p.mail.subparts.len()
}

/// The length of the `headers` field.
#[verifier::external_body]
pub(crate) fn header_count(p: &PartRef<'_, '_>) -> (n: usize)
    ensures
        n == mp_header_count(p.source(), p.path()),
{
    p.mail.headers.len()
}

/// `MailHeader::get_key_raw` of header `i`: the name exactly as it sits in
/// the message.
#[verifier::external_body]
pub(crate) fn header_key_raw(p: &PartRef<'_, '_>, i: usize) -> (k: Vec<u8>)
    requires
        i < mp_header_count(p.source(), p.path()),
    ensures
        k@ == mp_header_key_raw(p.source(), p.path(), i as int),
{
    p.mail.headers[i].get_key_raw().to_vec()
}

/// `MailHeader::get_key` of header `i`: the name decoded as Latin-1.
#[verifier::external_body]
pub(crate) fn header_key(p: &PartRef<'_, '_>, i: usize) -> (k: String)
    requires
        i < mp_header_count(p.source(), p.path()),
    ensures
        k@ == mp_header_key(p.source(), p.path(), i as int),
{
    p.mail.headers[i].get_key()
}

/// `MailHeader::get_value` of header `i`: the value unfolded and RFC
/// 2047-decoded, by `mailparse`'s rules.
#[verifier::external_body]
pub(crate) fn header_value(p: &PartRef<'_, '_>, i: usize) -> (v: String)
    requires
        i < mp_header_count(p.source(), p.path()),
    ensures
        v@ == mp_header_value(p.source(), p.path(), i as int),
{
    p.mail.headers[i].get_value()
}

/// The part's `ctype`: its lowercased media type, its charset (`us-ascii`
/// when none is declared) and its parameters, in the map's key order.
#[verifier::external_body]
pub(crate) fn content_type_of(p: &PartRef<'_, '_>) -> (c: (String, String, Vec<(String, String)>))
    ensures
        (c.0@, c.1@, text_pairs(c.2@)) == mp_content_type(p.source(), p.path()),
{
    let ctype = &p.mail.ctype;
    (ctype.mimetype.clone(), ctype.charset.clone(), ctype.params.iter().map(|(k, v)| (k.clone(), v.clone())).collect())
}

/// `ParsedMail::get_content_disposition`: its disposition type and its
/// parameters, in the map's key order.
#[verifier::external_body]
pub(crate) fn disposition_of(p: &PartRef<'_, '_>) -> (d: (DispositionKind, Vec<(String, String)>))
    ensures
        (d.0@, text_pairs(d.1@)) == mp_disposition(p.source(), p.path()),
{
    let parsed = p.mail.get_content_disposition();
    let kind = match parsed.disposition {
        mailparse::DispositionType::Inline => DispositionKind::Inline,
        mailparse::DispositionType::Attachment => DispositionKind::Attachment,
        mailparse::DispositionType::FormData => DispositionKind::FormData,
        mailparse::DispositionType::Extension(other) => DispositionKind::Extension(other),
    };
    (kind, parsed.params.into_iter().collect())
}

/// `ParsedMail::get_body_encoded`: which transfer encoding the part declares,
/// and its body bytes as they sit in the message.
#[verifier::external_body]
pub(crate) fn encoded_body_of<'b>(p: &PartRef<'b, '_>) -> (r: (TransferEncoding, &'b [u8]))
    ensures
        (r.0, r.1@) == mp_encoded_body(p.source(), p.path()),
{
    let mail: &'b mailparse::ParsedMail<'_> = p.mail;
    match mail.get_body_encoded() {
        mailparse::body::Body::Base64(body) => (TransferEncoding::Base64, body.get_raw()),
        mailparse::body::Body::QuotedPrintable(body) => (TransferEncoding::QuotedPrintable, body.get_raw()),
        mailparse::body::Body::SevenBit(body) => (TransferEncoding::SevenBit, body.get_raw()),
        mailparse::body::Body::EightBit(body) => (TransferEncoding::EightBit, body.get_raw()),
        mailparse::body::Body::Binary(body) => (TransferEncoding::Binary, body.get_raw()),
    }
}

/// The `raw_bytes` field: the part exactly as it sits in the parsed buffer.
#[verifier::external_body]
pub(crate) fn raw_bytes_of<'a>(p: &PartRef<'_, 'a>) -> (r: &'a [u8])
    ensures
        r@ == mp_raw_bytes(p.source(), p.path()),
{
    p.mail.raw_bytes
}

/// `mailparse::addrparse_header` on header `i`, its entries converted one
/// for one; `Err(())` where it fails.
#[verifier::external_body]
pub(crate) fn address_list_of(p: &PartRef<'_, '_>, i: usize) -> (r: Result<Vec<AddressEntry>, ()>)
    requires
        i < mp_header_count(p.source(), p.path()),
    ensures
        match r {
            Ok(v) => mp_address_list(p.source(), p.path(), i as int) == Some(entries_view(v@)),
            Err(_) => mp_address_list(p.source(), p.path(), i as int) is None,
        },
{
    let single = |info: &mailparse::SingleInfo| Address { display_name: info.display_name.clone(), address: info.addr.clone() };
    match mailparse::addrparse_header(&p.mail.headers[i]) {
        Ok(list) => Ok(list.iter().map(|entry| match entry {
            mailparse::MailAddr::Single(info) => AddressEntry::Single(single(info)),
            mailparse::MailAddr::Group(group) => AddressEntry::Group(group.addrs.iter().map(single).collect()),
        }).collect()),
        Err(_) => Err(()),
    }
}

/// `mailparse::dateparse`: the result is named, since it depends on the date
/// string alone.
#[verifier::external_body]
pub(crate) fn dateparse_of(date: &str) -> (res: Option<i64>)
    ensures
        res == mail_date_epoch(date@),
{
    mailparse::dateparse(date).ok()
}

} // verus!
