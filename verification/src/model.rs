//! A message's MIME structure as plain values: what `mailparse` parsed, read
//! once into types the rest of the library reasons about.

use vstd::prelude::*;
use crate::bridge::{
    address_list_of, content_type_of, disposition_of, encoded_body_of, header_count, header_key,
    header_key_raw, header_value, mailparse_accepts, mailparse_refusal, mp_address_list,
    mp_content_type, mp_disposition, mp_encoded_body, mp_header_count, mp_header_key,
    mp_header_key_raw, mp_header_value, mp_raw_bytes, mp_subpart_count, parse_structure,
    raw_bytes_of, root_of, subpart, subpart_count, MailTree, PartRef,
};
use crate::decode::{body_to_vec, transfer_decoded};
use crate::error::{ErrorView, MailError};
use crate::flat::{opt_text, parsed_buffer};
use crate::lazy::opt_bytes;
use crate::retained::{Retained, RetainedView};
use crate::scan::{repair_missing_separator, repaired_payload};
use crate::text::{
    eq_ignore_ascii_case, has_prefix, same_ascii_case_insensitive, str_eq, str_starts_with,
};
use crate::tree::{embedded_ok, lemma_tree_ok_all, tree_ok};

verus! {

/// Cap on MIME nesting. A part nested this deep is refused, so a hostile tree
/// cannot recurse without bound.
pub const MAX_MIME_DEPTH: usize = 256;

/// One header field: its raw key bytes, the key decoded as Latin-1, and the
/// value unfolded and RFC 2047-decoded.
#[derive(Debug)]
pub struct HeaderField {
    pub key_raw: Vec<u8>,
    pub key: String,
    pub value: String,
}

/// The `Content-Transfer-Encoding` a part declares (7bit when none or an
/// unknown one is declared).
#[derive(Debug, Clone, Copy, PartialEq, Eq, Structural)]
pub enum TransferEncoding {
    Base64,
    QuotedPrintable,
    SevenBit,
    EightBit,
    Binary,
}

/// The type of a part's `Content-Disposition` (`Inline` when it has none).
#[derive(Debug)]
pub enum DispositionKind {
    Inline,
    Attachment,
    FormData,
    /// Any other token, lowercased.
    Extension(String),
}

/// A `DispositionKind` as plain values.
pub enum DispositionView {
    Inline,
    Attachment,
    FormData,
    Extension(Seq<char>),
}

impl View for DispositionKind {
    type V = DispositionView;

    open spec fn view(&self) -> DispositionView {
        match self {
            DispositionKind::Inline => DispositionView::Inline,
            DispositionKind::Attachment => DispositionView::Attachment,
            DispositionKind::FormData => DispositionView::FormData,
            DispositionKind::Extension(t) => DispositionView::Extension(t@),
        }
    }
}

/// Key/value text pairs as character sequences.
pub open spec fn text_pairs(v: Seq<(String, String)>) -> Seq<(Seq<char>, Seq<char>)> {
    v.map_values(|kv: (String, String)| (kv.0@, kv.1@))
}

/// The value of the first pair whose key is `key`.
pub open spec fn param_lookup(ps: Seq<(Seq<char>, Seq<char>)>, key: Seq<char>) -> Option<Seq<char>>
    decreases ps.len(),
{
    if ps.len() == 0 {
        None
    } else if ps[0].0 == key {
        Some(ps[0].1)
    } else {
        param_lookup(ps.drop_first(), key)
    }
}

/// The value of the first parameter named `key`.
pub fn param_value(params: &Vec<(String, String)>, key: &str) -> (r: Option<String>)
    ensures
        opt_text(r) == param_lookup(text_pairs(params@), key@),
{
    let ghost all = text_pairs(params@);
    let mut i: usize = 0;
    assert(all.skip(0) =~= all);
    while i < params.len()
        invariant
            i <= params@.len(),
            all == text_pairs(params@),
            param_lookup(all, key@) == param_lookup(all.skip(i as int), key@),
        decreases params@.len() - i,
    {
        assert(all.skip(i as int)[0] == (params@[i as int].0@, params@[i as int].1@));
        if str_eq(params[i].0.as_str(), key) {
            return Some(params[i].1.clone());
        }
        assert(all.skip(i as int).drop_first() =~= all.skip(i + 1));
        i = i + 1;
    }
    assert(all.skip(i as int).len() == 0);
    None
}

/// One mailbox from an address header.
#[derive(Debug, Clone)]
pub struct Address {
    pub display_name: Option<String>,
    pub address: String,
}

/// One entry of an address list: a mailbox, or a group of them.
#[derive(Debug)]
pub enum AddressEntry {
    Single(Address),
    Group(Vec<Address>),
}

/// A mailbox as plain values: display name and address.
pub open spec fn address_view(a: Address) -> (Option<Seq<char>>, Seq<char>) {
    (opt_text(a.display_name), a.address@)
}

/// An address list entry as plain values.
pub enum AddressEntryView {
    Single((Option<Seq<char>>, Seq<char>)),
    Group(Seq<(Option<Seq<char>>, Seq<char>)>),
}

pub open spec fn entry_view(e: AddressEntry) -> AddressEntryView {
    match e {
        AddressEntry::Single(a) => AddressEntryView::Single(address_view(a)),
        AddressEntry::Group(v) => AddressEntryView::Group(v@.map_values(|a: Address| address_view(a))),
    }
}

pub open spec fn entries_view(v: Seq<AddressEntry>) -> Seq<AddressEntryView> {
    v.map_values(|e: AddressEntry| entry_view(e))
}

/// What the first occurrence of an address header says.
#[derive(Debug)]
pub enum AddressHeader {
    /// The message has no such header.
    Absent,
    /// The header is there and does not parse as an address list.
    Unparseable,
    Parsed(Vec<AddressEntry>),
}

/// One MIME part, read out of the parsed structure.
///
/// `body` and `raw` say where the part's encoded body and the whole part sit,
/// relative to the buffer that was parsed; a `multipart/*` part with subparts
/// keeps neither, since its body is only its children. A part nested
/// `MAX_MIME_DEPTH` deep is recorded without its contents: reaching it is an
/// error in every mode.
#[derive(Debug)]
pub struct RawPart {
    /// Lowercased media type.
    pub mimetype: String,
    /// Declared charset label, `us-ascii` when none.
    pub charset: String,
    /// The `Content-Type` `name` parameter.
    pub name_param: Option<String>,
    pub disposition: DispositionKind,
    /// The `Content-Disposition` `filename` parameter (RFC 2231 values folded in).
    pub filename_param: Option<String>,
    pub headers: Vec<HeaderField>,
    pub encoding: TransferEncoding,
    pub body: Retained,
    pub raw: Retained,
    pub subparts: Vec<RawPart>,
    /// For a `message/rfc822` part read for the tree: its body decoded, and
    /// the message inside parsed. `None` for every other part, and for every
    /// part read for the flat modes, which do not look inside.
    pub embedded: Option<Box<Embedded>>,
}

/// What the body of a `message/rfc822` part holds.
#[derive(Debug)]
pub enum Embedded {
    /// The body does not transfer-decode.
    Undecodable(MailError),
    /// The decoded body, whose header block does not parse.
    Unparseable { content: Vec<u8>, error: String },
    /// The decoded body, its repair when its header block was unterminated,
    /// and the root part of the message inside, whose ranges index the repair
    /// when there is one and the body otherwise.
    Parsed { content: Vec<u8>, repaired: Option<Vec<u8>>, root: Box<RawPart> },
}

/// The buffer an embedded message was parsed from: its repair, or the body.
pub open spec fn inner_buffer(content: Vec<u8>, repaired: Option<Vec<u8>>) -> Seq<u8> {
    match repaired {
        Some(r) => r@,
        None => content@,
    }
}

/// The buffer an embedded message was parsed from.
pub(crate) fn inner_slice<'a>(content: &'a Vec<u8>, repaired: &'a Option<Vec<u8>>) -> (b: &'a [u8])
    ensures
        b@ == inner_buffer(*content, *repaired),
{
    match repaired {
        Some(r) => r.as_slice(),
        None => content.as_slice(),
    }
}

/// A whole message: its root part and the five address headers it carries.
#[derive(Debug)]
pub struct RawMessage {
    pub root: RawPart,
    pub from_: AddressHeader,
    pub to: AddressHeader,
    pub cc: AddressHeader,
    pub bcc: AddressHeader,
    pub reply_to: AddressHeader,
}

/// The header key equals `name` ignoring ASCII case, as `mailparse` matches a
/// header name.
pub open spec fn key_matches(h: HeaderField, name: Seq<u8>) -> bool {
    same_ascii_case_insensitive(h.key_raw@, name)
}

/// Index of the first header whose key matches `name`.
pub open spec fn first_header_index(hs: Seq<HeaderField>, name: Seq<u8>) -> Option<int>
    decreases hs.len(),
{
    if hs.len() == 0 {
        None
    } else {
        match first_header_index(hs.drop_last(), name) {
            Some(i) => Some(i),
            None => if key_matches(hs.last(), name) {
                Some(hs.len() - 1)
            } else {
                None
            },
        }
    }
}

pub proof fn lemma_first_header_index(hs: Seq<HeaderField>, name: Seq<u8>)
    ensures
        first_header_index(hs, name) matches Some(i) ==> 0 <= i < hs.len() && key_matches(hs[i], name)
            && forall|j: int| 0 <= j < i ==> !key_matches(#[trigger] hs[j], name),
        first_header_index(hs, name) is None ==> forall|j: int|
            0 <= j < hs.len() ==> !key_matches(#[trigger] hs[j], name),
    decreases hs.len(),
{
    if hs.len() > 0 {
        lemma_first_header_index(hs.drop_last(), name);
        assert forall|j: int| 0 <= j < hs.len() - 1 implies hs.drop_last()[j] == hs[j] by {}
    }
}

/// Index of the first header of `hs` whose key matches `name`.
pub fn find_header(hs: &Vec<HeaderField>, name: &[u8]) -> (res: Option<usize>)
    ensures
        match res {
            Some(i) => first_header_index(hs@, name@) == Some(i as int),
            None => first_header_index(hs@, name@) is None,
        },
{
    let mut i: usize = 0;
    while i < hs.len()
        invariant
            i <= hs@.len(),
            first_header_index(hs@.subrange(0, i as int), name@) is None,
        decreases hs@.len() - i,
    {
        let m = eq_ignore_ascii_case(&hs[i].key_raw, name);
        proof {
            assert(hs@.subrange(0, i + 1).drop_last() =~= hs@.subrange(0, i as int));
        }
        if m {
            proof {
                lemma_prefix_first_header(hs@, name@, i as int + 1);
            }
            return Some(i);
        }
        i = i + 1;
    }
    assert(hs@.subrange(0, hs@.len() as int) =~= hs@);
    None
}

/// A match found in a prefix is the first match of the whole sequence.
proof fn lemma_prefix_first_header(hs: Seq<HeaderField>, name: Seq<u8>, k: int)
    requires
        0 <= k <= hs.len(),
        first_header_index(hs.subrange(0, k), name) is Some,
    ensures
        first_header_index(hs, name) == first_header_index(hs.subrange(0, k), name),
    decreases hs.len() - k,
{
    if k < hs.len() {
        assert(hs.subrange(0, k + 1).drop_last() =~= hs.subrange(0, k));
        lemma_prefix_first_header(hs, name, k + 1);
    } else {
        assert(hs.subrange(0, k) =~= hs);
    }
}

impl RawPart {
    /// Every retained range of this part and of the parts below it indexes a
    /// buffer of length `len`.
    pub open spec fn fits(self, len: nat) -> bool
        decreases self, 1int,
    {
        &&& self.body.fits(len)
        &&& self.raw.fits(len)
        &&& fits_all(self.subparts@, len)
    }
}

/// Every part of `ps` fits a buffer of length `len`.
pub open spec fn fits_all(ps: Seq<RawPart>, len: nat) -> bool
    decreases ps, 0int,
{
    if ps.len() == 0 {
        true
    } else {
        fits_all(ps.drop_last(), len) && ps.last().fits(len)
    }
}

pub proof fn lemma_fits_all(ps: Seq<RawPart>, len: nat)
    ensures
        fits_all(ps, len) <==> forall|i: int| 0 <= i < ps.len() ==> (#[trigger] ps[i]).fits(len),
    decreases ps.len(),
{
    if ps.len() > 0 {
        lemma_fits_all(ps.drop_last(), len);
        assert forall|i: int| 0 <= i < ps.len() - 1 implies ps.drop_last()[i] == ps[i] by {}
    }
}

/// The parts below a part that fits a buffer fit it too.
pub proof fn lemma_fits_children(p: RawPart, len: nat)
    requires
        p.fits(len),
    ensures
        forall|i: int| 0 <= i < p.subparts@.len() ==> (#[trigger] p.subparts@[i]).fits(len),
{
    lemma_fits_all(p.subparts@, len);
}

/// A part nested past the cap: recorded, not read.
pub open spec fn is_capped(p: RawPart) -> bool {
    &&& p.mimetype@ == Seq::<char>::empty()
    &&& p.charset@ == Seq::<char>::empty()
    &&& p.name_param is None
    &&& p.disposition is Inline
    &&& p.filename_param is None
    &&& p.headers@.len() == 0
    &&& p.encoding == TransferEncoding::SevenBit
    &&& p.body@ == RetainedView::Owned(Seq::empty())
    &&& p.raw@ == RetainedView::Owned(Seq::empty())
    &&& p.subparts@.len() == 0
    &&& p.embedded is None
}

fn capped_part() -> (p: RawPart)
    ensures
        p.fits(0),
        is_capped(p),
{
    RawPart {
        mimetype: String::new(),
        charset: String::new(),
        name_param: None,
        disposition: DispositionKind::Inline,
        filename_param: None,
        headers: Vec::new(),
        encoding: TransferEncoding::SevenBit,
        body: Retained::Owned(Vec::new()),
        raw: Retained::Owned(Vec::new()),
        subparts: Vec::new(),
        embedded: None,
    }
}

/// Header `i` of a model part is header `i` of the parsed part at `path`.
pub open spec fn header_read(h: HeaderField, src: Seq<u8>, path: Seq<int>, i: int) -> bool {
    &&& h.key_raw@ == mp_header_key_raw(src, path, i)
    &&& h.key@ == mp_header_key(src, path, i)
    &&& h.value@ == mp_header_value(src, path, i)
}

/// A part keeps its encoded body and its raw bytes unless it is a
/// `multipart/*` container with subparts, whose body is only its children.
pub open spec fn keeps_body(mimetype: Seq<char>, subparts: nat) -> bool {
    subparts == 0 || !has_prefix(mimetype, "multipart/"@)
}

/// `p` is what this library reads, `depth` deep, from the part at `path` of
/// `mailparse`'s parse of `src`; with `tree`, `message/rfc822` parts have the
/// message inside read too.
pub open spec fn reads_part(p: RawPart, src: Seq<u8>, path: Seq<int>, depth: int, tree: bool) -> bool
    decreases p, 1int,
{
    if depth >= MAX_MIME_DEPTH {
        is_capped(p)
    } else {
        let ct = mp_content_type(src, path);
        let dp = mp_disposition(src, path);
        let eb = mp_encoded_body(src, path);
        &&& p.mimetype@ == ct.0
        &&& p.charset@ == ct.1
        &&& opt_text(p.name_param) == param_lookup(ct.2, "name"@)
        &&& p.disposition@ == dp.0
        &&& opt_text(p.filename_param) == param_lookup(dp.1, "filename"@)
        &&& p.headers@.len() == mp_header_count(src, path)
        &&& forall|i: int| 0 <= i < p.headers@.len() ==> header_read(#[trigger] p.headers@[i], src, path, i)
        &&& p.encoding == eb.0
        &&& p.subparts@.len() == mp_subpart_count(src, path)
        &&& p.subparts@.len() > 0 ==> has_prefix(ct.0, "multipart/"@)
        &&& if keeps_body(ct.0, p.subparts@.len()) {
            p.body.bytes_in(src) == eb.1 && p.raw.bytes_in(src) == mp_raw_bytes(src, path)
        } else {
            p.body@ == RetainedView::Owned(Seq::empty()) && p.raw@ == RetainedView::Owned(Seq::empty())
        }
        &&& reads_all(p.subparts@, src, path, depth + 1, tree)
        &&& match p.embedded {
            None => !(tree && ct.0 == "message/rfc822"@),
            Some(e) => tree && ct.0 == "message/rfc822"@ && match *e {
                Embedded::Undecodable(err) => transfer_decoded(eb.0, eb.1) == Err::<Seq<u8>, ErrorView>(err@),
                Embedded::Unparseable { content, error } => transfer_decoded(eb.0, eb.1) == Ok::<Seq<u8>, ErrorView>(content@)
                    && mailparse_refusal(parsed_buffer(content@)) == Some(error@),
                Embedded::Parsed { content, repaired, root } => transfer_decoded(eb.0, eb.1) == Ok::<Seq<u8>, ErrorView>(content@)
                    && opt_bytes(repaired) == repaired_payload(content@)
                    && mailparse_accepts(parsed_buffer(content@))
                    && reads_part(*root, parsed_buffer(content@), Seq::empty(), depth + 1, true),
            },
        }
    }
}

/// Each of `ps` is read from the subpart of the same index of the parsed
/// part at `path`.
pub open spec fn reads_all(ps: Seq<RawPart>, src: Seq<u8>, path: Seq<int>, depth: int, tree: bool) -> bool
    decreases ps, 0int,
{
    if ps.len() == 0 {
        true
    } else {
        reads_all(ps.drop_last(), src, path, depth, tree) && reads_part(ps.last(), src, path.push(ps.len() - 1), depth, tree)
    }
}

pub proof fn lemma_reads_all(ps: Seq<RawPart>, src: Seq<u8>, path: Seq<int>, depth: int, tree: bool)
    ensures
        reads_all(ps, src, path, depth, tree) <==> forall|i: int|
            0 <= i < ps.len() ==> reads_part(#[trigger] ps[i], src, path.push(i), depth, tree),
    decreases ps.len(),
{
    if ps.len() > 0 {
        lemma_reads_all(ps.drop_last(), src, path, depth, tree);
        assert forall|i: int| 0 <= i < ps.len() - 1 implies ps.drop_last()[i] == ps[i] by {}
    }
}

/// What reading the body of a `message/rfc822` part nested `depth` deep
/// gives, as `reads_part` states it.
pub open spec fn embedded_reads(e: Embedded, encoding: TransferEncoding, body: Seq<u8>, depth: int) -> bool {
    match e {
        Embedded::Undecodable(err) => transfer_decoded(encoding, body) == Err::<Seq<u8>, ErrorView>(err@),
        Embedded::Unparseable { content, error } => transfer_decoded(encoding, body) == Ok::<Seq<u8>, ErrorView>(content@)
            && mailparse_refusal(parsed_buffer(content@)) == Some(error@),
        Embedded::Parsed { content, repaired, root } => transfer_decoded(encoding, body) == Ok::<Seq<u8>, ErrorView>(content@)
            && opt_bytes(repaired) == repaired_payload(content@)
            && mailparse_accepts(parsed_buffer(content@))
            && reads_part(*root, parsed_buffer(content@), Seq::empty(), depth + 1, true),
    }
}

/// Read one parsed part, and the parts below it, into plain values. `base` is
/// the buffer the structure was parsed from, which the part's ranges index.
///
/// With `tree`, a `message/rfc822` part's body is also decoded and the
/// message inside read, as the tree modes need.
pub(crate) fn read_part(base: &[u8], part: &PartRef<'_, '_>, depth: usize, tree: bool) -> (p: RawPart)
    requires
        part.source() == base@,
    ensures
        p.fits(base@.len()),
        reads_part(p, base@, part.path(), depth as int, tree),
        tree ==> tree_ok(p, depth as int, base@),
    decreases MAX_MIME_DEPTH - depth, 1int,
{
    if depth >= MAX_MIME_DEPTH {
        let p = capped_part();
        assert(p.fits(base@.len()));
        return p;
    }
    let ghost src = base@;
    let ghost path = part.path();
    let (mimetype, charset, ctype_params) = content_type_of(part);
    let name_param = param_value(&ctype_params, "name");
    let (disposition, disposition_params) = disposition_of(part);
    let filename_param = param_value(&disposition_params, "filename");
    let header_total = header_count(part);
    let mut headers: Vec<HeaderField> = Vec::new();
    let mut i: usize = 0;
    while i < header_total
        invariant
            i <= header_total,
            header_total == mp_header_count(src, path),
            part.source() == src,
            part.path() == path,
            headers@.len() == i,
            forall|k: int| 0 <= k < i ==> header_read(#[trigger] headers@[k], src, path, k),
        decreases header_total - i,
    {
        headers.push(HeaderField {
            key_raw: header_key_raw(part, i),
            key: header_key(part, i),
            value: header_value(part, i),
        });
        i = i + 1;
    }
    let (encoding, body_bytes) = encoded_body_of(part);
    let part_total = subpart_count(part);
    // A container's body is its children with boundaries between them, which
    // nothing reads; locating it would cost a pass over the whole subtree at
    // every level of nesting.
    let kept = part_total == 0 || !str_starts_with(mimetype.as_str(), "multipart/");
    let (body, raw) = if kept {
        (Retained::of(base, body_bytes), Retained::of(base, raw_bytes_of(part)))
    } else {
        (Retained::Owned(Vec::new()), Retained::Owned(Vec::new()))
    };
    let mut subparts: Vec<RawPart> = Vec::new();
    let mut j: usize = 0;
    while j < part_total
        invariant
            j <= part_total,
            part_total == mp_subpart_count(src, path),
            part.source() == src,
            part.path() == path,
            src == base@,
            depth < MAX_MIME_DEPTH,
            subparts@.len() == j,
            forall|k: int| 0 <= k < j ==> (#[trigger] subparts@[k]).fits(base@.len()),
            forall|k: int| 0 <= k < j ==> reads_part(#[trigger] subparts@[k], src, path.push(k), depth + 1, tree),
            tree ==> forall|k: int| 0 <= k < j ==> tree_ok(#[trigger] subparts@[k], depth + 1, base@),
        decreases part_total - j,
    {
        let child = subpart(part, j);
        let sub = read_part(base, &child, depth + 1, tree);
        subparts.push(sub);
        j = j + 1;
    }
    proof {
        lemma_fits_all(subparts@, base@.len() as nat);
        lemma_tree_ok_all(subparts@, depth + 1, base@);
        lemma_reads_all(subparts@, src, path, depth + 1, tree);
    }
    let embedded = if tree && str_eq(mimetype.as_str(), "message/rfc822") {
        proof {
            reveal_strlit("message/rfc822");
            reveal_strlit("multipart/");
            assert(mimetype@[1] != "multipart/"@[1]);
            assert(mimetype@.subrange(0, 10)[1] == mimetype@[1]);
        }
        assert(kept);
        Some(Box::new(read_embedded(encoding, body_bytes, depth)))
    } else {
        None
    };
    let p = RawPart {
        mimetype,
        charset,
        name_param,
        disposition,
        filename_param,
        headers,
        encoding,
        body,
        raw,
        subparts,
        embedded,
    };
    p
}

/// Decode the body of a `message/rfc822` part nested `depth` deep, and read
/// the message inside it, repaired as a payload is when its header block is
/// unterminated.
fn read_embedded(encoding: TransferEncoding, body: &[u8], depth: usize) -> (e: Embedded)
    requires
        depth < MAX_MIME_DEPTH,
    ensures
        embedded_ok(e, encoding, body@, depth as int),
        embedded_reads(e, encoding, body@, depth as int),
    decreases MAX_MIME_DEPTH - depth, 0int,
{
    let content = match body_to_vec(encoding, body) {
        Ok(c) => c,
        Err(e) => {
            return Embedded::Undecodable(e);
        },
    };
    let repaired = repair_missing_separator(content.as_slice());
    let read: Result<RawPart, String> = {
        let buffer = inner_slice(&content, &repaired);
        assert(buffer@ == parsed_buffer(content@));
        match parse_structure(buffer) {
            Ok(inner) => {
                let root = root_of(&inner);
                Ok(read_part(buffer, &root, depth + 1, true))
            },
            Err(error) => Err(error),
        }
    };
    match read {
        Ok(root) => Embedded::Parsed { content, repaired, root: Box::new(root) },
        Err(error) => Embedded::Unparseable { content, error },
    }
}

/// What the first occurrence of the address header `name` among a root's
/// headers `hs` says: absent, or `mailparse::addrparse_header` of it.
pub open spec fn address_read(h: AddressHeader, src: Seq<u8>, hs: Seq<HeaderField>, name: Seq<u8>) -> bool {
    match first_header_index(hs, name) {
        None => h is Absent,
        Some(i) => match mp_address_list(src, Seq::empty(), i) {
            Some(es) => h matches AddressHeader::Parsed(v) && entries_view(v@) == es,
            None => h is Unparseable,
        },
    }
}

/// The first occurrence of the address header `name`, parsed from the
/// header of the root the model's `headers[i]` was read from.
fn read_address_header(root: &PartRef<'_, '_>, headers: &Vec<HeaderField>, name: &[u8]) -> (a: AddressHeader)
    requires
        headers@.len() == mp_header_count(root.source(), root.path()),
        root.path() == Seq::<int>::empty(),
    ensures
        (a is Absent) == (first_header_index(headers@, name@) is None),
        address_read(a, root.source(), headers@, name@),
{
    let found = find_header(headers, name);
    proof {
        lemma_first_header_index(headers@, name@);
    }
    match found {
        None => AddressHeader::Absent,
        Some(i) => match address_list_of(root, i) {
            Ok(entries) => AddressHeader::Parsed(entries),
            Err(()) => AddressHeader::Unparseable,
        },
    }
}

pub open spec fn name_from() -> Seq<u8> { seq![70u8, 114u8, 111u8, 109u8] }
pub open spec fn name_to() -> Seq<u8> { seq![84u8, 111u8] }
pub open spec fn name_cc() -> Seq<u8> { seq![67u8, 99u8] }
pub open spec fn name_bcc() -> Seq<u8> { seq![66u8, 99u8, 99u8] }
pub open spec fn name_reply_to() -> Seq<u8> { seq![82u8, 101u8, 112u8, 108u8, 121u8, 45u8, 84u8, 111u8] }

impl RawMessage {
    /// The message is a whole message as read from `base`: its address
    /// headers are absent exactly when the root has no header of that name.
    pub open spec fn wf(self, base_len: nat) -> bool {
        &&& self.root.fits(base_len)
        &&& (self.from_ is Absent) == (first_header_index(self.root.headers@, name_from()) is None)
        &&& (self.to is Absent) == (first_header_index(self.root.headers@, name_to()) is None)
        &&& (self.cc is Absent) == (first_header_index(self.root.headers@, name_cc()) is None)
        &&& (self.bcc is Absent) == (first_header_index(self.root.headers@, name_bcc()) is None)
        &&& (self.reply_to is Absent) == (first_header_index(self.root.headers@, name_reply_to()) is None)
    }

    /// The message is what this library reads from `mailparse`'s parse of
    /// `src`: every part, header, parameter, body and address list is the one
    /// `mailparse` gives, and with `tree` embedded messages are read too.
    pub open spec fn read_from(self, src: Seq<u8>, tree: bool) -> bool {
        &&& self.wf(src.len())
        &&& reads_part(self.root, src, Seq::empty(), 0, tree)
        &&& address_read(self.from_, src, self.root.headers@, name_from())
        &&& address_read(self.to, src, self.root.headers@, name_to())
        &&& address_read(self.cc, src, self.root.headers@, name_cc())
        &&& address_read(self.bcc, src, self.root.headers@, name_bcc())
        &&& address_read(self.reply_to, src, self.root.headers@, name_reply_to())
        &&& tree ==> tree_ok(self.root, 0, src)
    }
}

/// Read a whole parsed message into plain values.
fn read_message(base: &[u8], parsed: &MailTree<'_>, tree: bool) -> (m: RawMessage)
    requires
        parsed.source() == base@,
    ensures
        m.read_from(base@, tree),
{
    let top = root_of(parsed);
    let root = read_part(base, &top, 0, tree);
    assert(root.headers@.len() == mp_header_count(top.source(), top.path()));
    let from_ = read_address_header(&top, &root.headers, &[70u8, 114u8, 111u8, 109u8]);
    let to = read_address_header(&top, &root.headers, &[84u8, 111u8]);
    let cc = read_address_header(&top, &root.headers, &[67u8, 99u8]);
    let bcc = read_address_header(&top, &root.headers, &[66u8, 99u8, 99u8]);
    let reply_to = read_address_header(&top, &root.headers, &[82u8, 101u8, 112u8, 108u8, 121u8, 45u8, 84u8, 111u8]);
    RawMessage { root, from_, to, cc, bcc, reply_to }
}

/// Parse a buffer's header block and MIME structure with `mailparse` and
/// read it into plain values; with `tree`, embedded messages are read too.
/// The only failure is a header block that `mailparse` refuses, with its
/// error's text.
pub fn parse_mail(raw: &[u8], tree: bool) -> (res: Result<RawMessage, MailError>)
    ensures
        res is Ok <==> mailparse_accepts(raw@),
        res matches Ok(m) ==> m.read_from(raw@, tree),
        res matches Err(e) ==> e matches MailError::Header(t) && mailparse_refusal(raw@) == Some(t@),
{
    match parse_structure(raw) {
        Ok(parsed) => Ok(read_message(raw, &parsed, tree)),
        Err(text) => Err(MailError::Header(text)),
    }
}

} // verus!
