//! Two reads of one buffer: every model this library reads from `mailparse`'s
//! parse of the same bytes says the same thing, so every view built from one
//! equals the view built from the other (addresses compared as plain values).

use vstd::prelude::*;
use crate::bridge::mailparse_accepts;
use crate::envelope::{date_name, flatten_entries, header_mailboxes, subject_name};
use crate::error::ErrorView;
use crate::flat::{
    first_mailbox, flat_list, flat_parts, full_fold, full_step, mail_view, opt_text, parsed_as,
    decoded_within_double, parsed_buffer, payload_view, FlatOutcome, Mail, MailView, MAX_INPUT_BYTES,
};
use crate::error::MailError;
use crate::metadata::MailMetadata;
use crate::laws::{
    law_lazy_agrees_with_full, law_metadata_agrees_with_full, law_repair_is_idempotent,
    law_every_attachment_is_in_the_tree, law_warnings_empty_iff_nothing_repaired, part_clean,
    all_mime_shaped, has_body, mime_shaped, same_identity, same_lazy_identity,
};
use crate::lazy::{
    lazy_fold, lazy_init, lazy_parsed_as, lazy_step, lazy_view, payload_lazy_view, LazyAttachmentView, LazyMail,
    LazyMailView, LazyOutcome,
};
use crate::scan::repaired_payload;
use crate::warning::separator_warning;
use crate::metadata::{inventory, metadata_parsed_as, metadata_view, payload_metadata_view, MailMetadataView};
use crate::model::{
    address_view, entries_view, first_header_index, lemma_reads_all, reads_all, reads_part,
    Address, AddressEntry, AddressEntryView, AddressHeader, HeaderField, RawPart, MAX_MIME_DEPTH,
};
use crate::parts::{
    content_disposition_name, content_id_name, disposition_text, first_value, group_of,
    header_groups, header_table, is_body, is_container, part_content_id, part_disposition,
    part_filename, HeaderGroup,
};
use crate::metadata::describe;
use crate::model::{inner_buffer, Embedded};
use crate::tree::{
    deferred_node, deferred_nodes, deferred_parsed_as, deferred_view, full_node, full_nodes, full_view, is_message,
    keep_inside, tree_parsed_as, DeferredTree, Keep, MimePart, NodeBodyView, NodeView,
};
use crate::laws::{deferred_shape, deferred_shapes, full_shape, law_every_mode_builds_the_same_tree};
use crate::model::{DispositionKind, RawMessage, name_bcc, name_cc, name_from, name_reply_to, name_to};

verus! {

/// Two header fields say the same.
pub open spec fn same_header(a: HeaderField, b: HeaderField) -> bool {
    &&& a.key_raw@ == b.key_raw@
    &&& a.key@ == b.key@
    &&& a.value@ == b.value@
}

pub open spec fn same_headers(a: Seq<HeaderField>, b: Seq<HeaderField>) -> bool {
    &&& a.len() == b.len()
    &&& forall|i: int| 0 <= i < a.len() ==> same_header(#[trigger] a[i], b[i])
}

/// Two parts, read from `base`, say the same of themselves: every field as
/// plain values and every body as bytes.
pub open spec fn same_fields(a: RawPart, b: RawPart, base: Seq<u8>) -> bool {
    &&& a.mimetype@ == b.mimetype@
    &&& a.charset@ == b.charset@
    &&& opt_text(a.name_param) == opt_text(b.name_param)
    &&& a.disposition@ == b.disposition@
    &&& opt_text(a.filename_param) == opt_text(b.filename_param)
    &&& same_headers(a.headers@, b.headers@)
    &&& a.encoding == b.encoding
    &&& a.body.bytes_in(base) == b.body.bytes_in(base)
    &&& a.raw.bytes_in(base) == b.raw.bytes_in(base)
}

/// Two parts, read from `base`, say the same, and so do the parts below
/// them: all that the flat modes look at.
pub open spec fn same_part(a: RawPart, b: RawPart, base: Seq<u8>) -> bool
    decreases a, 1int,
{
    &&& same_fields(a, b, base)
    &&& same_all(a.subparts@, b.subparts@, base)
}

pub open spec fn same_all(a: Seq<RawPart>, b: Seq<RawPart>, base: Seq<u8>) -> bool
    decreases a, 0int,
{
    &&& a.len() == b.len()
    &&& a.len() > 0 ==> same_all(a.drop_last(), b.drop_last(), base) && same_part(a.last(), b.last(), base)
}

/// Pointwise `same_part`.
pub open spec fn same_list(a: Seq<RawPart>, b: Seq<RawPart>, base: Seq<u8>) -> bool {
    &&& a.len() == b.len()
    &&& forall|i: int| 0 <= i < a.len() ==> same_part(#[trigger] a[i], b[i], base)
}

pub proof fn lemma_same_all(a: Seq<RawPart>, b: Seq<RawPart>, base: Seq<u8>)
    ensures
        same_all(a, b, base) <==> same_list(a, b, base),
    decreases a.len(),
{
    if a.len() > 0 && a.len() == b.len() {
        lemma_same_all(a.drop_last(), b.drop_last(), base);
        assert forall|i: int| 0 <= i < a.len() - 1 implies a.drop_last()[i] == a[i] && b.drop_last()[i] == b[i] by {}
        if same_list(a, b, base) {
            assert(same_part(a[a.len() - 1], b[b.len() - 1], base));
        }
    }
}

/// Two reads of the same part of the same parse, for the flat modes or for
/// the tree, say the same of it and of the parts below it.
pub proof fn lemma_reads_same(a: RawPart, b: RawPart, src: Seq<u8>, path: Seq<int>, depth: int, t1: bool, t2: bool)
    requires
        reads_part(a, src, path, depth, t1),
        reads_part(b, src, path, depth, t2),
    ensures
        same_part(a, b, src),
    decreases a, 1int,
{
    if depth < MAX_MIME_DEPTH {
        lemma_reads_same_all(a.subparts@, b.subparts@, src, path, depth + 1, t1, t2);
    }
}

pub proof fn lemma_reads_same_all(a: Seq<RawPart>, b: Seq<RawPart>, src: Seq<u8>, path: Seq<int>, depth: int, t1: bool, t2: bool)
    requires
        reads_all(a, src, path, depth, t1),
        reads_all(b, src, path, depth, t2),
        a.len() == b.len(),
    ensures
        same_all(a, b, src),
    decreases a, 0int,
{
    if a.len() > 0 {
        lemma_reads_same_all(a.drop_last(), b.drop_last(), src, path, depth, t1, t2);
        lemma_reads_same(a.last(), b.last(), src, path.push(a.len() - 1), depth, t1, t2);
    }
}

/// A part read from `mailparse`'s parse has subparts only where it is a
/// `multipart/*` container, and so do the parts below it.
pub proof fn lemma_reads_mime_shaped(p: RawPart, src: Seq<u8>, path: Seq<int>, depth: int, tree: bool)
    requires
        reads_part(p, src, path, depth, tree),
    ensures
        mime_shaped(p),
    decreases p, 1int,
{
    if depth < MAX_MIME_DEPTH {
        lemma_reads_mime_shaped_all(p.subparts@, src, path, depth + 1, tree);
    }
}

proof fn lemma_reads_mime_shaped_all(ps: Seq<RawPart>, src: Seq<u8>, path: Seq<int>, depth: int, tree: bool)
    requires
        reads_all(ps, src, path, depth, tree),
    ensures
        all_mime_shaped(ps),
    decreases ps, 0int,
{
    if ps.len() > 0 {
        lemma_reads_mime_shaped_all(ps.drop_last(), src, path, depth, tree);
        lemma_reads_mime_shaped(ps.last(), src, path.push(ps.len() - 1), depth, tree);
    }
}

/// The same headers give the same first match of every name.
pub proof fn lemma_first_header_same(a: Seq<HeaderField>, b: Seq<HeaderField>, name: Seq<u8>)
    requires
        same_headers(a, b),
    ensures
        first_header_index(a, name) == first_header_index(b, name),
        opt_text(first_value(a, name)) == opt_text(first_value(b, name)),
    decreases a.len(),
{
    if a.len() > 0 {
        assert(same_header(a[a.len() - 1], b[b.len() - 1]));
        assert forall|i: int| 0 <= i < a.len() - 1 implies same_header(#[trigger] a.drop_last()[i], b.drop_last()[i]) by {
            assert(same_header(a[i], b[i]));
        }
        lemma_first_header_same(a.drop_last(), b.drop_last(), name);
    }
    crate::model::lemma_first_header_index(a, name);
    if let Some(i) = first_header_index(a, name) {
        assert(same_header(a[i], b[i]));
    }
}

/// A header group as plain values.
pub open spec fn group_view(g: HeaderGroup) -> (Seq<u8>, Seq<char>, Seq<Seq<char>>) {
    (g.raw, g.key@, g.values.map_values(|v: String| v@))
}

pub open spec fn groups_view(t: Seq<HeaderGroup>) -> Seq<(Seq<u8>, Seq<char>, Seq<Seq<char>>)> {
    t.map_values(|g: HeaderGroup| group_view(g))
}

proof fn lemma_group_of_same(t: Seq<HeaderGroup>, u: Seq<HeaderGroup>, raw: Seq<u8>)
    requires
        groups_view(t) == groups_view(u),
    ensures
        group_of(t, raw) == group_of(u, raw),
    decreases t.len(),
{
    assert(t.len() == groups_view(t).len());
    assert(u.len() == groups_view(u).len());
    if t.len() > 0 {
        assert(groups_view(t.drop_last()) =~= groups_view(t).drop_last());
        assert(groups_view(u.drop_last()) =~= groups_view(u).drop_last());
        lemma_group_of_same(t.drop_last(), u.drop_last(), raw);
        assert(groups_view(t)[t.len() - 1] == groups_view(u)[u.len() - 1]);
    }
}

proof fn lemma_header_groups_same(a: Seq<HeaderField>, b: Seq<HeaderField>)
    requires
        same_headers(a, b),
    ensures
        groups_view(header_groups(a)) == groups_view(header_groups(b)),
    decreases a.len(),
{
    if a.len() > 0 {
        assert forall|i: int| 0 <= i < a.len() - 1 implies same_header(#[trigger] a.drop_last()[i], b.drop_last()[i]) by {
            assert(same_header(a[i], b[i]));
        }
        lemma_header_groups_same(a.drop_last(), b.drop_last());
        let t = header_groups(a.drop_last());
        let u = header_groups(b.drop_last());
        let h = a.last();
        let k = b.last();
        assert(same_header(a[a.len() - 1], b[b.len() - 1]));
        lemma_group_of_same(t, u, h.key_raw@);
        assert(t.len() == groups_view(t).len());
        assert(u.len() == groups_view(u).len());
        match group_of(t, h.key_raw@) {
            Some(i) => {
                crate::parts::lemma_group_of(t, h.key_raw@);
                assert(groups_view(t)[i] == groups_view(u)[i]);
                let gt = HeaderGroup { raw: t[i].raw, key: t[i].key, values: t[i].values.push(h.value) };
                let gu = HeaderGroup { raw: u[i].raw, key: u[i].key, values: u[i].values.push(k.value) };
                assert(gt.values.map_values(|v: String| v@) =~= t[i].values.map_values(|v: String| v@).push(h.value@));
                assert(gu.values.map_values(|v: String| v@) =~= u[i].values.map_values(|v: String| v@).push(k.value@));
                assert(group_view(gt) == group_view(gu));
                assert forall|j: int| 0 <= j < t.len() implies #[trigger] groups_view(t.update(i, gt))[j]
                    == groups_view(u.update(i, gu))[j] by {
                    assert(groups_view(t)[j] == groups_view(u)[j]);
                }
                assert(groups_view(t.update(i, gt)) =~= groups_view(u.update(i, gu)));
            },
            None => {
                let gt = HeaderGroup { raw: h.key_raw@, key: h.key, values: seq![h.value] };
                let gu = HeaderGroup { raw: k.key_raw@, key: k.key, values: seq![k.value] };
                assert(gt.values.map_values(|v: String| v@) =~= seq![h.value@]);
                assert(gu.values.map_values(|v: String| v@) =~= seq![k.value@]);
                assert(group_view(gt) == group_view(gu));
                assert forall|j: int| 0 <= j < t.len() + 1 implies #[trigger] groups_view(t.push(gt))[j]
                    == groups_view(u.push(gu))[j] by {
                    if j < t.len() {
                        assert(groups_view(t)[j] == groups_view(u)[j]);
                    }
                }
                assert(groups_view(t.push(gt)) =~= groups_view(u.push(gu)));
            },
        }
    }
}

/// The same headers give the same header table.
pub proof fn lemma_header_table_same(a: Seq<HeaderField>, b: Seq<HeaderField>)
    requires
        same_headers(a, b),
    ensures
        header_table(a) == header_table(b),
{
    lemma_header_groups_same(a, b);
    let t = header_groups(a);
    let u = header_groups(b);
    assert(t.len() == groups_view(t).len());
    assert(u.len() == groups_view(u).len());
    assert forall|i: int| 0 <= i < t.len() implies #[trigger] header_table(a)[i] == header_table(b)[i] by {
        assert(groups_view(t)[i] == groups_view(u)[i]);
    }
    assert(header_table(a) =~= header_table(b));
}

proof fn lemma_disposition_same(a: DispositionKind, b: DispositionKind)
    requires
        a@ == b@,
    ensures
        disposition_text(a) == disposition_text(b),
        (a is Attachment) == (b is Attachment),
{
    match a {
        DispositionKind::Extension(x) => {
            if let DispositionKind::Extension(y) = b {
                assert(x@ == y@);
            }
        },
        _ => {},
    }
}

/// Two parts that say the same go the same way through every flat step.
pub proof fn lemma_step_same(acc: FlatOutcome, a: RawPart, b: RawPart, base: Seq<u8>)
    requires
        same_fields(a, b, base),
    ensures
        is_container(a) == is_container(b),
        is_body(a) == is_body(b),
        part_filename(a) == part_filename(b),
        part_content_id(a) == part_content_id(b),
        part_disposition(a) == part_disposition(b),
        describe(a, base) == describe(b, base),
        full_step(acc, a, base) == full_step(acc, b, base),
{
    lemma_disposition_same(a.disposition, b.disposition);
    lemma_first_header_same(a.headers@, b.headers@, content_id_name());
    lemma_first_header_same(a.headers@, b.headers@, content_disposition_name());
    assert(part_filename(a) == part_filename(b));
    assert(part_content_id(a) == part_content_id(b));
}

/// Two parts that say the same flatten to lists that say the same.
pub proof fn lemma_flat_same(a: RawPart, b: RawPart, depth: int, base: Seq<u8>)
    requires
        same_part(a, b, base),
    ensures
        flat_parts(a, depth) is Some == flat_parts(b, depth) is Some,
        flat_parts(a, depth) is Some ==> same_list(flat_parts(a, depth)->0, flat_parts(b, depth)->0, base),
    decreases a, 1int,
{
    if depth < MAX_MIME_DEPTH {
        lemma_flat_list_same(a.subparts@, b.subparts@, depth + 1, base);
        if let Some(s) = flat_list(a.subparts@, depth + 1) {
            let t = flat_list(b.subparts@, depth + 1)->0;
            assert forall|i: int| 0 <= i < s.len() + 1 implies same_part(#[trigger] s.push(a)[i], t.push(b)[i], base) by {
                if i < s.len() {
                    assert(same_part(s[i], t[i], base));
                }
            }
        }
    }
}

pub proof fn lemma_flat_list_same(a: Seq<RawPart>, b: Seq<RawPart>, depth: int, base: Seq<u8>)
    requires
        same_all(a, b, base),
    ensures
        flat_list(a, depth) is Some == flat_list(b, depth) is Some,
        flat_list(a, depth) is Some ==> same_list(flat_list(a, depth)->0, flat_list(b, depth)->0, base),
    decreases a, 0int,
{
    if a.len() > 0 {
        lemma_flat_list_same(a.drop_last(), b.drop_last(), depth, base);
        lemma_flat_same(a.last(), b.last(), depth, base);
        if let Some(x) = flat_list(a.drop_last(), depth) {
            if let Some(y) = flat_parts(a.last(), depth) {
                let x2 = flat_list(b.drop_last(), depth)->0;
                let y2 = flat_parts(b.last(), depth)->0;
                assert forall|i: int| 0 <= i < x.len() + y.len() implies same_part(#[trigger] (x + y)[i], (x2 + y2)[i], base) by {
                    if i < x.len() {
                        assert(same_part(x[i], x2[i], base));
                    } else {
                        assert(same_part(y[i - x.len()], y2[i - x.len()], base));
                    }
                }
            }
        }
    }
}

/// Lists that say the same fold the same way.
pub proof fn lemma_full_fold_same(a: Seq<RawPart>, b: Seq<RawPart>, base: Seq<u8>, init: FlatOutcome)
    requires
        same_list(a, b, base),
    ensures
        full_fold(a, base, init) == full_fold(b, base, init),
        inventory(a, base) == inventory(b, base),
    decreases a.len(),
{
    if a.len() > 0 {
        assert forall|i: int| 0 <= i < a.len() - 1 implies same_part(#[trigger] a.drop_last()[i], b.drop_last()[i], base) by {
            assert(same_part(a[i], b[i], base));
        }
        lemma_full_fold_same(a.drop_last(), b.drop_last(), base, init);
        assert(same_part(a[a.len() - 1], b[b.len() - 1], base));
        if let Ok(acc) = full_fold(a.drop_last(), base, init) {
            lemma_step_same(acc, a.last(), b.last(), base);
        }
        lemma_step_same(init, a.last(), b.last(), base);
    }
}

/// Mailboxes as plain values.
pub open spec fn addresses(s: Seq<Address>) -> Seq<(Option<Seq<char>>, Seq<char>)> {
    s.map_values(|a: Address| address_view(a))
}

pub open spec fn opt_address(o: Option<Address>) -> Option<(Option<Seq<char>>, Seq<char>)> {
    match o {
        Some(a) => Some(address_view(a)),
        None => None,
    }
}

proof fn lemma_flatten_same(a: Seq<AddressEntry>, b: Seq<AddressEntry>)
    requires
        entries_view(a) == entries_view(b),
    ensures
        addresses(flatten_entries(a)) == addresses(flatten_entries(b)),
    decreases a.len(),
{
    assert(a.len() == entries_view(a).len());
    assert(b.len() == entries_view(b).len());
    if a.len() > 0 {
        assert(entries_view(a.drop_last()) =~= entries_view(a).drop_last());
        assert(entries_view(b.drop_last()) =~= entries_view(b).drop_last());
        lemma_flatten_same(a.drop_last(), b.drop_last());
        assert(entries_view(a)[a.len() - 1] == entries_view(b)[b.len() - 1]);
        let x = match a.last() {
            AddressEntry::Single(m) => seq![m],
            AddressEntry::Group(g) => g@,
        };
        let y = match b.last() {
            AddressEntry::Single(m) => seq![m],
            AddressEntry::Group(g) => g@,
        };
        assert(addresses(x) =~= addresses(y));
        let fa = flatten_entries(a.drop_last());
        let fb = flatten_entries(b.drop_last());
        assert(addresses(fa + x) =~= addresses(fa) + addresses(x));
        assert(addresses(fb + y) =~= addresses(fb) + addresses(y));
    }
}

/// Two reads of one address header say the same.
proof fn lemma_address_same(x: AddressHeader, y: AddressHeader, src: Seq<u8>, a: Seq<HeaderField>, b: Seq<HeaderField>, name: Seq<u8>)
    requires
        crate::model::address_read(x, src, a, name),
        crate::model::address_read(y, src, b, name),
        same_headers(a, b),
    ensures
        (x is Unparseable) == (y is Unparseable),
        addresses(header_mailboxes(x)) == addresses(header_mailboxes(y)),
{
    lemma_first_header_same(a, b, name);
    if let (AddressHeader::Parsed(v), AddressHeader::Parsed(w)) = (x, y) {
        lemma_flatten_same(v@, w@);
    }
}

/// Two reads of one message say the same: the same root, the same address
/// headers.
pub open spec fn same_message(m: RawMessage, n: RawMessage, src: Seq<u8>) -> bool {
    &&& same_part(m.root, n.root, src)
    &&& (m.from_ is Unparseable) == (n.from_ is Unparseable)
    &&& (m.to is Unparseable) == (n.to is Unparseable)
    &&& (m.cc is Unparseable) == (n.cc is Unparseable)
    &&& (m.bcc is Unparseable) == (n.bcc is Unparseable)
    &&& (m.reply_to is Unparseable) == (n.reply_to is Unparseable)
    &&& addresses(header_mailboxes(m.from_)) == addresses(header_mailboxes(n.from_))
    &&& addresses(header_mailboxes(m.to)) == addresses(header_mailboxes(n.to))
    &&& addresses(header_mailboxes(m.cc)) == addresses(header_mailboxes(n.cc))
    &&& addresses(header_mailboxes(m.bcc)) == addresses(header_mailboxes(n.bcc))
    &&& addresses(header_mailboxes(m.reply_to)) == addresses(header_mailboxes(n.reply_to))
}

pub proof fn lemma_messages_same(m: RawMessage, n: RawMessage, src: Seq<u8>)
    requires
        m.read_from(src, false),
        n.read_from(src, false),
    ensures
        same_message(m, n, src),
{
    lemma_reads_same(m.root, n.root, src, Seq::empty(), 0, false, false);
    lemma_address_same(m.from_, n.from_, src, m.root.headers@, n.root.headers@, name_from());
    lemma_address_same(m.to, n.to, src, m.root.headers@, n.root.headers@, name_to());
    lemma_address_same(m.cc, n.cc, src, m.root.headers@, n.root.headers@, name_cc());
    lemma_address_same(m.bcc, n.bcc, src, m.root.headers@, n.root.headers@, name_bcc());
    lemma_address_same(m.reply_to, n.reply_to, src, m.root.headers@, n.root.headers@, name_reply_to());
}

/// Two full parses agree: every field the same, mailboxes as plain values.
pub open spec fn mail_views_agree(a: MailView, b: MailView) -> bool {
    &&& a.subject == b.subject
    &&& a.text_plain == b.text_plain
    &&& a.text_html == b.text_html
    &&& a.date == b.date
    &&& opt_address(a.from_) == opt_address(b.from_)
    &&& addresses(a.to) == addresses(b.to)
    &&& addresses(a.cc) == addresses(b.cc)
    &&& addresses(a.bcc) == addresses(b.bcc)
    &&& addresses(a.reply_to) == addresses(b.reply_to)
    &&& a.attachments == b.attachments
    &&& a.headers == b.headers
    &&& a.warnings == b.warnings
}

/// Two metadata parses agree, mailboxes as plain values.
pub open spec fn metadata_views_agree(a: MailMetadataView, b: MailMetadataView) -> bool {
    &&& a.subject == b.subject
    &&& a.date == b.date
    &&& opt_address(a.from_) == opt_address(b.from_)
    &&& addresses(a.to) == addresses(b.to)
    &&& addresses(a.cc) == addresses(b.cc)
    &&& addresses(a.bcc) == addresses(b.bcc)
    &&& addresses(a.reply_to) == addresses(b.reply_to)
    &&& a.attachments == b.attachments
    &&& a.headers == b.headers
}

proof fn lemma_first_mailbox_same(m: RawMessage, n: RawMessage)
    requires
        addresses(header_mailboxes(m.from_)) == addresses(header_mailboxes(n.from_)),
    ensures
        opt_address(first_mailbox(m)) == opt_address(first_mailbox(n)),
{
    assert(header_mailboxes(m.from_).len() == addresses(header_mailboxes(m.from_)).len());
    assert(header_mailboxes(n.from_).len() == addresses(header_mailboxes(n.from_)).len());
    if header_mailboxes(m.from_).len() > 0 {
        assert(addresses(header_mailboxes(m.from_))[0] == addresses(header_mailboxes(n.from_))[0]);
    }
}

/// Messages that say the same give the same full view and metadata view.
pub proof fn lemma_views_same(m: RawMessage, n: RawMessage, base: Seq<u8>)
    requires
        same_message(m, n, base),
    ensures
        mail_view(m, base) is Ok == mail_view(n, base) is Ok,
        mail_view(m, base) matches Err(e) ==> mail_view(n, base) == Err::<MailView, ErrorView>(e),
        mail_view(m, base) is Ok ==> mail_views_agree(mail_view(m, base)->Ok_0, mail_view(n, base)->Ok_0),
        metadata_view(m, base) is Ok == metadata_view(n, base) is Ok,
        metadata_view(m, base) matches Err(e) ==> metadata_view(n, base) == Err::<MailMetadataView, ErrorView>(e),
        metadata_view(m, base) is Ok ==> metadata_views_agree(metadata_view(m, base)->Ok_0, metadata_view(n, base)->Ok_0),
{
    lemma_flat_same(m.root, n.root, 0, base);
    lemma_first_header_same(m.root.headers@, n.root.headers@, subject_name());
    lemma_first_header_same(m.root.headers@, n.root.headers@, date_name());
    lemma_header_table_same(m.root.headers@, n.root.headers@);
    lemma_first_mailbox_same(m, n);
    assert(crate::flat::envelope_warnings(m) == crate::flat::envelope_warnings(n));
    if let Some(parts) = flat_parts(m.root, 0) {
        let init = FlatOutcome {
            plain: Seq::empty(),
            html: Seq::empty(),
            attachments: Seq::empty(),
            warnings: crate::flat::envelope_warnings(m),
        };
        lemma_full_fold_same(parts, flat_parts(n.root, 0)->0, base, init);
    }
}

/// Parsing is deterministic: two full parses of one payload both succeed or
/// both fail with the same error, and on success give the same mail (its
/// mailboxes compared as plain values).
pub proof fn law_full_parse_is_deterministic(payload: Seq<u8>, r1: Result<Mail, MailError>, r2: Result<Mail, MailError>)
    requires
        parsed_as(payload, r1),
        parsed_as(payload, r2),
    ensures
        r1 is Ok == r2 is Ok,
        r1 is Err ==> r1->Err_0@ == r2->Err_0@,
        r1 is Ok ==> mail_views_agree(r1->Ok_0@, r2->Ok_0@),
{
    let buffer = parsed_buffer(payload);
    if payload.len() <= MAX_INPUT_BYTES && mailparse_accepts(buffer) {
        let m = choose|msg: RawMessage| #[trigger] msg.read_from(buffer, false) && match r1 {
            Ok(mail) => payload_view(msg, payload) == Ok::<MailView, ErrorView>(mail@)
                && crate::flat::sizes_within_double(mail@, msg, buffer),
            Err(e) => payload_view(msg, payload) == Err::<MailView, ErrorView>(e@),
        };
        let n = choose|msg: RawMessage| #[trigger] msg.read_from(buffer, false) && match r2 {
            Ok(mail) => payload_view(msg, payload) == Ok::<MailView, ErrorView>(mail@)
                && crate::flat::sizes_within_double(mail@, msg, buffer),
            Err(e) => payload_view(msg, payload) == Err::<MailView, ErrorView>(e@),
        };
        lemma_messages_same(m, n, buffer);
        lemma_views_same(m, n, buffer);
    }
}

/// Metadata mode succeeds wherever the full parse of the same payload does,
/// and agrees with it: the same subject, date, header table and mailboxes,
/// one described attachment per decoded one naming the same part, and no
/// decoded attachment more than twice the size metadata mode reports.
pub proof fn law_metadata_call_agrees_with_full_call(
    payload: Seq<u8>,
    full: Result<Mail, MailError>,
    meta: Result<MailMetadata, MailError>,
)
    requires
        parsed_as(payload, full),
        metadata_parsed_as(payload, meta),
        full is Ok,
    ensures
        meta is Ok,
        ({
            let f = full->Ok_0@;
            let md = meta->Ok_0@;
            &&& md.subject == f.subject
            &&& md.date == f.date
            &&& md.headers == f.headers
            &&& opt_address(md.from_) == opt_address(f.from_)
            &&& addresses(md.to) == addresses(f.to)
            &&& addresses(md.cc) == addresses(f.cc)
            &&& addresses(md.bcc) == addresses(f.bcc)
            &&& addresses(md.reply_to) == addresses(f.reply_to)
            &&& md.attachments.len() == f.attachments.len()
            &&& forall|i: int| 0 <= i < f.attachments.len() ==> same_identity(#[trigger] f.attachments[i], md.attachments[i])
            &&& decoded_within_double(f.attachments, md.attachments)
        }),
{
    let buffer = parsed_buffer(payload);
    let m = choose|msg: RawMessage| #[trigger] msg.read_from(buffer, false) && match full {
        Ok(mail) => payload_view(msg, payload) == Ok::<MailView, ErrorView>(mail@)
            && crate::flat::sizes_within_double(mail@, msg, buffer),
        Err(e) => payload_view(msg, payload) == Err::<MailView, ErrorView>(e@),
    };
    let n = choose|msg: RawMessage| #[trigger] msg.read_from(buffer, false) && match meta {
        Ok(x) => payload_metadata_view(msg, payload) == Ok::<MailMetadataView, ErrorView>(x@),
        Err(e) => payload_metadata_view(msg, payload) == Err::<MailMetadataView, ErrorView>(e@),
    };
    law_metadata_agrees_with_full(m, buffer);
    lemma_messages_same(m, n, buffer);
    lemma_views_same(m, n, buffer);
}

/// A payload whose header block was repaired parses as its repair does, with
/// the repair as the first warning: parsing the repaired bytes gives the
/// same result but for that warning. (A payload one byte under the cap is
/// left out: its repair is over it.)
pub proof fn law_repaired_parse_is_the_parse_of_the_repair(
    payload: Seq<u8>,
    fixed: Seq<u8>,
    r1: Result<Mail, MailError>,
    r2: Result<Mail, MailError>,
)
    requires
        repaired_payload(payload) == Some(fixed),
        fixed.len() <= MAX_INPUT_BYTES,
        parsed_as(payload, r1),
        parsed_as(fixed, r2),
    ensures
        r1 is Ok == r2 is Ok,
        r1 is Err ==> r1->Err_0@ == r2->Err_0@,
        r1 is Ok ==> r1->Ok_0@.warnings == seq![separator_warning()] + r2->Ok_0@.warnings
            && mail_views_agree(MailView { warnings: r2->Ok_0@.warnings, ..r1->Ok_0@ }, r2->Ok_0@),
{
    law_repair_is_idempotent(payload);
    crate::laws::law_repair_inserts_one_lf(payload);
    let buffer = parsed_buffer(payload);
    assert(parsed_buffer(fixed) == buffer);
    if mailparse_accepts(buffer) {
        let m = choose|msg: RawMessage| #[trigger] msg.read_from(buffer, false) && match r1 {
            Ok(mail) => payload_view(msg, payload) == Ok::<MailView, ErrorView>(mail@)
                && crate::flat::sizes_within_double(mail@, msg, buffer),
            Err(e) => payload_view(msg, payload) == Err::<MailView, ErrorView>(e@),
        };
        let n = choose|msg: RawMessage| #[trigger] msg.read_from(parsed_buffer(fixed), false) && match r2 {
            Ok(mail) => payload_view(msg, fixed) == Ok::<MailView, ErrorView>(mail@)
                && crate::flat::sizes_within_double(mail@, msg, parsed_buffer(fixed)),
            Err(e) => payload_view(msg, fixed) == Err::<MailView, ErrorView>(e@),
        };
        lemma_messages_same(m, n, buffer);
        lemma_views_same(m, n, buffer);
    }
}

/// Two lazy attachments describe the same part the same way; where its bytes
/// are kept (a range or a copy) may differ.
pub open spec fn lazy_attachments_agree(a: LazyAttachmentView, b: LazyAttachmentView) -> bool {
    &&& a.mimetype == b.mimetype
    &&& a.filename == b.filename
    &&& a.content_id == b.content_id
    &&& a.disposition == b.disposition
    &&& a.encoded_size == b.encoded_size
}

pub open spec fn lazy_outcomes_agree(a: LazyOutcome, b: LazyOutcome) -> bool {
    &&& a.plain == b.plain
    &&& a.html == b.html
    &&& a.warnings == b.warnings
    &&& a.attachments.len() == b.attachments.len()
    &&& forall|i: int| 0 <= i < a.attachments.len() ==> lazy_attachments_agree(#[trigger] a.attachments[i], b.attachments[i])
}

proof fn lemma_lazy_step_same(x: LazyOutcome, y: LazyOutcome, a: RawPart, b: RawPart, base: Seq<u8>)
    requires
        lazy_outcomes_agree(x, y),
        same_part(a, b, base),
    ensures
        lazy_step(x, a, base) is Ok == lazy_step(y, b, base) is Ok,
        lazy_step(x, a, base) is Err ==> lazy_step(x, a, base) == lazy_step(y, b, base),
        lazy_step(x, a, base) is Ok ==> lazy_outcomes_agree(lazy_step(x, a, base)->Ok_0, lazy_step(y, b, base)->Ok_0),
{
    lemma_step_same(FlatOutcome { plain: x.plain, html: x.html, attachments: Seq::empty(), warnings: x.warnings }, a, b, base);
    if !is_container(a) && !is_body(a) {
        let u = lazy_step(x, a, base)->Ok_0;
        let v = lazy_step(y, b, base)->Ok_0;
        assert forall|i: int| 0 <= i < u.attachments.len() implies lazy_attachments_agree(#[trigger] u.attachments[i], v.attachments[i]) by {
            if i < x.attachments.len() {
                assert(lazy_attachments_agree(x.attachments[i], y.attachments[i]));
            }
        }
    }
}

proof fn lemma_lazy_fold_same(a: Seq<RawPart>, b: Seq<RawPart>, base: Seq<u8>, init: LazyOutcome)
    requires
        same_list(a, b, base),
    ensures
        lazy_fold(a, base, init) is Ok == lazy_fold(b, base, init) is Ok,
        lazy_fold(a, base, init) is Err ==> lazy_fold(a, base, init) == lazy_fold(b, base, init),
        lazy_fold(a, base, init) is Ok ==> lazy_outcomes_agree(lazy_fold(a, base, init)->Ok_0, lazy_fold(b, base, init)->Ok_0),
    decreases a.len(),
{
    if a.len() > 0 {
        assert forall|i: int| 0 <= i < a.len() - 1 implies same_part(#[trigger] a.drop_last()[i], b.drop_last()[i], base) by {
            assert(same_part(a[i], b[i], base));
        }
        lemma_full_fold_same(a.drop_last(), b.drop_last(), base, FlatOutcome { plain: Seq::empty(), html: Seq::empty(), attachments: Seq::empty(), warnings: Seq::empty() });
        lemma_lazy_fold_same(a.drop_last(), b.drop_last(), base, init);
        assert(same_part(a[a.len() - 1], b[b.len() - 1], base));
        if let Ok(x) = lazy_fold(a.drop_last(), base, init) {
            lemma_lazy_step_same(x, lazy_fold(b.drop_last(), base, init)->Ok_0, a.last(), b.last(), base);
        }
    } else {
        assert forall|i: int| 0 <= i < init.attachments.len() implies lazy_attachments_agree(#[trigger] init.attachments[i], init.attachments[i]) by {}
    }
}

/// Lazy mode succeeds wherever the full parse of the same payload does, and
/// agrees with it on everything but attachment content: the envelope
/// (mailboxes as plain values), both body lists, the whole warning list, and
/// per attachment the media type, filename, content id and disposition.
pub proof fn law_lazy_call_agrees_with_full_call(
    payload: Seq<u8>,
    full: Result<Mail, MailError>,
    lazy: Result<LazyMail, MailError>,
)
    requires
        parsed_as(payload, full),
        lazy_parsed_as(payload, lazy),
        full is Ok,
    ensures
        lazy is Ok,
        ({
            let f = full->Ok_0@;
            let l = lazy->Ok_0@;
            &&& l.subject == f.subject
            &&& l.date == f.date
            &&& l.headers == f.headers
            &&& opt_address(l.from_) == opt_address(f.from_)
            &&& addresses(l.to) == addresses(f.to)
            &&& addresses(l.cc) == addresses(f.cc)
            &&& addresses(l.bcc) == addresses(f.bcc)
            &&& addresses(l.reply_to) == addresses(f.reply_to)
            &&& l.text_plain == f.text_plain
            &&& l.text_html == f.text_html
            &&& l.warnings == f.warnings
            &&& l.attachments.len() == f.attachments.len()
            &&& forall|i: int| 0 <= i < f.attachments.len() ==> same_lazy_identity(#[trigger] f.attachments[i], l.attachments[i])
        }),
{
    let buffer = parsed_buffer(payload);
    let m = choose|msg: RawMessage| #[trigger] msg.read_from(buffer, false) && match full {
        Ok(mail) => payload_view(msg, payload) == Ok::<MailView, ErrorView>(mail@)
            && crate::flat::sizes_within_double(mail@, msg, buffer),
        Err(e) => payload_view(msg, payload) == Err::<MailView, ErrorView>(e@),
    };
    let n = choose|msg: RawMessage| #[trigger] msg.read_from(buffer, false) && match lazy {
        Ok(x) => payload_lazy_view(msg, payload) == Ok::<LazyMailView, ErrorView>(x@),
        Err(e) => payload_lazy_view(msg, payload) == Err::<LazyMailView, ErrorView>(e@),
    };
    law_lazy_agrees_with_full(m, payload);
    lemma_messages_same(m, n, buffer);
    lemma_views_same(m, n, buffer);
    lemma_flat_same(m.root, n.root, 0, buffer);
    let pm = flat_parts(m.root, 0)->0;
    let pn = flat_parts(n.root, 0)->0;
    assert(lazy_init(m) == lazy_init(n));
    lemma_lazy_fold_same(pm, pn, buffer, lazy_init(m));
    let lm = payload_lazy_view(m, payload)->Ok_0;
    let ln = lazy->Ok_0@;
    assert forall|i: int| 0 <= i < full->Ok_0@.attachments.len() implies same_lazy_identity(#[trigger] full->Ok_0@.attachments[i], ln.attachments[i]) by {
        assert(same_lazy_identity(full->Ok_0@.attachments[i], lm.attachments[i]));
        assert(lazy_attachments_agree(lazy_fold(pm, buffer, lazy_init(m))->Ok_0.attachments[i], lazy_fold(pn, buffer, lazy_init(m))->Ok_0.attachments[i]));
    }
}

/// Two parts read from `base` for the tree say the same, and so do the parts
/// below them and, for an embedded message, what its body held.
pub open spec fn same_tree(a: RawPart, b: RawPart, base: Seq<u8>) -> bool
    decreases a, 1int,
{
    &&& same_fields(a, b, base)
    &&& same_trees(a.subparts@, b.subparts@, base)
    &&& match a.embedded {
        None => b.embedded is None,
        Some(x) => match b.embedded {
            None => false,
            Some(y) => match *x {
                Embedded::Undecodable(e1) => match *y {
                    Embedded::Undecodable(e2) => e1@ == e2@,
                    _ => false,
                },
                Embedded::Unparseable { content: c1, error: r1 } => match *y {
                    Embedded::Unparseable { content: c2, error: r2 } => c1@ == c2@ && r1@ == r2@,
                    _ => false,
                },
                Embedded::Parsed { content: c1, repaired: p1, root: t1 } => match *y {
                    Embedded::Parsed { content: c2, repaired: p2, root: t2 } => c1@ == c2@
                        && inner_buffer(c1, p1) == inner_buffer(c2, p2)
                        && same_tree(*t1, *t2, inner_buffer(c1, p1)),
                    _ => false,
                },
            },
        },
    }
}

pub open spec fn same_trees(a: Seq<RawPart>, b: Seq<RawPart>, base: Seq<u8>) -> bool
    decreases a, 0int,
{
    &&& a.len() == b.len()
    &&& a.len() > 0 ==> same_trees(a.drop_last(), b.drop_last(), base) && same_tree(a.last(), b.last(), base)
}

/// Two tree reads of the same part of the same parse say the same.
pub proof fn lemma_reads_same_tree(a: RawPart, b: RawPart, src: Seq<u8>, path: Seq<int>, depth: int)
    requires
        reads_part(a, src, path, depth, true),
        reads_part(b, src, path, depth, true),
    ensures
        same_tree(a, b, src),
    decreases a, 1int,
{
    if depth < MAX_MIME_DEPTH {
        lemma_reads_same_trees(a.subparts@, b.subparts@, src, path, depth + 1);
        assert(same_fields(a, b, src));
        assert(same_trees(a.subparts@, b.subparts@, src));
        if let Some(x) = a.embedded {
            let y = b.embedded->0;
            match *x {
                Embedded::Undecodable(e1) => {
                    assert(*y is Undecodable);
                },
                Embedded::Unparseable { content: c1, error: r1 } => {
                    assert(*y is Unparseable);
                },
                Embedded::Parsed { content: c1, repaired: p1, root: t1 } => {
                    assert(*y is Parsed);
                    if let Embedded::Parsed { content: c2, repaired: p2, root: t2 } = *y {
                        assert(c1@ == c2@);
                        assert(inner_buffer(c1, p1) == crate::flat::parsed_buffer(c1@));
                        assert(inner_buffer(c2, p2) == crate::flat::parsed_buffer(c2@));
                        lemma_reads_same_tree(*t1, *t2, crate::flat::parsed_buffer(c1@), Seq::empty(), depth + 1);
                    }
                },
            }
        } else {
            assert(b.embedded is None);
        }
        assert(same_tree(a, b, src));
    } else {
        assert(same_fields(a, b, src));
        assert(a.subparts@.len() == 0 && b.subparts@.len() == 0);
        assert(same_trees(a.subparts@, b.subparts@, src));
        assert(a.embedded is None && b.embedded is None);
        assert(same_tree(a, b, src));
    }
}

pub proof fn lemma_reads_same_trees(a: Seq<RawPart>, b: Seq<RawPart>, src: Seq<u8>, path: Seq<int>, depth: int)
    requires
        reads_all(a, src, path, depth, true),
        reads_all(b, src, path, depth, true),
        a.len() == b.len(),
    ensures
        same_trees(a, b, src),
    decreases a, 0int,
{
    if a.len() > 0 {
        lemma_reads_same_trees(a.drop_last(), b.drop_last(), src, path, depth);
        lemma_reads_same_tree(a.last(), b.last(), src, path.push(a.len() - 1), depth);
    }
}


proof fn lemma_shapes_single(n: NodeView<NodeBodyView>)
    ensures
        deferred_shapes(seq![n]) == seq![deferred_shape(n)],
{
    assert(seq![n].drop_last() =~= Seq::<NodeView<NodeBodyView>>::empty());
    assert(deferred_shapes(Seq::<NodeView<NodeBodyView>>::empty()) =~= Seq::<NodeView<bool>>::empty());
    assert(Seq::<NodeView<bool>>::empty().push(deferred_shape(n)) =~= seq![deferred_shape(n)]);
}

/// Parts that say the same build the same full tree, and deferred trees of
/// the same shape.
pub proof fn lemma_nodes_same(a: RawPart, b: RawPart, depth: int, base: Seq<u8>, keep: Keep)
    requires
        same_tree(a, b, base),
    ensures
        full_node(a, depth, base) == full_node(b, depth, base),
        deferred_node(a, depth, base, keep) is Ok == deferred_node(b, depth, base, keep) is Ok,
        deferred_node(a, depth, base, keep) is Err ==> deferred_node(a, depth, base, keep) == deferred_node(b, depth, base, keep),
        deferred_node(a, depth, base, keep) is Ok ==> deferred_shape(deferred_node(a, depth, base, keep)->Ok_0)
            == deferred_shape(deferred_node(b, depth, base, keep)->Ok_0),
    decreases a, 1int,
{
    lemma_step_same(FlatOutcome { plain: Seq::empty(), html: Seq::empty(), attachments: Seq::empty(), warnings: Seq::empty() }, a, b, base);
    lemma_header_table_same(a.headers@, b.headers@);
    if depth < MAX_MIME_DEPTH {
        lemma_nodes_same_all(a.subparts@, b.subparts@, depth + 1, base, keep);
        if let Some(x) = a.embedded {
            let y = b.embedded->0;
            if let Embedded::Parsed { content: c1, repaired: p1, root: t1 } = *x {
                if let Embedded::Parsed { content: c2, repaired: p2, root: t2 } = *y {
                    lemma_nodes_same(*t1, *t2, depth + 1, inner_buffer(c1, p1), keep_inside(keep));
                    let na = deferred_node(*t1, depth + 1, inner_buffer(c1, p1), keep_inside(keep));
                    let nb = deferred_node(*t2, depth + 1, inner_buffer(c2, p2), keep_inside(keep));
                    if na is Ok {
                        lemma_shapes_single(na->Ok_0);
                        lemma_shapes_single(nb->Ok_0);
                    }
                }
            }
        }
    }
}

pub proof fn lemma_nodes_same_all(a: Seq<RawPart>, b: Seq<RawPart>, depth: int, base: Seq<u8>, keep: Keep)
    requires
        same_trees(a, b, base),
    ensures
        full_nodes(a, depth, base) == full_nodes(b, depth, base),
        deferred_nodes(a, depth, base, keep) is Ok == deferred_nodes(b, depth, base, keep) is Ok,
        deferred_nodes(a, depth, base, keep) is Err ==> deferred_nodes(a, depth, base, keep) == deferred_nodes(b, depth, base, keep),
        deferred_nodes(a, depth, base, keep) is Ok ==> deferred_shapes(deferred_nodes(a, depth, base, keep)->Ok_0)
            == deferred_shapes(deferred_nodes(b, depth, base, keep)->Ok_0),
    decreases a, 0int,
{
    if a.len() > 0 {
        lemma_nodes_same_all(a.drop_last(), b.drop_last(), depth, base, keep);
        lemma_nodes_same(a.last(), b.last(), depth, base, keep);
        let da = deferred_nodes(a.drop_last(), depth, base, keep);
        let db = deferred_nodes(b.drop_last(), depth, base, keep);
        let na = deferred_node(a.last(), depth, base, keep);
        let nb = deferred_node(b.last(), depth, base, keep);
        if da is Ok && na is Ok {
            let xa = da->Ok_0;
            let xb = db->Ok_0;
            assert(xa.push(na->Ok_0).drop_last() =~= xa);
            assert(xb.push(nb->Ok_0).drop_last() =~= xb);
            assert(deferred_shapes(xa.push(na->Ok_0)) == deferred_shapes(xa).push(deferred_shape(na->Ok_0)));
            assert(deferred_shapes(xb.push(nb->Ok_0)) == deferred_shapes(xb).push(deferred_shape(nb->Ok_0)));
        }
    }
}

/// Two full tree parses of one payload agree: both succeed or both fail
/// with the same error, and on success build the same tree.
pub proof fn law_tree_parse_is_deterministic(payload: Seq<u8>, r1: Result<MimePart, MailError>, r2: Result<MimePart, MailError>)
    requires
        tree_parsed_as(payload, r1),
        tree_parsed_as(payload, r2),
    ensures
        r1 is Ok == r2 is Ok,
        r1 is Err ==> r1->Err_0@ == r2->Err_0@,
        r1 is Ok ==> full_view(r1->Ok_0) == full_view(r2->Ok_0),
{
    let buffer = parsed_buffer(payload);
    if payload.len() <= MAX_INPUT_BYTES && mailparse_accepts(buffer) {
        let a = choose|root: RawPart| #[trigger] reads_part(root, buffer, Seq::empty(), 0, true)
            && crate::tree::tree_ok(root, 0, buffer) && match r1 {
            Ok(n) => full_node(root, 0, buffer) == Ok::<NodeView<Option<Seq<u8>>>, ErrorView>(full_view(n)),
            Err(e) => full_node(root, 0, buffer) == Err::<NodeView<Option<Seq<u8>>>, ErrorView>(e@),
        };
        let b = choose|root: RawPart| #[trigger] reads_part(root, buffer, Seq::empty(), 0, true)
            && crate::tree::tree_ok(root, 0, buffer) && match r2 {
            Ok(n) => full_node(root, 0, buffer) == Ok::<NodeView<Option<Seq<u8>>>, ErrorView>(full_view(n)),
            Err(e) => full_node(root, 0, buffer) == Err::<NodeView<Option<Seq<u8>>>, ErrorView>(e@),
        };
        lemma_reads_same_tree(a, b, buffer, Seq::empty(), 0);
        lemma_nodes_same(a, b, 0, buffer, Keep::Nothing);
    }
}

/// Every tree mode builds the same tree: where the full tree parse of a
/// payload succeeds, the lazy and the metadata tree parses of it succeed too
/// and give a tree of the same shape (the same nodes, identities and header
/// tables, with a body exactly where the full tree has one).
pub proof fn law_tree_calls_build_the_same_tree(
    payload: Seq<u8>,
    full: Result<MimePart, MailError>,
    defer: bool,
    deferred: Result<DeferredTree, MailError>,
)
    requires
        tree_parsed_as(payload, full),
        deferred_parsed_as(payload, if defer { Keep::In } else { Keep::Nothing }, deferred),
        full is Ok,
    ensures
        deferred is Ok,
        deferred_shape(deferred_view(deferred->Ok_0.root)) == full_shape(full_view(full->Ok_0)),
{
    let buffer = parsed_buffer(payload);
    let keep = if defer { Keep::In } else { Keep::Nothing };
    let a = choose|root: RawPart| #[trigger] reads_part(root, buffer, Seq::empty(), 0, true)
        && crate::tree::tree_ok(root, 0, buffer) && match full {
        Ok(n) => full_node(root, 0, buffer) == Ok::<NodeView<Option<Seq<u8>>>, ErrorView>(full_view(n)),
        Err(e) => full_node(root, 0, buffer) == Err::<NodeView<Option<Seq<u8>>>, ErrorView>(e@),
    };
    let b = choose|root: RawPart| #[trigger] reads_part(root, buffer, Seq::empty(), 0, true)
        && crate::tree::tree_ok(root, 0, buffer) && match deferred {
        Ok(t) => crate::lazy::opt_bytes(t.repaired) == repaired_payload(payload)
            && deferred_node(root, 0, buffer, keep) == Ok::<NodeView<NodeBodyView>, ErrorView>(deferred_view(t.root)),
        Err(e) => deferred_node(root, 0, buffer, keep) == Err::<NodeView<NodeBodyView>, ErrorView>(e@),
    };
    law_every_mode_builds_the_same_tree(a, buffer, keep);
    lemma_reads_same_tree(a, b, buffer, Seq::empty(), 0);
    lemma_nodes_same(a, b, 0, buffer, keep);
}

/// A flat read and a tree read of the same part of the same parse say the
/// same of the part itself.
proof fn lemma_reads_same_fields(a: RawPart, b: RawPart, src: Seq<u8>, path: Seq<int>, t1: bool, t2: bool)
    requires
        reads_part(a, src, path, 0, t1),
        reads_part(b, src, path, 0, t2),
    ensures
        same_fields(a, b, src),
{
}

/// The tree parse's root carries the full parse's header table.
pub proof fn law_tree_call_root_has_the_flat_headers(payload: Seq<u8>, flat: Result<Mail, MailError>, tree: Result<MimePart, MailError>)
    requires
        parsed_as(payload, flat),
        tree_parsed_as(payload, tree),
        flat is Ok,
        tree is Ok,
    ensures
        full_view(tree->Ok_0).headers == flat->Ok_0@.headers,
{
    let buffer = parsed_buffer(payload);
    let m = choose|msg: RawMessage| #[trigger] msg.read_from(buffer, false) && match flat {
        Ok(mail) => payload_view(msg, payload) == Ok::<MailView, ErrorView>(mail@)
            && crate::flat::sizes_within_double(mail@, msg, buffer),
        Err(e) => payload_view(msg, payload) == Err::<MailView, ErrorView>(e@),
    };
    let a = choose|root: RawPart| #[trigger] reads_part(root, buffer, Seq::empty(), 0, true)
        && crate::tree::tree_ok(root, 0, buffer) && match tree {
        Ok(n) => full_node(root, 0, buffer) == Ok::<NodeView<Option<Seq<u8>>>, ErrorView>(full_view(n)),
        Err(e) => full_node(root, 0, buffer) == Err::<NodeView<Option<Seq<u8>>>, ErrorView>(e@),
    };
    lemma_reads_same_fields(m.root, a, buffer, Seq::empty(), false, true);
    lemma_header_table_same(m.root.headers@, a.headers@);
}

/// A parse's warning list is empty exactly when the parse of this payload
/// repaired nothing: no separator restored, no address header or `Date` of
/// the message `mailparse` read from it that does not parse, and no part with
/// an invalid quoted-printable escape or body text in an unrecognised
/// charset; and the separator repair, when made, is the first warning.
pub proof fn law_call_warnings_empty_iff_nothing_repaired(payload: Seq<u8>, r: Result<Mail, MailError>)
    requires
        parsed_as(payload, r),
        r is Ok,
    ensures
        exists|msg: RawMessage| #[trigger] msg.read_from(parsed_buffer(payload), false) && ({
            let w = r->Ok_0@.warnings;
            let parts = flat_parts(msg.root, 0)->0;
            &&& w.len() == 0 <==> (repaired_payload(payload) is None && crate::flat::envelope_warnings(msg).len() == 0
                && forall|k: int| 0 <= k < parts.len() ==> part_clean(#[trigger] parts[k], parsed_buffer(payload)))
            &&& repaired_payload(payload) is Some ==> w[0] == separator_warning()
        }),
{
    let buffer = parsed_buffer(payload);
    let m = choose|msg: RawMessage| #[trigger] msg.read_from(buffer, false) && match r {
        Ok(mail) => payload_view(msg, payload) == Ok::<MailView, ErrorView>(mail@)
            && crate::flat::sizes_within_double(mail@, msg, buffer),
        Err(e) => payload_view(msg, payload) == Err::<MailView, ErrorView>(e@),
    };
    law_warnings_empty_iff_nothing_repaired(m, payload);
}

/// The tree keeps every part the flat projection keeps: whatever the full
/// parse of a payload reports as an attachment is the body of some node of
/// the full tree parse of the same payload.
pub proof fn law_call_every_attachment_is_in_the_tree(
    payload: Seq<u8>,
    flat: Result<Mail, MailError>,
    tree: Result<MimePart, MailError>,
)
    requires
        parsed_as(payload, flat),
        tree_parsed_as(payload, tree),
        flat is Ok,
        tree is Ok,
    ensures
        forall|i: int| 0 <= i < flat->Ok_0@.attachments.len() ==> has_body(
            full_view(tree->Ok_0),
            #[trigger] flat->Ok_0@.attachments[i].content,
        ),
{
    let buffer = parsed_buffer(payload);
    let m = choose|msg: RawMessage| #[trigger] msg.read_from(buffer, false) && match flat {
        Ok(mail) => payload_view(msg, payload) == Ok::<MailView, ErrorView>(mail@)
            && crate::flat::sizes_within_double(mail@, msg, buffer),
        Err(e) => payload_view(msg, payload) == Err::<MailView, ErrorView>(e@),
    };
    let a = choose|root: RawPart| #[trigger] reads_part(root, buffer, Seq::empty(), 0, true)
        && crate::tree::tree_ok(root, 0, buffer) && match tree {
        Ok(n) => full_node(root, 0, buffer) == Ok::<NodeView<Option<Seq<u8>>>, ErrorView>(full_view(n)),
        Err(e) => full_node(root, 0, buffer) == Err::<NodeView<Option<Seq<u8>>>, ErrorView>(e@),
    };
    let mm = RawMessage { root: a, from_: m.from_, to: m.to, cc: m.cc, bcc: m.bcc, reply_to: m.reply_to };
    lemma_reads_same(m.root, a, buffer, Seq::empty(), 0, false, true);
    assert(same_message(m, mm, buffer));
    lemma_views_same(m, mm, buffer);
    lemma_reads_mime_shaped(a, buffer, Seq::empty(), 0, true);
    law_every_attachment_is_in_the_tree(mm, buffer);
    let v = flat->Ok_0@;
    assert forall|i: int| 0 <= i < v.attachments.len() implies has_body(full_view(tree->Ok_0), #[trigger] v.attachments[i].content) by {
        assert(v.attachments[i] == mail_view(mm, buffer)->Ok_0.attachments[i]);
    }
}

} // verus!
