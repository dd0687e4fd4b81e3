//! What holds across the library's modes and calls, proved over the same
//! models their contracts speak of.

use vstd::prelude::*;
use crate::decode::{body_text, transfer_decoded};
use crate::error::ErrorView;
use crate::flat::{
    envelope_warnings, flat_list, flat_parts, full_fold, full_step, lossy_escape, mail_view, payload_view,
    AttachmentView, FlatOutcome,
};
use crate::lazy::{lazy_fold, lazy_init, lazy_step, payload_lazy_view, LazyAttachmentView, LazyOutcome};
use crate::metadata::{inventory, metadata_view, payload_metadata_view, AttachmentMetadataView};
use crate::model::{inner_buffer, Embedded, HeaderField, RawMessage, RawPart, MAX_MIME_DEPTH};
use crate::parts::{group_of, header_groups, is_body, is_container, HeaderGroup};
use crate::retained::Retained;
use crate::scan::{insert_lf, repaired_payload, separator_gap};
use crate::tree::{
    body_size, deferred_node, deferred_nodes, embedded_decoded, full_node, full_nodes, is_message,
    keep_inside, lemma_tree_ok_all, tree_ok, Keep, NodeBodyView, NodeView,
};
use crate::warning::separator_warning;
use crate::bridge::mail_date_epoch;
use crate::envelope::date_epoch;
use crate::text::{has_infix, upper_case};

verus! {

/// An attachment of the full parse and one described by metadata mode name
/// the same part the same way.
pub open spec fn same_identity(a: AttachmentView, m: AttachmentMetadataView) -> bool {
    &&& a.mimetype == m.mimetype
    &&& a.filename == m.filename
    &&& a.content_id == m.content_id
    &&& a.disposition == m.disposition
}

/// An attachment of the full parse and one deferred by lazy mode name the
/// same part the same way.
pub open spec fn same_lazy_identity(a: AttachmentView, l: LazyAttachmentView) -> bool {
    &&& a.mimetype == l.mimetype
    &&& a.filename == l.filename
    &&& a.content_id == l.content_id
    &&& a.disposition == l.disposition
}

proof fn lemma_full_fold_inventory(parts: Seq<RawPart>, base: Seq<u8>, init: FlatOutcome)
    requires
        init.attachments.len() == 0,
        full_fold(parts, base, init) is Ok,
    ensures
        full_fold(parts, base, init)->Ok_0.attachments.len() == inventory(parts, base).len(),
        forall|i: int| 0 <= i < inventory(parts, base).len() ==> same_identity(
            #[trigger] full_fold(parts, base, init)->Ok_0.attachments[i],
            inventory(parts, base)[i],
        ),
    decreases parts.len(),
{
    if parts.len() > 0 {
        lemma_full_fold_inventory(parts.drop_last(), base, init);
    }
}

/// Metadata mode succeeds wherever the full parse succeeds (it does strictly
/// less work), and the two agree on the envelope -- subject, date, the five
/// address headers and the whole header table -- and on the attachment
/// inventory: the same count, and per attachment the same media type,
/// filename, content id and disposition. Only content and size differ.
pub proof fn law_metadata_agrees_with_full(msg: RawMessage, base: Seq<u8>)
    requires
        mail_view(msg, base) is Ok,
    ensures
        metadata_view(msg, base) is Ok,
        ({
            let full = mail_view(msg, base)->Ok_0;
            let meta = metadata_view(msg, base)->Ok_0;
            &&& meta.subject == full.subject
            &&& meta.date == full.date
            &&& meta.headers == full.headers
            &&& meta.from_ == full.from_
            &&& meta.to == full.to
            &&& meta.cc == full.cc
            &&& meta.bcc == full.bcc
            &&& meta.reply_to == full.reply_to
            &&& meta.attachments.len() == full.attachments.len()
            &&& forall|i: int| 0 <= i < full.attachments.len() ==> same_identity(
                #[trigger] full.attachments[i],
                meta.attachments[i],
            )
        }),
{
    let parts = flat_parts(msg.root, 0)->0;
    let init = FlatOutcome {
        plain: Seq::empty(),
        html: Seq::empty(),
        attachments: Seq::empty(),
        warnings: crate::flat::envelope_warnings(msg),
    };
    lemma_full_fold_inventory(parts, base, init);
}

/// The same agreement for two parses of one payload.
pub proof fn law_metadata_agrees_with_full_payload(msg: RawMessage, payload: Seq<u8>)
    requires
        payload_view(msg, payload) is Ok,
    ensures
        payload_metadata_view(msg, payload) is Ok,
        ({
            let full = payload_view(msg, payload)->Ok_0;
            let meta = payload_metadata_view(msg, payload)->Ok_0;
            &&& meta.subject == full.subject
            &&& meta.date == full.date
            &&& meta.headers == full.headers
            &&& meta.attachments.len() == full.attachments.len()
            &&& forall|i: int| 0 <= i < full.attachments.len() ==> same_identity(
                #[trigger] full.attachments[i],
                meta.attachments[i],
            )
        }),
{
    law_metadata_agrees_with_full(msg, crate::flat::parsed_buffer(payload));
}

proof fn lemma_full_fold_lazy(parts: Seq<RawPart>, base: Seq<u8>, fi: FlatOutcome, li: LazyOutcome)
    requires
        fi.attachments.len() == 0,
        li.attachments.len() == 0,
        fi.plain == li.plain,
        fi.html == li.html,
        fi.warnings == li.warnings,
        full_fold(parts, base, fi) is Ok,
    ensures
        lazy_fold(parts, base, li) is Ok,
        ({
            let a = full_fold(parts, base, fi)->Ok_0;
            let b = lazy_fold(parts, base, li)->Ok_0;
            &&& b.plain == a.plain
            &&& b.html == a.html
            &&& b.warnings == a.warnings
            &&& b.attachments.len() == a.attachments.len()
            &&& forall|i: int| 0 <= i < a.attachments.len() ==> same_lazy_identity(
                #[trigger] a.attachments[i],
                b.attachments[i],
            )
        }),
    decreases parts.len(),
{
    if parts.len() > 0 {
        lemma_full_fold_lazy(parts.drop_last(), base, fi, li);
    }
}

/// Lazy mode succeeds wherever the full parse succeeds (it decodes the same
/// bodies and defers the attachments), and the two agree on everything but
/// attachment content: the envelope, both body lists, the whole warning list
/// (so strict mode means the same in both), and per attachment the media
/// type, filename, content id and disposition.
pub proof fn law_lazy_agrees_with_full(msg: RawMessage, payload: Seq<u8>)
    requires
        payload_view(msg, payload) is Ok,
    ensures
        payload_lazy_view(msg, payload) is Ok,
        ({
            let full = payload_view(msg, payload)->Ok_0;
            let lazy = payload_lazy_view(msg, payload)->Ok_0;
            &&& lazy.subject == full.subject
            &&& lazy.date == full.date
            &&& lazy.headers == full.headers
            &&& lazy.from_ == full.from_
            &&& lazy.to == full.to
            &&& lazy.cc == full.cc
            &&& lazy.bcc == full.bcc
            &&& lazy.reply_to == full.reply_to
            &&& lazy.text_plain == full.text_plain
            &&& lazy.text_html == full.text_html
            &&& lazy.warnings == full.warnings
            &&& lazy.attachments.len() == full.attachments.len()
            &&& forall|i: int| 0 <= i < full.attachments.len() ==> same_lazy_identity(
                #[trigger] full.attachments[i],
                lazy.attachments[i],
            )
        }),
{
    let base = crate::flat::parsed_buffer(payload);
    let parts = flat_parts(msg.root, 0)->0;
    let fi = FlatOutcome {
        plain: Seq::empty(),
        html: Seq::empty(),
        attachments: Seq::empty(),
        warnings: crate::flat::envelope_warnings(msg),
    };
    lemma_full_fold_lazy(parts, base, fi, lazy_init(msg));
}

/// A node's shape: everything but its body, which is reduced to whether the
/// node has a body of its own.
pub open spec fn full_shape(n: NodeView<Option<Seq<u8>>>) -> NodeView<bool>
    decreases n, 1int,
{
    NodeView {
        content_type: n.content_type,
        headers: n.headers,
        filename: n.filename,
        content_id: n.content_id,
        disposition: n.disposition,
        is_message: n.is_message,
        body: n.body is Some,
        children: full_shapes(n.children),
    }
}

pub open spec fn full_shapes(ns: Seq<NodeView<Option<Seq<u8>>>>) -> Seq<NodeView<bool>>
    decreases ns, 0int,
{
    if ns.len() == 0 {
        Seq::empty()
    } else {
        full_shapes(ns.drop_last()).push(full_shape(ns.last()))
    }
}

pub open spec fn deferred_shape(n: NodeView<NodeBodyView>) -> NodeView<bool>
    decreases n, 1int,
{
    NodeView {
        content_type: n.content_type,
        headers: n.headers,
        filename: n.filename,
        content_id: n.content_id,
        disposition: n.disposition,
        is_message: n.is_message,
        body: body_size(n.body) is Some,
        children: deferred_shapes(n.children),
    }
}

pub open spec fn deferred_shapes(ns: Seq<NodeView<NodeBodyView>>) -> Seq<NodeView<bool>>
    decreases ns, 0int,
{
    if ns.len() == 0 {
        Seq::empty()
    } else {
        deferred_shapes(ns.drop_last()).push(deferred_shape(ns.last()))
    }
}

proof fn lemma_full_deferred_shape(p: RawPart, depth: int, base: Seq<u8>, keep: Keep)
    requires
        full_node(p, depth, base) is Ok,
    ensures
        deferred_node(p, depth, base, keep) is Ok,
        deferred_shape(deferred_node(p, depth, base, keep)->Ok_0) == full_shape(full_node(p, depth, base)->Ok_0),
    decreases p, 1int,
{
    if depth < MAX_MIME_DEPTH {
        if is_container(p) {
            lemma_full_deferred_shapes(p.subparts@, depth + 1, base, keep);
        } else if is_message(p) && p.embedded is Some {
            match *p.embedded->0 {
                Embedded::Parsed { content, repaired, root } => {
                    lemma_full_deferred_shape(*root, depth + 1, inner_buffer(content, repaired), keep_inside(keep));
                    let f = full_node(*root, depth + 1, inner_buffer(content, repaired))->Ok_0;
                    let d = deferred_node(*root, depth + 1, inner_buffer(content, repaired), keep_inside(keep))->Ok_0;
                    assert(full_shapes(seq![f]) =~= seq![full_shape(f)]) by {
                        reveal_with_fuel(full_shapes, 2);
                    }
                    assert(deferred_shapes(seq![d]) =~= seq![deferred_shape(d)]) by {
                        reveal_with_fuel(deferred_shapes, 2);
                    }
                },
                _ => {},
            }
        } else {
            assert(full_shapes(Seq::empty()) =~= Seq::<NodeView<bool>>::empty());
            assert(deferred_shapes(Seq::empty()) =~= Seq::<NodeView<bool>>::empty());
        }
    }
}

proof fn lemma_full_deferred_shapes(ps: Seq<RawPart>, depth: int, base: Seq<u8>, keep: Keep)
    requires
        full_nodes(ps, depth, base) is Ok,
    ensures
        deferred_nodes(ps, depth, base, keep) is Ok,
        deferred_shapes(deferred_nodes(ps, depth, base, keep)->Ok_0) == full_shapes(full_nodes(ps, depth, base)->Ok_0),
    decreases ps, 0int,
{
    if ps.len() > 0 {
        lemma_full_deferred_shapes(ps.drop_last(), depth, base, keep);
        lemma_full_deferred_shape(ps.last(), depth, base, keep);
        let a = deferred_nodes(ps.drop_last(), depth, base, keep)->Ok_0;
        let n = deferred_node(ps.last(), depth, base, keep)->Ok_0;
        let fa = full_nodes(ps.drop_last(), depth, base)->Ok_0;
        let fnode = full_node(ps.last(), depth, base)->Ok_0;
        assert(a.push(n).drop_last() =~= a);
        assert(fa.push(fnode).drop_last() =~= fa);
    } else {
        assert(full_shapes(Seq::empty()) =~= Seq::<NodeView<bool>>::empty());
        assert(deferred_shapes(Seq::empty()) =~= Seq::<NodeView<bool>>::empty());
    }
}

/// Every mode builds the same tree: where the full tree can be built, the
/// deferred tree (lazy or metadata) can be too, and node for node the two
/// agree on content type, headers, filename, content id, disposition,
/// whether the node is an embedded message, and its children; a node has a
/// body of its own in both or in neither.
pub proof fn law_every_mode_builds_the_same_tree(root: RawPart, base: Seq<u8>, keep: Keep)
    requires
        full_node(root, 0, base) is Ok,
    ensures
        deferred_node(root, 0, base, keep) is Ok,
        deferred_shape(deferred_node(root, 0, base, keep)->Ok_0) == full_shape(full_node(root, 0, base)->Ok_0),
{
    lemma_full_deferred_shape(root, 0, base, keep);
}

proof fn lemma_deferred_keep_shape(p: RawPart, depth: int, base: Seq<u8>, k1: Keep, k2: Keep)
    ensures
        deferred_node(p, depth, base, k1) is Ok <==> deferred_node(p, depth, base, k2) is Ok,
        deferred_node(p, depth, base, k1) matches Err(e) ==> deferred_node(p, depth, base, k2) == Err::<NodeView<NodeBodyView>, ErrorView>(e),
        deferred_node(p, depth, base, k1) is Ok ==> deferred_shape(deferred_node(p, depth, base, k1)->Ok_0)
            == deferred_shape(deferred_node(p, depth, base, k2)->Ok_0),
    decreases p, 1int,
{
    if depth < MAX_MIME_DEPTH {
        if is_container(p) {
            lemma_deferred_keep_shapes(p.subparts@, depth + 1, base, k1, k2);
        } else if is_message(p) && p.embedded is Some {
            match *p.embedded->0 {
                Embedded::Parsed { content, repaired, root } => {
                    lemma_deferred_keep_shape(*root, depth + 1, inner_buffer(content, repaired), keep_inside(k1), keep_inside(k2));
                    if deferred_node(*root, depth + 1, inner_buffer(content, repaired), keep_inside(k1)) is Ok {
                        let d1 = deferred_node(*root, depth + 1, inner_buffer(content, repaired), keep_inside(k1))->Ok_0;
                        let d2 = deferred_node(*root, depth + 1, inner_buffer(content, repaired), keep_inside(k2))->Ok_0;
                        assert(deferred_shapes(seq![d1]) =~= seq![deferred_shape(d1)]) by {
                            reveal_with_fuel(deferred_shapes, 2);
                        }
                        assert(deferred_shapes(seq![d2]) =~= seq![deferred_shape(d2)]) by {
                            reveal_with_fuel(deferred_shapes, 2);
                        }
                    }
                },
                _ => {},
            }
        } else {
            assert(deferred_shapes(Seq::empty()) =~= Seq::<NodeView<bool>>::empty());
        }
    }
}

proof fn lemma_deferred_keep_shapes(ps: Seq<RawPart>, depth: int, base: Seq<u8>, k1: Keep, k2: Keep)
    ensures
        deferred_nodes(ps, depth, base, k1) is Ok <==> deferred_nodes(ps, depth, base, k2) is Ok,
        deferred_nodes(ps, depth, base, k1) matches Err(e) ==> deferred_nodes(ps, depth, base, k2) == Err::<Seq<NodeView<NodeBodyView>>, ErrorView>(e),
        deferred_nodes(ps, depth, base, k1) is Ok ==> deferred_shapes(deferred_nodes(ps, depth, base, k1)->Ok_0)
            == deferred_shapes(deferred_nodes(ps, depth, base, k2)->Ok_0),
    decreases ps, 0int,
{
    if ps.len() > 0 {
        lemma_deferred_keep_shapes(ps.drop_last(), depth, base, k1, k2);
        lemma_deferred_keep_shape(ps.last(), depth, base, k1, k2);
        if deferred_nodes(ps, depth, base, k1) is Ok {
            let a1 = deferred_nodes(ps.drop_last(), depth, base, k1)->Ok_0;
            let n1 = deferred_node(ps.last(), depth, base, k1)->Ok_0;
            let a2 = deferred_nodes(ps.drop_last(), depth, base, k2)->Ok_0;
            let n2 = deferred_node(ps.last(), depth, base, k2)->Ok_0;
            assert(a1.push(n1).drop_last() =~= a1);
            assert(a2.push(n2).drop_last() =~= a2);
        }
    } else {
        assert(deferred_shapes(Seq::empty()) =~= Seq::<NodeView<bool>>::empty());
    }
}

/// Lazy and metadata trees differ only in what a leaf retains: they succeed
/// and fail together, with the same error, and have the same shape.
pub proof fn law_lazy_and_metadata_trees_agree(root: RawPart, base: Seq<u8>)
    ensures
        deferred_node(root, 0, base, Keep::In) is Ok <==> deferred_node(root, 0, base, Keep::Nothing) is Ok,
        deferred_node(root, 0, base, Keep::In) matches Err(e)
            ==> deferred_node(root, 0, base, Keep::Nothing) == Err::<NodeView<NodeBodyView>, ErrorView>(e),
        deferred_node(root, 0, base, Keep::In) is Ok ==> deferred_shape(deferred_node(root, 0, base, Keep::In)->Ok_0)
            == deferred_shape(deferred_node(root, 0, base, Keep::Nothing)->Ok_0),
{
    lemma_deferred_keep_shape(root, 0, base, Keep::In, Keep::Nothing);
}

/// The separator repair inserts exactly one LF, at the line that ends the
/// header block, and loses nothing: removing that byte gives the payload back.
pub proof fn law_repair_inserts_one_lf(p: Seq<u8>)
    ensures
        repaired_payload(p) matches Some(fixed) ==> ({
            let at = separator_gap(p, 0)->0;
            &&& 0 <= at < p.len()
            &&& fixed.len() == p.len() + 1
            &&& fixed[at] == 10u8
            &&& fixed.remove(at) == p
        }),
{
    crate::scan::lemma_separator_gap_bounds(p, 0);
    if let Some(at) = separator_gap(p, 0) {
        let fixed = insert_lf(p, at);
        assert(fixed.remove(at) =~= p);
    }
}

/// `Retained::len` is the length of what `Retained::slice` gives, without
/// needing the buffer.
pub proof fn law_retained_len_is_slice_len(r: Retained, base: Seq<u8>)
    requires
        r.fits(base.len()),
    ensures
        r.bytes_in(base).len() == r.spec_len(),
{
}

/// A part a parse read without repairing anything: no invalid
/// quoted-printable escape, and for body text, a recognised charset.
pub open spec fn part_clean(p: RawPart, base: Seq<u8>) -> bool {
    is_container(p) || ({
        let raw = p.body.bytes_in(base);
        &&& lossy_escape(p, raw) is None
        &&& is_body(p) ==> (body_text(p.encoding, raw, p.charset@) matches Ok((_, fell_back)) && !fell_back)
    })
}

proof fn lemma_fold_warnings(parts: Seq<RawPart>, base: Seq<u8>, init: FlatOutcome)
    requires
        full_fold(parts, base, init) is Ok,
    ensures
        full_fold(parts, base, init)->Ok_0.warnings.len() >= init.warnings.len(),
        full_fold(parts, base, init)->Ok_0.warnings.len() == init.warnings.len() <==> forall|k: int|
            0 <= k < parts.len() ==> part_clean(#[trigger] parts[k], base),
    decreases parts.len(),
{
    if parts.len() > 0 {
        let rest = parts.drop_last();
        lemma_fold_warnings(rest, base, init);
        assert forall|k: int| 0 <= k < rest.len() implies rest[k] == parts[k] by {}
        if forall|k: int| 0 <= k < parts.len() ==> part_clean(#[trigger] parts[k], base) {
            assert(part_clean(parts[parts.len() - 1], base));
        }
    }
}

/// The warning list is exact: it is empty exactly when the parse repaired
/// nothing -- no separator restored, every address header that is present
/// parses, a `Date` that is present parses, and no part had an invalid
/// quoted-printable escape or body text in an unrecognised charset. And the
/// separator repair, when made, is always the first warning.
pub proof fn law_warnings_empty_iff_nothing_repaired(msg: RawMessage, payload: Seq<u8>)
    requires
        payload_view(msg, payload) is Ok,
    ensures
        ({
            let v = payload_view(msg, payload)->Ok_0;
            let base = crate::flat::parsed_buffer(payload);
            let parts = flat_parts(msg.root, 0)->0;
            &&& v.warnings.len() == 0 <==> (repaired_payload(payload) is None && envelope_warnings(msg).len() == 0
                && forall|k: int| 0 <= k < parts.len() ==> part_clean(#[trigger] parts[k], base))
            &&& repaired_payload(payload) is Some ==> v.warnings[0] == separator_warning()
        }),
{
    let base = crate::flat::parsed_buffer(payload);
    let parts = flat_parts(msg.root, 0)->0;
    let init = FlatOutcome {
        plain: Seq::empty(),
        html: Seq::empty(),
        attachments: Seq::empty(),
        warnings: envelope_warnings(msg),
    };
    lemma_fold_warnings(parts, base, init);
}

/// How many values the header table holds.
pub open spec fn value_count(t: Seq<HeaderGroup>) -> nat
    decreases t.len(),
{
    if t.len() == 0 {
        0
    } else {
        value_count(t.drop_last()) + t.last().values.len()
    }
}

proof fn lemma_value_count_update(t: Seq<HeaderGroup>, i: int, g: HeaderGroup)
    requires
        0 <= i < t.len(),
    ensures
        value_count(t.update(i, g)) == value_count(t) - t[i].values.len() + g.values.len(),
    decreases t.len(),
{
    if i < t.len() - 1 {
        assert(t.update(i, g).drop_last() =~= t.drop_last().update(i, g));
        lemma_value_count_update(t.drop_last(), i, g);
    } else {
        assert(t.update(i, g).drop_last() =~= t.drop_last());
    }
}

/// The header table keeps every value: it holds exactly as many values as
/// the message has header fields, and no key appears in it twice.
pub proof fn law_headers_keep_every_value(hs: Seq<HeaderField>)
    ensures
        value_count(header_groups(hs)) == hs.len(),
        forall|i: int, j: int| 0 <= i < j < header_groups(hs).len() ==> (#[trigger] header_groups(hs)[i]).raw
            != (#[trigger] header_groups(hs)[j]).raw,
    decreases hs.len(),
{
    if hs.len() > 0 {
        let t = header_groups(hs.drop_last());
        let h = hs.last();
        law_headers_keep_every_value(hs.drop_last());
        crate::parts::lemma_group_of(t, h.key_raw@);
        match group_of(t, h.key_raw@) {
            Some(i) => {
                let g = HeaderGroup { raw: t[i].raw, key: t[i].key, values: t[i].values.push(h.value) };
                lemma_value_count_update(t, i, g);
            },
            None => {
                let g = HeaderGroup { raw: h.key_raw@, key: h.key, values: seq![h.value] };
                assert(t.push(g).drop_last() =~= t);
            },
        }
    }
}

/// Some node of the tree carries `c` as its body.
pub open spec fn has_body(t: NodeView<Option<Seq<u8>>>, c: Seq<u8>) -> bool
    decreases t, 1int,
{
    t.body == Some(c) || any_has_body(t.children, c)
}

pub open spec fn any_has_body(ts: Seq<NodeView<Option<Seq<u8>>>>, c: Seq<u8>) -> bool
    decreases ts, 0int,
{
    ts.len() > 0 && (any_has_body(ts.drop_last(), c) || has_body(ts.last(), c))
}

/// Only `multipart/*` parts have subparts, as MIME nests them.
pub open spec fn mime_shaped(p: RawPart) -> bool
    decreases p, 1int,
{
    (!is_container(p) ==> p.subparts@.len() == 0) && all_mime_shaped(p.subparts@)
}

pub open spec fn all_mime_shaped(ps: Seq<RawPart>) -> bool
    decreases ps, 0int,
{
    ps.len() == 0 || (all_mime_shaped(ps.drop_last()) && mime_shaped(ps.last()))
}

proof fn lemma_all_mime_shaped(ps: Seq<RawPart>)
    ensures
        all_mime_shaped(ps) <==> forall|i: int| 0 <= i < ps.len() ==> mime_shaped(#[trigger] ps[i]),
    decreases ps.len(),
{
    if ps.len() > 0 {
        lemma_all_mime_shaped(ps.drop_last());
        assert forall|i: int| 0 <= i < ps.len() - 1 implies ps.drop_last()[i] == ps[i] by {}
    }
}

proof fn lemma_any_has_body(ts: Seq<NodeView<Option<Seq<u8>>>>, j: int, c: Seq<u8>)
    requires
        0 <= j < ts.len(),
        has_body(ts[j], c),
    ensures
        any_has_body(ts, c),
    decreases ts.len(),
{
    if j < ts.len() - 1 {
        assert(ts.drop_last()[j] == ts[j]);
        lemma_any_has_body(ts.drop_last(), j, c);
    }
}

proof fn lemma_full_nodes_each(ps: Seq<RawPart>, depth: int, base: Seq<u8>)
    requires
        full_nodes(ps, depth, base) is Ok,
    ensures
        full_nodes(ps, depth, base)->Ok_0.len() == ps.len(),
        forall|j: int| 0 <= j < ps.len() ==> full_node(#[trigger] ps[j], depth, base)
            == Ok::<NodeView<Option<Seq<u8>>>, ErrorView>(full_nodes(ps, depth, base)->Ok_0[j]),
    decreases ps.len(),
{
    if ps.len() > 0 {
        lemma_full_nodes_each(ps.drop_last(), depth, base);
        assert forall|j: int| 0 <= j < ps.len() - 1 implies ps.drop_last()[j] == ps[j] by {}
    }
}

proof fn lemma_flat_list_member(ps: Seq<RawPart>, depth: int, k: int) -> (r: (int, int))
    requires
        flat_list(ps, depth) is Some,
        0 <= k < flat_list(ps, depth)->0.len(),
    ensures
        0 <= r.0 < ps.len(),
        flat_parts(ps[r.0], depth) is Some,
        0 <= r.1 < flat_parts(ps[r.0], depth)->0.len(),
        flat_list(ps, depth)->0[k] == flat_parts(ps[r.0], depth)->0[r.1],
    decreases ps.len(),
{
    let a = flat_list(ps.drop_last(), depth)->0;
    if k < a.len() {
        let (j, k2) = lemma_flat_list_member(ps.drop_last(), depth, k);
        assert(ps.drop_last()[j] == ps[j]);
        (j, k2)
    } else {
        (ps.len() - 1, k - a.len())
    }
}

proof fn lemma_part_in_tree(q: RawPart, depth: int, base: Seq<u8>, k: int)
    requires
        mime_shaped(q),
        tree_ok(q, depth, base),
        flat_parts(q, depth) is Some,
        0 <= k < flat_parts(q, depth)->0.len(),
        full_node(q, depth, base) is Ok,
        !is_container(flat_parts(q, depth)->0[k]),
        transfer_decoded(flat_parts(q, depth)->0[k].encoding, flat_parts(q, depth)->0[k].body.bytes_in(base)) is Ok,
    ensures
        has_body(
            full_node(q, depth, base)->Ok_0,
            transfer_decoded(flat_parts(q, depth)->0[k].encoding, flat_parts(q, depth)->0[k].body.bytes_in(base))->Ok_0,
        ),
    decreases q, 1int,
{
    let below = flat_list(q.subparts@, depth + 1)->0;
    let x = flat_parts(q, depth)->0[k];
    let c = transfer_decoded(x.encoding, x.body.bytes_in(base))->Ok_0;
    if k == below.len() {
        assert(x == q);
        if is_message(q) && q.embedded is Some {
            assert(embedded_decoded(*q.embedded->0, q.encoding, q.body.bytes_in(base)));
        }
    } else {
        assert(x == below[k]);
        let (j, k2) = lemma_flat_list_member(q.subparts@, depth + 1, k);
        let child = q.subparts@[j];
        assert(is_container(q));
        lemma_tree_ok_all(q.subparts@, depth + 1, base);
        lemma_all_mime_shaped(q.subparts@);
        let cs = full_nodes(q.subparts@, depth + 1, base)->Ok_0;
        lemma_full_nodes_each(q.subparts@, depth + 1, base);
        lemma_part_in_tree(child, depth + 1, base, k2);
        lemma_any_has_body(cs, j, c);
    }
}

/// `c` is what some non-container part of `parts` decodes to.
pub open spec fn decodes_from_a_part(parts: Seq<RawPart>, base: Seq<u8>, c: Seq<u8>) -> bool {
    exists|k: int| 0 <= k < parts.len() && !is_container(#[trigger] parts[k])
        && transfer_decoded(parts[k].encoding, parts[k].body.bytes_in(base)) == Ok::<Seq<u8>, ErrorView>(c)
}

proof fn lemma_fold_attachments(parts: Seq<RawPart>, base: Seq<u8>, init: FlatOutcome)
    requires
        init.attachments.len() == 0,
        full_fold(parts, base, init) is Ok,
    ensures
        forall|i: int| 0 <= i < full_fold(parts, base, init)->Ok_0.attachments.len() ==> decodes_from_a_part(
            parts,
            base,
            #[trigger] full_fold(parts, base, init)->Ok_0.attachments[i].content,
        ),
    decreases parts.len(),
{
    if parts.len() > 0 {
        let rest = parts.drop_last();
        lemma_fold_attachments(rest, base, init);
        let a = full_fold(rest, base, init)->Ok_0;
        let b = full_fold(parts, base, init)->Ok_0;
        assert forall|i: int| 0 <= i < b.attachments.len() implies decodes_from_a_part(
            parts,
            base,
            #[trigger] b.attachments[i].content,
        ) by {
            if i < a.attachments.len() {
                assert(decodes_from_a_part(rest, base, a.attachments[i].content));
                let k = choose|k: int| 0 <= k < rest.len() && !is_container(#[trigger] rest[k])
                    && transfer_decoded(rest[k].encoding, rest[k].body.bytes_in(base))
                    == Ok::<Seq<u8>, ErrorView>(a.attachments[i].content);
                assert(rest[k] == parts[k]);
            } else {
                let k = parts.len() - 1;
                assert(parts[k] == parts.last());
            }
        }
    }
}

/// The tree keeps every part the flat projection keeps: whatever the full
/// flat parse reports as an attachment is the body of some node of the full
/// tree of the same message.
pub proof fn law_every_attachment_is_in_the_tree(msg: RawMessage, base: Seq<u8>)
    requires
        tree_ok(msg.root, 0, base),
        mime_shaped(msg.root),
        mail_view(msg, base) is Ok,
        full_node(msg.root, 0, base) is Ok,
    ensures
        forall|i: int| 0 <= i < mail_view(msg, base)->Ok_0.attachments.len() ==> has_body(
            full_node(msg.root, 0, base)->Ok_0,
            #[trigger] mail_view(msg, base)->Ok_0.attachments[i].content,
        ),
{
    let parts = flat_parts(msg.root, 0)->0;
    let init = FlatOutcome {
        plain: Seq::empty(),
        html: Seq::empty(),
        attachments: Seq::empty(),
        warnings: crate::flat::envelope_warnings(msg),
    };
    lemma_fold_attachments(parts, base, init);
    let v = mail_view(msg, base)->Ok_0;
    assert forall|i: int| 0 <= i < v.attachments.len() implies has_body(
        full_node(msg.root, 0, base)->Ok_0,
        #[trigger] v.attachments[i].content,
    ) by {
        assert(decodes_from_a_part(parts, base, v.attachments[i].content));
        let k = choose|k: int| 0 <= k < parts.len() && !is_container(#[trigger] parts[k])
            && transfer_decoded(parts[k].encoding, parts[k].body.bytes_in(base))
            == Ok::<Seq<u8>, ErrorView>(v.attachments[i].content);
        lemma_part_in_tree(msg.root, 0, base, k);
    }
}

/// The tree's root is the message the flat parse read, so it carries the
/// flat parse's header table, in every tree mode.
pub proof fn law_tree_root_has_the_flat_headers(msg: RawMessage, base: Seq<u8>, keep: Keep)
    requires
        mail_view(msg, base) is Ok,
    ensures
        full_node(msg.root, 0, base) matches Ok(t) ==> t.headers == mail_view(msg, base)->Ok_0.headers,
        deferred_node(msg.root, 0, base, keep) matches Ok(t) ==> t.headers == mail_view(msg, base)->Ok_0.headers,
{
}

/// No node of `t` is nested `budget` or more levels deep.
pub open spec fn within_depth<B>(t: NodeView<B>, budget: int) -> bool
    decreases t, 1int,
{
    budget > 0 && all_within_depth(t.children, budget - 1)
}

pub open spec fn all_within_depth<B>(ts: Seq<NodeView<B>>, budget: int) -> bool
    decreases ts, 0int,
{
    ts.len() == 0 || (all_within_depth(ts.drop_last(), budget) && within_depth(ts.last(), budget))
}

proof fn lemma_full_node_depth(p: RawPart, depth: int, base: Seq<u8>)
    requires
        full_node(p, depth, base) is Ok,
    ensures
        within_depth(full_node(p, depth, base)->Ok_0, MAX_MIME_DEPTH - depth),
    decreases p, 1int,
{
    let t = full_node(p, depth, base)->Ok_0;
    assert(depth < MAX_MIME_DEPTH);
    if is_container(p) {
        lemma_full_nodes_depth(p.subparts@, depth + 1, base);
        assert(t.children == full_nodes(p.subparts@, depth + 1, base)->Ok_0);
    } else if is_message(p) && p.embedded is Some {
        match *p.embedded->0 {
            Embedded::Parsed { content, repaired, root } => {
                lemma_full_node_depth(*root, depth + 1, inner_buffer(content, repaired));
                let c = full_node(*root, depth + 1, inner_buffer(content, repaired))->Ok_0;
                assert(seq![c].drop_last() =~= Seq::<NodeView<Option<Seq<u8>>>>::empty());
                assert(t.children == seq![c]);
                assert(all_within_depth(Seq::<NodeView<Option<Seq<u8>>>>::empty(), MAX_MIME_DEPTH - depth - 1));
                assert(all_within_depth(t.children, MAX_MIME_DEPTH - depth - 1));
            },
            _ => {},
        }
    } else {
        assert(t.children.len() == 0);
    }
}

proof fn lemma_full_nodes_depth(ps: Seq<RawPart>, depth: int, base: Seq<u8>)
    requires
        full_nodes(ps, depth, base) is Ok,
    ensures
        all_within_depth(full_nodes(ps, depth, base)->Ok_0, MAX_MIME_DEPTH - depth),
    decreases ps, 0int,
{
    if ps.len() > 0 {
        lemma_full_nodes_depth(ps.drop_last(), depth, base);
        lemma_full_node_depth(ps.last(), depth, base);
        let a = full_nodes(ps.drop_last(), depth, base)->Ok_0;
        let n = full_node(ps.last(), depth, base)->Ok_0;
        assert(a.push(n).drop_last() =~= a);
    }
}

/// The tree is bounded: no node of a tree that could be built is nested
/// `MAX_MIME_DEPTH` deep, embedded messages counted, so no input can make the
/// walk recurse further.
pub proof fn law_the_tree_is_bounded(root: RawPart, base: Seq<u8>)
    requires
        full_node(root, 0, base) is Ok,
    ensures
        within_depth(full_node(root, 0, base)->Ok_0, MAX_MIME_DEPTH as int),
{
    lemma_full_node_depth(root, 0, base);
}

/// A gap found from `at` is at or after `at`.
proof fn lemma_gap_after(p: Seq<u8>, at: int)
    ensures
        separator_gap(p, at) matches Some(g) ==> at <= g,
    decreases p.len() - at,
{
    if at >= 0 && at < p.len() {
        crate::scan::lemma_index_from_bounds(p, 10u8, at);
        match crate::scan::index_from(p, 10u8, at) {
            Some(nl) => lemma_gap_after(p, nl + 1),
            None => {},
        }
    }
}

/// Buffers that agree below `g` find the same LF before `g`.
proof fn lemma_index_from_prefix(p: Seq<u8>, q: Seq<u8>, from: int, g: int)
    requires
        0 <= from,
        g <= p.len(),
        g <= q.len(),
        forall|i: int| 0 <= i < g ==> p[i] == q[i],
        crate::scan::index_from(p, 10u8, from) matches Some(nl) && nl < g,
    ensures
        crate::scan::index_from(q, 10u8, from) == crate::scan::index_from(p, 10u8, from),
    decreases p.len() - from,
{
    crate::scan::lemma_index_from_bounds(p, 10u8, from);
    if p[from] != 10u8 {
        lemma_index_from_prefix(p, q, from + 1, g);
    }
}

proof fn lemma_repair_scan(p: Seq<u8>, at: int, g: int)
    requires
        0 <= at <= g,
        separator_gap(p, at) == Some(g),
    ensures
        separator_gap(insert_lf(p, g), at) is None,
    decreases g - at,
{
    let q = insert_lf(p, g);
    crate::scan::lemma_separator_gap_bounds(p, at);
    assert(q.len() == p.len() + 1);
    assert(q[g] == 10u8);
    assert forall|i: int| 0 <= i < g implies p[i] == q[i] by {}
    if at == g {
        assert(crate::scan::index_from(q, 10u8, g) == Some(g));
        assert(crate::scan::line_at(q, g).len() == 0);
    } else {
        crate::scan::lemma_index_from_bounds(p, 10u8, at);
        let nl = crate::scan::index_from(p, 10u8, at)->0;
        lemma_gap_after(p, nl + 1);
        lemma_index_from_prefix(p, q, at, g);
        assert(crate::scan::line_at(q, at) =~= crate::scan::line_at(p, at));
        lemma_repair_scan(p, nl + 1, g);
    }
}

/// The separator repair is idempotent: a repaired payload needs no repair.
pub proof fn law_repair_is_idempotent(p: Seq<u8>)
    ensures
        repaired_payload(p) matches Some(fixed) ==> repaired_payload(fixed) is None,
{
    crate::scan::lemma_separator_gap_bounds(p, 0);
    if let Some(g) = separator_gap(p, 0) {
        lemma_repair_scan(p, 0, g);
    }
}

/// RFC 2183 in the full, lazy and metadata parses: a part that is not a
/// `multipart/*` container and is `text/plain` or `text/html` without
/// `Content-Disposition: attachment` is body text -- its decoded text joins
/// the list of its media type, and no attachment is reported for it -- and
/// every other such part is an attachment, reported with its media type,
/// name and transfer-decoded content.
pub proof fn law_text_parts_are_body_and_the_rest_attachments(acc: FlatOutcome, lacc: LazyOutcome, p: RawPart, base: Seq<u8>)
    requires
        !crate::text::has_prefix(p.mimetype@, "multipart/"@),
    ensures
        ({
            let plain = p.mimetype@ == "text/plain"@;
            let html = p.mimetype@ == "text/html"@;
            let raw = p.body.bytes_in(base);
            if (plain || html) && !(p.disposition is Attachment) {
                &&& inventory(seq![p], base) == Seq::<AttachmentMetadataView>::empty()
                &&& match body_text(p.encoding, raw, p.charset@) {
                    Ok((text, _)) => {
                        &&& full_step(acc, p, base) matches Ok(o)
                        &&& o.attachments == acc.attachments
                        &&& o.html == (if html { acc.html.push(text) } else { acc.html })
                        &&& o.plain == (if html { acc.plain } else { acc.plain.push(text) })
                        &&& lazy_step(lacc, p, base) matches Ok(l)
                        &&& l.attachments == lacc.attachments
                    },
                    Err(e) => full_step(acc, p, base) == Err::<FlatOutcome, ErrorView>(e),
                }
            } else {
                &&& inventory(seq![p], base).len() == 1
                &&& inventory(seq![p], base)[0].mimetype == p.mimetype@
                &&& lazy_step(lacc, p, base) is Ok
                &&& lazy_step(lacc, p, base)->Ok_0.attachments.len() == lacc.attachments.len() + 1
                &&& lazy_step(lacc, p, base)->Ok_0.plain == lacc.plain
                &&& lazy_step(lacc, p, base)->Ok_0.html == lacc.html
                &&& match transfer_decoded(p.encoding, raw) {
                    Ok(bytes) => {
                        &&& full_step(acc, p, base) matches Ok(o)
                        &&& o.plain == acc.plain
                        &&& o.html == acc.html
                        &&& o.attachments.len() == acc.attachments.len() + 1
                        &&& o.attachments.last().mimetype == p.mimetype@
                        &&& o.attachments.last().content == bytes
                    },
                    Err(e) => full_step(acc, p, base) == Err::<FlatOutcome, ErrorView>(e),
                }
            }
        }),
{
    reveal_strlit("text/plain");
    reveal_strlit("text/html");
    reveal_strlit("multipart/");
    if p.mimetype@ == "text/plain"@ || p.mimetype@ == "text/html"@ {
        assert(p.mimetype@.len() >= 9);
    }
    assert(!is_container(p));
    assert(seq![p].drop_last() =~= Seq::<RawPart>::empty());
    assert(seq![p].last() == p);
    assert(inventory(Seq::<RawPart>::empty(), base) == Seq::<AttachmentMetadataView>::empty());
    assert(inventory(seq![p].drop_last(), base) == Seq::<AttachmentMetadataView>::empty());
    assert(Seq::<AttachmentMetadataView>::empty().push(crate::metadata::describe(p, base))
        =~= seq![crate::metadata::describe(p, base)]);
    let plain = p.mimetype@ == "text/plain"@;
    let html = p.mimetype@ == "text/html"@;
    if (plain || html) && !(p.disposition is Attachment) {
        assert(is_body(p));
        assert(inventory(seq![p], base) == Seq::<AttachmentMetadataView>::empty());
        if html {
            assert(crate::parts::is_text_html(p));
        } else {
            assert(!crate::parts::is_text_html(p));
        }
    } else {
        assert(!is_body(p));
        assert(inventory(seq![p], base) == seq![crate::metadata::describe(p, base)]);
    }
}

/// A part's reported name is its `Content-Disposition` `filename`, and
/// without one its `Content-Type` `name`, in every mode that reports it;
/// a part with neither is unnamed.
pub proof fn law_filename_falls_back_to_the_content_type_name(acc: FlatOutcome, p: RawPart, base: Seq<u8>)
    ensures
        ({
            let expected = match p.filename_param {
                Some(f) => f@,
                None => match p.name_param {
                    Some(n) => n@,
                    None => Seq::<char>::empty(),
                },
            };
            &&& crate::metadata::describe(p, base).filename == expected
            &&& (full_step(acc, p, base) is Ok && full_step(acc, p, base)->Ok_0.attachments.len() == acc.attachments.len() + 1)
                ==> full_step(acc, p, base)->Ok_0.attachments.last().filename == expected
        }),
{
}

/// What the repair restores never splits a folded header: the LF goes in
/// at the start of a line (at the start of the payload or right after an
/// LF) that begins with neither a space nor a TAB (a folded continuation),
/// nor a CR or LF (the separator already in place), and holds no colon.
pub proof fn law_repair_never_splits_a_folded_header(p: Seq<u8>)
    ensures
        repaired_payload(p) is Some ==> ({
            let at = separator_gap(p, 0)->0;
            &&& 0 <= at < p.len()
            &&& at == 0 || p[at - 1] == 10u8
            &&& p[at] != 32u8 && p[at] != 9u8 && p[at] != 13u8 && p[at] != 10u8
            &&& !crate::scan::line_at(p, at).contains(58u8)
        }),
{
    lemma_gap_at_line_start(p, 0);
}

proof fn lemma_gap_at_line_start(p: Seq<u8>, from: int)
    requires
        from == 0 || (0 < from <= p.len() && p[from - 1] == 10u8),
    ensures
        separator_gap(p, from) matches Some(g) ==> ({
            &&& 0 <= g < p.len()
            &&& g == 0 || p[g - 1] == 10u8
            &&& p[g] != 32u8 && p[g] != 9u8 && p[g] != 13u8 && p[g] != 10u8
            &&& !crate::scan::line_at(p, g).contains(58u8)
        }),
    decreases p.len() - from,
{
    if 0 <= from < p.len() {
        crate::scan::lemma_index_from_bounds(p, 10u8, from);
        let line = crate::scan::line_at(p, from);
        if line.len() > 0 {
            assert(line[0] == p[from]);
        }
        if line.len() == 0 {
        } else if crate::scan::ends_header_block(line) {
        } else {
            match crate::scan::index_from(p, 10u8, from) {
                Some(nl) => {
                    lemma_gap_at_line_start(p, nl + 1);
                },
                None => {},
            }
        }
        if let Some(nl) = crate::scan::index_from(p, 10u8, from) {
            if nl == from {
                assert(line.len() == 0);
            }
        }
    }
}

/// Robust quoted-printable decoding keeps printable ASCII and TAB as they
/// are: a single line of them with no `=` and no trailing space or TAB
/// decodes to itself.
pub proof fn law_plain_qp_line_is_unchanged(s: Seq<u8>)
    requires
        forall|i: int| 0 <= i < s.len() ==> (s[i] == 9u8 || 32u8 <= #[trigger] s[i] <= 126u8) && s[i] != 61u8,
        s.len() > 0 ==> s.last() != 32u8 && s.last() != 9u8,
    ensures
        crate::qp::qp_robust(s) == s,
{
    lemma_all_kept(s);
    assert(crate::qp::kept_bytes(s) == s);
    if s.len() > 0 {
        lemma_no_lf(s, 0);
        assert(crate::scan::index_from(s, 10u8, 0) is None);
        assert(s.subrange(0, s.len() as int) =~= s);
        assert(crate::qp::trim_line(s) == s);
        lemma_decode_plain(s, 0);
        assert(s.subrange(0, s.len() as int) =~= s);
        let d = crate::qp::decode_lines_from(s, 0, false);
        assert(d =~= Seq::<u8>::empty() + s + Seq::<u8>::empty());
    }
}

proof fn lemma_all_kept(s: Seq<u8>)
    requires
        forall|i: int| 0 <= i < s.len() ==> (s[i] == 9u8 || 32u8 <= #[trigger] s[i] <= 126u8),
    ensures
        crate::qp::kept_bytes(s) == s,
    decreases s.len(),
{
    if s.len() > 0 {
        assert forall|i: int| 0 <= i < s.len() - 1 implies (s.drop_last()[i] == 9u8 || 32u8 <= #[trigger] s.drop_last()[i] <= 126u8) by {
            assert(s.drop_last()[i] == s[i]);
        }
        lemma_all_kept(s.drop_last());
        assert(s.drop_last().push(s.last()) =~= s);
    }
}

proof fn lemma_no_lf(s: Seq<u8>, from: int)
    requires
        0 <= from,
        forall|i: int| 0 <= i < s.len() ==> (s[i] == 9u8 || 32u8 <= #[trigger] s[i] <= 126u8),
    ensures
        crate::scan::index_from(s, 10u8, from) is None,
    decreases s.len() - from,
{
    if from < s.len() {
        assert(s[from] == 9u8 || 32u8 <= s[from] <= 126u8);
        lemma_no_lf(s, from + 1);
    }
}

proof fn lemma_decode_plain(s: Seq<u8>, pos: int)
    requires
        0 <= pos <= s.len(),
        forall|i: int| 0 <= i < s.len() ==> #[trigger] s[i] != 61u8,
    ensures
        crate::qp::decode_line_from(s, pos) == (s.subrange(pos, s.len() as int), true),
    decreases s.len() - pos,
{
    if pos < s.len() {
        lemma_decode_plain(s, pos + 1);
        assert(seq![s[pos]] + s.subrange(pos + 1, s.len() as int) =~= s.subrange(pos, s.len() as int));
    } else {
        assert(s.subrange(pos, s.len() as int) =~= Seq::<u8>::empty());
    }
}

/// Every month counts: a `Date` header that names any of the twelve months,
/// in any letter case, parses to exactly the timestamp (or failure) that
/// `mailparse::dateparse` gives for it.
pub proof fn law_a_date_naming_any_month_is_parsed(date: Seq<char>)
    ensures
        has_infix(upper_case(date), "JAN"@) ==> date_epoch(date) == mail_date_epoch(date),
        has_infix(upper_case(date), "FEB"@) ==> date_epoch(date) == mail_date_epoch(date),
        has_infix(upper_case(date), "MAR"@) ==> date_epoch(date) == mail_date_epoch(date),
        has_infix(upper_case(date), "APR"@) ==> date_epoch(date) == mail_date_epoch(date),
        has_infix(upper_case(date), "MAY"@) ==> date_epoch(date) == mail_date_epoch(date),
        has_infix(upper_case(date), "JUN"@) ==> date_epoch(date) == mail_date_epoch(date),
        has_infix(upper_case(date), "JUL"@) ==> date_epoch(date) == mail_date_epoch(date),
        has_infix(upper_case(date), "AUG"@) ==> date_epoch(date) == mail_date_epoch(date),
        has_infix(upper_case(date), "SEP"@) ==> date_epoch(date) == mail_date_epoch(date),
        has_infix(upper_case(date), "OCT"@) ==> date_epoch(date) == mail_date_epoch(date),
        has_infix(upper_case(date), "NOV"@) ==> date_epoch(date) == mail_date_epoch(date),
        has_infix(upper_case(date), "DEC"@) ==> date_epoch(date) == mail_date_epoch(date),
{
}

} // verus!
