//! The MIME tree, structure intact: one node per part, containers kept, an
//! embedded `message/rfc822` parsed into a child.
//!
//! The modes differ in what a leaf's body is and in nothing else: full mode
//! decodes it, lazy mode retains where it sits, metadata mode keeps only its
//! size. Everything else about a node is derived by the same code.

use vstd::prelude::*;
use crate::bridge::{mailparse_accepts, mailparse_refusal};
use crate::decode::{body_to_vec, transfer_decoded};
use crate::error::{ErrorView, MailError};
use crate::flat::{opt_text, parsed_buffer, table_view, MAX_INPUT_BYTES};
use crate::lazy::opt_bytes;
use crate::model::{inner_buffer, inner_slice, parse_mail, reads_part, Embedded, RawPart, MAX_MIME_DEPTH};
use crate::parts::{
    collect_headers, header_table, is_container, part_content_id, part_disposition,
    part_filename, part_identity,
};
use crate::retained::{Retained, RetainedView};
use crate::scan::{repair_missing_separator, repaired_payload};
use crate::text::{str_eq, str_starts_with};

verus! {

/// A `message/rfc822` part: an embedded message.
pub open spec fn is_message(p: RawPart) -> bool {
    p.mimetype@ == "message/rfc822"@
}

/// What reading an embedded message found, as far as it does not recurse:
/// the body's transfer decode, and the buffer the message inside was parsed
/// from.
pub open spec fn embedded_decoded(e: Embedded, encoding: crate::model::TransferEncoding, body: Seq<u8>) -> bool {
    match e {
        Embedded::Undecodable(err) => transfer_decoded(encoding, body) == Err::<Seq<u8>, ErrorView>(err@),
        Embedded::Unparseable { content, .. } => transfer_decoded(encoding, body) == Ok::<Seq<u8>, ErrorView>(content@),
        Embedded::Parsed { content, repaired, root } => transfer_decoded(encoding, body) == Ok::<Seq<u8>, ErrorView>(content@)
            && inner_buffer(content, repaired) == parsed_buffer(content@) && root.fits(inner_buffer(content, repaired).len()),
    }
}

/// A part read for the tree, nested `depth` deep in a message read from
/// `base`: every `message/rfc822` part above the depth cap has its embedded
/// message read, and no other part has one.
pub open spec fn tree_ok(p: RawPart, depth: int, base: Seq<u8>) -> bool
    decreases p, 1int,
{
    if depth >= MAX_MIME_DEPTH {
        true
    } else {
        &&& tree_ok_all(p.subparts@, depth + 1, base)
        &&& match p.embedded {
            None => !is_message(p),
            Some(e) => is_message(p) && embedded_decoded(*e, p.encoding, p.body.bytes_in(base))
                && match *e {
                Embedded::Parsed { content, repaired, root } => tree_ok(*root, depth + 1, inner_buffer(content, repaired)),
                _ => true,
            },
        }
    }
}

pub open spec fn tree_ok_all(ps: Seq<RawPart>, depth: int, base: Seq<u8>) -> bool
    decreases ps, 0int,
{
    if ps.len() == 0 {
        true
    } else {
        tree_ok_all(ps.drop_last(), depth, base) && tree_ok(ps.last(), depth, base)
    }
}

/// What reading the body of a `message/rfc822` part nested `depth` deep gives.
pub open spec fn embedded_ok(e: Embedded, encoding: crate::model::TransferEncoding, body: Seq<u8>, depth: int) -> bool {
    &&& embedded_decoded(e, encoding, body)
    &&& match e {
        Embedded::Parsed { content, repaired, root } => tree_ok(*root, depth + 1, inner_buffer(content, repaired)),
        _ => true,
    }
}

pub proof fn lemma_tree_ok_all(ps: Seq<RawPart>, depth: int, base: Seq<u8>)
    ensures
        tree_ok_all(ps, depth, base) <==> forall|i: int| 0 <= i < ps.len() ==> tree_ok(#[trigger] ps[i], depth, base),
    decreases ps.len(),
{
    if ps.len() > 0 {
        lemma_tree_ok_all(ps.drop_last(), depth, base);
        assert forall|i: int| 0 <= i < ps.len() - 1 implies ps.drop_last()[i] == ps[i] by {}
    }
}

/// One node of the MIME tree, generic over what a mode keeps of a body.
#[derive(Debug)]
pub struct Node<B> {
    pub content_type: String,
    pub headers: Vec<(String, Vec<String>)>,
    pub filename: String,
    pub content_id: Option<String>,
    pub disposition: Option<String>,
    pub is_message: bool,
    pub body: B,
    pub children: Vec<Node<B>>,
}

/// Full mode's tree: `None` is a `multipart/*` container, `Some` a leaf's
/// transfer-decoded bytes (for an embedded message, the message itself).
pub type MimePart = Node<Option<Vec<u8>>>;

/// The deferred modes' tree.
pub type TreeNode = Node<NodeBody>;

/// What a deferred tree node carries for a body.
#[derive(Debug)]
pub enum NodeBody {
    /// A `multipart/*` container, which has no body of its own.
    Container,
    /// A leaf's body, not decoded: its size on the wire, and in lazy mode the
    /// part exactly as it sits in the message, to decode later.
    Undecoded { encoded_size: usize, raw: Option<Retained> },
    /// A `message/rfc822` body, decoded during the walk because the message
    /// inside it is this node's child.
    Decoded { encoded_size: usize, content: Vec<u8> },
}

pub enum NodeBodyView {
    Container,
    Undecoded { encoded_size: nat, raw: Option<RetainedView> },
    Decoded { encoded_size: nat, content: Seq<u8> },
}

impl View for NodeBody {
    type V = NodeBodyView;

    open spec fn view(&self) -> NodeBodyView {
        match self {
            NodeBody::Container => NodeBodyView::Container,
            NodeBody::Undecoded { encoded_size, raw } => NodeBodyView::Undecoded {
                encoded_size: *encoded_size as nat,
                raw: match raw {
                    Some(r) => Some(r@),
                    None => None,
                },
            },
            NodeBody::Decoded { encoded_size, content } => NodeBodyView::Decoded {
                encoded_size: *encoded_size as nat,
                content: content@,
            },
        }
    }
}

pub open spec fn body_size(b: NodeBodyView) -> Option<nat> {
    match b {
        NodeBodyView::Container => None,
        NodeBodyView::Undecoded { encoded_size, .. } => Some(encoded_size),
        NodeBodyView::Decoded { encoded_size, .. } => Some(encoded_size),
    }
}

impl NodeBody {
    /// Bytes this body occupies before transfer-decoding, or `None` for a
    /// container, which has no body of its own.
    pub fn encoded_size(&self) -> (n: Option<usize>)
        ensures
            match n {
                Some(k) => body_size(self@) == Some(k as nat),
                None => body_size(self@) is None,
            },
    {
        match self {
            NodeBody::Container => None,
            NodeBody::Undecoded { encoded_size, .. } => Some(*encoded_size),
            NodeBody::Decoded { encoded_size, .. } => Some(*encoded_size),
        }
    }
}

/// A node as plain values.
pub struct NodeView<B> {
    pub content_type: Seq<char>,
    pub headers: Seq<(Seq<char>, Seq<Seq<char>>)>,
    pub filename: Seq<char>,
    pub content_id: Option<Seq<char>>,
    pub disposition: Option<Seq<char>>,
    pub is_message: bool,
    pub body: B,
    pub children: Seq<NodeView<B>>,
}

pub open spec fn full_view(n: MimePart) -> NodeView<Option<Seq<u8>>>
    decreases n, 1int,
{
    NodeView {
        content_type: n.content_type@,
        headers: table_view(n.headers@),
        filename: n.filename@,
        content_id: opt_text(n.content_id),
        disposition: opt_text(n.disposition),
        is_message: n.is_message,
        body: opt_bytes(n.body),
        children: full_views(n.children@),
    }
}

pub open spec fn full_views(ns: Seq<MimePart>) -> Seq<NodeView<Option<Seq<u8>>>>
    decreases ns, 0int,
{
    if ns.len() == 0 {
        Seq::empty()
    } else {
        full_views(ns.drop_last()).push(full_view(ns.last()))
    }
}

pub open spec fn deferred_view(n: TreeNode) -> NodeView<NodeBodyView>
    decreases n, 1int,
{
    NodeView {
        content_type: n.content_type@,
        headers: table_view(n.headers@),
        filename: n.filename@,
        content_id: opt_text(n.content_id),
        disposition: opt_text(n.disposition),
        is_message: n.is_message,
        body: n.body@,
        children: deferred_views(n.children@),
    }
}

pub open spec fn deferred_views(ns: Seq<TreeNode>) -> Seq<NodeView<NodeBodyView>>
    decreases ns, 0int,
{
    if ns.len() == 0 {
        Seq::empty()
    } else {
        deferred_views(ns.drop_last()).push(deferred_view(ns.last()))
    }
}

/// The node for part `p`, with the body and children a mode gave it: the
/// same identity in every mode.
pub open spec fn node_of<B>(p: RawPart, body: B, children: Seq<NodeView<B>>) -> NodeView<B> {
    NodeView {
        content_type: p.mimetype@,
        headers: header_table(p.headers@),
        filename: part_filename(p),
        content_id: part_content_id(p),
        disposition: part_disposition(p),
        is_message: is_message(p),
        body,
        children,
    }
}

/// Full mode's tree below `p`, nested `depth` deep in a message read from
/// `base`. The first failure in walk order is the result: the depth cap, a
/// body that does not decode, or an embedded message that does not parse.
pub open spec fn full_node(p: RawPart, depth: int, base: Seq<u8>) -> Result<NodeView<Option<Seq<u8>>>, ErrorView>
    decreases p, 1int,
{
    if depth >= MAX_MIME_DEPTH {
        Err(ErrorView::MimeDepth)
    } else if is_container(p) {
        match full_nodes(p.subparts@, depth + 1, base) {
            Ok(cs) => Ok(node_of(p, None, cs)),
            Err(e) => Err(e),
        }
    } else if is_message(p) && p.embedded is Some {
        match *p.embedded->0 {
            Embedded::Undecodable(err) => Err(err@),
            Embedded::Unparseable { error, .. } => Err(ErrorView::Header(error@)),
            Embedded::Parsed { content, repaired, root } => match full_node(*root, depth + 1, inner_buffer(content, repaired)) {
                Ok(c) => Ok(node_of(p, Some(content@), seq![c])),
                Err(e) => Err(e),
            },
        }
    } else {
        match transfer_decoded(p.encoding, p.body.bytes_in(base)) {
            Ok(b) => Ok(node_of(p, Some(b), Seq::empty())),
            Err(e) => Err(e),
        }
    }
}

pub open spec fn full_nodes(ps: Seq<RawPart>, depth: int, base: Seq<u8>) -> Result<Seq<NodeView<Option<Seq<u8>>>>, ErrorView>
    decreases ps, 0int,
{
    if ps.len() == 0 {
        Ok(Seq::empty())
    } else {
        match full_nodes(ps.drop_last(), depth, base) {
            Ok(a) => match full_node(ps.last(), depth, base) {
                Ok(n) => Ok(a.push(n)),
                Err(e) => Err(e),
            },
            Err(e) => Err(e),
        }
    }
}

/// What a deferred leaf keeps of itself.
#[derive(Clone, Copy, PartialEq, Eq, Structural)]
pub enum Keep {
    /// Nothing: metadata mode keeps sizes and no bytes.
    Nothing,
    /// Offsets into the buffer being parsed, which the caller keeps alive.
    In,
    /// A copy, for a subtree parsed out of a buffer the walk owns and drops.
    Copy,
}

/// The policy below an embedded message: its bytes are a decode of the
/// enclosing body, in no caller buffer, so offsets become copies.
pub open spec fn keep_inside(k: Keep) -> Keep {
    match k {
        Keep::Nothing => Keep::Nothing,
        _ => Keep::Copy,
    }
}

fn inside_embedded(k: Keep) -> (r: Keep)
    ensures
        r == keep_inside(k),
{
    match k {
        Keep::Nothing => Keep::Nothing,
        _ => Keep::Copy,
    }
}

/// What a deferred leaf retains under `keep`.
pub open spec fn kept_raw(p: RawPart, base: Seq<u8>, keep: Keep) -> Option<RetainedView> {
    match keep {
        Keep::Nothing => None,
        Keep::In => Some(p.raw@),
        Keep::Copy => Some(RetainedView::Owned(p.raw.bytes_in(base))),
    }
}

/// The deferred tree below `p`: as full mode's, except that a leaf is
/// described (and retained under `keep`) rather than decoded.
pub open spec fn deferred_node(p: RawPart, depth: int, base: Seq<u8>, keep: Keep) -> Result<NodeView<NodeBodyView>, ErrorView>
    decreases p, 1int,
{
    if depth >= MAX_MIME_DEPTH {
        Err(ErrorView::MimeDepth)
    } else if is_container(p) {
        match deferred_nodes(p.subparts@, depth + 1, base, keep) {
            Ok(cs) => Ok(node_of(p, NodeBodyView::Container, cs)),
            Err(e) => Err(e),
        }
    } else if is_message(p) && p.embedded is Some {
        match *p.embedded->0 {
            Embedded::Undecodable(err) => Err(err@),
            Embedded::Unparseable { error, .. } => Err(ErrorView::Header(error@)),
            Embedded::Parsed { content, repaired, root } => match deferred_node(*root, depth + 1, inner_buffer(content, repaired), keep_inside(keep)) {
                Ok(c) => Ok(node_of(p, NodeBodyView::Decoded {
                    encoded_size: p.body.bytes_in(base).len(),
                    content: content@,
                }, seq![c])),
                Err(e) => Err(e),
            },
        }
    } else {
        Ok(node_of(p, NodeBodyView::Undecoded {
            encoded_size: p.body.bytes_in(base).len(),
            raw: kept_raw(p, base, keep),
        }, Seq::empty()))
    }
}

pub open spec fn deferred_nodes(ps: Seq<RawPart>, depth: int, base: Seq<u8>, keep: Keep) -> Result<Seq<NodeView<NodeBodyView>>, ErrorView>
    decreases ps, 0int,
{
    if ps.len() == 0 {
        Ok(Seq::empty())
    } else {
        match deferred_nodes(ps.drop_last(), depth, base, keep) {
            Ok(a) => match deferred_node(ps.last(), depth, base, keep) {
                Ok(n) => Ok(a.push(n)),
                Err(e) => Err(e),
            },
            Err(e) => Err(e),
        }
    }
}

proof fn lemma_full_nodes_err_extends(ps: Seq<RawPart>, k: int, depth: int, base: Seq<u8>)
    requires
        0 <= k <= ps.len(),
        full_nodes(ps.subrange(0, k), depth, base) is Err,
    ensures
        full_nodes(ps, depth, base) == full_nodes(ps.subrange(0, k), depth, base),
    decreases ps.len() - k,
{
    if k < ps.len() {
        assert(ps.subrange(0, k + 1).drop_last() =~= ps.subrange(0, k));
        lemma_full_nodes_err_extends(ps, k + 1, depth, base);
    } else {
        assert(ps.subrange(0, k) =~= ps);
    }
}

proof fn lemma_deferred_nodes_err_extends(ps: Seq<RawPart>, k: int, depth: int, base: Seq<u8>, keep: Keep)
    requires
        0 <= k <= ps.len(),
        deferred_nodes(ps.subrange(0, k), depth, base, keep) is Err,
    ensures
        deferred_nodes(ps, depth, base, keep) == deferred_nodes(ps.subrange(0, k), depth, base, keep),
    decreases ps.len() - k,
{
    if k < ps.len() {
        assert(ps.subrange(0, k + 1).drop_last() =~= ps.subrange(0, k));
        lemma_deferred_nodes_err_extends(ps, k + 1, depth, base, keep);
    } else {
        assert(ps.subrange(0, k) =~= ps);
    }
}

/// A node for `p` carrying `body` and `children`: the identity every mode
/// derives the same way.
fn make_node<B>(p: &RawPart, body: B, children: Vec<Node<B>>) -> (n: Node<B>)
    ensures
        n.content_type@ == p.mimetype@,
        table_view(n.headers@) == header_table(p.headers@),
        n.filename@ == part_filename(*p),
        opt_text(n.content_id) == part_content_id(*p),
        opt_text(n.disposition) == part_disposition(*p),
        n.is_message == is_message(*p),
        n.body == body,
        n.children == children,
{
    let id = part_identity(p);
    let headers = collect_headers(&p.headers);
    assert(table_view(headers@) =~= header_table(p.headers@));
    Node {
        content_type: p.mimetype.clone(),
        headers,
        filename: id.filename,
        content_id: id.content_id,
        disposition: id.disposition,
        is_message: str_eq(p.mimetype.as_str(), "message/rfc822"),
        body,
        children,
    }
}

/// Full mode's tree below `p`, every leaf decoded.
fn build_full(p: &RawPart, depth: usize, base: &[u8]) -> (res: Result<MimePart, MailError>)
    requires
        tree_ok(*p, depth as int, base@),
        p.fits(base@.len()),
    ensures
        match res {
            Ok(n) => full_node(*p, depth as int, base@) == Ok::<NodeView<Option<Seq<u8>>>, ErrorView>(full_view(n)),
            Err(e) => full_node(*p, depth as int, base@) == Err::<NodeView<Option<Seq<u8>>>, ErrorView>(e@),
        },
    decreases p,
{
    if depth >= MAX_MIME_DEPTH {
        return Err(MailError::MimeDepth);
    }
    if str_starts_with(p.mimetype.as_str(), "multipart/") {
        proof {
            lemma_tree_ok_all(p.subparts@, depth + 1, base@);
            crate::model::lemma_fits_children(*p, base@.len() as nat);
        }
        let mut children: Vec<MimePart> = Vec::new();
        assert(p.subparts@.subrange(0, 0) =~= Seq::<RawPart>::empty());
        let mut i: usize = 0;
        while i < p.subparts.len()
            invariant
                i <= p.subparts@.len(),
                depth < MAX_MIME_DEPTH,
                is_container(*p),
                forall|k: int| 0 <= k < p.subparts@.len() ==> tree_ok(#[trigger] p.subparts@[k], depth + 1, base@),
                forall|k: int| 0 <= k < p.subparts@.len() ==> (#[trigger] p.subparts@[k]).fits(base@.len()),
                full_nodes(p.subparts@.subrange(0, i as int), depth + 1, base@)
                    == Ok::<Seq<NodeView<Option<Seq<u8>>>>, ErrorView>(full_views(children@)),
            decreases p.subparts@.len() - i,
        {
            proof {
                assert(p.subparts@.subrange(0, i + 1).drop_last() =~= p.subparts@.subrange(0, i as int));
                assert(p.subparts@.subrange(0, i + 1).last() == p.subparts@[i as int]);
            }
            match build_full(&p.subparts[i], depth + 1, base) {
                Ok(child) => {
                    let ghost before = children@;
                    children.push(child);
                    assert(children@.drop_last() =~= before);
                },
                Err(e) => {
                    proof {
                        lemma_full_nodes_err_extends(p.subparts@, i + 1, depth + 1, base@);
                    }
                    return Err(e);
                },
            }
            i = i + 1;
        }
        assert(p.subparts@.subrange(0, p.subparts@.len() as int) =~= p.subparts@);
        return Ok(make_node(p, None, children));
    }
    if str_eq(p.mimetype.as_str(), "message/rfc822") {
        match &p.embedded {
            Some(e) => match &**e {
                Embedded::Undecodable(err) => {
                    return Err(err.duplicate());
                },
                Embedded::Unparseable { error, .. } => {
                    return Err(MailError::Header(error.clone()));
                },
                Embedded::Parsed { content, repaired, root } => {
                    let child = match build_full(&**root, depth + 1, inner_slice(content, repaired)) {
                        Ok(c) => c,
                        Err(e) => {
                            return Err(e);
                        },
                    };
                    let body = vstd::slice::slice_to_vec(content.as_slice());
                    let ghost c = child;
                    let children = vec![child];
                    assert(children@.drop_last() =~= Seq::<MimePart>::empty());
                    assert(full_views(children@) =~= seq![full_view(c)]) by {
                        reveal_with_fuel(full_views, 2);
                    }
                    return Ok(make_node(p, Some(body), children));
                },
            },
            None => {},
        }
    }
    let raw = p.body.slice(base);
    match body_to_vec(p.encoding, raw) {
        Ok(decoded) => {
            let children: Vec<MimePart> = Vec::new();
            assert(full_views(children@) =~= Seq::<NodeView<Option<Seq<u8>>>>::empty());
            Ok(make_node(p, Some(decoded), children))
        },
        Err(e) => Err(e),
    }
}

/// The deferred tree below `p`: leaves described, and retained under `keep`.
fn build_deferred(p: &RawPart, depth: usize, base: &[u8], keep: Keep) -> (res: Result<TreeNode, MailError>)
    requires
        tree_ok(*p, depth as int, base@),
        p.fits(base@.len()),
    ensures
        match res {
            Ok(n) => deferred_node(*p, depth as int, base@, keep) == Ok::<NodeView<NodeBodyView>, ErrorView>(deferred_view(n)),
            Err(e) => deferred_node(*p, depth as int, base@, keep) == Err::<NodeView<NodeBodyView>, ErrorView>(e@),
        },
    decreases p,
{
    if depth >= MAX_MIME_DEPTH {
        return Err(MailError::MimeDepth);
    }
    if str_starts_with(p.mimetype.as_str(), "multipart/") {
        proof {
            lemma_tree_ok_all(p.subparts@, depth + 1, base@);
            crate::model::lemma_fits_children(*p, base@.len() as nat);
        }
        let mut children: Vec<TreeNode> = Vec::new();
        assert(p.subparts@.subrange(0, 0) =~= Seq::<RawPart>::empty());
        let mut i: usize = 0;
        while i < p.subparts.len()
            invariant
                i <= p.subparts@.len(),
                depth < MAX_MIME_DEPTH,
                is_container(*p),
                forall|k: int| 0 <= k < p.subparts@.len() ==> tree_ok(#[trigger] p.subparts@[k], depth + 1, base@),
                forall|k: int| 0 <= k < p.subparts@.len() ==> (#[trigger] p.subparts@[k]).fits(base@.len()),
                deferred_nodes(p.subparts@.subrange(0, i as int), depth + 1, base@, keep)
                    == Ok::<Seq<NodeView<NodeBodyView>>, ErrorView>(deferred_views(children@)),
            decreases p.subparts@.len() - i,
        {
            proof {
                assert(p.subparts@.subrange(0, i + 1).drop_last() =~= p.subparts@.subrange(0, i as int));
                assert(p.subparts@.subrange(0, i + 1).last() == p.subparts@[i as int]);
            }
            match build_deferred(&p.subparts[i], depth + 1, base, keep) {
                Ok(child) => {
                    let ghost before = children@;
                    children.push(child);
                    assert(children@.drop_last() =~= before);
                },
                Err(e) => {
                    proof {
                        lemma_deferred_nodes_err_extends(p.subparts@, i + 1, depth + 1, base@, keep);
                    }
                    return Err(e);
                },
            }
            i = i + 1;
        }
        assert(p.subparts@.subrange(0, p.subparts@.len() as int) =~= p.subparts@);
        return Ok(make_node(p, NodeBody::Container, children));
    }
    let encoded_size = p.body.slice(base).len();
    if str_eq(p.mimetype.as_str(), "message/rfc822") {
        match &p.embedded {
            Some(e) => match &**e {
                Embedded::Undecodable(err) => {
                    return Err(err.duplicate());
                },
                Embedded::Unparseable { error, .. } => {
                    return Err(MailError::Header(error.clone()));
                },
                Embedded::Parsed { content, repaired, root } => {
                    let child = match build_deferred(&**root, depth + 1, inner_slice(content, repaired), inside_embedded(keep)) {
                        Ok(c) => c,
                        Err(e) => {
                            return Err(e);
                        },
                    };
                    let body = NodeBody::Decoded {
                        encoded_size,
                        content: vstd::slice::slice_to_vec(content.as_slice()),
                    };
                    let ghost c = child;
                    let children = vec![child];
                    assert(children@.drop_last() =~= Seq::<TreeNode>::empty());
                    assert(deferred_views(children@) =~= seq![deferred_view(c)]) by {
                        reveal_with_fuel(deferred_views, 2);
                    }
                    return Ok(make_node(p, body, children));
                },
            },
            None => {},
        }
    }
    let raw = match keep {
        Keep::Nothing => None,
        Keep::In => Some(p.raw.duplicate()),
        Keep::Copy => Some(Retained::Owned(vstd::slice::slice_to_vec(p.raw.slice(base)))),
    };
    let children: Vec<TreeNode> = Vec::new();
    assert(deferred_views(children@) =~= Seq::<NodeView<NodeBodyView>>::empty());
    Ok(make_node(p, NodeBody::Undecoded { encoded_size, raw }, children))
}

proof fn lemma_full_node_err_kind(p: RawPart, depth: int, base: Seq<u8>)
    requires
        tree_ok(p, depth, base),
    ensures
        full_node(p, depth, base) matches Err(e) ==> !(e is InputTooLarge),
    decreases p, 1int,
{
    if depth < MAX_MIME_DEPTH {
        if is_container(p) {
            lemma_full_nodes_err_kind(p.subparts@, depth + 1, base);
        } else if is_message(p) && p.embedded is Some {
            match *p.embedded->0 {
                Embedded::Parsed { content, repaired, root } => lemma_full_node_err_kind(*root, depth + 1, inner_buffer(content, repaired)),
                _ => {},
            }
        }
    }
}

proof fn lemma_full_nodes_err_kind(ps: Seq<RawPart>, depth: int, base: Seq<u8>)
    requires
        tree_ok_all(ps, depth, base),
    ensures
        full_nodes(ps, depth, base) matches Err(e) ==> !(e is InputTooLarge),
    decreases ps, 0int,
{
    if ps.len() > 0 {
        lemma_full_nodes_err_kind(ps.drop_last(), depth, base);
        lemma_full_node_err_kind(ps.last(), depth, base);
    }
}

proof fn lemma_deferred_node_err_kind(p: RawPart, depth: int, base: Seq<u8>, keep: Keep)
    requires
        tree_ok(p, depth, base),
    ensures
        deferred_node(p, depth, base, keep) matches Err(e) ==> !(e is InputTooLarge),
    decreases p, 1int,
{
    if depth < MAX_MIME_DEPTH {
        if is_container(p) {
            lemma_deferred_nodes_err_kind(p.subparts@, depth + 1, base, keep);
        } else if is_message(p) && p.embedded is Some {
            match *p.embedded->0 {
                Embedded::Parsed { content, repaired, root } => lemma_deferred_node_err_kind(*root, depth + 1, inner_buffer(content, repaired), keep_inside(keep)),
                _ => {},
            }
        }
    }
}

proof fn lemma_deferred_nodes_err_kind(ps: Seq<RawPart>, depth: int, base: Seq<u8>, keep: Keep)
    requires
        tree_ok_all(ps, depth, base),
    ensures
        deferred_nodes(ps, depth, base, keep) matches Err(e) ==> !(e is InputTooLarge),
    decreases ps, 0int,
{
    if ps.len() > 0 {
        lemma_deferred_nodes_err_kind(ps.drop_last(), depth, base, keep);
        lemma_deferred_node_err_kind(ps.last(), depth, base, keep);
    }
}

/// Full mode's tree of a message whose root part `mailparse` read from
/// `base`.
pub fn build_tree(root: &RawPart, base: &[u8]) -> (res: Result<MimePart, MailError>)
    requires
        tree_ok(*root, 0, base@),
        root.fits(base@.len()),
    ensures
        match res {
            Ok(n) => full_node(*root, 0, base@) == Ok::<NodeView<Option<Seq<u8>>>, ErrorView>(full_view(n)),
            Err(e) => full_node(*root, 0, base@) == Err::<NodeView<Option<Seq<u8>>>, ErrorView>(e@),
        },
{
    build_full(root, 0, base)
}

/// The deferred tree of a message whose root part `mailparse` read from
/// `base`: with `defer`, each leaf keeps offsets of itself into `base`;
/// without, only its size.
pub fn build_deferred_tree(root: &RawPart, base: &[u8], defer: bool) -> (res: Result<TreeNode, MailError>)
    requires
        tree_ok(*root, 0, base@),
        root.fits(base@.len()),
    ensures
        match res {
            Ok(n) => deferred_node(*root, 0, base@, if defer { Keep::In } else { Keep::Nothing })
                == Ok::<NodeView<NodeBodyView>, ErrorView>(deferred_view(n)),
            Err(e) => deferred_node(*root, 0, base@, if defer { Keep::In } else { Keep::Nothing })
                == Err::<NodeView<NodeBodyView>, ErrorView>(e@),
        },
{
    let keep = if defer {
        Keep::In
    } else {
        Keep::Nothing
    };
    build_deferred(root, 0, base, keep)
}

/// What a full tree parse of `payload` gives: refused over the cap or by
/// `mailparse`, and otherwise the full tree of the root read, for the tree,
/// from `mailparse`'s parse of it.
pub open spec fn tree_parsed_as(payload: Seq<u8>, res: Result<MimePart, MailError>) -> bool {
    let buffer = parsed_buffer(payload);
    if payload.len() > MAX_INPUT_BYTES {
        res matches Err(MailError::InputTooLarge)
    } else if !mailparse_accepts(buffer) {
        res matches Err(MailError::Header(t)) && mailparse_refusal(buffer) == Some(t@)
    } else {
        exists|root: RawPart| #[trigger] reads_part(root, buffer, Seq::empty(), 0, true)
            && tree_ok(root, 0, buffer) && match res {
            Ok(n) => full_node(root, 0, buffer) == Ok::<NodeView<Option<Seq<u8>>>, ErrorView>(full_view(n)),
            Err(e) => full_node(root, 0, buffer) == Err::<NodeView<Option<Seq<u8>>>, ErrorView>(e@),
        }
    }
}

/// What a deferred tree parse of `payload` gives: as `tree_parsed_as`, with
/// the deferred tree of the root, keeping what `keep` says of each leaf, and
/// the repaired buffer when a repair was made.
pub open spec fn deferred_parsed_as(payload: Seq<u8>, keep: Keep, res: Result<DeferredTree, MailError>) -> bool {
    let buffer = parsed_buffer(payload);
    if payload.len() > MAX_INPUT_BYTES {
        res matches Err(MailError::InputTooLarge)
    } else if !mailparse_accepts(buffer) {
        res matches Err(MailError::Header(t)) && mailparse_refusal(buffer) == Some(t@)
    } else {
        exists|root: RawPart| #[trigger] reads_part(root, buffer, Seq::empty(), 0, true)
            && tree_ok(root, 0, buffer) && match res {
            Ok(t) => opt_bytes(t.repaired) == repaired_payload(payload)
                && deferred_node(root, 0, buffer, keep) == Ok::<NodeView<NodeBodyView>, ErrorView>(deferred_view(t.root)),
            Err(e) => deferred_node(root, 0, buffer, keep) == Err::<NodeView<NodeBodyView>, ErrorView>(e@),
        }
    }
}

/// Parse a message into its MIME tree, structure intact, every leaf decoded.
///
/// A payload over `MAX_INPUT_BYTES` is refused; a message missing its
/// header/body separator is parsed from a repaired copy.
pub fn parse_email_tree(payload: &[u8]) -> (res: Result<MimePart, MailError>)
    ensures
        tree_parsed_as(payload@, res),
{
    if payload.len() > MAX_INPUT_BYTES {
        return Err(MailError::InputTooLarge);
    }
    let repaired = repair_missing_separator(payload);
    let base: &[u8] = match &repaired {
        Some(fixed) => fixed.as_slice(),
        None => payload,
    };
    assert(base@ == parsed_buffer(payload@));
    let root = match parse_mail(base, true) {
        Ok(m) => m.root,
        Err(e) => {
            return Err(e);
        },
    };
    proof {
        lemma_full_node_err_kind(root, 0, base@);
    }
    build_tree(&root, base)
}

/// A deferred tree, and the buffer its offsets index when that is not the
/// caller's payload (the repaired copy of a message whose header block was
/// unterminated).
#[derive(Debug)]
pub struct DeferredTree {
    pub root: TreeNode,
    pub repaired: Option<Vec<u8>>,
}

/// Parse a message into its MIME tree without decoding the leaves: with
/// `defer` (lazy mode) each leaf retains where it sits, to be decoded on
/// demand; without (metadata mode) only its encoded size. An embedded
/// message is still decoded, because the message inside it is its child.
pub fn parse_tree_deferred(payload: &[u8], defer: bool) -> (res: Result<DeferredTree, MailError>)
    ensures
        deferred_parsed_as(payload@, if defer { Keep::In } else { Keep::Nothing }, res),
{
    if payload.len() > MAX_INPUT_BYTES {
        return Err(MailError::InputTooLarge);
    }
    let repaired = repair_missing_separator(payload);
    let root = {
        let base: &[u8] = match &repaired {
            Some(fixed) => fixed.as_slice(),
            None => payload,
        };
        assert(base@ == parsed_buffer(payload@));
        let model = match parse_mail(base, true) {
            Ok(m) => m.root,
            Err(e) => {
                return Err(e);
            },
        };
        proof {
            lemma_deferred_node_err_kind(model, 0, base@, if defer { Keep::In } else { Keep::Nothing });
        }
        match build_deferred_tree(&model, base, defer) {
            Ok(n) => n,
            Err(e) => {
                return Err(e);
            },
        }
    };
    Ok(DeferredTree { root, repaired })
}

} // verus!
