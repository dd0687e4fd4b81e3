use fast_mail_parser::api::parse_many;
use fast_mail_parser::error::ERR_INPUT_TOO_LARGE;
use fast_mail_parser::flat::{parse_email, MAX_INPUT_BYTES};
use fast_mail_parser::lazy::{decode_part, parse_email_lazy};
use fast_mail_parser::metadata::parse_email_metadata;
use fast_mail_parser::model::parse_mail;
use fast_mail_parser::parts::{classify_part, part_identity, PartIdentity, PartInfo};
use fast_mail_parser::retained::Retained;
use fast_mail_parser::tree::{parse_email_tree, parse_tree_deferred, MimePart, Node, NodeBody, TreeNode};

const SIMPLE: &[u8] = b"Subject: hi\r\nFrom: a@example.com\r\n\r\nbody\r\n";

const WITH_ATTACHMENT: &[u8] = b"Subject: has one\r\n\
    Content-Type: multipart/mixed; boundary=\"b\"\r\n\r\n\
    --b\r\nContent-Type: text/plain\r\n\r\nhello\r\n\
    --b\r\nContent-Type: application/pdf\r\n\
    Content-Disposition: attachment; filename=doc.pdf\r\n\
    Content-Transfer-Encoding: base64\r\n\r\ncGRmIGJ5dGVz\r\n--b--\r\n";

const UNTERMINATED: &[u8] = b"Subject: has one\r\n\
    Content-Type: multipart/mixed; boundary=\"b\"\r\n\
    this line has no colon\r\n\
    --b\r\nContent-Type: text/plain\r\n\r\nhello\r\n\
    --b\r\nContent-Type: application/pdf\r\n\
    Content-Disposition: attachment; filename=doc.pdf\r\n\
    Content-Transfer-Encoding: base64\r\n\r\ncGRmIGJ5dGVz\r\n--b--\r\n";

const FOUR_PARTS: &[u8] = b"Content-Type: multipart/mixed; boundary=\"b\"\r\n\r\n\
    --b\r\nContent-Type: text/plain\r\n\r\nbody text\r\n\
    --b\r\nContent-Type: text/plain\r\n\
    Content-Disposition: attachment; filename=note.txt\r\n\r\nattached\r\n\
    --b\r\nContent-Type: application/pdf\r\n\
    Content-ID: <cid-1>\r\n\r\npdf\r\n--b--\r\n";

#[test]
fn classify_part_applies_the_rfc_2183_rule_directly() {
    let mail = parse_mail(FOUR_PARTS, false).expect("the fixture must parse");

    assert!(
        classify_part(&mail.root).is_none(),
        "a multipart/* part must not classify as a part"
    );

    let parts: Vec<PartInfo<'_>> = mail
        .root
        .subparts
        .iter()
        .map(|part| classify_part(part).expect("a leaf must classify"))
        .collect();

    assert_eq!(
        parts.iter().map(|info| info.mime).collect::<Vec<_>>(),
        vec!["text/plain", "text/plain", "application/pdf"],
    );
    assert_eq!(
        parts.iter().map(|info| info.is_body).collect::<Vec<_>>(),
        vec![true, false, false],
    );
}

#[test]
fn part_identity_reads_the_name_the_part_answers_to() {
    let mail = parse_mail(FOUR_PARTS, false).expect("the fixture must parse");
    let identity: Vec<PartIdentity> = mail.root.subparts.iter().map(part_identity).collect();

    assert_eq!(
        identity.iter().map(|id| id.filename.as_str()).collect::<Vec<_>>(),
        vec!["", "note.txt", ""],
    );
    assert_eq!(
        identity.iter().map(|id| id.content_id.as_deref()).collect::<Vec<_>>(),
        vec![None, None, Some("cid-1")],
    );
    assert_eq!(
        identity.iter().map(|id| id.disposition.as_deref()).collect::<Vec<_>>(),
        vec![None, Some("attachment"), None],
    );
}

#[test]
fn a_deferred_attachment_is_a_range_and_not_a_copy() {
    let mail = parse_email_lazy(WITH_ATTACHMENT).expect("the fixture must parse");
    let attachment = &mail.attachments[0];

    assert!(
        matches!(attachment.raw, Retained::Range(_)),
        "a leaf of a message parsed in one piece must be retained as offsets, not copied: {:?}",
        attachment.raw
    );
    assert!(mail.repaired.is_none(), "this fixture needs no repair");
    assert_eq!(
        decode_part(attachment.raw.slice(WITH_ATTACHMENT)).expect("decodes"),
        b"pdf bytes",
    );
}

#[test]
fn a_repaired_message_retains_ranges_into_the_rebuilt_buffer() {
    let mail = parse_email_lazy(UNTERMINATED).expect("the fixture must parse");
    let repaired = mail.repaired.as_deref().expect("the header block was unterminated");
    let attachment = &mail.attachments[0];

    assert_eq!(repaired.len(), UNTERMINATED.len() + 1);
    assert_eq!(
        decode_part(attachment.raw.slice(repaired)).expect("decodes"),
        b"pdf bytes",
    );
}

fn canonical<B>(node: &Node<B>, out: &mut Vec<String>) {
    out.push(format!(
        "{}|{}|{:?}|{:?}|{}|{:?}|{}",
        node.content_type,
        node.filename,
        node.content_id,
        node.disposition,
        node.is_message,
        node.headers,
        node.children.len(),
    ));
    for child in &node.children {
        canonical(child, out);
    }
}

fn full_bodies(node: &MimePart, out: &mut Vec<Option<usize>>) {
    out.push(node.body.as_ref().map(Vec::len));
    for child in &node.children {
        full_bodies(child, out);
    }
}

fn node_sizes(node: &TreeNode, out: &mut Vec<Option<usize>>) {
    out.push(node.body.encoded_size());
    for child in &node.children {
        node_sizes(child, out);
    }
}

#[test]
fn every_mode_builds_the_same_tree_around_an_embedded_message() {
    let mut payload = b"Content-Type: message/rfc822\r\n\r\n".to_vec();
    payload.extend_from_slice(WITH_ATTACHMENT);

    let full = parse_email_tree(&payload).expect("the fixture must parse");
    let described = parse_tree_deferred(&payload, false).expect("the fixture must parse");
    let deferred = parse_tree_deferred(&payload, true).expect("the fixture must parse");

    let (mut a, mut b, mut c) = (Vec::new(), Vec::new(), Vec::new());
    canonical(&full, &mut a);
    canonical(&described.root, &mut b);
    canonical(&deferred.root, &mut c);

    assert!(
        a.len() >= 4,
        "the fixture must nest deeply enough to be worth comparing, got {a:?}"
    );
    assert_eq!(a, b, "the metadata tree's shape disagrees with full mode");
    assert_eq!(a, c, "the lazy tree's shape disagrees with full mode");

    let mut bodies = Vec::new();
    full_bodies(&full, &mut bodies);
    let mut sizes = Vec::new();
    node_sizes(&described.root, &mut sizes);
    assert_eq!(
        bodies.iter().map(Option::is_some).collect::<Vec<_>>(),
        sizes.iter().map(Option::is_some).collect::<Vec<_>>(),
        "a node reports a body in one mode and not the other"
    );
}

fn collect_undecoded(node: &TreeNode) -> Vec<&Retained> {
    let mut out = Vec::new();
    if let NodeBody::Undecoded { raw: Some(raw), .. } = &node.body {
        out.push(raw);
    }
    for child in &node.children {
        out.extend(collect_undecoded(child));
    }
    out
}

#[test]
fn a_leaf_below_an_embedded_message_is_copied() {
    let mut payload = b"Content-Type: message/rfc822\r\n\r\n".to_vec();
    payload.extend_from_slice(WITH_ATTACHMENT);
    let tree = parse_tree_deferred(&payload, true).expect("the fixture must parse");

    let root = match &tree.root.body {
        NodeBody::Decoded { .. } => &tree.root,
        other => panic!("the root should have been decoded to reach its child: {other:?}"),
    };
    let leaves = collect_undecoded(&root.children[0]);

    assert!(!leaves.is_empty(), "the embedded message must have leaves");
    for leaf in leaves {
        assert!(
            matches!(leaf, Retained::Owned(_)),
            "a leaf below an embedded message has no buffer to borrow: {leaf:?}"
        );
    }
}

#[test]
fn a_plain_message_parses_with_no_warnings() {
    let mail = parse_email(SIMPLE).expect("a well-formed message must parse");

    assert_eq!(mail.subject, "hi");
    assert_eq!(mail.text_plain.len(), 1);
    assert!(mail.text_plain[0].starts_with("body"));
    assert!(
        mail.warnings.is_empty(),
        "an unrepaired parse must report nothing: {:?}",
        mail.warnings
    );
}

#[test]
fn an_oversized_payload_is_rejected_by_the_cap_not_by_parsing() {
    let payload = vec![b'x'; MAX_INPUT_BYTES + 1];

    let error = parse_email(&payload).expect_err("over the cap must be refused");

    assert!(
        error.message().contains(ERR_INPUT_TOO_LARGE),
        "the cap must be named in the error, not just any failure: {}",
        error.message()
    );
}

#[test]
fn headers_keep_every_value_in_first_appearance_order() {
    let raw = b"Received: one\r\nSubject: s\r\nReceived: two\r\nX-A: a\r\n\r\nbody\r\n";

    let mail = parse_email(raw).expect("parses");
    let names: Vec<&str> = mail.headers.iter().map(|(name, _)| name.as_str()).collect();

    assert_eq!(names, ["Received", "Subject", "X-A"]);
    let received = &mail.headers.iter().find(|(n, _)| n == "Received").unwrap().1;
    assert_eq!(received, &["one", "two"]);
}

#[test]
fn an_unknown_charset_is_a_reported_repair_not_a_failure() {
    let raw = b"Subject: s\r\nContent-Type: text/plain; charset=not-a-charset\r\n\r\nbody\r\n";

    let mail = parse_email(raw).expect("an unknown charset is repaired, not fatal");

    assert!(
        !mail.warnings.is_empty(),
        "falling back to us-ascii is lossy and must be reported"
    );
}

#[test]
fn a_broken_transfer_encoding_is_an_error_not_an_empty_body() {
    let raw = b"Subject: s\r\nContent-Transfer-Encoding: base64\r\n\r\n!!!!not base64!!!!\r\n";

    assert!(
        parse_email(raw).is_err(),
        "corruption must surface, not decode to nothing"
    );
}

#[test]
fn parse_many_preserves_input_order_and_reports_per_slot() {
    let good = SIMPLE.to_vec();
    let bad = b"Subject: s\r\nContent-Transfer-Encoding: base64\r\n\r\n!!!!\r\n".to_vec();
    let payloads = vec![good.clone(), bad, good];

    let results = parse_many(&payloads);

    assert_eq!(results.len(), 3);
    assert!(results[0].is_ok());
    assert!(results[1].is_err(), "a bad slot fails on its own");
    assert!(results[2].is_ok(), "and does not take its neighbours with it");
}

#[test]
fn metadata_mode_agrees_with_the_full_parse_on_the_envelope() {
    let full = parse_email(SIMPLE).expect("parses");
    let metadata = parse_email_metadata(SIMPLE).expect("parses");

    assert_eq!(full.subject, metadata.subject);
    assert_eq!(full.headers, metadata.headers);
}
