use fast_mail_parser::api::{
    report_error, resolve_mode, resolve_workers, restore_order, strict_gate, strict_rejection,
    total_bytes, worker_count, ErrorClass, Mode, ERR_STRICT_NEEDS_BODIES, ERR_THREADS_ZERO,
};
use fast_mail_parser::decode::{body_to_vec, decode_base64, decode_charset};
use fast_mail_parser::envelope::parse_date_epoch;
use fast_mail_parser::error::{MailError, ERR_MIME_DEPTH};
use fast_mail_parser::flat::parse_email;
use fast_mail_parser::lazy::{decode_part, parse_email_lazy};
use fast_mail_parser::leaves::largest_leaf;
use fast_mail_parser::metadata::parse_email_metadata;
use fast_mail_parser::model::TransferEncoding;
use fast_mail_parser::parts::normalize_content_id;
use fast_mail_parser::qp::decode_quoted_printable;
use fast_mail_parser::retained::Retained;
use fast_mail_parser::text::decimal;
use fast_mail_parser::scan::{first_invalid_escape, repair_missing_separator, strip_ascii_whitespace};
use fast_mail_parser::tree::{parse_email_tree, parse_tree_deferred, NodeBody};
use fast_mail_parser::warning::{
    Warning, KIND_ADDRESS_UNPARSEABLE, KIND_CHARSET_FALLBACK, KIND_DATE_UNPARSEABLE,
    KIND_TRANSFER_DECODE_LOSSY, KIND_UNTERMINATED_HEADERS,
};

const FOUR_PARTS: &[u8] = b"Content-Type: multipart/mixed; boundary=\"b\"\r\n\r\n\
    --b\r\nContent-Type: text/plain\r\n\r\nbody text\r\n\
    --b\r\nContent-Type: text/plain\r\n\
    Content-Disposition: attachment; filename=note.txt\r\n\r\nattached\r\n\
    --b\r\nContent-Type: application/pdf\r\n\
    Content-ID: <cid-1>\r\n\r\npdf\r\n--b--\r\n";

const UNTERMINATED: &[u8] = b"Subject: has one\r\n\
    Content-Type: multipart/mixed; boundary=\"b\"\r\n\
    this line has no colon\r\n\
    --b\r\nContent-Type: text/plain\r\n\r\nhello\r\n\
    --b\r\nContent-Type: application/pdf\r\n\
    Content-Disposition: attachment; filename=doc.pdf\r\n\
    Content-Transfer-Encoding: base64\r\n\r\ncGRmIGJ5dGVz\r\n--b--\r\n";

fn warning(kind: &'static str, path: &str, detail: &str) -> Warning {
    Warning { kind, part_path: path.to_string(), detail: detail.to_string() }
}

#[test]
fn the_repair_inserts_one_line_feed_where_the_header_block_ends() {
    let fixed = repair_missing_separator(UNTERMINATED).expect("the block is unterminated");
    let at = UNTERMINATED.windows(4).position(|w| w == b"this").unwrap();
    assert_eq!(fixed.len(), UNTERMINATED.len() + 1);
    assert_eq!(fixed[at], b'\n');
    let mut back = fixed.clone();
    back.remove(at);
    assert_eq!(back, UNTERMINATED);
}

#[test]
fn a_terminated_or_folded_or_mbox_header_block_is_left_alone() {
    assert!(repair_missing_separator(b"Subject: a\r\n\r\nbody").is_none());
    assert!(repair_missing_separator(b"Subject: a\n continued\n\nbody").is_none());
    assert!(repair_missing_separator(b"From someone\r\nSubject: x\r\n\r\nbody").is_none());
    assert!(repair_missing_separator(b"Subject: no body follows").is_none());
    assert_eq!(
        repair_missing_separator(b"Subject: a\nno colon here\nbody"),
        Some(b"Subject: a\n\nno colon here\nbody".to_vec())
    );
}

#[test]
fn an_invalid_quoted_printable_escape_is_located() {
    assert_eq!(first_invalid_escape(b"a=ZZb"), Some(1));
    assert_eq!(first_invalid_escape(b"ok=3D"), None);
    assert_eq!(first_invalid_escape(b"soft=\r\nbreak"), None);
    assert_eq!(first_invalid_escape(b"soft=\nbreak"), None);
    assert_eq!(first_invalid_escape(b"end="), Some(3));
    assert_eq!(first_invalid_escape(b"=4"), Some(0));
    assert_eq!(first_invalid_escape(b"=41=4x"), Some(3));
}

#[test]
fn quoted_printable_decoding_matches_the_robust_decoder() {
    let cases: [&[u8]; 16] = [
        b"a=3Db",
        b"soft=\r\nbreak",
        b"soft=\nbreak",
        b"=ZZ",
        b"line\n",
        b"\n\n\n",
        b"tail=",
        b"x=4",
        b"caf=C3=A9\r\n",
        b"trailing  \r\nspaces\t\n",
        b"\x00\x01bin=41\x7f\xff",
        b"",
        b"a\r\r\nb",
        b"=\r\n",
        b"last line soft=\n",
        b"mixed=3d=3D=zz\r\nend",
    ];
    for case in cases {
        let want = quoted_printable::decode(case, quoted_printable::ParseMode::Robust).unwrap();
        assert_eq!(decode_quoted_printable(case), want, "input {:?}", case);
    }
}

#[test]
fn decoding_never_more_than_doubles_a_body() {
    let body = b"\n\n\n\n";
    let decoded = body_to_vec(TransferEncoding::QuotedPrintable, body).unwrap();
    assert_eq!(decoded, b"\r\n\r\n\r\n\r\n");
    assert!(decoded.len() <= 2 * body.len());
}

#[test]
fn base64_strips_whitespace_then_decodes() {
    assert_eq!(strip_ascii_whitespace(b" a\tb\r\nc\x0bd\x0c"), b"abc\x0bd");
    assert_eq!(decode_base64(b"cGRm\r\nIGJ5dGVz").unwrap(), b"pdf bytes");
    assert_eq!(decode_base64(b"!!!!").unwrap_err(), "invalid symbol at 0");
}

#[test]
fn a_transfer_decode_failure_names_the_decoder_error() {
    let error = body_to_vec(TransferEncoding::Base64, b"!!!!").unwrap_err();
    assert!(matches!(error, MailError::Base64(_)));
    assert_eq!(error.message(), "Base64 decode error: invalid symbol at 0");
    assert_eq!(body_to_vec(TransferEncoding::SevenBit, b"as is=").unwrap(), b"as is=");
    assert_eq!(body_to_vec(TransferEncoding::QuotedPrintable, b"a=3Db").unwrap(), b"a=b");
}

#[test]
fn an_unknown_charset_falls_back_to_ascii() {
    assert_eq!(decode_charset(b"caf\xe9", &"iso-8859-1".to_string()), ("caf\u{e9}".to_string(), false));
    assert_eq!(decode_charset(b"caf\xc3\xa9", &"utf-8".to_string()), ("caf\u{e9}".to_string(), false));
    assert_eq!(
        decode_charset(b"caf\xe9", &"not-a-charset".to_string()),
        ("caf\u{fffd}".to_string(), true)
    );
}

#[test]
fn a_date_must_name_a_month_to_parse() {
    assert_eq!(parse_date_epoch("Thu, 01 Jan 1970 00:00:00 +0000"), Some(0));
    assert_eq!(parse_date_epoch("Sun, 02 Oct 2016 07:06:22 -0700"), Some(1475417182));
    assert_eq!(parse_date_epoch("not a date"), None);
    assert_eq!(parse_date_epoch(""), None);
}

#[test]
fn a_content_id_loses_its_brackets_and_keeps_its_case() {
    assert_eq!(normalize_content_id("  <<Abc@X>>  "), "Abc@X");
    assert_eq!(normalize_content_id("<a b>"), "a b");
    assert_eq!(normalize_content_id("plain"), "plain");
    assert_eq!(normalize_content_id(""), "");
}

#[test]
fn retained_bytes_are_a_range_into_their_buffer_or_a_copy() {
    let base = b"0123456789".to_vec();
    let inner = Retained::of(&base, &base[2..5]);
    assert!(matches!(inner, Retained::Range(ref r) if r.start == 2 && r.end == 5));
    assert_eq!(inner.slice(&base), b"234");
    assert_eq!(inner.len(), 3);
    assert!(!inner.is_empty());

    let elsewhere = b"234".to_vec();
    let copied = Retained::of(&base, &elsewhere);
    assert!(matches!(copied, Retained::Owned(_)));
    assert_eq!(copied.slice(&base), b"234");
    assert_eq!(copied.len(), 3);

    let empty = Retained::of(&base, &base[4..4]);
    assert!(empty.is_empty());
}

#[test]
fn every_repair_is_a_warning_in_the_order_it_was_made() {
    let mail = parse_email(UNTERMINATED).expect("parses");
    assert_eq!(mail.warnings.len(), 1);
    assert_eq!(mail.warnings[0].kind, KIND_UNTERMINATED_HEADERS);
    assert_eq!(mail.warnings[0].part_path, "");
    assert_eq!(mail.text_plain.len(), 1, "the repair saves the text part");

    let raw = b"Subject: s\r\nTo: nobody\r\nDate: yesterday\r\n\
        Content-Type: text/plain; charset=not-a-charset\r\n\
        Content-Transfer-Encoding: quoted-printable\r\n\r\na=ZZb\r\n";
    let mail = parse_email(raw).expect("parses");
    let kinds: Vec<&str> = mail.warnings.iter().map(|w| w.kind).collect();
    assert_eq!(
        kinds,
        [KIND_ADDRESS_UNPARSEABLE, KIND_DATE_UNPARSEABLE, KIND_CHARSET_FALLBACK, KIND_TRANSFER_DECODE_LOSSY]
    );
    assert_eq!(
        mail.warnings[0].detail,
        "the To header is not a parseable address list; no mailboxes were reported for it, and its raw value is in headers"
    );
    assert_eq!(
        mail.warnings[1].detail,
        "the Date header \"yesterday\" is not a parseable date; date_parsed is None while date keeps the raw value"
    );
    assert_eq!(mail.warnings[2].part_path, "text_plain[0]");
    assert_eq!(
        mail.warnings[2].detail,
        "unrecognised charset \"not-a-charset\"; the part was decoded as us-ascii, so every non-ASCII byte in it is now U+FFFD"
    );
    assert_eq!(mail.warnings[3].part_path, "text_plain[0]");
    assert!(mail.warnings[3].detail.starts_with("the quoted-printable escape at byte 1 of the encoded body"));
    assert!(mail.to.is_empty());
}

#[test]
fn address_groups_are_flattened_to_their_mailboxes() {
    let raw = b"From: Alice <alice@example.com>, bob@example.com\r\n\
        To: team: a@example.com, b@example.com;\r\n\r\nbody\r\n";
    let mail = parse_email(raw).expect("parses");
    let from = mail.from_.expect("a sender");
    assert_eq!(from.display_name.as_deref(), Some("Alice"));
    assert_eq!(from.address, "alice@example.com");
    let to: Vec<&str> = mail.to.iter().map(|a| a.address.as_str()).collect();
    assert_eq!(to, ["a@example.com", "b@example.com"]);
    assert!(mail.warnings.is_empty());
}

#[test]
fn metadata_mode_describes_what_the_full_parse_decodes() {
    let full = parse_email(FOUR_PARTS).expect("parses");
    let metadata = parse_email_metadata(FOUR_PARTS).expect("parses");

    assert_eq!(full.attachments.len(), 2);
    assert_eq!(metadata.attachments.len(), 2);
    for (decoded, described) in full.attachments.iter().zip(&metadata.attachments) {
        assert_eq!(decoded.mimetype, described.mimetype);
        assert_eq!(decoded.filename, described.filename);
        assert_eq!(decoded.content_id, described.content_id);
        assert_eq!(decoded.disposition, described.disposition);
        assert!(decoded.content.len() <= described.encoded_size * 2);
    }
    assert_eq!(full.attachments[0].content, b"attached");
    assert_eq!(metadata.attachments[0].encoded_size, 8);
    assert_eq!(metadata.attachments[1].content_id.as_deref(), Some("cid-1"));
    assert_eq!(full.text_plain, ["body text"]);
}

#[test]
fn metadata_mode_succeeds_where_a_body_does_not_decode() {
    let raw = b"Subject: s\r\nContent-Type: application/pdf\r\n\
        Content-Transfer-Encoding: base64\r\n\r\n!!!!\r\n";
    assert!(parse_email(raw).is_err());
    let metadata = parse_email_metadata(raw).expect("nothing is decoded");
    assert_eq!(metadata.attachments.len(), 1);
    assert_eq!(metadata.subject, "s");
}

#[test]
fn lazy_mode_agrees_with_the_full_parse_but_for_content() {
    let full = parse_email(UNTERMINATED).expect("parses");
    let lazy = parse_email_lazy(UNTERMINATED).expect("parses");
    assert_eq!(full.subject, lazy.subject);
    assert_eq!(full.headers, lazy.headers);
    assert_eq!(full.text_plain, lazy.text_plain);
    assert_eq!(full.text_html, lazy.text_html);
    let render = |ws: &[Warning]| ws.iter().map(|w| (w.kind, w.part_path.clone(), w.detail.clone())).collect::<Vec<_>>();
    assert_eq!(render(&full.warnings), render(&lazy.warnings));
    assert_eq!(full.attachments.len(), lazy.attachments.len());
    let repaired = lazy.repaired.as_deref().expect("repaired");
    for (decoded, deferred) in full.attachments.iter().zip(&lazy.attachments) {
        assert_eq!(decoded.mimetype, deferred.mimetype);
        assert_eq!(decoded.filename, deferred.filename);
        assert_eq!(decode_part(deferred.raw.slice(repaired)).unwrap(), decoded.content);
    }
}

#[test]
fn the_tree_keeps_containers_and_its_root_headers_are_the_flat_headers() {
    let full = parse_email(FOUR_PARTS).expect("parses");
    let tree = parse_email_tree(FOUR_PARTS).expect("parses");
    assert_eq!(tree.content_type, "multipart/mixed");
    assert!(tree.body.is_none());
    assert_eq!(tree.children.len(), 3);
    assert_eq!(tree.headers, full.headers);
    assert_eq!(tree.children[1].body.as_deref(), Some(&b"attached"[..]));
    assert_eq!(tree.children[2].content_id.as_deref(), Some("cid-1"));

    let described = parse_tree_deferred(FOUR_PARTS, false).expect("parses");
    assert!(described.repaired.is_none());
    assert_eq!(described.root.body.encoded_size(), None);
    assert_eq!(described.root.children[2].body.encoded_size(), Some(3));
    assert!(matches!(described.root.children[0].body, NodeBody::Undecoded { raw: None, .. }));

    let deferred = parse_tree_deferred(UNTERMINATED, true).expect("parses");
    let repaired = deferred.repaired.as_deref().expect("repaired");
    match &deferred.root.children[1].body {
        NodeBody::Undecoded { raw: Some(raw), encoded_size } => {
            assert!(matches!(raw, Retained::Range(_)));
            assert_eq!(*encoded_size, 12);
            assert_eq!(decode_part(raw.slice(repaired)).unwrap(), b"pdf bytes");
        },
        other => panic!("expected a retained leaf: {other:?}"),
    }
}

#[test]
fn an_embedded_message_that_does_not_decode_fails_the_tree() {
    let raw = b"Content-Type: message/rfc822\r\nContent-Transfer-Encoding: base64\r\n\r\n!!!!\r\n";
    let error = parse_email_tree(raw).unwrap_err();
    assert!(matches!(error, MailError::Base64(_)));
    assert!(parse_tree_deferred(raw, true).is_err());
    assert!(parse_email_metadata(raw).is_ok(), "the flat modes do not look inside");
}

#[test]
fn errors_are_reported_by_class() {
    let (class, text) = report_error(&MailError::Base64("invalid symbol at 0".to_string()));
    assert_eq!(class, ErrorClass::DecodeError);
    assert_eq!(text, "Message parsing error: Base64 decode error: invalid symbol at 0");
    let (class, text) = report_error(&MailError::MimeDepth);
    assert_eq!(class, ErrorClass::MimeStructureError);
    assert_eq!(text, format!("Message parsing error: {ERR_MIME_DEPTH}"));
    assert_eq!(report_error(&MailError::InputTooLarge).0, ErrorClass::MimeStructureError);
    assert_eq!(report_error(&MailError::Header("bad".to_string())).0, ErrorClass::HeaderParseError);
}

#[test]
fn strict_mode_rejects_a_lossy_parse_by_its_first_warning() {
    let warnings = vec![
        warning(KIND_CHARSET_FALLBACK, "text_plain[0]", "detail one"),
        warning(KIND_ADDRESS_UNPARSEABLE, "", "detail two"),
    ];
    let (class, text) = strict_rejection(&warnings);
    assert_eq!(class, ErrorClass::DecodeError);
    assert_eq!(
        text,
        "strict mode rejected a lossy parse: charset-fallback on part text_plain[0]: detail one \
         (2 warning(s) recorded; parse without strict=True to read them all)"
    );
    let (class, text) = strict_rejection(&vec![warning(KIND_ADDRESS_UNPARSEABLE, "", "detail two")]);
    assert_eq!(class, ErrorClass::HeaderParseError);
    assert!(text.contains("on the message: detail two (1 warning(s)"));
    assert_eq!(strict_rejection(&vec![warning(KIND_UNTERMINATED_HEADERS, "", "")]).0, ErrorClass::MimeStructureError);
    assert_eq!(strict_rejection(&vec![warning("other", "", "")]).0, ErrorClass::ParseError);
    assert!(strict_gate(false, &warnings).is_none());
    assert!(strict_gate(true, &Vec::new()).is_none());
    assert!(strict_gate(true, &warnings).is_some());
}

#[test]
fn a_request_names_a_mode() {
    assert_eq!(resolve_mode("full", true), Ok(Mode::Full));
    assert_eq!(resolve_mode("lazy", true), Ok(Mode::Lazy));
    assert_eq!(resolve_mode("metadata", false), Ok(Mode::Metadata));
    assert_eq!(resolve_mode("metadata", true), Err(ERR_STRICT_NEEDS_BODIES.to_string()));
    assert_eq!(
        resolve_mode("tree", false),
        Err("mode must be \"full\", \"lazy\" or \"metadata\", not \"tree\"".to_string())
    );
}

#[test]
fn a_batch_gets_no_more_workers_than_it_has_work_for() {
    assert_eq!(resolve_workers(Some(0), 8), Err(ERR_THREADS_ZERO.to_string()));
    assert_eq!(resolve_workers(Some(3), 8), Ok(3));
    assert_eq!(resolve_workers(None, 8), Ok(8));
    assert_eq!(worker_count(8, 16, 16 * 1024), 1);
    assert_eq!(worker_count(8, 16, 10 * 64 * 1024), 8);
    assert_eq!(worker_count(8, 3, 10 * 64 * 1024), 3);
    assert_eq!(worker_count(2, 100, 10 * 64 * 1024), 2);
    assert_eq!(worker_count(0, 0, 0), 1);
    assert_eq!(total_bytes(&vec![3, 0, 4]), 7);
    assert_eq!(total_bytes(&vec![usize::MAX, 1]), usize::MAX);
}

#[test]
fn claimed_results_go_back_in_input_order() {
    let claims = vec![(2usize, "c"), (0, "a"), (1, "b")];
    assert_eq!(restore_order(claims, 3), Some(vec!["a", "b", "c"]));
    assert_eq!(restore_order(vec![(0usize, "a"), (2, "c")], 3), None);
    assert_eq!(restore_order(Vec::<(usize, u8)>::new(), 0), Some(Vec::new()));
}

const WITH_ATTACHMENT: &[u8] = b"Subject: has one\r\n\
    Content-Type: multipart/mixed; boundary=\"b\"\r\n\r\n\
    --b\r\nContent-Type: text/plain\r\n\r\nhello\r\n\
    --b\r\nContent-Type: application/pdf\r\n\
    Content-Disposition: attachment; filename=doc.pdf\r\n\
    Content-Transfer-Encoding: base64\r\n\r\ncGRmIGJ5dGVz\r\n--b--\r\n";

#[test]
fn the_largest_leaf_is_the_longest_encoded_body() {
    let (raw, body) = largest_leaf(WITH_ATTACHMENT).expect("the message has leaves");
    assert_eq!(body, b"cGRmIGJ5dGVz");
    assert!(raw.starts_with(b"Content-Type: application/pdf"));
    assert!(raw.ends_with(b"cGRmIGJ5dGVz"));

    let (raw, body) = largest_leaf(b"Subject: one part\r\n\r\nbody\r\n").expect("the root is a leaf");
    assert_eq!(raw, b"Subject: one part\r\n\r\nbody\r\n");
    assert!(body.starts_with(b"body"));
}

#[test]
fn the_first_of_equally_long_leaves_is_kept() {
    let raw = b"Content-Type: multipart/mixed; boundary=\"b\"\r\n\r\n\
        --b\r\nContent-Type: text/plain\r\n\r\nfirst\r\n\
        --b\r\nContent-Type: text/plain\r\n\r\nlater\r\n--b--\r\n";
    let (_, body) = largest_leaf(raw).expect("the message has leaves");
    assert_eq!(body, b"first");
}

#[test]
fn an_onion_of_embedded_messages_stops_at_the_depth_cap() {
    let mut payload = Vec::new();
    for _ in 0..300 {
        payload.extend_from_slice(b"Content-Type: message/rfc822\r\n\r\n");
    }
    payload.extend_from_slice(b"Subject: innermost\r\n\r\nbody\r\n");

    let error = parse_email_tree(&payload).expect_err("the nesting is past the cap");
    assert!(matches!(error, MailError::MimeDepth));
    assert_eq!(error.message(), ERR_MIME_DEPTH);
    assert!(matches!(parse_tree_deferred(&payload, false), Err(MailError::MimeDepth)));

    let metadata = parse_email_metadata(&payload).expect("the flat modes do not look inside");
    assert_eq!(metadata.attachments.len(), 1);
    assert_eq!(metadata.attachments[0].mimetype, "message/rfc822");
}

#[test]
fn the_repair_is_idempotent() {
    let fixed = repair_missing_separator(UNTERMINATED).expect("the block is unterminated");
    assert!(repair_missing_separator(&fixed).is_none());
}

#[test]
fn a_repaired_payload_parses_as_its_repair_with_the_repair_first() {
    let fixed = repair_missing_separator(UNTERMINATED).expect("the block is unterminated");
    let unrepaired = parse_email(UNTERMINATED).expect("parses");
    let repaired = parse_email(&fixed).expect("parses");
    assert_eq!(unrepaired.warnings[0].kind, KIND_UNTERMINATED_HEADERS);
    assert_eq!(unrepaired.warnings.len(), repaired.warnings.len() + 1);
    for (x, y) in unrepaired.warnings[1..].iter().zip(repaired.warnings.iter()) {
        assert_eq!((x.kind, &x.part_path, &x.detail), (y.kind, &y.part_path, &y.detail));
    }
    assert_eq!(unrepaired.subject, repaired.subject);
    assert_eq!(unrepaired.headers, repaired.headers);
    assert_eq!(unrepaired.text_plain, repaired.text_plain);
    assert_eq!(unrepaired.attachments.len(), repaired.attachments.len());
    assert_eq!(unrepaired.attachments[0].content, repaired.attachments[0].content);
}

#[test]
fn two_parses_of_one_payload_agree() {
    let a = parse_email(FOUR_PARTS).expect("parses");
    let b = parse_email(FOUR_PARTS).expect("parses");
    assert_eq!(a.subject, b.subject);
    assert_eq!(a.headers, b.headers);
    assert_eq!(a.text_plain, b.text_plain);
    assert_eq!(a.warnings.len(), b.warnings.len());
    assert_eq!(a.attachments.len(), b.attachments.len());
    for (x, y) in a.attachments.iter().zip(b.attachments.iter()) {
        assert_eq!(x.content, y.content);
        assert_eq!(x.filename, y.filename);
    }
}

#[test]
fn decoding_a_container_gives_its_own_body() {
    let payload = b"Content-Type: multipart/mixed; boundary=\"b\"\r\n\r\nthe preamble\r\n\
        --b\r\nContent-Type: text/plain\r\n\r\nbody text\r\n--b--\r\n";
    let decoded = decode_part(payload).expect("the header block parses");
    assert_eq!(decoded, b"the preamble");
}

#[test]
fn the_largest_leaf_is_found_below_the_nesting_cap() {
    let mut payload = Vec::new();
    for i in 0..300 {
        payload.extend_from_slice(format!("Content-Type: multipart/mixed; boundary=\"b{}\"\r\n\r\n--b{}\r\n", i, i).as_bytes());
    }
    payload.extend_from_slice(b"Content-Type: text/plain\r\n\r\ndeep leaf body\r\n");
    for i in (0..300).rev() {
        payload.extend_from_slice(format!("--b{}--\r\n", i).as_bytes());
    }
    let (_, body) = largest_leaf(&payload).expect("the message has leaves");
    assert!(String::from_utf8_lossy(&body).contains("deep leaf body"));
}

fn tree_has_body(node: &fast_mail_parser::tree::MimePart, content: &[u8]) -> bool {
    node.body.as_deref() == Some(content) || node.children.iter().any(|c| tree_has_body(c, content))
}

#[test]
fn every_attachment_of_the_full_parse_is_a_body_in_the_tree() {
    for payload in [FOUR_PARTS, UNTERMINATED] {
        let flat = parse_email(payload).expect("parses");
        let tree = parse_email_tree(payload).expect("parses");
        assert!(!flat.attachments.is_empty());
        for attachment in &flat.attachments {
            assert!(tree_has_body(&tree, &attachment.content));
        }
    }
}

#[test]
fn decimal_writes_the_digits() {
    assert_eq!(decimal(0), "0");
    assert_eq!(decimal(7), "7");
    assert_eq!(decimal(10), "10");
    assert_eq!(decimal(1234567890), "1234567890");
    assert_eq!(decimal(usize::MAX), usize::MAX.to_string());
}
