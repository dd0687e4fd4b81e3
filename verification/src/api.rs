//! The decisions a caller-facing entry point makes around a parse: which mode
//! a request names, which error class a failure is reported as, what strict
//! mode rejects, how many workers a batch gets, and putting a batch's results
//! back in input order.

use vstd::prelude::*;
use crate::error::{error_message, ErrorView, MailError};
use crate::flat::{parse_email, parsed_as, Mail, MAX_INPUT_BYTES};
use crate::text::{concat, debug_quoted, debug_text, decimal, decimal_text, str_eq};
use crate::warning::{
    Warning, WarningView, KIND_ADDRESS_UNPARSEABLE, KIND_CHARSET_FALLBACK, KIND_DATE_UNPARSEABLE,
    KIND_TRANSFER_DECODE_LOSSY, KIND_UNTERMINATED_HEADERS,
};

verus! {

/// Below this many input bytes per worker, starting a worker costs more than
/// it saves.
pub const MIN_BYTES_PER_WORKER: usize = 64 * 1024;

pub const ERR_THREADS_ZERO: &'static str = "threads must be at least 1; pass threads=None for the default";

pub const ERR_STRICT_NEEDS_BODIES: &'static str = "strict=True needs mode=\"full\" or mode=\"lazy\": metadata mode does not read the bodies, so it cannot tell you that nothing in them was repaired";

/// The exception class a failure is reported as.
#[derive(Debug, Clone, Copy, PartialEq, Eq, Structural)]
pub enum ErrorClass {
    /// The base class: a failure no narrower class names.
    ParseError,
    /// The header section could not be parsed.
    HeaderParseError,
    /// The MIME structure is malformed, or a resource cap was exceeded.
    MimeStructureError,
    /// A part's transfer encoding could not be decoded.
    DecodeError,
}

pub open spec fn error_class_of(e: ErrorView) -> ErrorClass {
    match e {
        ErrorView::Base64(_) => ErrorClass::DecodeError,
        ErrorView::InputTooLarge => ErrorClass::MimeStructureError,
        ErrorView::MimeDepth => ErrorClass::MimeStructureError,
        ErrorView::Header(_) => ErrorClass::HeaderParseError,
    }
}

pub open spec fn reported_text(e: ErrorView) -> Seq<char> {
    "Message parsing error: "@ + error_message(e)
}

/// The class and the text a parse failure is reported with: a decode failure
/// is a `DecodeError`, the two resource caps a `MimeStructureError`, a header
/// block that does not parse a `HeaderParseError`.
pub fn report_error(e: &MailError) -> (r: (ErrorClass, String))
    ensures
        r.0 == error_class_of(e@),
        r.1@ == reported_text(e@),
{
    let class = match e {
        MailError::Base64(_) => ErrorClass::DecodeError,
        MailError::InputTooLarge | MailError::MimeDepth => ErrorClass::MimeStructureError,
        MailError::Header(_) => ErrorClass::HeaderParseError,
    };
    (class, concat(String::from_str("Message parsing error: "), e.message().as_str()))
}

/// The class strict mode raises for a warning of this kind.
pub open spec fn strict_class_of(kind: Seq<char>) -> ErrorClass {
    if kind == KIND_ADDRESS_UNPARSEABLE@ {
        ErrorClass::HeaderParseError
    } else if kind == KIND_UNTERMINATED_HEADERS@ {
        ErrorClass::MimeStructureError
    } else if kind == KIND_CHARSET_FALLBACK@ || kind == KIND_DATE_UNPARSEABLE@ || kind
        == KIND_TRANSFER_DECODE_LOSSY@ {
        ErrorClass::DecodeError
    } else {
        ErrorClass::ParseError
    }
}

/// Where a warning is: `"the message"`, or `"part "` and its path.
pub open spec fn location_text(path: Seq<char>) -> Seq<char> {
    if path.len() == 0 {
        "the message"@
    } else {
        "part "@ + path
    }
}

pub open spec fn rejection_text(w: WarningView, count: nat) -> Seq<char> {
    "strict mode rejected a lossy parse: "@ + w.kind + " on "@ + location_text(w.part_path) + ": "@
        + w.detail + " ("@ + decimal_text(count)
        + " warning(s) recorded; parse without strict=True to read them all)"@
}

/// Strict mode's rejection of a lossy parse: it names the first warning --
/// the separator repair when there was one -- and how many were recorded.
pub fn strict_rejection(warnings: &Vec<Warning>) -> (r: (ErrorClass, String))
    requires
        warnings@.len() > 0,
    ensures
        r.0 == strict_class_of(warnings@[0]@.kind),
        r.1@ == rejection_text(warnings@[0]@, warnings@.len()),
{
    let w = &warnings[0];
    let location = if w.part_path.as_str().is_empty() {
        String::from_str("the message")
    } else {
        concat(String::from_str("part "), w.part_path.as_str())
    };
    let text = concat(String::from_str("strict mode rejected a lossy parse: "), w.kind);
    let text = concat(text, " on ");
    let text = concat(text, location.as_str());
    let text = concat(text, ": ");
    let text = concat(text, w.detail.as_str());
    let text = concat(text, " (");
    let text = concat(text, decimal(warnings.len()).as_str());
    let text = concat(text, " warning(s) recorded; parse without strict=True to read them all)");
    let kind = w.kind;
    let class = if str_eq(kind, KIND_ADDRESS_UNPARSEABLE) {
        ErrorClass::HeaderParseError
    } else if str_eq(kind, KIND_UNTERMINATED_HEADERS) {
        ErrorClass::MimeStructureError
    } else if str_eq(kind, KIND_CHARSET_FALLBACK) || str_eq(kind, KIND_DATE_UNPARSEABLE) || str_eq(
        kind,
        KIND_TRANSFER_DECODE_LOSSY,
    ) {
        ErrorClass::DecodeError
    } else {
        ErrorClass::ParseError
    };
    (class, text)
}

/// Strict mode refuses a parse that recorded any warning.
pub fn strict_gate(strict: bool, warnings: &Vec<Warning>) -> (r: Option<(ErrorClass, String)>)
    ensures
        r is Some <==> strict && warnings@.len() > 0,
        r matches Some(x) ==> x.0 == strict_class_of(warnings@[0]@.kind) && x.1@ == rejection_text(
            warnings@[0]@,
            warnings@.len(),
        ),
{
    if strict && warnings.len() > 0 {
        return Some(strict_rejection(warnings));
    }
    None
}

/// What a request asks to be built.
#[derive(Debug, Clone, Copy, PartialEq, Eq, Structural)]
pub enum Mode {
    Full,
    Lazy,
    Metadata,
}

pub open spec fn unknown_mode_text(mode: Seq<char>) -> Seq<char> {
    "mode must be \"full\", \"lazy\" or \"metadata\", not "@ + debug_text(mode)
}

/// The mode a request names, or why it is refused: an unknown mode, or strict
/// mode asked of metadata mode, which never reads the bodies and so cannot
/// say that nothing in them was repaired.
pub fn resolve_mode(mode: &str, strict: bool) -> (r: Result<Mode, String>)
    ensures
        mode@ == "full"@ ==> r == Ok::<Mode, String>(Mode::Full),
        mode@ == "lazy"@ ==> r == Ok::<Mode, String>(Mode::Lazy),
        mode@ == "metadata"@ && !strict ==> r == Ok::<Mode, String>(Mode::Metadata),
        mode@ == "metadata"@ && strict ==> (r matches Err(m) && m@ == ERR_STRICT_NEEDS_BODIES@),
        mode@ != "full"@ && mode@ != "lazy"@ && mode@ != "metadata"@ ==> (r matches Err(m) && m@
            == unknown_mode_text(mode@)),
{
    proof {
        reveal_strlit("full");
        reveal_strlit("lazy");
        reveal_strlit("metadata");
        assert("lazy"@ != "full"@) by {
            assert("lazy"@[0] != "full"@[0]);
        }
        assert("metadata"@ != "full"@) by {
            assert("metadata"@[0] != "full"@[0]);
        }
        assert("metadata"@ != "lazy"@) by {
            assert("metadata"@[0] != "lazy"@[0]);
        }
    }
    if str_eq(mode, "full") {
        Ok(Mode::Full)
    } else if str_eq(mode, "lazy") {
        Ok(Mode::Lazy)
    } else if str_eq(mode, "metadata") {
        if strict {
            Err(String::from_str(ERR_STRICT_NEEDS_BODIES))
        } else {
            Ok(Mode::Metadata)
        }
    } else {
        Err(concat(String::from_str("mode must be \"full\", \"lazy\" or \"metadata\", not "), debug_quoted(mode).as_str()))
    }
}

/// The worker count a batch asks for: `None` is the machine's default, and
/// zero is refused.
pub fn resolve_workers(threads: Option<usize>, default: usize) -> (r: Result<usize, String>)
    ensures
        threads == Some(0usize) ==> (r matches Err(m) && m@ == ERR_THREADS_ZERO@),
        forall|n: usize| threads == Some(n) && n > 0 ==> r == Ok::<usize, String>(n),
        threads is None ==> r == Ok::<usize, String>(default),
{
    match threads {
        Some(0) => Err(String::from_str(ERR_THREADS_ZERO)),
        Some(n) => Ok(n),
        None => Ok(default),
    }
}

pub open spec fn min_int(a: int, b: int) -> int {
    if a <= b {
        a
    } else {
        b
    }
}

pub open spec fn max_int(a: int, b: int) -> int {
    if a >= b {
        a
    } else {
        b
    }
}

/// Never more workers than there is work for, counted both by message and by
/// bytes, and never fewer than one.
pub open spec fn workers_for(available: int, messages: int, total_bytes: int) -> int {
    max_int(1, min_int(min_int(available, messages), max_int(1, total_bytes / MIN_BYTES_PER_WORKER as int)))
}

pub fn worker_count(available: usize, messages: usize, total_bytes: usize) -> (w: usize)
    ensures
        w == workers_for(available as int, messages as int, total_bytes as int),
        1 <= w,
{
    let by_bytes = total_bytes / MIN_BYTES_PER_WORKER;
    let by_bytes = if by_bytes < 1 {
        1
    } else {
        by_bytes
    };
    let w = if available < messages {
        available
    } else {
        messages
    };
    let w = if w < by_bytes {
        w
    } else {
        by_bytes
    };
    if w < 1 {
        1
    } else {
        w
    }
}

pub open spec fn byte_total(lengths: Seq<usize>) -> int
    decreases lengths.len(),
{
    if lengths.len() == 0 {
        0
    } else {
        byte_total(lengths.drop_last()) + lengths.last()
    }
}

/// The payloads' total size from their lengths, saturating at `usize::MAX`.
pub fn total_bytes(lengths: &Vec<usize>) -> (t: usize)
    ensures
        t == min_int(byte_total(lengths@), usize::MAX as int),
{
    let mut t: usize = 0;
    let mut i: usize = 0;
    while i < lengths.len()
        invariant
            i <= lengths@.len(),
            t == min_int(byte_total(lengths@.subrange(0, i as int)), usize::MAX as int),
        decreases lengths@.len() - i,
    {
        proof {
            assert(lengths@.subrange(0, i + 1).drop_last() =~= lengths@.subrange(0, i as int));
            lemma_byte_total_nonneg(lengths@.subrange(0, i as int));
        }
        t = t.saturating_add(lengths[i]);
        i = i + 1;
    }
    assert(lengths@.subrange(0, lengths@.len() as int) =~= lengths@);
    t
}

proof fn lemma_byte_total_nonneg(lengths: Seq<usize>)
    ensures
        byte_total(lengths) >= 0,
    decreases lengths.len(),
{
    if lengths.len() > 0 {
        lemma_byte_total_nonneg(lengths.drop_last());
    }
}

/// Parse a batch of messages, one result per input and in input order, each
/// independently `Ok` or `Err`: one malformed message cannot fail the batch.
pub fn parse_many(payloads: &Vec<Vec<u8>>) -> (results: Vec<Result<Mail, MailError>>)
    ensures
        results@.len() == payloads@.len(),
        forall|i: int| 0 <= i < payloads@.len() ==> parsed_as(#[trigger] payloads@[i]@, results@[i]),
{
    let mut results: Vec<Result<Mail, MailError>> = Vec::new();
    let mut i: usize = 0;
    while i < payloads.len()
        invariant
            i <= payloads@.len(),
            results@.len() == i,
            forall|k: int| 0 <= k < i ==> parsed_as(#[trigger] payloads@[k]@, results@[k]),
        decreases payloads@.len() - i,
    {
        results.push(parse_email(payloads[i].as_slice()));
        i = i + 1;
    }
    results
}

/// The value the last claim of slot `i` in `claims` carries, if any.
pub open spec fn last_claim<T>(claims: Seq<(usize, T)>, i: int) -> Option<T>
    decreases claims.len(),
{
    if claims.len() == 0 {
        None
    } else if claims.last().0 == i {
        Some(claims.last().1)
    } else {
        last_claim(claims.drop_last(), i)
    }
}

/// Put results claimed out of order back in slot order.
///
/// `claims` pairs each result with the index of the input it came from;
/// every index must be below `n`. `None` when some slot was never claimed.
pub fn restore_order<T>(claims: Vec<(usize, T)>, n: usize) -> (out: Option<Vec<T>>)
    requires
        forall|k: int| 0 <= k < claims@.len() ==> (#[trigger] claims@[k]).0 < n,
    ensures
        out is Some <==> forall|i: int| 0 <= i < n ==> #[trigger] last_claim(claims@, i) is Some,
        out matches Some(v) ==> v@.len() == n && forall|i: int| 0 <= i < n ==> Some(#[trigger] v@[i])
            == last_claim(claims@, i),
{
    let ghost cs = claims@;
    let mut ordered: Vec<Option<T>> = Vec::new();
    let mut j: usize = 0;
    while j < n
        invariant
            j <= n,
            ordered@.len() == j,
            forall|i: int| 0 <= i < j ==> (#[trigger] ordered@[i]) is None,
        decreases n - j,
    {
        ordered.push(None);
        j = j + 1;
    }
    for claim in it: claims
        invariant
            it.seq() == cs,
            ordered@.len() == n,
            forall|k: int| 0 <= k < cs.len() ==> (#[trigger] cs[k]).0 < n,
            forall|i: int| 0 <= i < n ==> (#[trigger] ordered@[i]) == last_claim(cs.subrange(0, it.index() as int), i),
    {
        proof {
            let k = it.index() as int;
            assert(cs.subrange(0, k + 1).drop_last() =~= cs.subrange(0, k));
            assert(cs.subrange(0, k + 1).last() == cs[k]);
        }
        let (index, result) = claim;
        ordered[index] = Some(result);
    }
    assert(cs.subrange(0, cs.len() as int) =~= cs);
    let mut out: Vec<T> = Vec::new();
    let mut complete = true;
    let ghost all = ordered@;
    for slot in it: ordered
        invariant
            it.seq() == all,
            all.len() == n,
            forall|i: int| 0 <= i < n ==> (#[trigger] all[i]) == last_claim(cs, i),
            complete ==> out@.len() == it.index() && forall|i: int| 0 <= i < it.index() ==> Some(#[trigger] out@[i]) == all[i],
            !complete ==> exists|i: int| 0 <= i < n && #[trigger] all[i] is None,
    {
        match slot {
            Some(value) => {
                if complete {
                    out.push(value);
                }
            },
            None => {
                assert(all[it.index() as int] is None);
                complete = false;
            },
        }
    }
    proof {
        if complete {
            assert forall|i: int| 0 <= i < n implies #[trigger] last_claim(cs, i) is Some by {
                assert(Some(out@[i]) == all[i]);
            }
        }
    }
    if complete {
        Some(out)
    } else {
        None
    }
}

} // verus!
