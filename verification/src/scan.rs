//! Byte-level scans over a raw message: the header/body separator repair, the
//! quoted-printable escape check, and the whitespace strip before base64.

use vstd::prelude::*;

verus! {

/// First index at or after `from` holding `needle`, if any.
pub open spec fn index_from(s: Seq<u8>, needle: u8, from: int) -> Option<int>
    decreases s.len() - from,
{
    if from < 0 || from >= s.len() {
        None
    } else if s[from] == needle {
        Some(from)
    } else {
        index_from(s, needle, from + 1)
    }
}

pub open spec fn starts_with(s: Seq<u8>, prefix: Seq<u8>) -> bool {
    prefix.len() <= s.len() && s.subrange(0, prefix.len() as int) == prefix
}

/// The line that starts at `at`: up to the next LF, or to the end.
pub open spec fn line_at(p: Seq<u8>, at: int) -> Seq<u8> {
    match index_from(p, 10u8, at) {
        Some(nl) => p.subrange(at, nl),
        None => p.subrange(at, p.len() as int),
    }
}

/// A line that can end the header block: not a folded continuation, not an
/// mbox `From ` line, and with no colon in it.
pub open spec fn ends_header_block(line: Seq<u8>) -> bool {
    &&& line.len() > 0
    &&& line[0] != 32u8 && line[0] != 9u8
    &&& !starts_with(line, seq![70u8, 114u8, 111u8, 109u8, 32u8])
    &&& !line.contains(58u8)
}

/// Where the missing header/body separator belongs, scanning header lines from
/// `at`: `None` when the header block is properly terminated (or has no body).
pub open spec fn separator_gap(p: Seq<u8>, at: int) -> Option<int>
    decreases p.len() - at,
{
    if at < 0 || at >= p.len() {
        None
    } else {
        let line = line_at(p, at);
        if line.len() == 0 || line[0] == 13u8 {
            None
        } else if ends_header_block(line) {
            Some(at)
        } else {
            match index_from(p, 10u8, at) {
                None => None,
                Some(nl) => if at <= nl < p.len() {
                    separator_gap(p, nl + 1)
                } else {
                    None
                },
            }
        }
    }
}

/// The payload with an LF inserted at `at`.
pub open spec fn insert_lf(p: Seq<u8>, at: int) -> Seq<u8> {
    p.subrange(0, at) + seq![10u8] + p.subrange(at, p.len() as int)
}

/// The repaired payload, or `None` when the payload can be parsed as it is.
pub open spec fn repaired_payload(p: Seq<u8>) -> Option<Seq<u8>> {
    match separator_gap(p, 0) {
        Some(at) => Some(insert_lf(p, at)),
        None => None,
    }
}

pub proof fn lemma_index_from_bounds(s: Seq<u8>, needle: u8, from: int)
    requires
        from >= 0,
    ensures
        index_from(s, needle, from) matches Some(i) ==> from <= i < s.len() && s[i] == needle,
        index_from(s, needle, from) is None ==> forall|j: int|
            from <= j < s.len() ==> s[j] != needle,
    decreases s.len() - from,
{
    if from >= 0 && from < s.len() && s[from] != needle {
        lemma_index_from_bounds(s, needle, from + 1);
    }
}

pub proof fn lemma_separator_gap_bounds(p: Seq<u8>, at: int)
    ensures
        separator_gap(p, at) matches Some(g) ==> 0 <= g < p.len(),
    decreases p.len() - at,
{
    if at >= 0 && at < p.len() {
        lemma_index_from_bounds(p, 10u8, at);
        match index_from(p, 10u8, at) {
            Some(nl) => lemma_separator_gap_bounds(p, nl + 1),
            None => {},
        }
    }
}

/// Index of the next `needle` at or after `from`, as `index_from` says.
pub fn find_byte(s: &[u8], needle: u8, from: usize) -> (res: Option<usize>)
    requires
        from <= s@.len(),
    ensures
        match res {
            Some(i) => index_from(s@, needle, from as int) == Some(i as int),
            None => index_from(s@, needle, from as int) is None,
        },
{
    let mut i = from;
    while i < s.len()
        invariant
            from <= i <= s@.len(),
            index_from(s@, needle, from as int) == index_from(s@, needle, i as int),
        decreases s@.len() - i,
    {
        if s[i] == needle {
            return Some(i);
        }
        i = i + 1;
    }
    None
}

fn contains_byte(s: &[u8], start: usize, end: usize, needle: u8) -> (res: bool)
    requires
        start <= end <= s@.len(),
    ensures
        res == s@.subrange(start as int, end as int).contains(needle),
{
    let mut i = start;
    while i < end
        invariant
            start <= i <= end <= s@.len(),
            forall|j: int| start <= j < i ==> s@[j] != needle,
        decreases end - i,
    {
        if s[i] == needle {
            assert(s@.subrange(start as int, end as int)[i - start] == needle);
            return true;
        }
        i = i + 1;
    }
    assert forall|k: int| 0 <= k < (end - start) implies s@.subrange(
        start as int,
        end as int,
    )[k] != needle by {
        assert(s@.subrange(start as int, end as int)[k] == s@[start + k]);
    }
    false
}

fn starts_with_from_line(s: &[u8], start: usize, end: usize) -> (res: bool)
    requires
        start <= end <= s@.len(),
    ensures
        res == starts_with(s@.subrange(start as int, end as int), seq![70u8, 114u8, 111u8, 109u8, 32u8]),
{
    let ghost line = s@.subrange(start as int, end as int);
    let ghost from = seq![70u8, 114u8, 111u8, 109u8, 32u8];
    if end - start < 5 {
        return false;
    }
    let r = s[start] == 70u8 && s[start + 1] == 114u8 && s[start + 2] == 111u8 && s[start + 3]
        == 109u8 && s[start + 4] == 32u8;
    if r {
        assert(line.subrange(0, 5) =~= from);
    } else {
        assert(line.subrange(0, 5) != from) by {
            if line.subrange(0, 5) == from {
                assert(line.subrange(0, 5)[0] == from[0]);
                assert(line.subrange(0, 5)[1] == from[1]);
                assert(line.subrange(0, 5)[2] == from[2]);
                assert(line.subrange(0, 5)[3] == from[3]);
                assert(line.subrange(0, 5)[4] == from[4]);
            }
        }
    }
    r
}

/// Restore the header/body separator when a message omits it, or `None` when
/// the message has one and can be parsed exactly as it stands.
///
/// A non-continuation line in the header block that contains no colon (and is
/// not a leading mbox `From ` line) ends the header block; the body starts
/// there, so an LF is inserted in front of it. An empty line, or one starting
/// with CR, is the separator already in place.
pub fn repair_missing_separator(payload: &[u8]) -> (res: Option<Vec<u8>>)
    ensures
        match repaired_payload(payload@) {
            Some(fixed) => res matches Some(v) && v@ == fixed,
            None => res is None,
        },
{
    let mut at: usize = 0;
    while at < payload.len()
        invariant
            at <= payload@.len(),
            separator_gap(payload@, 0) == separator_gap(payload@, at as int),
        decreases payload@.len() - at,
    {
        let newline = find_byte(payload, 10u8, at);
        proof {
            lemma_index_from_bounds(payload@, 10u8, at as int);
        }
        let end = match newline {
            Some(nl) => nl,
            None => payload.len(),
        };
        let ghost line = payload@.subrange(at as int, end as int);
        assert(line == line_at(payload@, at as int));
        if end == at || payload[at] == 13u8 {
            assert(end > at ==> line[0] == payload@[at as int]);
            return None;
        }
        assert(line[0] == payload@[at as int]);
        let folded = payload[at] == 32u8 || payload[at] == 9u8;
        if !folded && !starts_with_from_line(payload, at, end) && !contains_byte(
            payload,
            at,
            end,
            58u8,
        ) {
            assert(separator_gap(payload@, at as int) == Some(at as int));
            let mut repaired: Vec<u8> = Vec::with_capacity(payload.len());
            let mut i: usize = 0;
            while i < at
                invariant
                    i <= at < payload@.len(),
                    repaired@ =~= payload@.subrange(0, i as int),
                decreases at - i,
            {
                repaired.push(payload[i]);
                i = i + 1;
            }
            repaired.push(10u8);
            let mut j: usize = at;
            while j < payload.len()
                invariant
                    at <= j <= payload@.len(),
                    repaired@ =~= payload@.subrange(0, at as int) + seq![10u8]
                        + payload@.subrange(at as int, j as int),
                decreases payload@.len() - j,
            {
                repaired.push(payload[j]);
                j = j + 1;
            }
            return Some(repaired);
        }
        match newline {
            None => {
                return None;
            },
            Some(nl) => {
                at = nl + 1;
            },
        }
    }
    None
}

pub open spec fn is_hex_digit(b: u8) -> bool {
    (48u8 <= b <= 57u8) || (97u8 <= b <= 102u8) || (65u8 <= b <= 70u8)
}

/// First `=` at or after `at` that is neither two hex digits nor a soft line
/// break (`=` before CRLF or LF).
pub open spec fn invalid_escape_from(raw: Seq<u8>, at: int) -> Option<int>
    decreases raw.len() - at,
{
    if at < 0 || at >= raw.len() {
        None
    } else if raw[at] != 61u8 {
        invalid_escape_from(raw, at + 1)
    } else {
        let rest = raw.subrange(at + 1, raw.len() as int);
        if starts_with(rest, seq![13u8, 10u8]) || starts_with(rest, seq![10u8]) {
            invalid_escape_from(raw, at + 2)
        } else if rest.len() >= 2 && is_hex_digit(rest[0]) && is_hex_digit(rest[1]) {
            invalid_escape_from(raw, at + 3)
        } else {
            Some(at)
        }
    }
}

fn hex_digit(b: u8) -> (r: bool)
    ensures
        r == is_hex_digit(b),
{
    (48u8 <= b && b <= 57u8) || (97u8 <= b && b <= 102u8) || (65u8 <= b && b <= 70u8)
}

/// Offset of a quoted-printable escape a strict decoder would reject, if any.
///
/// Robust decoding passes an invalid escape through as literal text, so `=ZZ`
/// survives as three characters where the sender meant one byte. Only `=` with
/// two hex digits and `=` before a line ending are valid; everything else,
/// including a trailing `=` with nothing after it, is reported.
pub fn first_invalid_escape(raw: &[u8]) -> (res: Option<usize>)
    ensures
        match res {
            Some(at) => invalid_escape_from(raw@, 0) == Some(at as int),
            None => invalid_escape_from(raw@, 0) is None,
        },
{
    let mut at: usize = 0;
    while at < raw.len()
        invariant
            invalid_escape_from(raw@, 0) == invalid_escape_from(raw@, at as int),
        decreases raw@.len() - at,
    {
        if raw[at] != 61u8 {
            at = at + 1;
            continue;
        }
        let n = raw.len();
        let ghost rest = raw@.subrange(at + 1, n as int);
        let crlf = n - at > 2 && raw[at + 1] == 13u8 && raw[at + 2] == 10u8;
        let lf = n - at > 1 && raw[at + 1] == 10u8;
        proof {
            let crlf_s = seq![13u8, 10u8];
            let lf_s = seq![10u8];
            if crlf {
                assert(rest.subrange(0, 2) =~= crlf_s);
            } else if 2 <= rest.len() {
                assert(rest.subrange(0, 2) != crlf_s) by {
                    if rest.subrange(0, 2) == crlf_s {
                        assert(rest.subrange(0, 2)[0] == crlf_s[0]);
                        assert(rest.subrange(0, 2)[1] == crlf_s[1]);
                    }
                }
            }
            if lf {
                assert(rest.subrange(0, 1) =~= lf_s);
            } else if 1 <= rest.len() {
                assert(rest.subrange(0, 1) != lf_s) by {
                    if rest.subrange(0, 1) == lf_s {
                        assert(rest.subrange(0, 1)[0] == lf_s[0]);
                    }
                }
            }
        }
        if crlf || lf {
            at = at + 2;
            continue;
        }
        if n - at >= 3 && hex_digit(raw[at + 1]) && hex_digit(raw[at + 2]) {
            at = at + 3;
            continue;
        }
        return Some(at);
    }
    None
}

pub open spec fn is_ascii_whitespace(b: u8) -> bool {
    b == 32u8 || b == 9u8 || b == 10u8 || b == 12u8 || b == 13u8
}

/// `s` without its ASCII whitespace (space, tab, LF, FF, CR).
pub open spec fn strip_whitespace(s: Seq<u8>) -> Seq<u8>
    decreases s.len(),
{
    if s.len() == 0 {
        Seq::empty()
    } else if is_ascii_whitespace(s.last()) {
        strip_whitespace(s.drop_last())
    } else {
        strip_whitespace(s.drop_last()).push(s.last())
    }
}

pub proof fn lemma_strip_whitespace_len(s: Seq<u8>)
    ensures
        strip_whitespace(s).len() <= s.len(),
    decreases s.len(),
{
    if s.len() > 0 {
        lemma_strip_whitespace_len(s.drop_last());
    }
}

/// `body` without its ASCII whitespace: exactly the bytes
/// `u8::is_ascii_whitespace` names, so `0x0B` and other control bytes stay.
pub fn strip_ascii_whitespace(body: &[u8]) -> (cleaned: Vec<u8>)
    ensures
        cleaned@ == strip_whitespace(body@),
{
    let mut cleaned: Vec<u8> = Vec::with_capacity(body.len());
    let mut i: usize = 0;
    while i < body.len()
        invariant
            i <= body@.len(),
            cleaned@ == strip_whitespace(body@.subrange(0, i as int)),
        decreases body@.len() - i,
    {
        let b = body[i];
        proof {
            assert(body@.subrange(0, i + 1).drop_last() =~= body@.subrange(0, i as int));
        }
        if !(b == 32u8 || b == 9u8 || b == 10u8 || b == 12u8 || b == 13u8) {
            cleaned.push(b);
        }
        i = i + 1;
    }
    assert(body@.subrange(0, body@.len() as int) =~= body@);
    cleaned
}

} // verus!
