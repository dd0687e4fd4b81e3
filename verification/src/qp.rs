//! Quoted-printable body decoding in robust mode: invalid input is passed
//! through rather than rejected, so decoding never fails.
//!
//! The rules, in the order they apply:
//!
//! 1. Bytes outside `{0x09, 0x0A, 0x0D} ∪ [0x20, 0x7E]` are dropped first, so
//!    they affect neither line splitting nor trimming.
//! 2. Lines split on LF; a final line without LF is a line.
//! 3. Each line is trimmed of trailing space, tab and CR.
//! 4. `=` + two hex digits is one byte; `=` at end of line is a soft break;
//!    `=X` at end of line is literal and the line still ends; `=XY` with a
//!    non-hex digit is three literal bytes and decoding continues after `Y`.
//! 5. CRLF joins consecutive lines, except after a soft break.
//! 6. If the filtered input ends with LF, one CRLF is appended -- even when the
//!    last line ended in a soft break.

use vstd::prelude::*;
use crate::scan::{index_from, is_hex_digit, lemma_index_from_bounds};

verus! {

/// Rule 1: the bytes robust decoding keeps.
pub open spec fn is_kept(b: u8) -> bool {
    b == 9u8 || b == 10u8 || b == 13u8 || (32u8 <= b <= 126u8)
}

pub open spec fn kept_bytes(s: Seq<u8>) -> Seq<u8>
    decreases s.len(),
{
    if s.len() == 0 {
        Seq::empty()
    } else if is_kept(s.last()) {
        kept_bytes(s.drop_last()).push(s.last())
    } else {
        kept_bytes(s.drop_last())
    }
}

pub open spec fn is_trimmed(b: u8) -> bool {
    b == 32u8 || b == 9u8 || b == 13u8
}

/// Rule 3: `line` without its trailing space, tab and CR.
pub open spec fn trim_line(line: Seq<u8>) -> Seq<u8>
    decreases line.len(),
{
    if line.len() > 0 && is_trimmed(line.last()) {
        trim_line(line.drop_last())
    } else {
        line
    }
}

pub open spec fn hex_value(b: u8) -> int {
    if 48u8 <= b <= 57u8 {
        b - 48
    } else if 97u8 <= b <= 102u8 {
        b - 97 + 10
    } else {
        b - 65 + 10
    }
}

/// Rule 4 on one trimmed line from `pos`: the decoded bytes, and whether the
/// line ended normally (`false` after a soft break).
pub open spec fn decode_line_from(line: Seq<u8>, pos: int) -> (Seq<u8>, bool)
    decreases line.len() - pos,
{
    if pos < 0 || pos >= line.len() {
        (Seq::empty(), true)
    } else if line[pos] != 61u8 {
        let (rest, ends) = decode_line_from(line, pos + 1);
        (seq![line[pos]] + rest, ends)
    } else if pos + 1 >= line.len() {
        (Seq::empty(), false)
    } else if pos + 2 >= line.len() {
        (seq![61u8, line[pos + 1]], true)
    } else if is_hex_digit(line[pos + 1]) && is_hex_digit(line[pos + 2]) {
        let (rest, ends) = decode_line_from(line, pos + 3);
        (seq![(hex_value(line[pos + 1]) * 16 + hex_value(line[pos + 2])) as u8] + rest, ends)
    } else {
        let (rest, ends) = decode_line_from(line, pos + 3);
        (seq![61u8, line[pos + 1], line[pos + 2]] + rest, ends)
    }
}

pub open spec fn crlf() -> Seq<u8> {
    seq![13u8, 10u8]
}

/// Rules 2 to 5 on the filtered input `f`, from the line starting at `pos`;
/// `pending` is whether the previous line asked for a CRLF before this one.
pub open spec fn decode_lines_from(f: Seq<u8>, pos: int, pending: bool) -> Seq<u8>
    decreases f.len() - pos,
{
    if pos < 0 || pos >= f.len() {
        Seq::empty()
    } else {
        let end = match index_from(f, 10u8, pos) {
            Some(nl) => nl,
            None => f.len() as int,
        };
        if end < pos || end > f.len() {
            Seq::empty()
        } else {
            let (decoded, ends) = decode_line_from(trim_line(f.subrange(pos, end)), 0);
            (if pending {
                crlf()
            } else {
                Seq::empty()
            }) + decoded + if end < f.len() {
                decode_lines_from(f, end + 1, ends)
            } else {
                Seq::empty()
            }
        }
    }
}

/// What robust quoted-printable decoding produces for `input`.
pub open spec fn qp_robust(input: Seq<u8>) -> Seq<u8> {
    let f = kept_bytes(input);
    decode_lines_from(f, 0, false) + (if f.len() > 0 && f.last() == 10u8 {
        crlf()
    } else {
        Seq::empty()
    })
}

proof fn lemma_kept_len(s: Seq<u8>)
    ensures
        kept_bytes(s).len() <= s.len(),
    decreases s.len(),
{
    if s.len() > 0 {
        lemma_kept_len(s.drop_last());
    }
}

proof fn lemma_trim_len(line: Seq<u8>)
    ensures
        trim_line(line).len() <= line.len(),
    decreases line.len(),
{
    if line.len() > 0 && is_trimmed(line.last()) {
        lemma_trim_len(line.drop_last());
    }
}

proof fn lemma_decode_line_len(line: Seq<u8>, pos: int)
    requires
        0 <= pos <= line.len(),
    ensures
        decode_line_from(line, pos).0.len() <= line.len() - pos,
    decreases line.len() - pos,
{
    if pos < line.len() {
        if line[pos] != 61u8 {
            lemma_decode_line_len(line, pos + 1);
        } else if pos + 2 < line.len() {
            lemma_decode_line_len(line, pos + 3);
        }
    }
}

proof fn lemma_lines_len(f: Seq<u8>, pos: int, pending: bool)
    requires
        0 <= pos <= f.len(),
    ensures
        decode_lines_from(f, pos, pending).len() + (if pos < f.len() && f.last() == 10u8 { 2int } else { 0int })
            <= 2 * (f.len() - pos) + (if pending { 2int } else { 0int }),
    decreases f.len() - pos,
{
    if pos < f.len() {
        lemma_index_from_bounds(f, 10u8, pos);
        let end = match index_from(f, 10u8, pos) {
            Some(nl) => nl,
            None => f.len() as int,
        };
        let trimmed = trim_line(f.subrange(pos, end));
        lemma_trim_len(f.subrange(pos, end));
        lemma_decode_line_len(trimmed, 0);
        let (decoded, ends) = decode_line_from(trimmed, 0);
        if end < f.len() {
            if end + 1 == f.len() {
                lemma_decode_lines_len_rest(f, end + 1, ends);
            }
            lemma_lines_len(f, end + 1, ends);
        } else {
            assert(f[f.len() - 1] != 10u8);
        }
    }
}

proof fn lemma_decode_lines_len_rest(f: Seq<u8>, pos: int, pending: bool)
    requires
        0 <= pos,
        pos >= f.len(),
    ensures
        decode_lines_from(f, pos, pending).len() == 0,
{
}

/// Robust decoding at most doubles its input: each kept byte yields at most
/// one byte, and each LF at most one CRLF.
pub proof fn lemma_qp_robust_len(input: Seq<u8>)
    ensures
        qp_robust(input).len() <= 2 * input.len(),
{
    let f = kept_bytes(input);
    lemma_kept_len(input);
    lemma_lines_len(f, 0, false);
}

proof fn lemma_index_from_range(s: Seq<u8>, needle: u8, from: int)
    requires
        from >= 0,
    ensures
        index_from(s, needle, from) matches Some(i) ==> from <= i < s.len(),
    decreases s.len() - from,
{
    if from < s.len() && s[from] != needle {
        lemma_index_from_range(s, needle, from + 1);
    }
}

fn kept(input: &[u8]) -> (f: Vec<u8>)
    ensures
        f@ == kept_bytes(input@),
{
    let mut f: Vec<u8> = Vec::with_capacity(input.len());
    let mut i: usize = 0;
    while i < input.len()
        invariant
            i <= input@.len(),
            f@ == kept_bytes(input@.subrange(0, i as int)),
        decreases input@.len() - i,
    {
        let b = input[i];
        proof {
            assert(input@.subrange(0, i + 1).drop_last() =~= input@.subrange(0, i as int));
        }
        if b == 9u8 || b == 10u8 || b == 13u8 || (32u8 <= b && b <= 126u8) {
            f.push(b);
        }
        i = i + 1;
    }
    assert(input@.subrange(0, input@.len() as int) =~= input@);
    f
}

fn hex_val(b: u8) -> (v: u8)
    requires
        is_hex_digit(b),
    ensures
        v as int == hex_value(b),
        v < 16,
{
    if 48u8 <= b && b <= 57u8 {
        b - 48
    } else if 97u8 <= b && b <= 102u8 {
        b - 87
    } else {
        b - 55
    }
}

/// Decode `f[start..end]` (one trimmed line) into `out`; `false` after a soft
/// break.
fn decode_line(f: &[u8], start: usize, end: usize, out: &mut Vec<u8>) -> (ends: bool)
    requires
        start <= end <= f@.len(),
    ensures
        final(out)@ == old(out)@ + decode_line_from(f@.subrange(start as int, end as int), 0).0,
        ends == decode_line_from(f@.subrange(start as int, end as int), 0).1,
{
    let ghost line = f@.subrange(start as int, end as int);
    let ghost init = out@;
    let mut pos = start;
    while pos < end
        invariant
            start <= pos <= end <= f@.len(),
            line == f@.subrange(start as int, end as int),
            init == old(out)@,
            init + decode_line_from(line, 0).0 == out@ + decode_line_from(line, pos - start).0,
            decode_line_from(line, 0).1 == decode_line_from(line, pos - start).1,
        decreases end - pos,
    {
        let ghost p = pos - start;
        let ghost before = out@;
        let b = f[pos];
        assert(line[p] == b);
        if b != 61u8 {
            out.push(b);
            proof {
                let (rest, e) = decode_line_from(line, p + 1);
                assert(decode_line_from(line, p).0 == seq![b] + rest);
                assert(out@ + rest =~= before + (seq![b] + rest));
            }
            pos = pos + 1;
            continue;
        }
        if end - pos == 1 {
            assert(decode_line_from(line, p) == (Seq::<u8>::empty(), false));
            assert(before + decode_line_from(line, p).0 =~= out@);
            return false;
        }
        let upper = f[pos + 1];
        assert(line[p + 1] == upper);
        if end - pos == 2 {
            out.push(61u8);
            out.push(upper);
            proof {
                assert(decode_line_from(line, p) == (seq![61u8, upper], true));
                assert(out@ =~= before + seq![61u8, upper]);
                assert(before + decode_line_from(line, p).0 =~= out@);
            }
            return true;
        }
        let lower = f[pos + 2];
        assert(line[p + 2] == lower);
        if is_hex(upper) && is_hex(lower) {
            let v = hex_val(upper) * 16 + hex_val(lower);
            out.push(v);
            proof {
                let (rest, e) = decode_line_from(line, p + 3);
                assert(decode_line_from(line, p).0 == seq![v] + rest);
                assert(out@ + rest =~= before + (seq![v] + rest));
            }
        } else {
            out.push(61u8);
            out.push(upper);
            out.push(lower);
            proof {
                let (rest, e) = decode_line_from(line, p + 3);
                assert(decode_line_from(line, p).0 == seq![61u8, upper, lower] + rest);
                assert(out@ + rest =~= before + (seq![61u8, upper, lower] + rest));
            }
        }
        pos = pos + 3;
    }
    assert(out@ + Seq::<u8>::empty() =~= out@);
    true
}

fn is_hex(b: u8) -> (r: bool)
    ensures
        r == is_hex_digit(b),
{
    (48u8 <= b && b <= 57u8) || (97u8 <= b && b <= 102u8) || (65u8 <= b && b <= 70u8)
}

/// End of the line that starts at `pos`, trimmed of trailing space, tab, CR.
fn trimmed_end(f: &[u8], pos: usize, end: usize) -> (t: usize)
    requires
        pos <= end <= f@.len(),
    ensures
        pos <= t <= end,
        f@.subrange(pos as int, t as int) == trim_line(f@.subrange(pos as int, end as int)),
{
    let mut t = end;
    while t > pos && (f[t - 1] == 32u8 || f[t - 1] == 9u8 || f[t - 1] == 13u8)
        invariant
            pos <= t <= end <= f@.len(),
            trim_line(f@.subrange(pos as int, t as int)) == trim_line(
                f@.subrange(pos as int, end as int),
            ),
        decreases t - pos,
    {
        assert(f@.subrange(pos as int, t as int).drop_last() =~= f@.subrange(
            pos as int,
            t - 1,
        ));
        t = t - 1;
    }
    t
}

/// Decode a quoted-printable body in robust mode.
pub fn decode_quoted_printable(input: &[u8]) -> (out: Vec<u8>)
    ensures
        out@ == qp_robust(input@),
{
    let f = kept(input);
    let mut out: Vec<u8> = Vec::with_capacity(f.len());
    let mut pending = false;
    let mut pos: usize = 0;
    while pos < f.len()
        invariant
            pos <= f@.len(),
            decode_lines_from(f@, 0, false) == out@ + decode_lines_from(f@, pos as int, pending),
        decreases f@.len() - pos,
    {
        let nl = crate::scan::find_byte(&f, 10u8, pos);
        proof {
            lemma_index_from_range(f@, 10u8, pos as int);
        }
        let (end, next) = match nl {
            Some(i) => (i, i + 1),
            None => (f.len(), f.len()),
        };
        let t = trimmed_end(&f, pos, end);
        let ghost before = out@;
        let ghost was_pending = pending;
        if pending {
            out.push(13u8);
            out.push(10u8);
        }
        let ghost mid = out@;
        pending = decode_line(&f, pos, t, &mut out);
        proof {
            let (decoded, ends) = decode_line_from(trim_line(f@.subrange(pos as int, end as int)), 0);
            assert(decode_lines_from(f@, pos as int, was_pending) == (if was_pending {
                crlf()
            } else {
                Seq::empty()
            }) + decoded + decode_lines_from(f@, next as int, ends));
            assert(mid == before + (if was_pending {
                crlf()
            } else {
                Seq::empty()
            }));
            assert(out@ == mid + decoded);
            assert(before + decode_lines_from(f@, pos as int, was_pending) =~= out@
                + decode_lines_from(f@, next as int, pending));
        }
        pos = next;
    }
    assert(out@ + decode_lines_from(f@, pos as int, pending) =~= out@);
    if f.len() > 0 && f[f.len() - 1] == 10u8 {
        out.push(13u8);
        out.push(10u8);
    }
    out
}

} // verus!
