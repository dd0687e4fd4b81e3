//! Where a deferred part's encoded bytes live: a range of the buffer the
//! message was parsed from, or an owned copy for bytes that are in no caller
//! buffer.

use vstd::prelude::*;
use crate::bridge::address_of;

verus! {

/// Where a deferred leaf's encoded bytes live.
///
/// `Range` is a sub-range of the buffer the message was parsed from; `Owned` is
/// a copy, for bytes that are in no caller buffer (a leaf inside a decoded
/// `message/rfc822` body).
#[derive(Debug)]
pub enum Retained {
    /// A sub-range of the buffer the message was parsed from.
    Range(core::ops::Range<usize>),
    /// An owned copy, for bytes that are in no caller buffer.
    Owned(Vec<u8>),
}

/// A `Retained` as plain values.
pub enum RetainedView {
    Range(usize, usize),
    Owned(Seq<u8>),
}

impl View for Retained {
    type V = RetainedView;

    open spec fn view(&self) -> RetainedView {
        match self {
            Retained::Range(r) => RetainedView::Range(r.start, r.end),
            Retained::Owned(v) => RetainedView::Owned(v@),
        }
    }
}

impl Retained {
    /// The range indexes a buffer of length `base_len`.
    pub open spec fn fits(self, base_len: nat) -> bool {
        match self {
            Retained::Range(r) => r.start <= r.end && r.end <= base_len,
            Retained::Owned(_) => true,
        }
    }

    /// The bytes, given the buffer they were parsed from.
    pub open spec fn bytes_in(self, base: Seq<u8>) -> Seq<u8> {
        match self {
            Retained::Range(r) => base.subrange(r.start as int, r.end as int),
            Retained::Owned(v) => v@,
        }
    }

    pub open spec fn spec_len(self) -> nat {
        match self {
            Retained::Range(r) => if r.start <= r.end {
                (r.end - r.start) as nat
            } else {
                0
            },
            Retained::Owned(v) => v@.len(),
        }
    }

    /// Retain `part`: as offsets when it is a subslice of `base`, as a copy when
    /// it is not.
    ///
    /// The range arm is taken only when `part` sits inside `base` and the bytes
    /// at those offsets are `part`'s bytes, so for either arm the retained bytes
    /// are exactly `part`.
    pub fn of(base: &[u8], part: &[u8]) -> (r: Retained)
        ensures
            r.fits(base@.len()),
            r.bytes_in(base@) == part@,
    {
        let base_at = address_of(base);
        let part_at = address_of(part);
        if part_at >= base_at {
            let start = part_at - base_at;
            if start <= base.len() && part.len() <= base.len() - start {
                let end = start + part.len();
                if same_bytes(base, start, part) {
                    return Retained::Range(core::ops::Range { start, end });
                }
            }
        }
        Retained::Owned(vstd::slice::slice_to_vec(part))
    }

    /// The bytes, given the buffer they were parsed from: the caller's payload,
    /// or the repaired copy the result carries when one was made.
    pub fn slice<'a>(&'a self, base: &'a [u8]) -> (s: &'a [u8])
        requires
            self.fits(base@.len()),
        ensures
            s@ == self.bytes_in(base@),
    {
        match self {
            Retained::Range(range) => vstd::slice::slice_subrange(base, range.start, range.end),
            Retained::Owned(bytes) => bytes.as_slice(),
        }
    }

    /// The number of bytes retained, without needing the base buffer.
    pub fn len(&self) -> (n: usize)
        ensures
            n == self.spec_len(),
    {
        match self {
            Retained::Range(range) => if range.start <= range.end {
                range.end - range.start
            } else {
                0
            },
            Retained::Owned(bytes) => bytes.len(),
        }
    }

    /// A second `Retained` for the same bytes: the same range, or a copy of
    /// the owned bytes.
    pub fn duplicate(&self) -> (r: Retained)
        ensures
            r@ == self@,
    {
        match self {
            Retained::Range(range) => Retained::Range(core::ops::Range { start: range.start, end: range.end }),
            Retained::Owned(bytes) => Retained::Owned(vstd::slice::slice_to_vec(bytes.as_slice())),
        }
    }

    pub fn is_empty(&self) -> (b: bool)
        ensures
            b == (self.spec_len() == 0),
    {
        self.len() == 0
    }
}

/// `base[start..start + part.len()] == part`.
fn same_bytes(base: &[u8], start: usize, part: &[u8]) -> (r: bool)
    requires
        start + part@.len() <= base@.len(),
    ensures
        r == (base@.subrange(start as int, start + part@.len()) == part@),
{
    let n = base.len();
    let mut i: usize = 0;
    while i < part.len()
        invariant
            n == base@.len(),
            i <= part@.len(),
            start + part@.len() <= base@.len(),
            forall|j: int| 0 <= j < i ==> base@[start + j] == part@[j],
        decreases part@.len() - i,
    {
        if base[start + i] != part[i] {
            assert(base@.subrange(start as int, start + part@.len())[i as int] != part@[i as int]);
            return false;
        }
        i = i + 1;
    }
    assert(base@.subrange(start as int, start + part@.len()) =~= part@);
    true
}

} // verus!
