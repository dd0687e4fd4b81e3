//! Finding a message's largest leaf: the part whose encoded body is longest,
//! which is the part a decode benchmark times. The walk goes over every part
//! `mailparse` parsed, however deep.

use vstd::prelude::*;
use crate::bridge::{
    encoded_body_of, mailparse_accepts, mp_encoded_body, mp_height, mp_raw_bytes, mp_subpart_count,
    parse_structure, raw_bytes_of, root_of, subpart, subpart_count, PartRef,
};

verus! {

/// The best leaf after considering the part at `path` of `mailparse`'s parse
/// of `src` (a leaf is a part with no subparts) and then every part below
/// it, in order, starting from `best`: a leaf replaces the best so far only
/// when its encoded body is strictly longer, so the first of equally long
/// leaves is kept. The pair is the part as it sits in the message and its
/// encoded body. `h` is the height of the part's subtree, which bounds the
/// walk.
pub open spec fn leaf_walk(src: Seq<u8>, path: Seq<int>, best: Option<(Seq<u8>, Seq<u8>)>, h: nat) -> Option<(Seq<u8>, Seq<u8>)>
    decreases h, 1int, 0int,
{
    let body = mp_encoded_body(src, path).1;
    let longer = match best {
        None => true,
        Some(b) => b.1.len() < body.len(),
    };
    let here = if mp_subpart_count(src, path) == 0 && longer {
        Some((mp_raw_bytes(src, path), body))
    } else {
        best
    };
    leaf_walk_all(src, path, mp_subpart_count(src, path), here, h)
}

/// `leaf_walk` over the first `n` subparts of the part at `path`, in order.
pub open spec fn leaf_walk_all(src: Seq<u8>, path: Seq<int>, n: nat, best: Option<(Seq<u8>, Seq<u8>)>, h: nat) -> Option<(Seq<u8>, Seq<u8>)>
    decreases h, 0int, n,
{
    if n == 0 {
        best
    } else {
        let prior = leaf_walk_all(src, path, (n - 1) as nat, best, h);
        let child = path.push(n - 1);
        if mp_height(src, child) < h {
            leaf_walk(src, child, prior, mp_height(src, child))
        } else {
            prior
        }
    }
}

/// The largest leaf of the message `mailparse` parses from `src`.
pub open spec fn largest_leaf_in(src: Seq<u8>) -> Option<(Seq<u8>, Seq<u8>)> {
    leaf_walk(src, Seq::empty(), None, mp_height(src, Seq::empty()))
}

pub open spec fn pair_view(o: Option<(Vec<u8>, Vec<u8>)>) -> Option<(Seq<u8>, Seq<u8>)> {
    match o {
        Some((a, b)) => Some((a@, b@)),
        None => None,
    }
}

fn walk(p: &PartRef<'_, '_>, best: &mut Option<(Vec<u8>, Vec<u8>)>)
    ensures
        pair_view(*final(best)) == leaf_walk(p.source(), p.path(), pair_view(*old(best)), mp_height(p.source(), p.path())),
        *final(best) is Some,
    decreases mp_height(p.source(), p.path()),
{
    let ghost src = p.source();
    let ghost path = p.path();
    let ghost h = mp_height(src, path);
    let (_, body) = encoded_body_of(p);
    let count = subpart_count(p);
    if count == 0 {
        let replace = match best {
            None => true,
            Some((_, current)) => current.len() < body.len(),
        };
        if replace {
            *best = Some((vstd::slice::slice_to_vec(raw_bytes_of(p)), vstd::slice::slice_to_vec(body)));
        }
    }
    let ghost start = pair_view(*best);
    assert(start == {
        let longer = match pair_view(*old(best)) {
            None => true,
            Some(b) => b.1.len() < body@.len(),
        };
        if mp_subpart_count(src, path) == 0 && longer {
            Some((mp_raw_bytes(src, path), body@))
        } else {
            pair_view(*old(best))
        }
    });
    let mut i: usize = 0;
    while i < count
        invariant
            i <= count,
            count == mp_subpart_count(src, path),
            p.source() == src,
            p.path() == path,
            h == mp_height(src, path),
            pair_view(*best) == leaf_walk_all(src, path, i as nat, start, h),
            count == 0 ==> *best is Some,
            i > 0 ==> *best is Some,
        decreases count - i,
    {
        let child = subpart(p, i);
        walk(&child, best);
        i = i + 1;
    }
}

/// The largest leaf of a payload: the first of its leaves whose encoded
/// body is longest, as the part and that body. `None` exactly when
/// `mailparse` refuses the payload's header block; every message it parses
/// has a leaf.
pub fn largest_leaf(payload: &[u8]) -> (res: Option<(Vec<u8>, Vec<u8>)>)
    ensures
        res is Some <==> mailparse_accepts(payload@),
        mailparse_accepts(payload@) ==> pair_view(res) == largest_leaf_in(payload@),
{
    match parse_structure(payload) {
        Ok(parsed) => {
            let root = root_of(&parsed);
            let mut best: Option<(Vec<u8>, Vec<u8>)> = None;
            walk(&root, &mut best);
            best
        },
        Err(_) => None,
    }
}

} // verus!
