//! What a part is and which name it answers to: the header table, the
//! body-versus-attachment rule, and a part's filename, content id and
//! disposition token.

use vstd::prelude::*;
use crate::model::{
    first_header_index, find_header, lemma_first_header_index, DispositionKind, HeaderField,
    RawPart,
};
use crate::text::{chars_of, has_prefix, is_white_space, str_eq, str_starts_with, white_space};
use std::collections::hash_map::DefaultHasher;
use std::collections::HashMap;
use std::hash::Hasher;
use vstd::std_specs::hash::DefaultHasherAdditionalSpecFns;

verus! {

/// One key of the header table: the raw key bytes it groups by, the key as
/// reported, and every value it appeared with, in order.
pub struct HeaderGroup {
    pub raw: Seq<u8>,
    pub key: String,
    pub values: Seq<String>,
}

/// Index of the group whose raw key is `raw`.
pub open spec fn group_of(t: Seq<HeaderGroup>, raw: Seq<u8>) -> Option<int>
    decreases t.len(),
{
    if t.len() == 0 {
        None
    } else {
        match group_of(t.drop_last(), raw) {
            Some(i) => Some(i),
            None => if t.last().raw == raw {
                Some(t.len() - 1)
            } else {
                None
            },
        }
    }
}

/// The header table: one group per distinct raw key, in order of first
/// appearance, each holding every value of that key in message order.
pub open spec fn header_groups(hs: Seq<HeaderField>) -> Seq<HeaderGroup>
    decreases hs.len(),
{
    if hs.len() == 0 {
        Seq::empty()
    } else {
        let t = header_groups(hs.drop_last());
        let h = hs.last();
        match group_of(t, h.key_raw@) {
            Some(i) => t.update(i, HeaderGroup { raw: t[i].raw, key: t[i].key, values: t[i].values.push(h.value) }),
            None => t.push(HeaderGroup { raw: h.key_raw@, key: h.key, values: seq![h.value] }),
        }
    }
}

/// The table as the values a caller sees.
pub open spec fn header_table(hs: Seq<HeaderField>) -> Seq<(Seq<char>, Seq<Seq<char>>)> {
    header_groups(hs).map_values(|g: HeaderGroup| (g.key@, g.values.map_values(|v: String| v@)))
}

pub proof fn lemma_group_of(t: Seq<HeaderGroup>, raw: Seq<u8>)
    ensures
        group_of(t, raw) matches Some(i) ==> 0 <= i < t.len() && t[i].raw == raw && forall|j: int|
            0 <= j < i ==> (#[trigger] t[j]).raw != raw,
        group_of(t, raw) is None ==> forall|j: int| 0 <= j < t.len() ==> (#[trigger] t[j]).raw != raw,
    decreases t.len(),
{
    if t.len() > 0 {
        lemma_group_of(t.drop_last(), raw);
        assert forall|j: int| 0 <= j < t.len() - 1 implies t.drop_last()[j] == t[j] by {}
    }
}

pub proof fn lemma_group_of_first(t: Seq<HeaderGroup>, raw: Seq<u8>, i: int)
    requires
        0 <= i < t.len(),
        t[i].raw == raw,
        forall|j: int| 0 <= j < i ==> (#[trigger] t[j]).raw != raw,
    ensures
        group_of(t, raw) == Some(i),
{
    lemma_group_of(t, raw);
}

fn bytes_eq(a: &[u8], b: &[u8]) -> (r: bool)
    ensures
        r == (a@ == b@),
{
    if a.len() != b.len() {
        return false;
    }
    let mut i: usize = 0;
    while i < a.len()
        invariant
            i <= a@.len() == b@.len(),
            forall|k: int| 0 <= k < i ==> a@[k] == b@[k],
        decreases a@.len() - i,
    {
        if a[i] != b[i] {
            return false;
        }
        i = i + 1;
    }
    assert(a@ =~= b@);
    true
}

/// The hash a raw key is bucketed by: `DefaultHasher` over the key bytes,
/// which is deterministic within a process.
pub open spec fn key_hash(raw: Seq<u8>) -> u64 {
    DefaultHasher::spec_finish(seq![raw])
}

fn key_hash_of(raw: &[u8]) -> (h: u64)
    ensures
        h == key_hash(raw@),
{
    let mut hasher = DefaultHasher::new();
    hasher.write(raw);
    assert(hasher@ =~= seq![raw@]);
    hasher.finish()
}

/// Every group index is in the bucket of its key's hash, and every bucket
/// holds only group indices.
pub open spec fn buckets_cover(b: Map<u64, Vec<usize>>, raws: Seq<Vec<u8>>) -> bool {
    &&& forall|j: int| 0 <= j < raws.len() ==> b.contains_key(key_hash((#[trigger] raws[j])@))
        && b[key_hash(raws[j]@)]@.contains(j as usize)
    &&& forall|h: u64, k: int| b.contains_key(h) && 0 <= k < b[h]@.len() ==> (#[trigger] b[h]@[k]) < raws.len()
}

/// Every value of every header, keyed by name, in first-appearance key order.
///
/// Keys group by their raw bytes, so they stay case-sensitive: `Received` and
/// `received` are separate entries. A repeated key keeps all its values.
/// Groups are found through buckets keyed by the key's hash, so a message
/// with many header fields is not a quadratic amount of work.
pub fn collect_headers(hs: &Vec<HeaderField>) -> (table: Vec<(String, Vec<String>)>)
    ensures
        table@.len() == header_groups(hs@).len(),
        forall|k: int| 0 <= k < table@.len() ==> (#[trigger] table@[k]).0 == header_groups(hs@)[k].key
            && table@[k].1@ == header_groups(hs@)[k].values,
{
    broadcast use vstd::std_specs::hash::group_hash_axioms;
    let mut table: Vec<(String, Vec<String>)> = Vec::new();
    let mut raws: Vec<Vec<u8>> = Vec::new();
    let mut buckets: HashMap<u64, Vec<usize>> = HashMap::new();
    let mut i: usize = 0;
    while i < hs.len()
        invariant
            i <= hs@.len(),
            table@.len() == raws@.len() == header_groups(hs@.subrange(0, i as int)).len(),
            forall|k: int| 0 <= k < table@.len() ==> (#[trigger] table@[k]).0 == header_groups(hs@.subrange(0, i as int))[k].key
                && table@[k].1@ == header_groups(hs@.subrange(0, i as int))[k].values,
            forall|k: int| 0 <= k < raws@.len() ==> (#[trigger] raws@[k])@ == header_groups(hs@.subrange(0, i as int))[k].raw,
            forall|a: int, b: int| 0 <= a < b < raws@.len() ==> (#[trigger] raws@[a])@ != (#[trigger] raws@[b])@,
            buckets_cover(buckets@, raws@),
        decreases hs@.len() - i,
    {
        let ghost t = header_groups(hs@.subrange(0, i as int));
        let h = &hs[i];
        proof {
            assert(hs@.subrange(0, i + 1).drop_last() =~= hs@.subrange(0, i as int));
            assert(hs@.subrange(0, i + 1).last() == hs@[i as int]);
        }
        let hv = key_hash_of(h.key_raw.as_slice());
        let found = find_raw(&buckets, &raws, hv, h.key_raw.as_slice());
        proof {
            lemma_group_of(t, h.key_raw@);
            if let Some(j) = found {
                assert forall|k: int| 0 <= k < j implies (#[trigger] t[k]).raw != h.key_raw@ by {
                    assert(raws@[k]@ != raws@[j as int]@);
                }
                lemma_group_of_first(t, h.key_raw@, j as int);
            } else {
                assert forall|k: int| 0 <= k < t.len() implies (#[trigger] t[k]).raw != h.key_raw@ by {
                    assert(raws@[k]@ != h.key_raw@);
                }
            }
        }
        match found {
            Some(j) => {
                table[j].1.push(h.value.clone());
            },
            None => {
                let j = raws.len();
                let ghost old_buckets = buckets@;
                let ghost old_raws = raws@;
                table.push((h.key.clone(), vec![h.value.clone()]));
                raws.push(h.key_raw.clone());
                let mut list = match buckets.remove(&hv) {
                    Some(l) => l,
                    None => Vec::new(),
                };
                let ghost old_list = list@;
                list.push(j);
                buckets.insert(hv, list);
                proof {
                    assert(raws@.last()@ == h.key_raw@);
                    assert forall|a: int| 0 <= a < raws@.len() implies buckets@.contains_key(key_hash((#[trigger] raws@[a])@))
                        && buckets@[key_hash(raws@[a]@)]@.contains(a as usize) by {
                        if a < old_raws.len() {
                            assert(raws@[a] == old_raws[a]);
                            if key_hash(raws@[a]@) == hv {
                                assert(old_buckets[hv]@.contains(a as usize));
                                let w = choose|w: int| 0 <= w < old_buckets[hv]@.len() && old_buckets[hv]@[w] == a as usize;
                                assert(buckets@[hv]@[w] == a as usize);
                            }
                        } else {
                            assert(buckets@[hv]@[old_list.len() as int] == j);
                        }
                    }
                    assert forall|hh: u64, k: int| buckets@.contains_key(hh) && 0 <= k < buckets@[hh]@.len() implies
                        (#[trigger] buckets@[hh]@[k]) < raws@.len() by {
                        if hh == hv && k < old_list.len() {
                            assert(old_buckets.contains_key(hv));
                            assert(buckets@[hh]@[k] == old_buckets[hv]@[k]);
                        } else if hh != hv {
                            assert(buckets@[hh] == old_buckets[hh]);
                        }
                    }
                }
            },
        }
        i = i + 1;
    }
    assert(hs@.subrange(0, hs@.len() as int) =~= hs@);
    table
}

/// The group whose raw key is `key`, found through its hash's bucket.
fn find_raw(buckets: &HashMap<u64, Vec<usize>>, raws: &Vec<Vec<u8>>, hv: u64, key: &[u8]) -> (res: Option<usize>)
    requires
        buckets_cover(buckets@, raws@),
        hv == key_hash(key@),
    ensures
        match res {
            Some(j) => j < raws@.len() && raws@[j as int]@ == key@,
            None => forall|k: int| 0 <= k < raws@.len() ==> (#[trigger] raws@[k])@ != key@,
        },
{
    broadcast use vstd::std_specs::hash::group_hash_axioms;
    match buckets.get(&hv) {
        None => {
            assert forall|k: int| 0 <= k < raws@.len() implies (#[trigger] raws@[k])@ != key@ by {
                if raws@[k]@ == key@ {
                    assert(buckets@.contains_key(key_hash(raws@[k]@)));
                }
            }
            None
        },
        Some(list) => {
            let mut m: usize = 0;
            while m < list.len()
                invariant
                    m <= list@.len(),
                    buckets_cover(buckets@, raws@),
                    buckets@.contains_key(hv),
                    buckets@[hv] == *list,
                    forall|w: int| 0 <= w < m ==> raws@[(#[trigger] list@[w]) as int]@ != key@,
                decreases list@.len() - m,
            {
                let idx = list[m];
                assert(idx < raws@.len());
                if bytes_eq(raws[idx].as_slice(), key) {
                    return Some(idx);
                }
                m = m + 1;
            }
            let n = raws.len();
            assert forall|k: int| 0 <= k < raws@.len() implies (#[trigger] raws@[k])@ != key@ by {
                if raws@[k]@ == key@ {
                    assert(k < n);
                    assert(key_hash(raws@[k]@) == hv);
                    assert(buckets@[hv]@.contains(k as usize));
                    assert(list@.contains(k as usize));
                    let w = choose|w: int| 0 <= w < list@.len() && list@[w] == k as usize;
                    assert(0 <= w < m);
                    assert(raws@[list@[w] as int]@ != key@);
                    assert(list@[w] as int == k);
                }
            }
            None
        },
    }
}

/// The value of the first header whose key matches `name`.
pub open spec fn first_value(hs: Seq<HeaderField>, name: Seq<u8>) -> Option<String> {
    match first_header_index(hs, name) {
        Some(i) => Some(hs[i].value),
        None => None,
    }
}

pub fn get_first_value(hs: &Vec<HeaderField>, name: &[u8]) -> (v: Option<String>)
    ensures
        v == first_value(hs@, name@),
{
    let found = find_header(hs, name);
    proof {
        lemma_first_header_index(hs@, name@);
    }
    match found {
        Some(i) => Some(hs[i].value.clone()),
        None => None,
    }
}

/// A `multipart/*` container: MIME structure, not content.
pub open spec fn is_container(p: RawPart) -> bool {
    has_prefix(p.mimetype@, "multipart/"@)
}

pub open spec fn is_text_plain(p: RawPart) -> bool {
    p.mimetype@ == "text/plain"@
}

pub open spec fn is_text_html(p: RawPart) -> bool {
    p.mimetype@ == "text/html"@
}

/// RFC 2183: body text is `text/plain` or `text/html` not marked
/// `Content-Disposition: attachment`; every other leaf is an attachment.
pub open spec fn is_body(p: RawPart) -> bool {
    !is_container(p) && !(p.disposition is Attachment) && (is_text_plain(p) || is_text_html(p))
}

/// What every flat mode decides about a part before it looks at the body.
pub struct PartInfo<'p> {
    pub mime: &'p str,
    /// The RFC 2183 answer to body-versus-attachment.
    pub is_body: bool,
}

/// Classify one part, or `None` for a `multipart/*` container.
pub fn classify_part<'p>(part: &'p RawPart) -> (info: Option<PartInfo<'p>>)
    ensures
        info is None == is_container(*part),
        info matches Some(i) ==> i.mime@ == part.mimetype@ && i.is_body == is_body(*part),
{
    let mime = part.mimetype.as_str();
    if str_starts_with(mime, "multipart/") {
        return None;
    }
    let attachment = match part.disposition {
        DispositionKind::Attachment => true,
        _ => false,
    };
    let is_body = !attachment && (str_eq(mime, "text/plain") || str_eq(mime, "text/html"));
    Some(PartInfo { mime, is_body })
}

/// The three fields that say which part this is, in every mode.
pub struct PartIdentity {
    pub filename: String,
    pub content_id: Option<String>,
    pub disposition: Option<String>,
}

/// `Content-Disposition` `filename`, falling back to `Content-Type` `name`,
/// `""` when the part declares neither.
pub open spec fn part_filename(p: RawPart) -> Seq<char> {
    match p.filename_param {
        Some(f) => f@,
        None => match p.name_param {
            Some(n) => n@,
            None => Seq::empty(),
        },
    }
}

pub open spec fn trim_ws_front(s: Seq<char>) -> Seq<char>
    decreases s.len(),
{
    if s.len() > 0 && is_white_space(s[0]) {
        trim_ws_front(s.drop_first())
    } else {
        s
    }
}

pub open spec fn trim_ws_back(s: Seq<char>) -> Seq<char>
    decreases s.len(),
{
    if s.len() > 0 && is_white_space(s.last()) {
        trim_ws_back(s.drop_last())
    } else {
        s
    }
}

pub open spec fn trim_lt_front(s: Seq<char>) -> Seq<char>
    decreases s.len(),
{
    if s.len() > 0 && s[0] == '<' {
        trim_lt_front(s.drop_first())
    } else {
        s
    }
}

pub open spec fn trim_gt_back(s: Seq<char>) -> Seq<char>
    decreases s.len(),
{
    if s.len() > 0 && s.last() == '>' {
        trim_gt_back(s.drop_last())
    } else {
        s
    }
}

/// A `Content-ID` value trimmed of white space, then of every leading `<`,
/// then of every trailing `>`: the form RFC 2392 `cid:` URLs use.
pub open spec fn normalized_content_id(s: Seq<char>) -> Seq<char> {
    trim_gt_back(trim_lt_front(trim_ws_back(trim_ws_front(s))))
}

/// Strip the angle brackets (and surrounding white space) from a
/// `Content-ID` value, preserving case.
pub fn normalize_content_id(raw: &str) -> (id: String)
    ensures
        id@ == normalized_content_id(raw@),
{
    let cs = chars_of(raw);
    let n = cs.len();
    let ghost s = raw@;
    let mut a: usize = 0;
    assert(s.subrange(0, n as int) =~= s);
    while a < n && white_space(cs[a])
        invariant
            a <= n == s.len(),
            cs@ == s,
            trim_ws_front(s.subrange(a as int, n as int)) == trim_ws_front(s),
        decreases n - a,
    {
        assert(s.subrange(a as int, n as int).drop_first() =~= s.subrange(a + 1, n as int));
        a = a + 1;
    }
    assert(s.subrange(0, n as int) =~= s);
    let mut b: usize = n;
    while b > a && white_space(cs[b - 1])
        invariant
            a <= b <= n == s.len(),
            cs@ == s,
            trim_ws_back(s.subrange(a as int, b as int)) == trim_ws_back(trim_ws_front(s)),
        decreases b - a,
    {
        assert(s.subrange(a as int, b as int).drop_last() =~= s.subrange(a as int, b - 1));
        b = b - 1;
    }
    let mut c: usize = a;
    while c < b && cs[c] == '<'
        invariant
            a <= c <= b <= n == s.len(),
            cs@ == s,
            trim_lt_front(s.subrange(c as int, b as int)) == trim_lt_front(
                trim_ws_back(trim_ws_front(s)),
            ),
        decreases b - c,
    {
        assert(s.subrange(c as int, b as int).drop_first() =~= s.subrange(c + 1, b as int));
        c = c + 1;
    }
    let mut d: usize = b;
    while d > c && cs[d - 1] == '>'
        invariant
            c <= d <= b <= n == s.len(),
            cs@ == s,
            trim_gt_back(s.subrange(c as int, d as int)) == normalized_content_id(s),
        decreases d - c,
    {
        assert(s.subrange(c as int, d as int).drop_last() =~= s.subrange(c as int, d - 1));
        d = d - 1;
    }
    String::from_str(raw.substring_char(c, d))
}

pub open spec fn content_id_name() -> Seq<u8> {
    seq![67u8, 111u8, 110u8, 116u8, 101u8, 110u8, 116u8, 45u8, 73u8, 68u8]
}

pub open spec fn content_disposition_name() -> Seq<u8> {
    seq![67u8, 111u8, 110u8, 116u8, 101u8, 110u8, 116u8, 45u8, 68u8, 105u8, 115u8, 112u8, 111u8, 115u8, 105u8, 116u8, 105u8, 111u8, 110u8]
}

/// The part's `Content-ID` with its angle brackets stripped.
pub open spec fn part_content_id(p: RawPart) -> Option<Seq<char>> {
    match first_value(p.headers@, content_id_name()) {
        Some(v) => Some(normalized_content_id(v@)),
        None => None,
    }
}

pub open spec fn disposition_text(d: DispositionKind) -> Seq<char> {
    match d {
        DispositionKind::Inline => "inline"@,
        DispositionKind::Attachment => "attachment"@,
        DispositionKind::FormData => "form-data"@,
        DispositionKind::Extension(other) => other@,
    }
}

/// The part's raw `Content-Disposition` token, or `None` when it declares
/// none: an absent header is a different statement from an explicit `inline`.
pub open spec fn part_disposition(p: RawPart) -> Option<Seq<char>> {
    if first_header_index(p.headers@, content_disposition_name()) is None {
        None
    } else {
        Some(disposition_text(p.disposition))
    }
}

fn disposition_token(part: &RawPart) -> (t: Option<String>)
    ensures
        match t {
            Some(s) => part_disposition(*part) == Some(s@),
            None => part_disposition(*part) is None,
        },
{
    let name: &[u8] = &[67u8, 111u8, 110u8, 116u8, 101u8, 110u8, 116u8, 45u8, 68u8, 105u8, 115u8, 112u8, 111u8, 115u8, 105u8, 116u8, 105u8, 111u8, 110u8];
    if find_header(&part.headers, name).is_none() {
        return None;
    }
    Some(match &part.disposition {
        DispositionKind::Inline => String::from_str("inline"),
        DispositionKind::Attachment => String::from_str("attachment"),
        DispositionKind::FormData => String::from_str("form-data"),
        DispositionKind::Extension(other) => other.clone(),
    })
}

/// Which part this is: filename, content id and disposition token.
pub fn part_identity(part: &RawPart) -> (id: PartIdentity)
    ensures
        id.filename@ == part_filename(*part),
        match id.content_id {
            Some(c) => part_content_id(*part) == Some(c@),
            None => part_content_id(*part) is None,
        },
        match id.disposition {
            Some(d) => part_disposition(*part) == Some(d@),
            None => part_disposition(*part) is None,
        },
{
    let filename = match &part.filename_param {
        Some(f) => f.clone(),
        None => match &part.name_param {
            Some(n) => n.clone(),
            None => String::new(),
        },
    };
    let cid_name: &[u8] = &[67u8, 111u8, 110u8, 116u8, 101u8, 110u8, 116u8, 45u8, 73u8, 68u8];
    let content_id = match get_first_value(&part.headers, cid_name) {
        Some(raw) => Some(normalize_content_id(raw.as_str())),
        None => None,
    };
    PartIdentity { filename, content_id, disposition: disposition_token(part) }
}

} // verus!
