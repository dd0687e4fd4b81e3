//! The envelope every flat mode reads: the header table, subject, date and
//! the five address headers.

use vstd::prelude::*;
use crate::bridge::{dateparse_of, mail_date_epoch};
use crate::model::{Address, AddressEntry, AddressHeader, RawMessage, RawPart};
use crate::parts::{collect_headers, first_value, get_first_value, header_groups};
use crate::text::{has_infix, str_contains, to_upper, upper_case};
use crate::warning::{address_warning, warn_address, Warning, WarningView};

verus! {

/// The mailboxes of an address list, groups flattened to their members.
pub open spec fn flatten_entries(es: Seq<AddressEntry>) -> Seq<Address>
    decreases es.len(),
{
    if es.len() == 0 {
        Seq::empty()
    } else {
        flatten_entries(es.drop_last()) + match es.last() {
            AddressEntry::Single(a) => seq![a],
            AddressEntry::Group(g) => g@,
        }
    }
}

/// The mailboxes an address header yields: none when it is absent or does not
/// parse.
pub open spec fn header_mailboxes(h: AddressHeader) -> Seq<Address> {
    match h {
        AddressHeader::Parsed(es) => flatten_entries(es@),
        _ => Seq::empty(),
    }
}

fn flatten(entries: Vec<AddressEntry>) -> (out: Vec<Address>)
    ensures
        out@ == flatten_entries(entries@),
{
    let ghost es = entries@;
    let mut out: Vec<Address> = Vec::new();
    let mut k: usize = 0;
    for entry in it: entries
        invariant
            it.seq() == es,
            out@ == flatten_entries(es.subrange(0, it.index() as int)),
    {
        proof {
            let i = it.index() as int;
            assert(es.subrange(0, i + 1).drop_last() =~= es.subrange(0, i));
        }
        match entry {
            AddressEntry::Single(a) => {
                out.push(a);
            },
            AddressEntry::Group(mut g) => {
                out.append(&mut g);
            },
        }
    }
    assert(es.subrange(0, es.len() as int) =~= es);
    out
}

/// Parse one address header into a flat list of mailboxes; an unparseable
/// header yields none and a warning naming it.
fn header_addresses(h: AddressHeader, name: &str, warnings: &mut Vec<Warning>) -> (out: Vec<Address>)
    ensures
        out@ == header_mailboxes(h),
        final(warnings)@.map_values(|w: Warning| w@) == old(warnings)@.map_values(|w: Warning| w@)
            + if h is Unparseable {
            seq![address_warning(name@)]
        } else {
            Seq::empty()
        },
{
    let ghost old_w = warnings@;
    match h {
        AddressHeader::Parsed(es) => {
            assert(warnings@.map_values(|w: Warning| w@) =~= old_w.map_values(|w: Warning| w@) + Seq::empty());
            flatten(es)
        },
        AddressHeader::Absent => {
            assert(warnings@.map_values(|w: Warning| w@) =~= old_w.map_values(|w: Warning| w@) + Seq::empty());
            Vec::new()
        },
        AddressHeader::Unparseable => {
            warnings.push(warn_address(name));
            assert(warnings@.map_values(|w: Warning| w@) =~= old_w.map_values(|w: Warning| w@) + seq![address_warning(name@)]);
            Vec::new()
        },
    }
}

/// `Date` contains a month token once uppercased.
pub open spec fn names_a_month(upper: Seq<char>) -> bool {
    has_infix(upper, "JAN"@) || has_infix(upper, "FEB"@) || has_infix(upper, "MAR"@) || has_infix(upper, "APR"@)
        || has_infix(upper, "MAY"@) || has_infix(upper, "JUN"@) || has_infix(upper, "JUL"@) || has_infix(upper, "AUG"@)
        || has_infix(upper, "SEP"@) || has_infix(upper, "OCT"@) || has_infix(upper, "NOV"@) || has_infix(upper, "DEC"@)
}

/// What a `Date` header parses to: `mailparse::dateparse`'s timestamp, but
/// only for a header that names a month. `dateparse` reports success with 0
/// for input it never parsed, and no real date can be parsed without
/// consuming a month token, so a header naming none is no date.
pub open spec fn date_epoch(date: Seq<char>) -> Option<i64> {
    if names_a_month(upper_case(date)) {
        mail_date_epoch(date)
    } else {
        None
    }
}

/// Parse an RFC 5322 `Date` header to a Unix timestamp, or `None`.
pub fn parse_date_epoch(date: &str) -> (r: Option<i64>)
    ensures
        r == date_epoch(date@),
{
    let upper = to_upper(date);
    let u = upper.as_str();
    let month = str_contains(u, "JAN") || str_contains(u, "FEB") || str_contains(u, "MAR")
        || str_contains(u, "APR") || str_contains(u, "MAY") || str_contains(u, "JUN")
        || str_contains(u, "JUL") || str_contains(u, "AUG") || str_contains(u, "SEP")
        || str_contains(u, "OCT") || str_contains(u, "NOV") || str_contains(u, "DEC");
    if !month {
        return None;
    }
    dateparse_of(date)
}

pub open spec fn subject_name() -> Seq<u8> {
    seq![83u8, 117u8, 98u8, 106u8, 101u8, 99u8, 116u8]
}

pub open spec fn date_name() -> Seq<u8> {
    seq![68u8, 97u8, 116u8, 101u8]
}

/// A header's value, `""` when absent.
pub open spec fn value_or_empty(v: Option<String>) -> Seq<char> {
    match v {
        Some(s) => s@,
        None => Seq::empty(),
    }
}

/// The warnings reading a message's envelope produces: one per address header
/// that is present and does not parse, in the order From, To, Cc, Bcc,
/// Reply-To.
pub open spec fn address_warnings(msg: RawMessage) -> Seq<WarningView> {
    (if msg.from_ is Unparseable { seq![address_warning("From"@)] } else { Seq::empty() })
        + (if msg.to is Unparseable { seq![address_warning("To"@)] } else { Seq::empty() })
        + (if msg.cc is Unparseable { seq![address_warning("Cc"@)] } else { Seq::empty() })
        + (if msg.bcc is Unparseable { seq![address_warning("Bcc"@)] } else { Seq::empty() })
        + (if msg.reply_to is Unparseable { seq![address_warning("Reply-To"@)] } else { Seq::empty() })
}

/// The eight envelope fields every flat mode reads.
pub struct Envelope {
    pub headers: Vec<(String, Vec<String>)>,
    pub subject: String,
    pub date: String,
    pub from_: Option<Address>,
    pub to: Vec<Address>,
    pub cc: Vec<Address>,
    pub bcc: Vec<Address>,
    pub reply_to: Vec<Address>,
}

/// The envelope is what `msg` says.
pub open spec fn envelope_of(env: Envelope, msg: RawMessage) -> bool {
    &&& env.headers@.len() == header_groups(msg.root.headers@).len()
    &&& forall|k: int| 0 <= k < env.headers@.len() ==> (#[trigger] env.headers@[k]).0 == header_groups(msg.root.headers@)[k].key
            && env.headers@[k].1@ == header_groups(msg.root.headers@)[k].values
    &&& env.subject@ == value_or_empty(first_value(msg.root.headers@, subject_name()))
    &&& env.date@ == value_or_empty(first_value(msg.root.headers@, date_name()))
    &&& env.from_ == (if header_mailboxes(msg.from_).len() > 0 { Some(header_mailboxes(msg.from_)[0]) } else { None::<Address> })
    &&& env.to@ == header_mailboxes(msg.to)
    &&& env.cc@ == header_mailboxes(msg.cc)
    &&& env.bcc@ == header_mailboxes(msg.bcc)
    &&& env.reply_to@ == header_mailboxes(msg.reply_to)
}

fn value_or_default(v: Option<String>) -> (s: String)
    ensures
        s@ == value_or_empty(v),
{
    match v {
        Some(s) => s,
        None => String::new(),
    }
}

/// Read a message's envelope, appending any address repair to `warnings`.
/// The address headers are moved out of `msg`; the root part is left.
pub fn envelope(
    root: &RawPart,
    from_: AddressHeader,
    to: AddressHeader,
    cc: AddressHeader,
    bcc: AddressHeader,
    reply_to: AddressHeader,
    warnings: &mut Vec<Warning>,
) -> (env: Envelope)
    ensures
        forall|msg: RawMessage| msg.root == *root && msg.from_ == from_ && msg.to == to && msg.cc == cc
            && msg.bcc == bcc && msg.reply_to == reply_to ==> #[trigger] envelope_of(env, msg)
            && final(warnings)@.map_values(|w: Warning| w@) == old(warnings)@.map_values(|w: Warning| w@)
            + address_warnings(msg),
{
    let ghost w0 = warnings@.map_values(|w: Warning| w@);
    let ghost (f0, t0, c0, b0, r0) = (from_, to, cc, bcc, reply_to);
    let headers = collect_headers(&root.headers);
    let subject = value_or_default(get_first_value(&root.headers, &[83u8, 117u8, 98u8, 106u8, 101u8, 99u8, 116u8]));
    let date = value_or_default(get_first_value(&root.headers, &[68u8, 97u8, 116u8, 101u8]));
    let from_list = header_addresses(from_, "From", warnings);
    let from_ = if from_list.len() > 0 {
        let mut l = from_list;
        Some(l.swap_remove(0))
    } else {
        None
    };
    let to = header_addresses(to, "To", warnings);
    let cc = header_addresses(cc, "Cc", warnings);
    let bcc = header_addresses(bcc, "Bcc", warnings);
    let reply_to = header_addresses(reply_to, "Reply-To", warnings);
    proof {
        let ghost m = RawMessage { root: *root, from_: f0, to: t0, cc: c0, bcc: b0, reply_to: r0 };
        assert(warnings@.map_values(|w: Warning| w@) =~= w0 + address_warnings(m));
    }
    Envelope { headers, subject, date, from_, to, cc, bcc, reply_to }
}

} // verus!
