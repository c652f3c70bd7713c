//! The key under which a client is throttled, read from proxy headers.
//!
//! Header values come in as text where the request carries them as text.
//! The first source that names a client wins: `Forwarded`, then
//! `X-Forwarded-For`, then `X-Real-IP`, then the address of the peer.

use crate::text::{
    chars_of, slices, split, split_bounds, strip_bounds, stripped, trim_bounds, trimmed,
};
use vstd::prelude::*;

verus! {

/// The client that one `name=value` pair of a `Forwarded` element names, if
/// it is a `for` pair with something in it. Quotes and square brackets
/// around the value do not count.
pub open spec fn for_value(pair: Seq<char>) -> Option<Seq<char>> {
    let p = trimmed(pair);
    if "for="@.is_prefix_of(p) {
        let v = stripped(stripped(stripped(p.skip(4), '"'), '['), ']');
        if v.len() > 0 {
            Some(v)
        } else {
            None
        }
    } else {
        None
    }
}

/// The client named by the first pair that names one.
pub open spec fn first_for(pairs: Seq<Seq<char>>) -> Option<Seq<char>>
    decreases pairs.len(),
{
    if pairs.len() == 0 {
        None
    } else {
        match for_value(pairs[0]) {
            Some(v) => Some(v),
            None => first_for(pairs.drop_first()),
        }
    }
}

/// The client named by the first element that names one. An element is
/// trimmed and holds pairs separated by `;`.
pub open spec fn first_forwarded(elements: Seq<Seq<char>>) -> Option<Seq<char>>
    decreases elements.len(),
{
    if elements.len() == 0 {
        None
    } else {
        match first_for(split(trimmed(elements[0]), ';')) {
            Some(v) => Some(v),
            None => first_forwarded(elements.drop_first()),
        }
    }
}

/// The client that a `Forwarded` header names, if any. The header holds
/// elements separated by `,`.
pub open spec fn forwarded_client(header: Seq<char>) -> Option<Seq<char>> {
    first_forwarded(split(header, ','))
}

/// The client that an `X-Forwarded-For` header names: its first entry,
/// trimmed, unless that is empty.
pub open spec fn x_forwarded_client(header: Seq<char>) -> Option<Seq<char>> {
    let first = trimmed(split(header, ',')[0]);
    if first.len() > 0 {
        Some(first)
    } else {
        None
    }
}

/// The client that an `X-Real-IP` header names: its value, trimmed, unless
/// that is empty.
pub open spec fn real_ip_client(header: Seq<char>) -> Option<Seq<char>> {
    if trimmed(header).len() > 0 {
        Some(trimmed(header))
    } else {
        None
    }
}

/// The key of the client behind a request: what the first of the three
/// headers that names a client names, else the peer.
pub open spec fn client_key(
    forwarded: Option<Seq<char>>,
    x_forwarded_for: Option<Seq<char>>,
    x_real_ip: Option<Seq<char>>,
    peer: Seq<char>,
) -> Seq<char> {
    let by_forwarded = match forwarded {
        Some(header) => forwarded_client(header),
        None => None,
    };
    let by_x_forwarded_for = match x_forwarded_for {
        Some(header) => x_forwarded_client(header),
        None => None,
    };
    let by_x_real_ip = match x_real_ip {
        Some(header) => real_ip_client(header),
        None => None,
    };
    match (by_forwarded, by_x_forwarded_for, by_x_real_ip) {
        (Some(client), _, _) => client,
        (None, Some(client), _) => client,
        (None, None, Some(client)) => client,
        (None, None, None) => peer,
    }
}

/// The view of an optional string.
pub open spec fn text_of(s: Option<&str>) -> Option<Seq<char>> {
    match s {
        Some(t) => Some(t@),
        None => None,
    }
}

fn for_value_bounds(cs: &Vec<char>, lo: usize, hi: usize) -> (r: Option<(usize, usize)>)
    requires
        lo <= hi <= cs.len(),
    ensures
        match r {
            Some((a, b)) => lo <= a < b <= hi && for_value(cs@.subrange(lo as int, hi as int))
                == Some(cs@.subrange(a as int, b as int)),
            None => for_value(cs@.subrange(lo as int, hi as int)) is None,
        },
{
    proof {
        reveal_strlit("for=");
    }
    let (a, b) = trim_bounds(cs, lo, hi);
    let ghost p = cs@.subrange(a as int, b as int);
    if b - a < 4 || cs[a] != 'f' || cs[a + 1] != 'o' || cs[a + 2] != 'r' || cs[a + 3] != '=' {
        proof {
            if "for="@.is_prefix_of(p) {
                let q = p.subrange(0, 4);
                assert("for="@ == q);
                assert(q[0] == p[0] && q[1] == p[1] && q[2] == p[2] && q[3] == p[3]);
            }
        }
        return None;
    }
    assert("for="@ =~= p.subrange(0, 4));
    assert(p.skip(4) =~= cs@.subrange(a as int + 4, b as int));
    let (a1, b1) = strip_bounds(cs, a + 4, b, '"');
    let (a2, b2) = strip_bounds(cs, a1, b1, '[');
    let (a3, b3) = strip_bounds(cs, a2, b2, ']');
    if a3 < b3 {
        Some((a3, b3))
    } else {
        None
    }
}

fn first_for_bounds(cs: &Vec<char>, lo: usize, hi: usize) -> (r: Option<(usize, usize)>)
    requires
        lo <= hi <= cs.len(),
    ensures
        match r {
            Some((a, b)) => lo <= a < b <= hi && first_for(
                split(cs@.subrange(lo as int, hi as int), ';'),
            ) == Some(cs@.subrange(a as int, b as int)),
            None => first_for(split(cs@.subrange(lo as int, hi as int), ';')) is None,
        },
{
    let pairs = split_bounds(cs, lo, hi, ';');
    let ghost all = split(cs@.subrange(lo as int, hi as int), ';');
    let mut k: usize = 0;
    assert(all.skip(0) =~= all);
    while k < pairs.len()
        invariant
            k <= pairs.len(),
            lo <= hi <= cs.len(),
            all == slices(cs@, pairs@),
            all == split(cs@.subrange(lo as int, hi as int), ';'),
            forall|j: int| 0 <= j < pairs.len() ==> lo <= (#[trigger] pairs[j]).0 <= pairs[j].1 <= hi,
            first_for(all) == first_for(all.skip(k as int)),
        decreases pairs.len() - k,
    {
        assert(all.skip(k as int)[0] == cs@.subrange(pairs[k as int].0 as int, pairs[k as int].1 as int));
        assert(all.skip(k as int).drop_first() =~= all.skip(k as int + 1));
        match for_value_bounds(cs, pairs[k].0, pairs[k].1) {
            Some(found) => {
                return Some(found);
            },
            None => {},
        }
        k += 1;
    }
    None
}

fn forwarded_bounds(cs: &Vec<char>) -> (r: Option<(usize, usize)>)
    ensures
        match r {
            Some((a, b)) => a < b <= cs.len() && forwarded_client(cs@) == Some(
                cs@.subrange(a as int, b as int),
            ),
            None => forwarded_client(cs@) is None,
        },
{
    assert(cs@.subrange(0, cs.len() as int) =~= cs@);
    let elements = split_bounds(cs, 0, cs.len(), ',');
    let ghost all = split(cs@, ',');
    let mut k: usize = 0;
    assert(all.skip(0) =~= all);
    while k < elements.len()
        invariant
            k <= elements.len(),
            all == slices(cs@, elements@),
            all == split(cs@, ','),
            forall|j: int|
                0 <= j < elements.len() ==> (#[trigger] elements[j]).0 <= elements[j].1
                    <= cs.len(),
            first_forwarded(all) == first_forwarded(all.skip(k as int)),
        decreases elements.len() - k,
    {
        assert(all.skip(k as int)[0] == cs@.subrange(elements[k as int].0 as int, elements[k as int].1 as int));
        assert(all.skip(k as int).drop_first() =~= all.skip(k as int + 1));
        let (a, b) = trim_bounds(cs, elements[k].0, elements[k].1);
        match first_for_bounds(cs, a, b) {
            Some(found) => {
                return Some(found);
            },
            None => {},
        }
        k += 1;
    }
    None
}

/// Derives the key of the client behind a request.
///
/// `forwarded`, `x_forwarded_for` and `x_real_ip` are the values of the
/// headers of those names, where the request has them as text; `peer` is the
/// address the connection came from. A header never yields an empty key, so
/// the key is empty only if `peer` is.
pub fn extract_client_ip(
    forwarded: Option<&str>,
    x_forwarded_for: Option<&str>,
    x_real_ip: Option<&str>,
    peer: &str,
) -> (key: String)
    ensures
        key@ == client_key(
            text_of(forwarded),
            text_of(x_forwarded_for),
            text_of(x_real_ip),
            peer@,
        ),
        peer@.len() > 0 ==> key@.len() > 0,
{
    if let Some(header) = forwarded {
        let cs = chars_of(header);
        if let Some((a, b)) = forwarded_bounds(&cs) {
            return header.substring_char(a, b).to_owned();
        }
    }
    if let Some(header) = x_forwarded_for {
        let cs = chars_of(header);
        assert(cs@.subrange(0, cs.len() as int) =~= cs@);
        let entries = split_bounds(&cs, 0, cs.len(), ',');
        let (a, b) = trim_bounds(&cs, entries[0].0, entries[0].1);
        assert(slices(cs@, entries@)[0] == cs@.subrange(entries[0].0 as int, entries[0].1 as int));
        if a < b {
            return header.substring_char(a, b).to_owned();
        }
    }
    if let Some(header) = x_real_ip {
        let cs = chars_of(header);
        assert(cs@.subrange(0, cs.len() as int) =~= cs@);
        let (a, b) = trim_bounds(&cs, 0, cs.len());
        if a < b {
            return header.substring_char(a, b).to_owned();
        }
    }
    peer.to_owned()
}

/// A header as a request may carry it.
pub enum Header<'a> {
    /// The request has no such header.
    Absent,
    /// The header is there, but its value is not text.
    Opaque,
    /// The header and its value.
    Text(&'a str),
}

/// The text in which the headers give the address of the client, if they
/// give one.
///
/// An `X-Forwarded-For` header decides alone, whatever it holds: its first
/// entry, trimmed, is the text. Only a request without that header is asked
/// for `X-Real-IP`, whose value is taken as it stands.
pub open spec fn forwarded_ip(x_forwarded_for: Header, x_real_ip: Header) -> Option<Seq<char>> {
    match x_forwarded_for {
        Header::Text(value) => Some(trimmed(split(value@, ',')[0])),
        Header::Opaque => None,
        Header::Absent => match x_real_ip {
            Header::Text(value) => Some(value@),
            _ => None,
        },
    }
}

/// Picks from the headers the text to read the client's address from.
pub fn forwarded_ip_text(x_forwarded_for: Header, x_real_ip: Header) -> (text: Option<String>)
    ensures
        match text {
            Some(t) => forwarded_ip(x_forwarded_for, x_real_ip) == Some(t@),
            None => forwarded_ip(x_forwarded_for, x_real_ip) is None,
        },
{
    match x_forwarded_for {
        Header::Text(value) => {
            let cs = chars_of(value);
            assert(cs@.subrange(0, cs.len() as int) =~= cs@);
            let entries = split_bounds(&cs, 0, cs.len(), ',');
            let (a, b) = trim_bounds(&cs, entries[0].0, entries[0].1);
            assert(slices(cs@, entries@)[0] == cs@.subrange(
                entries[0].0 as int,
                entries[0].1 as int,
            ));
            Some(value.substring_char(a, b).to_owned())
        },
        Header::Opaque => None,
        Header::Absent => match x_real_ip {
            Header::Text(value) => Some(value.to_owned()),
            _ => None,
        },
    }
}

/// The address a request is taken to come from: the one read from the
/// headers, else that of the peer, else the loopback address.
pub fn real_ip<A>(from_headers: Option<A>, peer: Option<A>, loopback: A) -> (ip: A)
    ensures
        ip == match (from_headers, peer) {
            (Some(address), _) => address,
            (None, Some(address)) => address,
            (None, None) => loopback,
        },
{
    match from_headers {
        Some(address) => address,
        None => match peer {
            Some(address) => address,
            None => loopback,
        },
    }
}

} // verus!
