//! Minimal UPnP/DLNA control point: find a MediaRenderer, hand it a URL.
//!
//! Nothing but an address travels to the TV - it opens the stream itself,
//! which is why the sender stays cheap no matter how large the picture gets.
//!
//! Written against the UPnP AVTransport:1 specification. Many TVs only publish
//! their renderer while screen/content sharing is switched on, so an empty
//! discovery result is usually a setting on the TV, not a bug here.
//!
//! This module holds everything but the sockets: reading SSDP answers and
//! device descriptions, resolving URLs, and writing the SOAP and DIDL text.

use vstd::prelude::*;

use crate::number::{decimal, decimal_chars, parse_radix, parse_u16};
use crate::text::{
    ascii_lower, after_last, after_last_chars, ascii_lower_seq, before_either, before_either_chars, byte_len,
    chars_of, contains_seq, lemma_seq_less_irreflexive, lemma_seq_less_total,
    lemma_seq_less_transitive, less_chars, lower_chars, lower_of, seq_less, find, find_char, find_seq, find_str, has_prefix, lines, position,
    push_chars, push_str, rfind_char, rposition, same, slice, split_lines, split_words,
    starts_with_str, str_pairs, string_of, to_ascii_lower, trim, trim_chars, views, words,
};

verus! {

pub const SSDP_ADDR: &'static str = "239.255.255.250:1900";

pub const RENDERER: &'static str = "urn:schemas-upnp-org:device:MediaRenderer:1";

pub const AVTRANSPORT: &'static str = "urn:schemas-upnp-org:service:AVTransport:1";

pub const USER_AGENT: &'static str = "ttycast/0.2 UPnP/1.0";

/// Live source: no seeking, no byte ranges, sender-paced.
pub const DLNA_FEATURES_LIVE: &'static str =
    "DLNA.ORG_OP=00;DLNA.ORG_CI=0;DLNA.ORG_FLAGS=8D500000000000000000000000000000";

/// A MediaRenderer that exposes AVTransport.
#[derive(Debug, Clone, PartialEq, Eq)]
pub struct Renderer {
    pub name: String,
    pub location: String,
    pub control_url: String,
    pub address: String,
}

impl Renderer {
    /// The host the renderer is reached at: taken from its description URL,
    /// else the address it answered from.
    pub fn host(&self) -> (res: String)
        ensures
            res@ == match url_host(self.location@) {
                Some(h) => h,
                None => self.address@,
            },
    {
        match host_of(self.location.as_str()) {
            Some(h) => h,
            None => self.address.clone(),
        }
    }
}

// ---------------------------------------------------------------------------
// XML elements

/// The element name of a tag's inside: its first word (all of it when it has
/// none), without a namespace prefix.
pub open spec fn element_name(inner: Seq<char>) -> Seq<char> {
    let ws = words(inner);
    let element = if ws.len() > 0 {
        ws[0]
    } else {
        inner
    };
    after_last(element, ':')
}

/// Whether a tag's inside is that of a closing tag.
pub open spec fn is_closing(inner: Seq<char>) -> bool {
    inner.len() > 0 && inner[0] == '/'
}

/// What `tag` finds looking from `cursor` on: the first opening tag named
/// `name`, and the trimmed text from its `>` to the next `</`.
pub open spec fn tag_from(xml: Seq<char>, name: Seq<char>, cursor: int) -> Option<Seq<char>>
    decreases xml.len() - cursor,
{
    if cursor < 0 || cursor > xml.len() {
        None
    } else {
        match find_char(xml, '<', cursor) {
            None => None,
            Some(open) => match find_char(xml, '>', open + 1) {
                None => None,
                Some(end) => {
                    let inner = xml.subrange(open + 1, end);
                    if element_name(inner) == name && !is_closing(inner) {
                        match find_seq(xml, "</"@, end + 1) {
                            Some(close) => Some(trim(xml.subrange(end + 1, close))),
                            None => None,
                        }
                    } else {
                        proof {
                            crate::text::lemma_find_char(xml, '<', cursor);
                            crate::text::lemma_find_char(xml, '>', open + 1);
                        }
                        tag_from(xml, name, end)
                    }
                },
            },
        }
    }
}

fn element_name_chars(inner: &Vec<char>) -> (res: Vec<char>)
    ensures
        res@ == element_name(inner@),
{
    let ws = split_words(inner);
    if ws.len() > 0 {
        assert(views(ws@)[0] == ws@[0]@);
        after_last_chars(&ws[0], ':')
    } else {
        after_last_chars(inner, ':')
    }
}

fn tag_chars(x: &Vec<char>, name: &Vec<char>) -> (res: Option<Vec<char>>)
    ensures
        match res {
            Some(t) => tag_from(x@, name@, 0) == Some(t@),
            None => tag_from(x@, name@, 0) is None,
        },
{
    let n = x.len();
    let mut cursor: usize = 0;
    loop
        invariant
            n == x@.len(),
            cursor <= x@.len(),
            tag_from(x@, name@, 0) == tag_from(x@, name@, cursor as int),
        decreases x@.len() - cursor,
    {
        proof {
            crate::text::lemma_find_char(x@, '<', cursor as int);
        }
        let open = match position(x, '<', cursor) {
            Some(o) => o,
            None => return None,
        };
        proof {
            crate::text::lemma_find_char(x@, '>', open + 1);
        }
        let end = match position(x, '>', open + 1) {
            Some(e) => e,
            None => return None,
        };
        let inner = slice(x, open + 1, end);
        let bare = element_name_chars(&inner);
        let closing = inner.len() > 0 && inner[0] == '/';
        if same(&bare, name) && !closing {
            proof {
                crate::text::lemma_find_seq(x@, "</"@, end + 1);
                reveal_strlit("</");
            }
            let close = match find_str(x, "</", end + 1) {
                Some(c) => c,
                None => return None,
            };
            let body = slice(x, end + 1, close);
            return Some(trim_chars(&body));
        }
        cursor = end;
    }
}

/// Read the text inside `<name>` or `<ns:name>`, ignoring attributes.
pub fn tag(xml: &str, name: &str) -> (res: Option<String>)
    ensures
        match res {
            Some(t) => tag_from(xml@, name@, 0) == Some(t@),
            None => tag_from(xml@, name@, 0) is None,
        },
{
    let x = chars_of(xml);
    let n = chars_of(name);
    match tag_chars(&x, &n) {
        Some(t) => Some(string_of(&t)),
        None => None,
    }
}

// ---------------------------------------------------------------------------
// Message headers

/// The value a line gives the header `wanted` (compared without ASCII case),
/// if it is a `key: value` line for it.
pub open spec fn header_line(line: Seq<char>, wanted: Seq<char>) -> Option<Seq<char>> {
    match find_char(line, ':', 0) {
        Some(k) => if ascii_lower_seq(trim(line.take(k))) == ascii_lower_seq(wanted) {
            Some(trim(line.skip(k + 1)))
        } else {
            None
        },
        None => None,
    }
}

/// The value of the first line from `k` on that names `wanted`; empty if none does.
pub open spec fn header_from(ls: Seq<Seq<char>>, wanted: Seq<char>, k: int) -> Seq<char>
    decreases ls.len() - k,
{
    if k < 0 || k >= ls.len() {
        Seq::empty()
    } else {
        match header_line(ls[k], wanted) {
            Some(v) => v,
            None => header_from(ls, wanted, k + 1),
        }
    }
}

/// Case-insensitive header lookup in an SSDP or HTTP message.
pub fn header(message: &str, name: &str) -> (res: String)
    ensures
        res@ == header_from(lines(message@), name@, 0),
{
    let m = chars_of(message);
    let n = chars_of(name);
    let wanted = to_ascii_lower(&n);
    let ls = split_lines(&m);
    let ghost lv = views(ls@);
    let mut k: usize = 0;
    while k < ls.len()
        invariant
            k <= ls@.len(),
            lv == views(ls@),
            lv == lines(message@),
            n@ == name@,
            wanted@ == ascii_lower_seq(name@),
            header_from(lv, name@, 0) == header_from(lv, name@, k as int),
        decreases ls@.len() - k,
    {
        let line = &ls[k];
        assert(lv[k as int] == line@);
        proof {
            crate::text::lemma_find_char(line@, ':', 0);
        }
        match position(line, ':', 0) {
            Some(c) => {
                let key = slice(line, 0, c);
                assert(key@ =~= line@.take(c as int));
                let key = to_ascii_lower(&trim_chars(&key));
                if same(&key, &wanted) {
                    let value = slice(line, c + 1, line.len());
                    assert(value@ =~= line@.skip(c + 1));
                    let value = trim_chars(&value);
                    return string_of(&value);
                }
            },
            None => {},
        }
        k += 1;
    }
    String::new()
}

// ---------------------------------------------------------------------------
// URLs

/// `url.split_once("://")`: the scheme and what follows it.
pub open spec fn split_scheme(url: Seq<char>) -> Option<(Seq<char>, Seq<char>)> {
    match find_seq(url, "://"@, 0) {
        Some(k) => Some((url.take(k), url.skip(k + 3))),
        None => None,
    }
}

fn split_scheme_chars(url: &Vec<char>) -> (res: Option<(Vec<char>, Vec<char>)>)
    ensures
        match res {
            Some((a, b)) => split_scheme(url@) == Some((a@, b@)),
            None => split_scheme(url@) is None,
        },
{
    proof {
        crate::text::lemma_find_seq(url@, "://"@, 0);
        reveal_strlit("://");
    }
    match find_str(url, "://", 0) {
        Some(k) => {
            let a = slice(url, 0, k);
            let n = url.len();
            let b = slice(url, k + 3, n);
            assert(a@ =~= url@.take(k as int));
            assert(b@ =~= url@.skip(k + 3));
            Some((a, b))
        },
        None => None,
    }
}

/// The host part of a URL: the authority (up to the first `/` or `?`) without
/// a trailing `:port`.
pub open spec fn url_host(url: Seq<char>) -> Option<Seq<char>> {
    match split_scheme(url) {
        None => None,
        Some((_, rest)) => {
            let authority = before_either(rest, '/', '?');
            Some(
                match rfind_char(authority, ':', authority.len() as int) {
                    Some(k) => authority.take(k),
                    None => authority,
                },
            )
        },
    }
}

fn host_of(url: &str) -> (res: Option<String>)
    ensures
        match res {
            Some(h) => url_host(url@) == Some(h@),
            None => url_host(url@) is None,
        },
{
    let u = chars_of(url);
    let (_, rest) = match split_scheme_chars(&u) {
        Some(p) => p,
        None => return None,
    };
    let authority = before_either_chars(&rest, '/', '?');
    proof {
        crate::text::lemma_rfind_char(authority@, ':', authority@.len() as int);
    }
    let host = match rposition(&authority, ':') {
        Some(k) => slice(&authority, 0, k),
        None => slice(&authority, 0, authority.len()),
    };
    assert(host@ =~= match rfind_char(authority@, ':', authority@.len() as int) {
        Some(k) => authority@.take(k),
        None => authority@,
    });
    Some(string_of(&host))
}

/// Where an `http://` URL points: host, port (80 unless a valid one is
/// given after the last `:` of the authority) and the path with its leading `/`.
pub open spec fn url_target(url: Seq<char>) -> Option<(Seq<char>, u16, Seq<char>)> {
    match split_scheme(url) {
        None => None,
        Some((scheme, rest)) => if scheme != "http"@ {
            None
        } else {
            let authority = match find_char(rest, '/', 0) {
                Some(k) => rest.take(k),
                None => rest,
            };
            let path = match find_char(rest, '/', 0) {
                Some(k) => rest.skip(k + 1),
                None => Seq::empty(),
            };
            let (host, port) = match rfind_char(authority, ':', authority.len() as int) {
                Some(k) => match parse_radix(authority.skip(k + 1), 10, u16::MAX as nat) {
                    Some(p) => (authority.take(k), p as u16),
                    None => (authority, 80u16),
                },
                None => (authority, 80u16),
            };
            Some((host, port, seq!['/'] + path))
        },
    }
}

/// Host, port and path of an `http://` URL; `None` for any other scheme.
pub fn authority_of(url: &str) -> (res: Option<(String, u16, String)>)
    ensures
        match res {
            Some((h, p, path)) => url_target(url@) == Some((h@, p, path@)),
            None => url_target(url@) is None,
        },
{
    let u = chars_of(url);
    let (scheme, rest) = match split_scheme_chars(&u) {
        Some(p) => p,
        None => return None,
    };
    proof {
        reveal_strlit("http");
    }
    if !same(&scheme, &chars_of("http")) {
        return None;
    }
    proof {
        crate::text::lemma_find_char(rest@, '/', 0);
    }
    let (authority, tail) = match position(&rest, '/', 0) {
        Some(k) => (slice(&rest, 0, k), slice(&rest, k + 1, rest.len())),
        None => (slice(&rest, 0, rest.len()), Vec::new()),
    };
    assert(authority@ =~= match find_char(rest@, '/', 0) {
        Some(k) => rest@.take(k),
        None => rest@,
    });
    assert(tail@ =~= match find_char(rest@, '/', 0) {
        Some(k) => rest@.skip(k + 1),
        None => Seq::<char>::empty(),
    });
    proof {
        crate::text::lemma_rfind_char(authority@, ':', authority@.len() as int);
    }
    let (host, port) = match rposition(&authority, ':') {
        Some(k) => {
            let digits = slice(&authority, k + 1, authority.len());
            assert(digits@ =~= authority@.skip(k + 1));
            match parse_u16(&digits) {
                Some(p) => (slice(&authority, 0, k), p),
                None => (slice(&authority, 0, authority.len()), 80u16),
            }
        },
        None => (slice(&authority, 0, authority.len()), 80u16),
    };
    let mut path: Vec<char> = Vec::new();
    path.push('/');
    push_chars(&mut path, &tail);
    Some((string_of(&host), port, string_of(&path)))
}

/// What `join_url` answers: an absolute `path` as it is; a rooted one on the
/// base's scheme and authority; a relative one beside the base's last `/`.
pub open spec fn joined_url(base: Seq<char>, path: Seq<char>) -> Seq<char> {
    if has_prefix(path, "http://"@) || has_prefix(path, "https://"@) {
        path
    } else {
        match split_scheme(base) {
            None => path,
            Some((scheme, rest)) => if path.len() > 0 && path[0] == '/' {
                let authority = match find_char(rest, '/', 0) {
                    Some(k) => rest.take(k),
                    None => rest,
                };
                scheme + "://"@ + authority + path
            } else {
                let dir = match rfind_char(base, '/', base.len() as int) {
                    Some(k) => base.take(k),
                    None => base,
                };
                dir + seq!['/'] + path
            },
        }
    }
}

fn join_url_chars(base: &Vec<char>, path: &Vec<char>) -> (res: Vec<char>)
    ensures
        res@ == joined_url(base@, path@),
{
    proof {
        reveal_strlit("http://");
        reveal_strlit("https://");
        reveal_strlit("://");
    }
    if starts_with_str(path, "http://") || starts_with_str(path, "https://") {
        return slice(path, 0, path.len());
    }
    let (scheme, rest) = match split_scheme_chars(base) {
        Some(p) => p,
        None => return slice(path, 0, path.len()),
    };
    let mut out: Vec<char> = Vec::new();
    if path.len() > 0 && path[0] == '/' {
        proof {
            crate::text::lemma_find_char(rest@, '/', 0);
        }
        let authority = match position(&rest, '/', 0) {
            Some(k) => slice(&rest, 0, k),
            None => slice(&rest, 0, rest.len()),
        };
        push_chars(&mut out, &scheme);
        push_str(&mut out, "://");
        push_chars(&mut out, &authority);
        push_chars(&mut out, path);
    } else {
        proof {
            crate::text::lemma_rfind_char(base@, '/', base@.len() as int);
        }
        let dir = match rposition(base, '/') {
            Some(k) => slice(base, 0, k),
            None => slice(base, 0, base.len()),
        };
        push_chars(&mut out, &dir);
        out.push('/');
        push_chars(&mut out, path);
    }
    out
}

/// Resolve a possibly relative `controlURL` against the description's location.
pub fn join_url(base: &str, path: &str) -> (res: String)
    ensures
        res@ == joined_url(base@, path@),
{
    let b = chars_of(base);
    let p = chars_of(path);
    string_of(&join_url_chars(&b, &p))
}

// ---------------------------------------------------------------------------
// Device descriptions

/// What `control_url` finds from `cursor` on: in the first `<service` ...
/// `</service>` block that names AVTransport and has a `controlURL`, that
/// URL resolved against `base`.
pub open spec fn control_from(desc: Seq<char>, base: Seq<char>, cursor: int) -> Option<Seq<char>>
    decreases desc.len() - cursor,
{
    if cursor < 0 || cursor > desc.len() {
        None
    } else {
        match find_seq(desc, "<service"@, cursor) {
            None => None,
            Some(start) => match find_seq(desc, "</service>"@, start) {
                None => None,
                Some(end) => {
                    let block = desc.subrange(start, end);
                    match tag_from(block, "controlURL"@, 0) {
                        Some(path) => if contains_seq(block, AVTRANSPORT@) {
                            Some(joined_url(base, path))
                        } else {
                            proof {
                                crate::text::lemma_find_seq(desc, "<service"@, cursor);
                                crate::text::lemma_find_seq(desc, "</service>"@, start);
                                reveal_strlit("</service>");
                            }
                            control_from(desc, base, end + 1)
                        },
                        None => {
                            proof {
                                crate::text::lemma_find_seq(desc, "<service"@, cursor);
                                crate::text::lemma_find_seq(desc, "</service>"@, start);
                                reveal_strlit("</service>");
                            }
                            control_from(desc, base, end + 1)
                        },
                    }
                },
            },
        }
    }
}

/// Pull the AVTransport `controlURL` out of a device description.
pub fn control_url(description: &str, base: &str) -> (res: Option<String>)
    ensures
        match res {
            Some(u) => control_from(description@, base@, 0) == Some(u@),
            None => control_from(description@, base@, 0) is None,
        },
{
    let d = chars_of(description);
    let b = chars_of(base);
    let avt = chars_of(AVTRANSPORT);
    let wanted = chars_of("controlURL");
    let mut cursor: usize = 0;
    loop
        invariant
            cursor <= d@.len(),
            d@ == description@,
            b@ == base@,
            avt@ == AVTRANSPORT@,
            wanted@ == "controlURL"@,
            control_from(d@, b@, 0) == control_from(d@, b@, cursor as int),
        decreases d@.len() - cursor,
    {
        proof {
            crate::text::lemma_find_seq(d@, "<service"@, cursor as int);
            reveal_strlit("<service");
        }
        let start = match find_str(&d, "<service", cursor) {
            Some(s) => s,
            None => return None,
        };
        proof {
            crate::text::lemma_find_seq(d@, "</service>"@, start as int);
            reveal_strlit("</service>");
        }
        let end = match find_str(&d, "</service>", start) {
            Some(e) => e,
            None => return None,
        };
        let block = slice(&d, start, end);
        let has_avt = match find(&block, &avt, 0) {
            Some(_) => true,
            None => false,
        };
        match tag_chars(&block, &wanted) {
            Some(path) => {
                if has_avt {
                    let url = join_url_chars(&b, &path);
                    return Some(string_of(&url));
                }
            },
            None => {},
        }
        cursor = end + 1;
    }
}

/// The renderer a device description describes, if it has AVTransport; it
/// is named by its `friendlyName`, else by the address it answered from.
pub open spec fn described(address: Seq<char>, location: Seq<char>, xml: Seq<char>) -> Option<
    (Seq<char>, Seq<char>, Seq<char>, Seq<char>),
> {
    match control_from(xml, location, 0) {
        None => None,
        Some(control) => Some(
            (
                match tag_from(xml, "friendlyName"@, 0) {
                    Some(n) => n,
                    None => address,
                },
                location,
                control,
                address,
            ),
        ),
    }
}

/// The fields of a renderer, as text.
pub open spec fn renderer_view(r: Renderer) -> (Seq<char>, Seq<char>, Seq<char>, Seq<char>) {
    (r.name@, r.location@, r.control_url@, r.address@)
}

/// Build the renderer from the description `xml` fetched from `location`.
pub fn renderer_from(address: &str, location: &str, xml: &str) -> (res: Option<Renderer>)
    ensures
        match res {
            Some(r) => described(address@, location@, xml@) == Some(renderer_view(r)),
            None => described(address@, location@, xml@) is None,
        },
{
    let control = match control_url(xml, location) {
        Some(c) => c,
        None => return None,
    };
    let name = match tag(xml, "friendlyName") {
        Some(n) => n,
        None => address.to_owned(),
    };
    Some(
        Renderer {
            name,
            location: location.to_owned(),
            control_url: control,
            address: address.to_owned(),
        },
    )
}

// ---------------------------------------------------------------------------
// SSDP

/// Record one M-SEARCH answer: its `LOCATION`, under the address it came
/// from, unless it has none or that address already answered.
pub fn note_answer(found: &mut Vec<(String, String)>, from: &str, message: &str)
    ensures
        ({
            let location = header_from(lines(message@), "location"@, 0);
            let known = exists|i: int|
                0 <= i < old(found)@.len() && (#[trigger] old(found)@[i]).0@ == from@;
            if location.len() == 0 || known {
                final(found)@ == old(found)@
            } else {
                final(found)@.len() == old(found)@.len() + 1 && final(found)@.take(
                    old(found)@.len() as int,
                ) == old(found)@ && final(found)@.last().0@ == from@
                    && final(found)@.last().1@ == location
            }
        }),
{
    let location = header(message, "location");
    if chars_of(location.as_str()).len() == 0 {
        return;
    }
    let f = chars_of(from);
    let mut i: usize = 0;
    while i < found.len()
        invariant
            i <= found@.len(),
            f@ == from@,
            forall|k: int| 0 <= k < i ==> (#[trigger] found@[k]).0@ != from@,
        decreases found@.len() - i,
    {
        let key = chars_of(found[i].0.as_str());
        if same(&key, &f) {
            return;
        }
        i += 1;
    }
    let ghost before = found@;
    found.push((from.to_owned(), location));
    assert(found@.take(before.len() as int) =~= before);
}

/// The M-SEARCH request for MediaRenderers.
pub open spec fn search_request() -> Seq<char> {
    "M-SEARCH * HTTP/1.1\r\nHOST: "@ + SSDP_ADDR@ + "\r\nMAN: \"ssdp:discover\"\r\nMX: 2\r\nST: "@
        + RENDERER@ + "\r\nUSER-AGENT: "@ + USER_AGENT@ + "\r\n\r\n"@
}

/// The text of the M-SEARCH request sent to [`SSDP_ADDR`].
pub fn search_message() -> (res: String)
    ensures
        res@ == search_request(),
{
    let mut out: Vec<char> = Vec::new();
    push_str(&mut out, "M-SEARCH * HTTP/1.1\r\nHOST: ");
    push_str(&mut out, SSDP_ADDR);
    push_str(&mut out, "\r\nMAN: \"ssdp:discover\"\r\nMX: 2\r\nST: ");
    push_str(&mut out, RENDERER);
    push_str(&mut out, "\r\nUSER-AGENT: ");
    push_str(&mut out, USER_AGENT);
    push_str(&mut out, "\r\n\r\n");
    string_of(&out)
}

// ---------------------------------------------------------------------------
// HTTP

/// The text of the header lines, each `key: value\r\n`.
pub open spec fn header_block(hs: Seq<(Seq<char>, Seq<char>)>) -> Seq<char>
    decreases hs.len(),
{
    if hs.len() == 0 {
        Seq::empty()
    } else {
        header_block(hs.drop_last()) + hs.last().0 + ": "@ + hs.last().1 + "\r\n"@
    }
}

/// The request `http` sends.
pub open spec fn http_request(
    method: Seq<char>,
    host: Seq<char>,
    port: u16,
    path: Seq<char>,
    headers: Seq<(Seq<char>, Seq<char>)>,
    body: Option<Seq<char>>,
) -> Seq<char> {
    method + seq![' '] + path + " HTTP/1.1\r\nHost: "@ + host + seq![':'] + decimal(port as nat)
        + "\r\nUser-Agent: "@ + USER_AGENT@ + "\r\nConnection: close\r\n"@ + header_block(headers)
        + match body {
        Some(b) => "Content-Length: "@ + decimal(byte_len(b)) + "\r\n"@,
        None => Seq::empty(),
    } + "\r\n"@ + match body {
        Some(b) => b,
        None => Seq::empty(),
    }
}

/// Write the HTTP/1.1 request for `method` on `path` at `host:port`.
pub fn request_text(
    method: &str,
    host: &str,
    port: u16,
    path: &str,
    headers: &[(&str, &str)],
    body: Option<&str>,
) -> (res: String)
    ensures
        res@ == http_request(
            method@,
            host@,
            port,
            path@,
            str_pairs(headers@),
            match body {
                Some(b) => Some(b@),
                None => None,
            },
        ),
{
    let mut out: Vec<char> = Vec::new();
    push_str(&mut out, method);
    out.push(' ');
    push_str(&mut out, path);
    push_str(&mut out, " HTTP/1.1\r\nHost: ");
    push_str(&mut out, host);
    out.push(':');
    push_chars(&mut out, &decimal_chars(port as u64));
    push_str(&mut out, "\r\nUser-Agent: ");
    push_str(&mut out, USER_AGENT);
    push_str(&mut out, "\r\nConnection: close\r\n");
    let ghost start = out@;
    let ghost hs = str_pairs(headers@);
    let mut k: usize = 0;
    while k < headers.len()
        invariant
            k <= headers@.len(),
            hs == str_pairs(headers@),
            out@ == start + header_block(hs.take(k as int)),
        decreases headers@.len() - k,
    {
        let (key, value) = headers[k];
        assert(hs[k as int] == (key@, value@));
        push_str(&mut out, key);
        push_str(&mut out, ": ");
        push_str(&mut out, value);
        push_str(&mut out, "\r\n");
        k += 1;
        assert(hs.take(k as int).drop_last() =~= hs.take(k - 1));
        assert(out@ =~= start + header_block(hs.take(k as int)));
    }
    assert(hs.take(headers@.len() as int) =~= hs);
    match body {
        Some(b) => {
            push_str(&mut out, "Content-Length: ");
            push_chars(&mut out, &decimal_chars(b.len() as u64));
            push_str(&mut out, "\r\n");
        },
        None => {},
    }
    push_str(&mut out, "\r\n");
    match body {
        Some(b) => push_str(&mut out, b),
        None => {},
    }
    string_of(&out)
}

/// The status code field of an HTTP answer: the second word of its first line.
pub open spec fn status_field(text: Seq<char>) -> Seq<char> {
    let head = match find_seq(text, "\r\n\r\n"@, 0) {
        Some(k) => text.take(k),
        None => text,
    };
    let ls = lines(head);
    if ls.len() > 0 && words(ls[0]).len() > 1 {
        words(ls[0])[1]
    } else {
        Seq::empty()
    }
}

/// The body of an HTTP answer: what follows the first blank line.
pub open spec fn answer_body(text: Seq<char>) -> Seq<char> {
    match find_seq(text, "\r\n\r\n"@, 0) {
        Some(k) => text.skip(k + 4),
        None => Seq::empty(),
    }
}

/// What `http` makes of an answer to `url`: the body for a 2xx status, else
/// an error naming the URL and the status.
pub open spec fn http_outcome(url: Seq<char>, text: Seq<char>) -> Result<Seq<char>, Seq<char>> {
    let status = status_field(text);
    if status.len() > 0 && status[0] == '2' {
        Ok(answer_body(text))
    } else {
        Err(url + " answered "@ + status)
    }
}

/// Judge the full text of an HTTP answer to `url`.
pub fn read_answer(url: &str, text: &str) -> (res: Result<String, String>)
    ensures
        match res {
            Ok(b) => http_outcome(url@, text@) == Ok::<Seq<char>, Seq<char>>(b@),
            Err(e) => http_outcome(url@, text@) == Err::<Seq<char>, Seq<char>>(e@),
        },
{
    let t = chars_of(text);
    proof {
        crate::text::lemma_find_seq(t@, "\r\n\r\n"@, 0);
        reveal_strlit("\r\n\r\n");
    }
    let (head, body) = match find_str(&t, "\r\n\r\n", 0) {
        Some(k) => (slice(&t, 0, k), slice(&t, k + 4, t.len())),
        None => (slice(&t, 0, t.len()), Vec::new()),
    };
    assert(head@ =~= match find_seq(text@, "\r\n\r\n"@, 0) {
        Some(k) => text@.take(k),
        None => text@,
    });
    assert(body@ =~= answer_body(text@));
    let ls = split_lines(&head);
    let mut status: Vec<char> = Vec::new();
    if ls.len() > 0 {
        assert(views(ls@)[0] == ls@[0]@);
        let ws = split_words(&ls[0]);
        if ws.len() > 1 {
            assert(views(ws@)[1] == ws@[1]@);
            status = slice(&ws[1], 0, ws[1].len());
        }
    }
    assert(status@ =~= status_field(text@));
    if status.len() > 0 && status[0] == '2' {
        Ok(string_of(&body))
    } else {
        let mut e: Vec<char> = Vec::new();
        push_str(&mut e, url);
        push_str(&mut e, " answered ");
        push_chars(&mut e, &status);
        Err(string_of(&e))
    }
}

/// Where `http` connects for `url`, or why it cannot.
pub fn http_target(url: &str) -> (res: Result<(String, u16, String), String>)
    ensures
        match res {
            Ok((h, p, path)) => url_target(url@) == Some((h@, p, path@)),
            Err(e) => url_target(url@) is None && e@ == "not an http url: "@ + url@,
        },
{
    match authority_of(url) {
        Some(t) => Ok(t),
        None => {
            let mut e: Vec<char> = Vec::new();
            push_str(&mut e, "not an http url: ");
            push_str(&mut e, url);
            Err(string_of(&e))
        },
    }
}

// ---------------------------------------------------------------------------
// SOAP and DIDL

/// The XML escape of one character.
pub open spec fn escape_char(c: char) -> Seq<char> {
    if c == '&' {
        "&amp;"@
    } else if c == '<' {
        "&lt;"@
    } else if c == '>' {
        "&gt;"@
    } else if c == '"' {
        "&quot;"@
    } else if c == '\'' {
        "&apos;"@
    } else {
        seq![c]
    }
}

/// `text` with each character escaped for XML.
pub open spec fn escaped(text: Seq<char>) -> Seq<char>
    decreases text.len(),
{
    if text.len() == 0 {
        Seq::empty()
    } else {
        escaped(text.drop_last()) + escape_char(text.last())
    }
}

fn escape_chars(t: &Vec<char>) -> (res: Vec<char>)
    ensures
        res@ == escaped(t@),
{
    let mut out: Vec<char> = Vec::new();
    let mut i: usize = 0;
    while i < t.len()
        invariant
            i <= t.len(),
            out@ == escaped(t@.take(i as int)),
        decreases t.len() - i,
    {
        let c = t[i];
        if c == '&' {
            push_str(&mut out, "&amp;");
        } else if c == '<' {
            push_str(&mut out, "&lt;");
        } else if c == '>' {
            push_str(&mut out, "&gt;");
        } else if c == '"' {
            push_str(&mut out, "&quot;");
        } else if c == '\'' {
            push_str(&mut out, "&apos;");
        } else {
            out.push(c);
        }
        i += 1;
        assert(t@.take(i as int).drop_last() =~= t@.take(i - 1));
        assert(out@ =~= escaped(t@.take(i as int)));
    }
    assert(t@.take(t@.len() as int) =~= t@);
    out
}

/// Escape `text` for use in XML text and attribute values.
pub fn escape(text: &str) -> (res: String)
    ensures
        res@ == escaped(text@),
{
    let t = chars_of(text);
    string_of(&escape_chars(&t))
}

/// The SOAP envelope for an AVTransport `action`.
pub open spec fn soap_envelope(action: Seq<char>, arguments: Seq<char>) -> Seq<char> {
    "<?xml version=\"1.0\" encoding=\"utf-8\"?><s:Envelope xmlns:s=\"http://schemas.xmlsoap.org/soap/envelope/\" s:encodingStyle=\"http://schemas.xmlsoap.org/soap/encoding/\"><s:Body><u:"@
        + action + " xmlns:u=\""@ + AVTRANSPORT@ + "\"><InstanceID>0</InstanceID>"@ + arguments
        + "</u:"@ + action + "></s:Body></s:Envelope>"@
}

pub fn soap_body(action: &str, arguments: &str) -> (res: String)
    ensures
        res@ == soap_envelope(action@, arguments@),
{
    let mut out: Vec<char> = Vec::new();
    push_str(
        &mut out,
        "<?xml version=\"1.0\" encoding=\"utf-8\"?><s:Envelope xmlns:s=\"http://schemas.xmlsoap.org/soap/envelope/\" s:encodingStyle=\"http://schemas.xmlsoap.org/soap/encoding/\"><s:Body><u:",
    );
    push_str(&mut out, action);
    push_str(&mut out, " xmlns:u=\"");
    push_str(&mut out, AVTRANSPORT);
    push_str(&mut out, "\"><InstanceID>0</InstanceID>");
    push_str(&mut out, arguments);
    push_str(&mut out, "</u:");
    push_str(&mut out, action);
    push_str(&mut out, "></s:Body></s:Envelope>");
    string_of(&out)
}

/// The `SOAPAction` header value for an AVTransport `action`.
pub fn soap_action(action: &str) -> (res: String)
    ensures
        res@ == seq!['"'] + AVTRANSPORT@ + seq!['#'] + action@ + seq!['"'],
{
    let mut out: Vec<char> = Vec::new();
    out.push('"');
    push_str(&mut out, AVTRANSPORT);
    out.push('#');
    push_str(&mut out, action);
    out.push('"');
    string_of(&out)
}

/// The DIDL-Lite document for a live video item.
pub open spec fn didl_lite(title: Seq<char>, url: Seq<char>, mime: Seq<char>) -> Seq<char> {
    let protocol = "http-get:*:"@ + mime + seq![':'] + DLNA_FEATURES_LIVE@;
    "<DIDL-Lite xmlns=\"urn:schemas-upnp-org:metadata-1-0/DIDL-Lite/\" xmlns:dc=\"http://purl.org/dc/elements/1.1/\" xmlns:upnp=\"urn:schemas-upnp-org:metadata-1-0/upnp/\"><item id=\"ttycast\" parentID=\"0\" restricted=\"1\"><dc:title>"@
        + escaped(title)
        + "</dc:title><upnp:class>object.item.videoItem</upnp:class><res protocolInfo=\""@
        + escaped(protocol) + "\">"@ + escaped(url) + "</res></item></DIDL-Lite>"@
}

/// DIDL-Lite metadata for a live video item.
///
/// A renderer given no metadata often refuses the URI outright, and one given
/// a `duration` will try to draw a position bar for a live stream, so neither
/// size nor duration is declared here.
pub fn didl(title: &str, url: &str, mime: &str) -> (res: String)
    ensures
        res@ == didl_lite(title@, url@, mime@),
{
    let mut protocol: Vec<char> = Vec::new();
    push_str(&mut protocol, "http-get:*:");
    push_str(&mut protocol, mime);
    protocol.push(':');
    push_str(&mut protocol, DLNA_FEATURES_LIVE);
    let mut out: Vec<char> = Vec::new();
    push_str(
        &mut out,
        "<DIDL-Lite xmlns=\"urn:schemas-upnp-org:metadata-1-0/DIDL-Lite/\" xmlns:dc=\"http://purl.org/dc/elements/1.1/\" xmlns:upnp=\"urn:schemas-upnp-org:metadata-1-0/upnp/\"><item id=\"ttycast\" parentID=\"0\" restricted=\"1\"><dc:title>",
    );
    push_chars(&mut out, &escape_chars(&chars_of(title)));
    push_str(
        &mut out,
        "</dc:title><upnp:class>object.item.videoItem</upnp:class><res protocolInfo=\"",
    );
    push_chars(&mut out, &escape_chars(&protocol));
    push_str(&mut out, "\">");
    push_chars(&mut out, &escape_chars(&chars_of(url)));
    push_str(&mut out, "</res></item></DIDL-Lite>");
    assert(protocol@ =~= "http-get:*:"@ + mime@ + seq![':'] + DLNA_FEATURES_LIVE@);
    assert(out@ =~= didl_lite(title@, url@, mime@));
    string_of(&out)
}

/// The arguments of `SetAVTransportURI` for `url`, with its DIDL metadata.
pub open spec fn set_uri_arguments(url: Seq<char>, title: Seq<char>, mime: Seq<char>) -> Seq<char> {
    "<CurrentURI>"@ + escaped(url) + "</CurrentURI><CurrentURIMetaData>"@ + escaped(
        didl_lite(title, url, mime),
    ) + "</CurrentURIMetaData>"@
}

/// The `SetAVTransportURI` arguments `play` sends before `Play`.
pub fn play_arguments(url: &str, title: &str, mime: &str) -> (res: String)
    ensures
        res@ == set_uri_arguments(url@, title@, mime@),
{
    let metadata = didl(title, url, mime);
    let mut out: Vec<char> = Vec::new();
    push_str(&mut out, "<CurrentURI>");
    push_chars(&mut out, &escape_chars(&chars_of(url)));
    push_str(&mut out, "</CurrentURI><CurrentURIMetaData>");
    push_chars(&mut out, &escape_chars(&chars_of(metadata.as_str())));
    push_str(&mut out, "</CurrentURIMetaData>");
    string_of(&out)
}

/// The arguments of `Play`.
pub const PLAY_ARGUMENTS: &'static str = "<Speed>1</Speed>";

// ---------------------------------------------------------------------------
// Laws

/// Escaped text holds none of the characters XML gives a meaning, but for
/// the `&` that starts an entity.
pub proof fn escaped_is_inert(text: Seq<char>)
    ensures
        forall|i: int|
            0 <= i < escaped(text).len() ==> {
                let c = #[trigger] escaped(text)[i];
                c != '<' && c != '>' && c != '"' && c != '\''
            },
    decreases text.len(),
{
    if text.len() > 0 {
        escaped_is_inert(text.drop_last());
        let c = text.last();
        let a = escaped(text.drop_last());
        let b = escape_char(c);
        reveal_strlit("&amp;");
        reveal_strlit("&lt;");
        reveal_strlit("&gt;");
        reveal_strlit("&quot;");
        reveal_strlit("&apos;");
        assert forall|i: int| 0 <= i < escaped(text).len() implies {
            let d = #[trigger] escaped(text)[i];
            d != '<' && d != '>' && d != '"' && d != '\''
        } by {
            if i < a.len() {
                assert(escaped(text)[i] == a[i]);
            } else {
                assert(escaped(text)[i] == b[i - a.len()]);
            }
        }
    }
}

/// Text with nothing to escape comes back unchanged.
pub proof fn escaped_plain_text(text: Seq<char>)
    requires
        forall|i: int|
            0 <= i < text.len() ==> {
                let c = #[trigger] text[i];
                c != '&' && c != '<' && c != '>' && c != '"' && c != '\''
            },
    ensures
        escaped(text) == text,
    decreases text.len(),
{
    if text.len() > 0 {
        let t = text.drop_last();
        assert forall|i: int| 0 <= i < t.len() implies {
            let c = #[trigger] t[i];
            c != '&' && c != '<' && c != '>' && c != '"' && c != '\''
        } by {
            assert(t[i] == text[i]);
        }
        escaped_plain_text(t);
        assert(text.last() == text[text.len() - 1]);
        assert(escaped(text) =~= text);
    }
}


proof fn lemma_lower_idempotent(s: Seq<char>)
    ensures
        ascii_lower_seq(ascii_lower_seq(s)) == ascii_lower_seq(s),
{
    assert forall|i: int| 0 <= i < s.len() implies #[trigger] ascii_lower(ascii_lower(s[i]))
        == ascii_lower(s[i]) by {
        let u = s[i] as u32;
        if 65 <= u <= 90 {
            assert((((u + 32) as char) as u32) == u + 32);
        }
    }
    assert(ascii_lower_seq(ascii_lower_seq(s)) =~= ascii_lower_seq(s));
}

/// Header lookup ignores ASCII case: asking for a name in any case finds
/// the same value as asking for it in lower case.
pub proof fn header_lookup_ignores_case(ls: Seq<Seq<char>>, name: Seq<char>, k: int)
    ensures
        header_from(ls, name, k) == header_from(ls, ascii_lower_seq(name), k),
    decreases ls.len() - k,
{
    lemma_lower_idempotent(name);
    if 0 <= k < ls.len() {
        header_lookup_ignores_case(ls, name, k + 1);
    }
}

/// What renderers are listed by: the name, lower-cased.
pub open spec fn listing_key(r: Renderer) -> Seq<char> {
    lower_of(r.name@)
}

/// Whether no renderer of `rs` is listed after one whose key sorts after its own.
pub open spec fn listed_in_order(rs: Seq<Renderer>) -> bool {
    forall|i: int, j: int|
        0 <= i < j < rs.len() ==> !seq_less(#[trigger] listing_key(rs[j]), #[trigger] listing_key(rs[i]))
}

/// The renderers of `rs` whose key is `k`, in the order they stand in.
pub open spec fn with_key(rs: Seq<Renderer>, k: Seq<char>) -> Seq<Renderer> {
    rs.filter(|r: Renderer| listing_key(r) == k)
}

/// Renderers in listing order, by name without regard to case; those whose
/// names compare equal keep the order they came in (a stable sort).
pub fn sort_renderers(renderers: Vec<Renderer>) -> (res: Vec<Renderer>)
    ensures
        listed_in_order(res@),
        forall|k: Seq<char>| #[trigger] with_key(res@, k) == with_key(renderers@, k),
{
    let ghost input = renderers@;
    let mut rest = renderers;
    let mut out: Vec<Renderer> = Vec::new();
    let mut keys: Vec<Vec<char>> = Vec::new();
    let ghost mut taken: int = 0;
    assert(input.skip(0) =~= input);
    while rest.len() > 0
        invariant
            0 <= taken <= input.len(),
            rest@ == input.skip(taken),
            keys@.len() == out@.len(),
            forall|i: int| 0 <= i < out@.len() ==> #[trigger] keys@[i]@ == listing_key(out@[i]),
            listed_in_order(out@),
            forall|k: Seq<char>| #[trigger] with_key(out@, k) == with_key(input.take(taken), k),
        decreases rest@.len(),
    {
        let r = rest.remove(0);
        let name = chars_of(r.name.as_str());
        let key = lower_chars(&name);
        let mut p: usize = 0;
        while p < out.len() && !less_chars(&key, &keys[p])
            invariant
                p <= out@.len(),
                keys@.len() == out@.len(),
                forall|i: int| 0 <= i < out@.len() ==> #[trigger] keys@[i]@ == listing_key(out@[i]),
                forall|i: int| 0 <= i < p ==> !seq_less(key@, #[trigger] listing_key(out@[i])),
            decreases out@.len() - p,
        {
            p += 1;
        }
        proof {
            lemma_insert_keeps_order(out@, p as int, r);
            lemma_insert_keys(out@, input, taken, p as int, r);
        }
        let ghost old_out = out@;
        let ghost old_keys = keys@;
        out.insert(p, r);
        keys.insert(p, key);
        proof {
            taken = taken + 1;
            old_out.insert_ensures(p as int, r);
            old_keys.insert_ensures(p as int, key);
            assert forall|i: int| 0 <= i < out@.len() implies #[trigger] keys@[i]@ == listing_key(out@[i]) by {
                if i > p as int {
                    assert(keys@[i] == old_keys[i - 1]);
                    assert(out@[i] == old_out[i - 1]);
                }
            }
            assert(rest@ =~= input.skip(taken));
        }
    }
    proof {
        assert(input.take(taken) =~= input);
    }
    out
}

/// Inserting `r` where every renderer before it has a key not above its own,
/// and the first after it has a key above it, keeps the listing order.
proof fn lemma_insert_keeps_order(out: Seq<Renderer>, p: int, r: Renderer)
    requires
        0 <= p <= out.len(),
        listed_in_order(out),
        forall|i: int| 0 <= i < p ==> !seq_less(listing_key(r), #[trigger] listing_key(out[i])),
        p < out.len() ==> seq_less(listing_key(r), listing_key(out[p])),
    ensures
        listed_in_order(out.insert(p, r)),
{
    let n = out.insert(p, r);
    out.insert_ensures(p, r);
    assert forall|i: int, j: int| 0 <= i < j < n.len() implies !seq_less(
        #[trigger] listing_key(n[j]),
        #[trigger] listing_key(n[i]),
    ) by {
        let kr = listing_key(r);
        if i < p && j == p {
        } else if i == p && j > p {
            let kj = listing_key(out[j - 1]);
            let kp = listing_key(out[p]);
            lemma_seq_less_total(kp, kj);
            if seq_less(kj, kr) {
                if j - 1 > p {
                    assert(!seq_less(kj, kp));
                    if seq_less(kp, kj) {
                        lemma_seq_less_transitive(kp, kj, kr);
                    } else {
                        assert(kp == kj);
                    }
                    lemma_seq_less_transitive(kr, kp, kr);
                    lemma_seq_less_irreflexive(kr);
                } else {
                    lemma_seq_less_transitive(kr, kj, kr);
                    lemma_seq_less_irreflexive(kr);
                }
            }
        } else if i < p && j > p {
            assert(!seq_less(listing_key(out[j - 1]), listing_key(out[i])));
        } else if i > p {
            assert(!seq_less(listing_key(out[j - 1]), listing_key(out[i - 1])));
        } else {
            assert(!seq_less(listing_key(out[j]), listing_key(out[i])));
        }
    }
}

/// Inserting the next renderer of the input at that place extends exactly
/// the run of its own key by it.
proof fn lemma_insert_keys(out: Seq<Renderer>, input: Seq<Renderer>, taken: int, p: int, r: Renderer)
    requires
        0 <= taken < input.len(),
        input[taken] == r,
        0 <= p <= out.len(),
        listed_in_order(out),
        forall|i: int| 0 <= i < p ==> !seq_less(listing_key(r), #[trigger] listing_key(out[i])),
        p < out.len() ==> seq_less(listing_key(r), listing_key(out[p])),
        forall|k: Seq<char>| #[trigger] with_key(out, k) == with_key(input.take(taken), k),
    ensures
        forall|k: Seq<char>| #[trigger] with_key(out.insert(p, r), k) == with_key(input.take(taken + 1), k),
{
    let kr = listing_key(r);
    let head = out.subrange(0, p);
    let tail = out.subrange(p, out.len() as int);
    assert(out =~= head + tail);
    assert(input.take(taken + 1) =~= input.take(taken).push(r));
    assert forall|k: Seq<char>| #[trigger] with_key(out.insert(p, r), k) == with_key(input.take(taken + 1), k) by {
        let f = |x: Renderer| listing_key(x) == k;
        assert(out.insert(p, r) == head.push(r) + tail);
        Seq::filter_distributes_over_add(head.push(r), tail, f);
        Seq::filter_distributes_over_add(head, tail, f);
        head.lemma_filter_push(r, f);
        input.take(taken).lemma_filter_push(r, f);
        if k == kr {
            assert forall|i: int| 0 <= i < tail.len() implies !f(#[trigger] tail[i]) by {
                let ki = listing_key(out[p + i]);
                if i > 0 {
                    lemma_seq_less_total(listing_key(out[p]), ki);
                    assert(!seq_less(ki, listing_key(out[p])));
                    if seq_less(listing_key(out[p]), ki) {
                        lemma_seq_less_transitive(kr, listing_key(out[p]), ki);
                    }
                }
                lemma_seq_less_irreflexive(kr);
            }
            assert(tail.filter(f) =~= Seq::<Renderer>::empty()) by {
                tail.lemma_all_neg_filter_empty(f);
                assert(tail.all(|x: Renderer| !f(x)));
            }
            assert(with_key(out, k) == head.filter(f) + tail.filter(f));
        } else {
            assert(with_key(out, k) == head.filter(f) + tail.filter(f));
        }
    }
}

} // verus!
