//! The Wi-Fi Display (Miracast) source side of the RTSP handshake.
//!
//! Miracast is three layers stacked: Wi-Fi Direct carries the link, RTSP
//! negotiates the session (the M1..M7 exchange below), and the picture travels
//! as H.264 inside MPEG-TS over RTP/UDP. Only the middle layer lives here, as
//! pure message building and parsing, so it can be tested without a radio.
//!
//! Reference: Wi-Fi Alliance "Wi-Fi Display Technical Specification" v2.x,
//! section 6.4 (Capability Negotiation) and RFC 2326 (RTSP 1.0).

use vstd::prelude::*;

use crate::text::find;
use crate::number::{decimal, decimal_chars, hex, hex_chars, parse_hex_u32, parse_radix, parse_u16, parse_u32, zero_pad, zero_padded};
use crate::text::{
    ascii_lower_seq, chars_of, eq_ignore_ascii_case, eq_ignore_case, find_char, find_seq, has_prefix,
    join, join_chars, lines, lower_chars, lower_of, position, push_chars, push_str, same, slice,
    split, split_chars, split_lines, split_pattern, split_seq, split_words, starts_with_str,
    string_of, to_ascii_lower, trim, trim_chars, upper_chars, upper_of, views, words, byte_len, str_pairs,
    is_ws, skip_ws, back_ws, lines_state, all_ascii, ascii_upper, ascii_lower,
    split_acc, occurs_at, split_seq_acc, seq_less, less_chars, lemma_seq_less_irreflexive,
    lemma_seq_less_total, lemma_seq_less_transitive,
};

verus! {

pub const RTSP_VERSION: &'static str = "RTSP/1.0";

pub const USER_AGENT: &'static str = "ttycast/0.2";

/// The CEA resolution bitmaps a source advertises in `wfd_video_formats`.
pub const CEA_640X480P60: u32 = 1;

pub const CEA_720X480P60: u32 = 2;

pub const CEA_1280X720P30: u32 = 32;

pub const CEA_1280X720P60: u32 = 64;

pub const CEA_1920X1080P30: u32 = 256;

/// `(bitmap, width, height, fps)` for the modes ttycast is willing to send,
/// best first. Only progressive modes every sink must support.
pub const SUPPORTED_MODES: [(u32, u32, u32, u32); 4] = [
    (256, 1920, 1080, 30),
    (64, 1280, 720, 60),
    (32, 1280, 720, 30),
    (1, 640, 480, 60),
];

/// An RTSP request or response, either direction.
#[derive(Debug, Clone, PartialEq, Eq)]
pub struct Message {
    /// `("OPTIONS", "rtsp://...")` for a request, `None` for a response.
    pub request: Option<(String, String)>,
    /// `(code, reason)` for a response, `None` for a request.
    pub status: Option<(u16, String)>,
    pub headers: Vec<(String, String)>,
    pub body: String,
}

/// A message as text: the request line, the status, the headers and the body.
pub struct MessageView {
    pub request: Option<(Seq<char>, Seq<char>)>,
    pub status: Option<(u16, Seq<char>)>,
    pub headers: Seq<(Seq<char>, Seq<char>)>,
    pub body: Seq<char>,
}

/// The text of each header pair.
pub open spec fn header_views(hs: Seq<(String, String)>) -> Seq<(Seq<char>, Seq<char>)> {
    hs.map_values(|h: (String, String)| (h.0@, h.1@))
}

impl View for Message {
    type V = MessageView;

    open spec fn view(&self) -> MessageView {
        MessageView {
            request: match self.request {
                Some((m, u)) => Some((m@, u@)),
                None => None,
            },
            status: match self.status {
                Some((c, r)) => Some((c, r@)),
                None => None,
            },
            headers: header_views(self.headers@),
            body: self.body@,
        }
    }
}

impl Default for Message {
    fn default() -> (m: Self)
        ensures
            m.request is None,
            m.status is None,
            m@.headers.len() == 0,
            m@.body.len() == 0,
    {
        let m = Message { request: None, status: None, headers: Vec::new(), body: String::new() };
        assert(m@.headers =~= Seq::<(Seq<char>, Seq<char>)>::empty());
        m
    }
}

/// Index of the first header at or after `i` whose name matches `name`
/// without regard to ASCII case.
pub open spec fn find_header(hs: Seq<(Seq<char>, Seq<char>)>, name: Seq<char>, i: int) -> Option<int>
    decreases hs.len() - i,
{
    if i < 0 || i >= hs.len() {
        None
    } else if eq_ignore_case(hs[i].0, name) {
        Some(i)
    } else {
        find_header(hs, name, i + 1)
    }
}

/// The value of the first header called `name` (any ASCII case).
pub open spec fn header_value(hs: Seq<(Seq<char>, Seq<char>)>, name: Seq<char>) -> Option<Seq<char>> {
    match find_header(hs, name, 0) {
        Some(i) => Some(hs[i].1),
        None => None,
    }
}

/// The `CSeq` header as a number, if present and numeric.
pub open spec fn cseq_of(hs: Seq<(Seq<char>, Seq<char>)>) -> Option<u32> {
    match header_value(hs, "cseq"@) {
        Some(v) => match parse_radix(v, 10, u32::MAX as nat) {
            Some(n) => Some(n as u32),
            None => None,
        },
        None => None,
    }
}

/// The characters of a `String`.
fn chars_of_string(s: &String) -> (res: Vec<char>)
    ensures
        res@ == s@,
{
    chars_of(s.as_str())
}

impl Message {
    pub fn cseq(&self) -> (res: Option<u32>)
        ensures
            res == cseq_of(self@.headers),
    {
        match self.header("cseq") {
            Some(v) => {
                let cs = chars_of(v);
                parse_u32(&cs)
            },
            None => None,
        }
    }

    pub fn header(&self, name: &str) -> (res: Option<&str>)
        ensures
            match res {
                Some(v) => header_value(self@.headers, name@) == Some(v@),
                None => header_value(self@.headers, name@) is None,
            },
    {
        let wanted = chars_of(name);
        let ghost hs = self@.headers;
        let mut i: usize = 0;
        while i < self.headers.len()
            invariant
                i <= self.headers@.len(),
                hs == self@.headers,
                wanted@ == name@,
                find_header(hs, name@, 0) == find_header(hs, name@, i as int),
            decreases self.headers@.len() - i,
        {
            let key = chars_of_string(&self.headers[i].0);
            assert(hs[i as int] == (self.headers@[i as int].0@, self.headers@[i as int].1@));
            if eq_ignore_ascii_case(&key, &wanted) {
                return Some(self.headers[i].1.as_str());
            }
            i += 1;
        }
        None
    }

    pub fn encode(&self) -> (res: String)
        ensures
            res@ == encoded(self@),
    {
        let body = chars_of_string(&self.body);
        let mut headers: Vec<(Vec<char>, Vec<char>)> = Vec::new();
        let mut k: usize = 0;
        while k < self.headers.len()
            invariant
                k <= self.headers@.len(),
                pair_views(headers@) == self@.headers.take(k as int),
            decreases self.headers@.len() - k,
        {
            let ghost before = pair_views(headers@);
            let key = chars_of_string(&self.headers[k].0);
            let value = chars_of_string(&self.headers[k].1);
            assert(self@.headers[k as int] == (self.headers@[k as int].0@, self.headers@[k as int].1@));
            let ghost kv = (key@, value@);
            headers.push((key, value));
            assert(pair_views(headers@) =~= before.push(kv));
            k += 1;
            assert(pair_views(headers@) =~= self@.headers.take(k as int));
        }
        assert(self@.headers.take(self@.headers.len() as int) =~= self@.headers);
        if body.len() > 0 {
            let ct = chars_of("content-type");
            if !has_key_exec(&headers, &ct) {
                let ghost before = pair_views(headers@);
                headers.push((ct, chars_of("text/parameters")));
                assert(pair_views(headers@) =~= before.push(("content-type"@, "text/parameters"@)));
            }
            let ghost before = pair_views(headers@);
            let len = self.body.as_str().len();
            headers.push((chars_of("content-length"), decimal_chars(len as u64)));
            assert(pair_views(headers@) =~= before.push(
                ("content-length"@, decimal(byte_len(self@.body))),
            ));
        }
        let mut out: Vec<char> = Vec::new();
        match &self.request {
            Some((method, url)) => {
                push_str(&mut out, method.as_str());
                out.push(' ');
                push_str(&mut out, url.as_str());
                out.push(' ');
                push_str(&mut out, "RTSP/1.0");
            },
            None => {
                let (code, reason): (u16, Vec<char>) = match &self.status {
                    Some((c, r)) => (*c, chars_of_string(r)),
                    None => (200, chars_of("OK")),
                };
                push_str(&mut out, "RTSP/1.0");
                out.push(' ');
                push_chars(&mut out, &decimal_chars(code as u64));
                out.push(' ');
                push_chars(&mut out, &reason);
            },
        }
        let ghost start = out@;
        assert(start =~= start_line(self@));
        let mut h: usize = 0;
        while h < headers.len()
            invariant
                h <= headers@.len(),
                out@ == start + header_text(pair_views(headers@).take(h as int)),
            decreases headers@.len() - h,
        {
            let ghost before = out@;
            push_str(&mut out, "\r\n");
            let name = canonical_chars(&headers[h].0);
            push_chars(&mut out, &name);
            push_str(&mut out, ": ");
            push_chars(&mut out, &headers[h].1);
            h += 1;
            let ghost t = pair_views(headers@).take(h as int);
            assert(t.drop_last() =~= pair_views(headers@).take(h - 1));
            assert(out@ =~= start + header_text(t));
        }
        assert(pair_views(headers@).take(headers@.len() as int) =~= pair_views(headers@));
        push_str(&mut out, "\r\n\r\n");
        push_chars(&mut out, &body);
        string_of(&out)
    }
}

/// The text of each pair of character vectors.
pub open spec fn pair_views(v: Seq<(Vec<char>, Vec<char>)>) -> Seq<(Seq<char>, Seq<char>)> {
    v.map_values(|p: (Vec<char>, Vec<char>)| (p.0@, p.1@))
}

/// Whether some header is named exactly `key`.
pub open spec fn has_key(hs: Seq<(Seq<char>, Seq<char>)>, key: Seq<char>) -> bool {
    exists|i: int| 0 <= i < hs.len() && (#[trigger] hs[i]).0 == key
}

fn has_key_exec(hs: &Vec<(Vec<char>, Vec<char>)>, key: &Vec<char>) -> (res: bool)
    ensures
        res == has_key(pair_views(hs@), key@),
{
    let mut i: usize = 0;
    while i < hs.len()
        invariant
            i <= hs@.len(),
            forall|k: int| 0 <= k < i ==> (#[trigger] pair_views(hs@)[k]).0 != key@,
        decreases hs@.len() - i,
    {
        assert(pair_views(hs@)[i as int] == (hs@[i as int].0@, hs@[i as int].1@));
        if same(&hs[i].0, key) {
            return true;
        }
        i += 1;
    }
    false
}

/// The headers `encode` sends: the message's own, plus a content type (unless
/// one is named exactly `content-type`) and the body's length in bytes when
/// there is a body.
pub open spec fn sent_headers(m: MessageView) -> Seq<(Seq<char>, Seq<char>)> {
    if m.body.len() == 0 {
        m.headers
    } else {
        let hs = if has_key(m.headers, "content-type"@) {
            m.headers
        } else {
            m.headers.push(("content-type"@, "text/parameters"@))
        };
        hs.push(("content-length"@, decimal(byte_len(m.body))))
    }
}

/// The first line of an encoded message.
pub open spec fn start_line(m: MessageView) -> Seq<char> {
    match m.request {
        Some((method, url)) => method + seq![' '] + url + seq![' '] + "RTSP/1.0"@,
        None => {
            let (code, reason) = match m.status {
                Some(s) => s,
                None => (200u16, "OK"@),
            };
            "RTSP/1.0"@ + seq![' '] + decimal(code as nat) + seq![' '] + reason
        },
    }
}

/// Each header as `\r\nName: value`.
pub open spec fn header_text(hs: Seq<(Seq<char>, Seq<char>)>) -> Seq<char>
    decreases hs.len(),
{
    if hs.len() == 0 {
        Seq::empty()
    } else {
        header_text(hs.drop_last()) + "\r\n"@ + canonical_name(hs.last().0) + ": "@ + hs.last().1
    }
}

/// The wire form of a message.
pub open spec fn encoded(m: MessageView) -> Seq<char> {
    start_line(m) + header_text(sent_headers(m)) + "\r\n\r\n"@ + m.body
}

/// One `-`-separated part of a header name: first character upper case,
/// the rest lower case.
pub open spec fn capitalized(part: Seq<char>) -> Seq<char> {
    if part.len() == 0 {
        Seq::empty()
    } else if all_ascii(part) {
        seq![ascii_upper(part[0])] + ascii_lower_seq(part.drop_first())
    } else {
        upper_of(part[0]) + lower_of(part.drop_first())
    }
}

/// The spelling `encode` gives a header name: `wfd_` names as they are,
/// `CSeq`, and otherwise each `-`-separated part capitalised.
pub open spec fn canonical_name(name: Seq<char>) -> Seq<char> {
    if has_prefix(name, "wfd_"@) {
        name
    } else if eq_ignore_case(name, "cseq"@) {
        "CSeq"@
    } else {
        join(split(name, '-').map_values(|p: Seq<char>| capitalized(p)), "-"@)
    }
}

fn canonical_chars(name: &Vec<char>) -> (res: Vec<char>)
    ensures
        res@ == canonical_name(name@),
{
    if starts_with_str(name, "wfd_") {
        return slice(name, 0, name.len());
    }
    if eq_ignore_ascii_case(name, &chars_of("cseq")) {
        return chars_of("CSeq");
    }
    let parts = split_chars(name, '-');
    let mut caps: Vec<Vec<char>> = Vec::new();
    let mut k: usize = 0;
    while k < parts.len()
        invariant
            k <= parts@.len(),
            views(caps@) == views(parts@).take(k as int).map_values(|p: Seq<char>| capitalized(p)),
        decreases parts@.len() - k,
    {
        let ghost before = views(caps@);
        let part = &parts[k];
        let mut cap: Vec<char> = Vec::new();
        if part.len() > 0 {
            cap = upper_chars(part[0]);
            let rest = slice(part, 1, part.len());
            assert(rest@ =~= part@.drop_first());
            let low = lower_chars(&rest);
            push_chars(&mut cap, &low);
            proof {
                if all_ascii(part@) {
                    assert((part@[0] as u32) < 128);
                    assert(all_ascii(rest@)) by {
                        assert forall|i: int| 0 <= i < rest@.len() implies (#[trigger] rest@[i] as u32) < 128 by {
                            assert(rest@[i] == part@[i + 1]);
                        }
                    }
                }
            }
        }
        assert(cap@ =~= capitalized(part@));
        assert(views(parts@)[k as int] == part@);
        caps.push(cap);
        assert(views(caps@) =~= before.push(cap@));
        k += 1;
        assert(views(caps@) =~= views(parts@).take(k as int).map_values(|p: Seq<char>| capitalized(p)));
    }
    assert(views(parts@).take(parts@.len() as int) =~= views(parts@));
    join_chars(&caps, &chars_of("-"))
}

/// RTSP headers are case-insensitive, but sinks in the wild are picky.
pub fn canonical(name: &str) -> (res: String)
    ensures
        res@ == canonical_name(name@),
{
    let n = chars_of(name);
    let c = canonical_chars(&n);
    string_of(&c)
}


/// `s.splitn(3, c)`: at most three pieces, the last one holding the rest.
pub open spec fn splitn3(s: Seq<char>, c: char) -> Seq<Seq<char>> {
    match find_char(s, c, 0) {
        None => seq![s],
        Some(i) => {
            let rest = s.skip(i + 1);
            match find_char(rest, c, 0) {
                None => seq![s.take(i), rest],
                Some(j) => seq![s.take(i), rest.take(j), rest.skip(j + 1)],
            }
        },
    }
}

fn splitn3_chars(s: &Vec<char>, c: char) -> (res: Vec<Vec<char>>)
    ensures
        views(res@) == splitn3(s@, c),
{
    let mut out: Vec<Vec<char>> = Vec::new();
    proof {
        crate::text::lemma_find_char(s@, c, 0);
    }
    match position(s, c, 0) {
        None => {
            let all = slice(s, 0, s.len());
            assert(all@ =~= s@);
            out.push(all);
            assert(views(out@) =~= seq![s@]);
        },
        Some(i) => {
            let n = s.len();
            assert(i < n);
            let rest = slice(s, i + 1, n);
            assert(rest@ =~= s@.skip(i + 1));
            proof {
                crate::text::lemma_find_char(rest@, c, 0);
            }
            let first = slice(s, 0, i);
            assert(first@ =~= s@.take(i as int));
            match position(&rest, c, 0) {
                None => {
                    let ghost f = first@;
                    let ghost r = rest@;
                    out.push(first);
                    out.push(rest);
                    assert(views(out@) =~= seq![f, r]);
                    assert(views(out@) =~= seq![s@.take(i as int), s@.skip(i + 1)]);
                },
                Some(j) => {
                    assert(j < rest@.len());
                    let second = slice(&rest, 0, j);
                    let third = slice(&rest, j + 1, rest.len());
                    assert(second@ =~= rest@.take(j as int));
                    assert(third@ =~= rest@.skip(j + 1));
                    let ghost (f, g, h) = (first@, second@, third@);
                    out.push(first);
                    out.push(second);
                    out.push(third);
                    assert(views(out@) =~= seq![f, g, h]);
                    assert(views(out@) =~= seq![s@.take(i as int), rest@.take(j as int), rest@.skip(j + 1)]);
                },
            }
        },
    }
    out
}

/// One header line as `parse` reads it: the name trimmed and lower-cased,
/// the value trimmed; a line without `:` is no header.
pub open spec fn header_entry(line: Seq<char>) -> Option<(Seq<char>, Seq<char>)> {
    match find_char(line, ':', 0) {
        Some(k) => Some((ascii_lower_seq(trim(line.take(k))), trim(line.skip(k + 1)))),
        None => None,
    }
}

/// The headers the lines from `k` on declare.
pub open spec fn header_entries(lines: Seq<Seq<char>>, k: int) -> Seq<(Seq<char>, Seq<char>)>
    decreases lines.len() - k,
{
    if k < 0 || k >= lines.len() {
        Seq::empty()
    } else {
        match header_entry(lines[k]) {
            Some(h) => seq![h] + header_entries(lines, k + 1),
            None => header_entries(lines, k + 1),
        }
    }
}

/// The part of a raw message before the blank line.
pub open spec fn head_of(raw: Seq<char>) -> Seq<char> {
    match find_seq(raw, "\r\n\r\n"@, 0) {
        Some(k) => raw.take(k),
        None => raw,
    }
}

/// The part of a raw message after the blank line.
pub open spec fn body_of(raw: Seq<char>) -> Seq<char> {
    match find_seq(raw, "\r\n\r\n"@, 0) {
        Some(k) => raw.skip(k + 4),
        None => Seq::empty(),
    }
}

/// The words of the start line.
pub open spec fn start_words(raw: Seq<char>) -> Seq<Seq<char>> {
    splitn3(split_seq(head_of(raw), "\r\n"@)[0], ' ')
}

/// The status `parse` reads: present when the start line begins with `RTSP/`.
pub open spec fn parsed_status(raw: Seq<char>) -> Option<(u16, Seq<char>)> {
    let w = start_words(raw);
    if has_prefix(w[0], "RTSP/"@) {
        Some(
            (
                if w.len() > 1 {
                    match parse_radix(w[1], 10, u16::MAX as nat) {
                        Some(n) => n as u16,
                        None => 0,
                    }
                } else {
                    0
                },
                if w.len() > 2 {
                    w[2]
                } else {
                    Seq::empty()
                },
            ),
        )
    } else {
        None
    }
}

/// The request line `parse` reads: present unless the start line is a status.
pub open spec fn parsed_request(raw: Seq<char>) -> Option<(Seq<char>, Seq<char>)> {
    let w = start_words(raw);
    if has_prefix(w[0], "RTSP/"@) {
        None
    } else {
        Some(
            (
                w[0],
                if w.len() > 1 {
                    w[1]
                } else {
                    "*"@
                },
            ),
        )
    }
}

/// The headers `parse` reads: every later line of the head that has a `:`.
pub open spec fn parsed_headers(raw: Seq<char>) -> Seq<(Seq<char>, Seq<char>)> {
    header_entries(split_seq(head_of(raw), "\r\n"@), 1)
}

proof fn lemma_split_seq_nonempty(s: Seq<char>, p: Seq<char>, i: int, start: int, acc: Seq<Seq<char>>)
    ensures
        crate::text::split_seq_acc(s, p, i, start, acc).len() >= acc.len() + 1,
        forall|k: int|
            0 <= k < acc.len() ==> #[trigger] crate::text::split_seq_acc(s, p, i, start, acc)[k]
                == acc[k],
    decreases s.len() - i,
{
    if i < 0 || i >= s.len() || p.len() == 0 {
    } else if crate::text::occurs_at(s, p, i) {
        lemma_split_seq_nonempty(s, p, i + p.len(), i + p.len(), acc.push(s.subrange(start, i)));
    } else {
        lemma_split_seq_nonempty(s, p, i + 1, start, acc);
    }
}

fn to_string_pairs(hs: &Vec<(Vec<char>, Vec<char>)>) -> (res: Vec<(String, String)>)
    ensures
        header_views(res@) == pair_views(hs@),
{
    let mut out: Vec<(String, String)> = Vec::new();
    let mut k: usize = 0;
    while k < hs.len()
        invariant
            k <= hs@.len(),
            header_views(out@) == pair_views(hs@).take(k as int),
        decreases hs@.len() - k,
    {
        let ghost before = header_views(out@);
        let a = string_of(&hs[k].0);
        let b = string_of(&hs[k].1);
        let ghost kv = (a@, b@);
        out.push((a, b));
        assert(header_views(out@) =~= before.push(kv));
        k += 1;
        assert(pair_views(hs@)[k - 1] == (hs@[k - 1].0@, hs@[k - 1].1@));
        assert(header_views(out@) =~= pair_views(hs@).take(k as int));
    }
    assert(pair_views(hs@).take(hs@.len() as int) =~= pair_views(hs@));
    out
}

/// Parse one complete RTSP message; the head must already be terminated.
pub fn parse(raw: &str) -> (res: Message)
    ensures
        res@.request == parsed_request(raw@),
        res@.status == parsed_status(raw@),
        res@.headers == parsed_headers(raw@),
        res@.body == body_of(raw@),
{
    let r = chars_of(raw);
    let blank = chars_of("\r\n\r\n");
    let (head, body) = match find(&r, &blank, 0) {
        Some(k) => {
            proof {
                reveal_strlit("\r\n\r\n");
            }
            assert(crate::text::occurs_at(r@, blank@, k as int)) by {
                crate::text::lemma_find_seq(r@, blank@, 0);
            }
            (slice(&r, 0, k), slice(&r, k + 4, r.len()))
        },
        None => (slice(&r, 0, r.len()), Vec::new()),
    };
    assert(head@ =~= head_of(raw@));
    assert(body@ =~= body_of(raw@));
    let crlf = chars_of("\r\n");
    proof {
        reveal_strlit("\r\n");
    }
    let lines = split_pattern(&head, &crlf);
    proof {
        lemma_split_seq_nonempty(head@, crlf@, 0, 0, Seq::empty());
    }
    let start = splitn3_chars(&lines[0], ' ');
    assert(views(start@) == start_words(raw@));
    assert(views(start@)[0] == start@[0]@);
    let mut request: Option<(String, String)> = None;
    let mut status: Option<(u16, String)> = None;
    if starts_with_str(&start[0], "RTSP/") {
        let code: u16 = if start.len() > 1 {
            assert(views(start@)[1] == start@[1]@);
            match parse_u16(&start[1]) {
                Some(n) => n,
                None => 0,
            }
        } else {
            0
        };
        let reason = if start.len() > 2 {
            assert(views(start@)[2] == start@[2]@);
            string_of(&start[2])
        } else {
            String::new()
        };
        status = Some((code, reason));
    } else {
        let method = string_of(&start[0]);
        let url = if start.len() > 1 {
            assert(views(start@)[1] == start@[1]@);
            string_of(&start[1])
        } else {
            "*".to_owned()
        };
        request = Some((method, url));
    }
    let mut headers: Vec<(Vec<char>, Vec<char>)> = Vec::new();
    let mut k: usize = 1;
    let ghost ls = views(lines@);
    while k < lines.len()
        invariant
            1 <= k <= lines@.len(),
            ls == views(lines@),
            header_entries(ls, 1) == pair_views(headers@) + header_entries(ls, k as int),
        decreases lines@.len() - k,
    {
        let line = &lines[k];
        assert(ls[k as int] == line@);
        proof {
            crate::text::lemma_find_char(line@, ':', 0);
        }
        let ghost before = pair_views(headers@);
        match position(line, ':', 0) {
            Some(c) => {
                let name = slice(line, 0, c);
                assert(name@ =~= line@.take(c as int));
                let key = to_ascii_lower(&trim_chars(&name));
                let rest = slice(line, c + 1, line.len());
                assert(rest@ =~= line@.skip(c + 1));
                let value = trim_chars(&rest);
                let ghost kv = (key@, value@);
                headers.push((key, value));
                assert(pair_views(headers@) =~= before.push(kv));
                assert(pair_views(headers@) + header_entries(ls, k + 1) =~= before + (seq![kv]
                    + header_entries(ls, k + 1)));
            },
            None => {},
        }
        k += 1;
    }
    assert(pair_views(headers@) + header_entries(ls, k as int) =~= pair_views(headers@));
    let hs = to_string_pairs(&headers);
    let body_text = string_of(&body);
    Message { request, status, headers: hs, body: body_text }
}

/// One line of a parameter body as `parse_parameters` reads it: `key: value`
/// (both trimmed), or a bare key with an empty value; a blank line is nothing.
pub open spec fn parameter_entry(line: Seq<char>) -> Option<(Seq<char>, Seq<char>)> {
    match find_char(line, ':', 0) {
        Some(k) => Some((trim(line.take(k)), trim(line.skip(k + 1)))),
        None => if trim(line).len() > 0 {
            Some((trim(line), Seq::empty()))
        } else {
            None
        },
    }
}

/// The parameters the lines from `k` on declare, in order.
pub open spec fn parameter_entries(lines: Seq<Seq<char>>, k: int) -> Seq<(Seq<char>, Seq<char>)>
    decreases lines.len() - k,
{
    if k < 0 || k >= lines.len() {
        Seq::empty()
    } else {
        match parameter_entry(lines[k]) {
            Some(e) => seq![e] + parameter_entries(lines, k + 1),
            None => parameter_entries(lines, k + 1),
        }
    }
}

/// The parameters of a `wfd_...: value` body, one per non-blank line, in
/// order. A key that appears twice keeps its last value (see [`parameter`]).
pub open spec fn parameters_of(body: Seq<char>) -> Seq<(Seq<char>, Seq<char>)> {
    parameter_entries(lines(body), 0)
}

/// `wfd_audio_codecs: LPCM 00000002 00` style bodies, read into one entry
/// per key, the keys in ascending order; a key that repeats keeps its last
/// value. (The two clauses pin the result down: see
/// [`parameters_are_determined`].)
pub fn parse_parameters(body: &str) -> (res: Vec<(String, String)>)
    ensures
        keys_ascending(header_views(res@)),
        forall|key: Seq<char>| #[trigger] parameter_value(header_views(res@), key)
            == parameter_value(parameters_of(body@), key),
{
    let b = chars_of(body);
    let ls = split_lines(&b);
    let ghost lv = views(ls@);
    let mut out: Vec<(Vec<char>, Vec<char>)> = Vec::new();
    let ghost mut seen: Seq<(Seq<char>, Seq<char>)> = Seq::empty();
    let mut k: usize = 0;
    while k < ls.len()
        invariant
            k <= ls@.len(),
            lv == views(ls@),
            lv == lines(body@),
            parameter_entries(lv, 0) == seen + parameter_entries(lv, k as int),
            keys_ascending(pair_views(out@)),
            forall|key: Seq<char>| #[trigger] parameter_value(pair_views(out@), key) == parameter_value(seen, key),
        decreases ls@.len() - k,
    {
        let line = &ls[k];
        assert(lv[k as int] == line@);
        proof {
            crate::text::lemma_find_char(line@, ':', 0);
        }
        let entry: Option<(Vec<char>, Vec<char>)> = match position(line, ':', 0) {
            Some(c) => {
                let name = slice(line, 0, c);
                assert(name@ =~= line@.take(c as int));
                let rest = slice(line, c + 1, line.len());
                assert(rest@ =~= line@.skip(c + 1));
                Some((trim_chars(&name), trim_chars(&rest)))
            },
            None => {
                let t = trim_chars(line);
                if t.len() > 0 {
                    Some((t, Vec::new()))
                } else {
                    None
                }
            },
        };
        match entry {
            Some(kv) => {
                let ghost e = (kv.0@, kv.1@);
                assert(parameter_entry(lv[k as int]) == Some(e));
                let ghost before = pair_views(out@);
                let mut i: usize = 0;
                while i < out.len()
                    invariant
                        i <= out@.len(),
                        before == pair_views(out@),
                        e.0 == kv.0@,
                        forall|j: int| 0 <= j < i ==> seq_less(#[trigger] before[j].0, e.0),
                    ensures
                        i <= out@.len(),
                        forall|j: int| 0 <= j < i ==> seq_less(#[trigger] before[j].0, e.0),
                        i < out@.len() ==> !seq_less(before[i as int].0, e.0),
                    decreases out@.len() - i,
                {
                    assert(before[i as int].0 == out@[i as int].0@);
                    if !less_chars(&out[i].0, &kv.0) {
                        break;
                    }
                    i += 1;
                }
                let dup = i < out.len() && same(&out[i].0, &kv.0);
                proof {
                    assert(seen.push(e).drop_last() =~= seen);
                    assert(parameter_entries(lv, 0) == seen.push(e) + parameter_entries(lv, k + 1));
                    assert forall|key: Seq<char>| #[trigger] parameter_value(seen.push(e), key) == if key
                        == e.0 {
                        Some(e.1)
                    } else {
                        parameter_value(seen, key)
                    } by {
                        lemma_value_push(seen, e, key);
                    }
                    seen = seen.push(e);
                }
                if dup {
                    proof {
                        assert(before[i as int].0 == out@[i as int].0@);
                        lemma_replace_param(before, e, i as int);
                    }
                    out.set(i, kv);
                    assert(pair_views(out@) =~= before.update(i as int, e));
                } else {
                    proof {
                        if i < out@.len() {
                            assert(before[i as int].0 == out@[i as int].0@);
                            lemma_seq_less_total(before[i as int].0, e.0);
                        }
                        lemma_insert_param(before, e, i as int);
                    }
                    out.insert(i, kv);
                    assert(pair_views(out@) =~= before.insert(i as int, e));
                }
            },
            None => {
                assert(parameter_entry(lv[k as int]) is None);
            },
        }
        k += 1;
    }
    assert(seen + parameter_entries(lv, k as int) =~= seen);
    to_string_pairs(&out)
}

/// Index of the last entry at or before `i - 1` called `key`.
pub open spec fn last_named(ps: Seq<(Seq<char>, Seq<char>)>, key: Seq<char>, i: int) -> Option<int>
    decreases i,
{
    if i <= 0 || i > ps.len() {
        None
    } else if ps[i - 1].0 == key {
        Some(i - 1)
    } else {
        last_named(ps, key, i - 1)
    }
}

/// The value a parsed parameter body gives `key`: that of its last entry.
pub open spec fn parameter_value(ps: Seq<(Seq<char>, Seq<char>)>, key: Seq<char>) -> Option<
    Seq<char>,
> {
    match last_named(ps, key, ps.len() as int) {
        Some(i) => Some(ps[i].1),
        None => None,
    }
}

/// Look a key up in parsed parameters; a repeated key answers with its last value.
pub fn parameter(params: &Vec<(String, String)>, key: &str) -> (res: Option<String>)
    ensures
        match res {
            Some(v) => parameter_value(header_views(params@), key@) == Some(v@),
            None => parameter_value(header_views(params@), key@) is None,
        },
{
    let wanted = chars_of(key);
    let ghost ps = header_views(params@);
    let mut i = params.len();
    while i > 0
        invariant
            i <= params@.len(),
            ps == header_views(params@),
            wanted@ == key@,
            last_named(ps, key@, ps.len() as int) == last_named(ps, key@, i as int),
        decreases i,
    {
        let name = chars_of_string(&params[i - 1].0);
        assert(ps[i - 1] == (params@[i - 1].0@, params@[i - 1].1@));
        if same(&name, &wanted) {
            return Some(params[i - 1].1.clone());
        }
        i -= 1;
    }
    None
}

/// One parameter line: `key\r\n` for an empty value, else `key: value\r\n`.
pub open spec fn parameter_line(key: Seq<char>, value: Seq<char>) -> Seq<char> {
    if value.len() == 0 {
        key + "\r\n"@
    } else {
        key + ": "@ + value + "\r\n"@
    }
}

/// The parameter lines, one after the other.
pub open spec fn parameters_text(ps: Seq<(Seq<char>, Seq<char>)>) -> Seq<char>
    decreases ps.len(),
{
    if ps.len() == 0 {
        Seq::empty()
    } else {
        parameters_text(ps.drop_last()) + parameter_line(ps.last().0, ps.last().1)
    }
}

pub fn format_parameters(params: &[(&str, &str)]) -> (res: String)
    ensures
        res@ == parameters_text(str_pairs(params@)),
{
    let mut out: Vec<char> = Vec::new();
    let ghost ps = str_pairs(params@);
    let mut k: usize = 0;
    while k < params.len()
        invariant
            k <= params@.len(),
            ps == str_pairs(params@),
            out@ == parameters_text(ps.take(k as int)),
        decreases params@.len() - k,
    {
        let (key, value) = params[k];
        assert(ps[k as int] == (key@, value@));
        push_str(&mut out, key);
        if value.is_empty() {
            push_str(&mut out, "\r\n");
        } else {
            push_str(&mut out, ": ");
            push_str(&mut out, value);
            push_str(&mut out, "\r\n");
        }
        k += 1;
        assert(ps.take(k as int).drop_last() =~= ps.take(k - 1));
        assert(out@ =~= parameters_text(ps.take(k as int)));
    }
    assert(ps.take(params@.len() as int) =~= ps);
    string_of(&out)
}

fn extra_headers(extra: &[(&str, &str)], headers: &mut Vec<(String, String)>)
    ensures
        header_views(final(headers)@) == header_views(old(headers)@) + str_pairs(extra@),
{
    let ghost start = header_views(headers@);
    let mut k: usize = 0;
    while k < extra.len()
        invariant
            k <= extra@.len(),
            header_views(headers@) == start + str_pairs(extra@).take(k as int),
        decreases extra@.len() - k,
    {
        let (key, value) = extra[k];
        let ghost before = header_views(headers@);
        headers.push((key.to_owned(), value.to_owned()));
        assert(header_views(headers@) =~= before.push((key@, value@)));
        assert(str_pairs(extra@)[k as int] == (key@, value@));
        k += 1;
        assert(header_views(headers@) =~= start + str_pairs(extra@).take(k as int));
    }
    assert(str_pairs(extra@).take(extra@.len() as int) =~= str_pairs(extra@));
}

fn decimal_string(n: u64) -> (res: String)
    ensures
        res@ == decimal(n as nat),
{
    let v = decimal_chars(n);
    string_of(&v)
}

pub fn response(cseq: u32, extra: &[(&str, &str)]) -> (res: Message)
    ensures
        res@.request is None,
        res@.status == Some((200u16, "OK"@)),
        res@.headers == seq![("cseq"@, decimal(cseq as nat))] + str_pairs(extra@),
        res@.body.len() == 0,
{
    let mut headers: Vec<(String, String)> = Vec::new();
    headers.push(("cseq".to_owned(), decimal_string(cseq as u64)));
    assert(header_views(headers@) =~= seq![("cseq"@, decimal(cseq as nat))]);
    extra_headers(extra, &mut headers);
    Message { request: None, status: Some((200, "OK".to_owned())), headers, body: String::new() }
}

pub fn request(method: &str, url: &str, cseq: u32, body: &str, extra: &[(&str, &str)]) -> (res:
    Message)
    ensures
        res@.request == Some((method@, url@)),
        res@.status is None,
        res@.headers == seq![("cseq"@, decimal(cseq as nat)), ("user-agent"@, "ttycast/0.2"@)]
            + str_pairs(extra@),
        res@.body == body@,
{
    let mut headers: Vec<(String, String)> = Vec::new();
    headers.push(("cseq".to_owned(), decimal_string(cseq as u64)));
    headers.push(("user-agent".to_owned(), USER_AGENT.to_owned()));
    assert(header_views(headers@) =~= seq![
        ("cseq"@, decimal(cseq as nat)),
        ("user-agent"@, "ttycast/0.2"@),
    ]);
    extra_headers(extra, &mut headers);
    Message {
        request: Some((method.to_owned(), url.to_owned())),
        status: None,
        headers,
        body: body.to_owned(),
    }
}

/// M1: the sink asks what we support.
pub fn options_response(cseq: u32) -> (res: Message)
    ensures
        res@.request is None,
        res@.status == Some((200u16, "OK"@)),
        res@.headers == seq![
            ("cseq"@, decimal(cseq as nat)),
            ("public"@, "org.wfa.wfd1.0, GET_PARAMETER, SET_PARAMETER"@),
        ],
        res@.body.len() == 0,
{
    let extra = [("public", "org.wfa.wfd1.0, GET_PARAMETER, SET_PARAMETER")];
    let res = response(cseq, &extra);
    assert(str_pairs(extra@) =~= seq![("public"@, "org.wfa.wfd1.0, GET_PARAMETER, SET_PARAMETER"@)]);
    res
}

/// M2: we ask the same of the sink.
pub fn options_request(url: &str, cseq: u32) -> (res: Message)
    ensures
        res@.request == Some(("OPTIONS"@, url@)),
        res@.status is None,
        res@.headers == seq![
            ("cseq"@, decimal(cseq as nat)),
            ("user-agent"@, "ttycast/0.2"@),
            ("require"@, "org.wfa.wfd1.0"@),
        ],
        res@.body.len() == 0,
{
    let extra = [("require", "org.wfa.wfd1.0")];
    let res = request("OPTIONS", url, cseq, "", &extra);
    proof {
        reveal_strlit("");
    }
    assert(str_pairs(extra@) =~= seq![("require"@, "org.wfa.wfd1.0"@)]);
    assert(res@.headers =~= seq![
        ("cseq"@, decimal(cseq as nat)),
        ("user-agent"@, "ttycast/0.2"@),
        ("require"@, "org.wfa.wfd1.0"@),
    ]);
    res
}

/// The M3 body: the four capabilities asked for, each on a bare line.
pub open spec fn capability_query() -> Seq<char> {
    parameters_text(
        seq![
            ("wfd_video_formats"@, ""@),
            ("wfd_audio_codecs"@, ""@),
            ("wfd_client_rtp_ports"@, ""@),
            ("wfd_content_protection"@, ""@),
        ],
    )
}

/// M3: ask the sink which formats and ports it can take.
pub fn get_parameter_request(url: &str, cseq: u32) -> (res: Message)
    ensures
        res@.request == Some(("GET_PARAMETER"@, url@)),
        res@.status is None,
        res@.headers == seq![("cseq"@, decimal(cseq as nat)), ("user-agent"@, "ttycast/0.2"@)],
        res@.body == capability_query(),
{
    let ps = [
        ("wfd_video_formats", ""),
        ("wfd_audio_codecs", ""),
        ("wfd_client_rtp_ports", ""),
        ("wfd_content_protection", ""),
    ];
    let body = format_parameters(&ps);
    assert(str_pairs(ps@) =~= seq![
        ("wfd_video_formats"@, ""@),
        ("wfd_audio_codecs"@, ""@),
        ("wfd_client_rtp_ports"@, ""@),
        ("wfd_content_protection"@, ""@),
    ]);
    let none: [(&str, &str); 0] = [];
    let res = request("GET_PARAMETER", url, cseq, body.as_str(), &none);
    assert(str_pairs(none@) =~= Seq::<(Seq<char>, Seq<char>)>::empty());
    assert(res@.headers =~= seq![("cseq"@, decimal(cseq as nat)), ("user-agent"@, "ttycast/0.2"@)]);
    res
}

/// The `wfd_video_formats` value offering the single CEA mode `bitmap`.
pub open spec fn video_formats(bitmap: u32) -> Seq<char> {
    "00 00 02 04 "@ + zero_pad(hex(bitmap as nat, true), 8)
        + " 00000000 00000000 00 0000 0000 00 none none"@
}

/// The `wfd_video_formats` value for a single offered CEA mode.
///
/// Layout: native, preferred-display-mode, then one profile block of
/// `profile latency cea vesa hh min-slice slice-enc frame-skip max-hres max-vres`.
pub fn video_formats_value(bitmap: u32) -> (res: String)
    ensures
        res@ == video_formats(bitmap),
{
    let mut out: Vec<char> = Vec::new();
    push_str(&mut out, "00 00 02 04 ");
    push_chars(&mut out, &zero_padded(&hex_chars(bitmap as u64, true), 8));
    push_str(&mut out, " 00000000 00000000 00 0000 0000 00 none none");
    string_of(&out)
}

/// The first of [`SUPPORTED_MODES`] from `i` on whose bit `cea` has set.
pub open spec fn mode_from(cea: u32, i: int) -> Option<(u32, u32, u32)>
    decreases 4 - i,
{
    if i < 0 || i >= 4 {
        None
    } else if cea & SUPPORTED_MODES[i].0 != 0 {
        Some((SUPPORTED_MODES[i].1, SUPPORTED_MODES[i].2, SUPPORTED_MODES[i].3))
    } else {
        mode_from(cea, i + 1)
    }
}

/// The mode `choose_mode` picks from a sink's `wfd_video_formats` value: the
/// best supported one whose bit is set in the fifth field, read as hex.
pub open spec fn chosen_mode(formats: Seq<char>) -> Option<(u32, u32, u32)> {
    let fields = words(formats);
    if fields.len() < 5 {
        None
    } else {
        match parse_radix(fields[4], 16, u32::MAX as nat) {
            Some(cea) => mode_from(cea as u32, 0),
            None => None,
        }
    }
}

/// Pick the best mode both sides support: `(width, height, fps)`.
///
/// `sink_video_formats` is the raw value the sink sent in its M3 reply. Only
/// the CEA bitmap is considered; VESA and handheld modes exist but no TV needs
/// them.
pub fn choose_mode(sink_video_formats: &str) -> (res: Option<(u32, u32, u32)>)
    ensures
        res == chosen_mode(sink_video_formats@),
{
    let v = chars_of(sink_video_formats);
    let fields = split_words(&v);
    if fields.len() < 5 {
        return None;
    }
    assert(views(fields@)[4] == fields@[4]@);
    let cea = match parse_hex_u32(&fields[4]) {
        Some(c) => c,
        None => return None,
    };
    assert(chosen_mode(sink_video_formats@) == mode_from(cea, 0));
    let modes = SUPPORTED_MODES;
    let mut i: usize = 0;
    while i < 4
        invariant
            i <= 4,
            modes == SUPPORTED_MODES,
            chosen_mode(sink_video_formats@) == mode_from(cea, i as int),
        decreases 4 - i,
    {
        let (bitmap, w, h, fps) = modes[i];
        if cea & bitmap != 0 {
            return Some((w, h, fps));
        }
        i += 1;
    }
    None
}

/// The mode chosen is the best one both sides support: the first entry of
/// [`SUPPORTED_MODES`] whose bit the sink set, with no earlier entry's bit
/// set; nothing when the sink sets none of them. In particular a sink that
/// offers 1080p30 gets it.
pub proof fn the_best_common_mode_is_chosen(cea: u32)
    ensures
        mode_from(cea, 0) is None <==> (forall|k: int| 0 <= k < 4 ==> cea & (#[trigger] SUPPORTED_MODES[k]).0 == 0),
        forall|k: int|
            0 <= k < 4 && cea & (#[trigger] SUPPORTED_MODES[k]).0 != 0 && (forall|j: int| 0 <= j < k ==> cea
                & SUPPORTED_MODES[j].0 == 0) ==> mode_from(cea, 0) == Some(
                (SUPPORTED_MODES[k].1, SUPPORTED_MODES[k].2, SUPPORTED_MODES[k].3),
            ),
        cea & CEA_1920X1080P30 != 0 ==> mode_from(cea, 0) == Some((1920u32, 1080u32, 30u32)),
{
    reveal_with_fuel(mode_from, 5);
}

/// [`SUPPORTED_MODES`] is ordered best first: each entry moves strictly fewer
/// pixels per second than the one before it, and each is a distinct single
/// CEA bit.
pub proof fn supported_modes_are_best_first()
    ensures
        forall|j: int, k: int|
            0 <= j < k < 4 ==> (#[trigger] SUPPORTED_MODES[j]).1 * SUPPORTED_MODES[j].2 * SUPPORTED_MODES[j].3
                > (#[trigger] SUPPORTED_MODES[k]).1 * SUPPORTED_MODES[k].2 * SUPPORTED_MODES[k].3,
        forall|j: int, k: int|
            0 <= j < k < 4 ==> (#[trigger] SUPPORTED_MODES[j]).0 & (#[trigger] SUPPORTED_MODES[k]).0 == 0,
{
    assert(256u32 & 64u32 == 0) by (bit_vector);
    assert(256u32 & 32u32 == 0) by (bit_vector);
    assert(256u32 & 1u32 == 0) by (bit_vector);
    assert(64u32 & 32u32 == 0) by (bit_vector);
    assert(64u32 & 1u32 == 0) by (bit_vector);
    assert(32u32 & 1u32 == 0) by (bit_vector);
}

/// The M4 body: the offered format, no audio, and the RTP port.
pub open spec fn set_parameters(rtp_port: u16, bitmap: u32) -> Seq<char> {
    parameters_text(
        seq![
            ("wfd_video_formats"@, video_formats(bitmap)),
            ("wfd_audio_codecs"@, "none"@),
            ("wfd_presentation_URL"@, "rtsp://localhost/wfd1.0/streamid=0 none"@),
            (
                "wfd_client_rtp_ports"@,
                "RTP/AVP/UDP;unicast "@ + decimal(rtp_port as nat) + " 0 mode=play"@,
            ),
        ],
    )
}

/// M4: tell the sink the format and where the RTP will come from.
pub fn set_parameter_body(rtp_port: u16, bitmap: u32) -> (res: String)
    ensures
        res@ == set_parameters(rtp_port, bitmap),
{
    let formats = video_formats_value(bitmap);
    let mut ports: Vec<char> = Vec::new();
    push_str(&mut ports, "RTP/AVP/UDP;unicast ");
    push_chars(&mut ports, &decimal_chars(rtp_port as u64));
    push_str(&mut ports, " 0 mode=play");
    let ports = string_of(&ports);
    let ps = [
        ("wfd_video_formats", formats.as_str()),
        ("wfd_audio_codecs", "none"),
        ("wfd_presentation_URL", "rtsp://localhost/wfd1.0/streamid=0 none"),
        ("wfd_client_rtp_ports", ports.as_str()),
    ];
    let res = format_parameters(&ps);
    assert(str_pairs(ps@) =~= seq![
        ("wfd_video_formats"@, video_formats(bitmap)),
        ("wfd_audio_codecs"@, "none"@),
        ("wfd_presentation_URL"@, "rtsp://localhost/wfd1.0/streamid=0 none"@),
        (
            "wfd_client_rtp_ports"@,
            "RTP/AVP/UDP;unicast "@ + decimal(rtp_port as nat) + " 0 mode=play"@,
        ),
    ]);
    res
}

/// M5: `SETUP`, `PLAY`, `PAUSE` or `TEARDOWN`.
pub fn trigger_body(method: &str) -> (res: String)
    ensures
        res@ == parameters_text(seq![("wfd_trigger_method"@, method@)]),
{
    let ps = [("wfd_trigger_method", method)];
    let res = format_parameters(&ps);
    assert(str_pairs(ps@) =~= seq![("wfd_trigger_method"@, method@)]);
    res
}

/// The first token from `k` on that reads as a non-zero port.
pub open spec fn first_port(tokens: Seq<Seq<char>>, k: int) -> Option<u16>
    decreases tokens.len() - k,
{
    if k < 0 || k >= tokens.len() {
        None
    } else {
        match parse_radix(tokens[k], 10, u16::MAX as nat) {
            Some(p) => if p != 0 {
                Some(p as u16)
            } else {
                first_port(tokens, k + 1)
            },
            None => first_port(tokens, k + 1),
        }
    }
}

/// Whether a token reads as a decimal port from 1 to 65535.
pub open spec fn reads_as_port(t: Seq<char>) -> bool {
    parse_radix(t, 10, u16::MAX as nat) matches Some(p) && p != 0
}

/// The sink's RTP port is the first of its tokens that reads as a decimal
/// number from 1 to 65535; there is none when no token does.
pub proof fn the_first_port_is_taken(tokens: Seq<Seq<char>>, k: int)
    requires
        0 <= k <= tokens.len(),
    ensures
        first_port(tokens, k) is None <==> (forall|j: int| k <= j < tokens.len() ==> !reads_as_port(
            #[trigger] tokens[j],
        )),
        forall|j: int|
            k <= j < tokens.len() && reads_as_port(#[trigger] tokens[j]) && (forall|i: int| k <= i < j
                ==> !reads_as_port(#[trigger] tokens[i])) ==> first_port(tokens, k) == Some(
                parse_radix(tokens[j], 10, u16::MAX as nat)->0 as u16,
            ),
    decreases tokens.len() - k,
{
    if k < tokens.len() {
        the_first_port_is_taken(tokens, k + 1);
    }
}

/// Pull the sink's RTP port out of `wfd_client_rtp_ports`.
pub fn parse_client_rtp_ports(value: &str) -> (res: Option<u16>)
    ensures
        res == first_port(words(value@), 0),
{
    let v = chars_of(value);
    let tokens = split_words(&v);
    let ghost ts = views(tokens@);
    let mut k: usize = 0;
    while k < tokens.len()
        invariant
            k <= tokens@.len(),
            ts == views(tokens@),
            ts == words(value@),
            first_port(ts, 0) == first_port(ts, k as int),
        decreases tokens@.len() - k,
    {
        assert(ts[k as int] == tokens@[k as int]@);
        match parse_u16(&tokens[k]) {
            Some(p) => {
                if p != 0 {
                    return Some(p);
                }
            },
            None => {},
        }
        k += 1;
    }
    None
}

/// What follows `client_port=` in the first `;`-part from `k` on that
/// (trimmed) starts with it.
pub open spec fn client_port_value(parts: Seq<Seq<char>>, k: int) -> Option<Seq<char>>
    decreases parts.len() - k,
{
    if k < 0 || k >= parts.len() {
        None
    } else if has_prefix(trim(parts[k]), "client_port="@) {
        Some(trim(parts[k]).skip("client_port="@.len() as int))
    } else {
        client_port_value(parts, k + 1)
    }
}

/// The text before the first `-` (all of it when there is none).
pub open spec fn before_dash(s: Seq<char>) -> Seq<char> {
    match find_char(s, '-', 0) {
        Some(i) => s.take(i),
        None => s,
    }
}

/// The port `parse_transport_port` reads from a `Transport` header.
pub open spec fn transport_port(transport: Seq<char>) -> Option<u16> {
    match client_port_value(split(transport, ';'), 0) {
        Some(v) => match parse_radix(before_dash(v), 10, u16::MAX as nat) {
            Some(p) => Some(p as u16),
            None => None,
        },
        None => None,
    }
}

/// `RTP/AVP/UDP;unicast;client_port=19000-19001` -> 19000.
pub fn parse_transport_port(transport: &str) -> (res: Option<u16>)
    ensures
        res == transport_port(transport@),
{
    let t = chars_of(transport);
    let parts = split_chars(&t, ';');
    let ghost ps = views(parts@);
    let mut k: usize = 0;
    while k < parts.len()
        invariant
            k <= parts@.len(),
            ps == views(parts@),
            ps == split(transport@, ';'),
            client_port_value(ps, 0) == client_port_value(ps, k as int),
        decreases parts@.len() - k,
    {
        assert(ps[k as int] == parts@[k as int]@);
        let part = trim_chars(&parts[k]);
        if starts_with_str(&part, "client_port=") {
            proof {
                reveal_strlit("client_port=");
            }
            let value = slice(&part, 12, part.len());
            assert(value@ =~= part@.skip(12));
            proof {
                crate::text::lemma_find_char(value@, '-', 0);
            }
            let first = match position(&value, '-', 0) {
                Some(i) => slice(&value, 0, i),
                None => value,
            };
            assert(first@ =~= before_dash(part@.skip(12)));
            assert(client_port_value(ps, k as int) == Some(part@.skip(12)));
            return match parse_u16(&first) {
                Some(p) => Some(p),
                None => None,
            };
        }
        k += 1;
    }
    None
}

/// Whether no two entries of `ps` have the same key.
pub open spec fn keys_distinct(ps: Seq<(Seq<char>, Seq<char>)>) -> bool {
    forall|i: int, j: int| 0 <= i < j < ps.len() ==> (#[trigger] ps[i]).0 != (#[trigger] ps[j]).0
}

proof fn lemma_last_named_found(ps: Seq<(Seq<char>, Seq<char>)>, key: Seq<char>, n: int)
    requires
        0 <= n <= ps.len(),
    ensures
        last_named(ps, key, n) matches Some(i) ==> 0 <= i < n && ps[i].0 == key,
        last_named(ps, key, n) is None ==> forall|i: int| 0 <= i < n ==> (#[trigger] ps[i]).0 != key,
    decreases n,
{
    if n > 0 && ps[n - 1].0 != key {
        lemma_last_named_found(ps, key, n - 1);
    }
}

/// In a sequence with distinct keys, the entry found for a key is the one
/// at the index that holds it.
proof fn lemma_last_named_unique(ps: Seq<(Seq<char>, Seq<char>)>, key: Seq<char>, i: int, n: int)
    requires
        keys_distinct(ps),
        0 <= i < n <= ps.len(),
        ps[i].0 == key,
    ensures
        last_named(ps, key, n) == Some(i),
    decreases n,
{
    if n - 1 != i {
        assert(ps[n - 1].0 != key);
        lemma_last_named_unique(ps, key, i, n - 1);
    }
}

/// Looking a key up is not disturbed by a change to an entry of another key.
proof fn lemma_last_named_other(
    ps: Seq<(Seq<char>, Seq<char>)>,
    qs: Seq<(Seq<char>, Seq<char>)>,
    key: Seq<char>,
    n: int,
)
    requires
        0 <= n <= ps.len(),
        n <= qs.len(),
        forall|i: int| 0 <= i < n ==> (#[trigger] ps[i]).0 == key || qs[i].0 == key ==> ps[i] == qs[i],
    ensures
        last_named(ps, key, n) == last_named(qs, key, n),
    decreases n,
{
    if n > 0 {
        lemma_last_named_other(ps, qs, key, n - 1);
    }
}

/// Whether the keys of `ps` rise strictly, in the order `str` compares by
/// (the order a map keyed by name lists them in).
pub open spec fn keys_ascending(ps: Seq<(Seq<char>, Seq<char>)>) -> bool {
    forall|i: int, j: int| 0 <= i < j < ps.len() ==> seq_less(#[trigger] ps[i].0, #[trigger] ps[j].0)
}

proof fn lemma_ascending_distinct(ps: Seq<(Seq<char>, Seq<char>)>)
    requires
        keys_ascending(ps),
    ensures
        keys_distinct(ps),
{
    assert forall|i: int, j: int| 0 <= i < j < ps.len() implies (#[trigger] ps[i]).0 != (#[trigger] ps[j]).0 by {
        assert(seq_less(ps[i].0, ps[j].0));
        lemma_seq_less_irreflexive(ps[i].0);
    }
}

/// With distinct keys, a key's value is that of the entry holding it.
proof fn lemma_value_at(ps: Seq<(Seq<char>, Seq<char>)>, key: Seq<char>, j: int)
    requires
        keys_distinct(ps),
        0 <= j < ps.len(),
        ps[j].0 == key,
    ensures
        parameter_value(ps, key) == Some(ps[j].1),
{
    lemma_last_named_unique(ps, key, j, ps.len() as int);
}

/// A key no entry holds has no value.
proof fn lemma_value_absent(ps: Seq<(Seq<char>, Seq<char>)>, key: Seq<char>)
    requires
        forall|j: int| 0 <= j < ps.len() ==> (#[trigger] ps[j]).0 != key,
    ensures
        parameter_value(ps, key) is None,
{
    lemma_last_named_found(ps, key, ps.len() as int);
}

/// One more entry: its key now answers with its value, the others as before.
proof fn lemma_value_push(ps: Seq<(Seq<char>, Seq<char>)>, e: (Seq<char>, Seq<char>), key: Seq<char>)
    ensures
        parameter_value(ps.push(e), key) == if e.0 == key {
            Some(e.1)
        } else {
            parameter_value(ps, key)
        },
{
    let q = ps.push(e);
    if e.0 != key {
        lemma_last_named_other(ps, q, key, ps.len() as int);
        assert(q[q.len() - 1] == e);
        assert(last_named(q, key, q.len() as int) == last_named(ps, key, ps.len() as int));
        lemma_last_named_found(ps, key, ps.len() as int);
        match last_named(ps, key, ps.len() as int) {
            Some(j) => {
                assert(q[j] == ps[j]);
            },
            None => {},
        }
    } else {
        assert(q[q.len() - 1] == e);
    }
}

/// After a change that leaves the other keys' entries in place: a key other
/// than `e`'s answers as before.
proof fn lemma_value_moved(
    out: Seq<(Seq<char>, Seq<char>)>,
    new: Seq<(Seq<char>, Seq<char>)>,
    e: (Seq<char>, Seq<char>),
    key: Seq<char>,
    i: int,
    shift: int,
)
    requires
        keys_distinct(new),
        key != e.0,
        0 <= i <= out.len(),
        shift == 0 || shift == 1,
        new.len() == out.len() + shift,
        new[i] == e,
        shift == 0 ==> i < out.len() && out[i].0 == e.0,
        forall|j: int| 0 <= j < i ==> new[j] == #[trigger] out[j],
        forall|j: int| i + 1 - shift <= j < out.len() ==> new[j + shift] == #[trigger] out[j],
    ensures
        parameter_value(new, key) == parameter_value(out, key),
{
    lemma_last_named_found(out, key, out.len() as int);
    match last_named(out, key, out.len() as int) {
        Some(j) => {
            if j < i {
                assert(new[j] == out[j]);
                lemma_value_at(new, key, j);
            } else {
                assert(j != i || shift == 1);
                assert(new[j + shift] == out[j]);
                lemma_value_at(new, key, j + shift);
            }
        },
        None => {
            assert forall|j: int| 0 <= j < new.len() implies (#[trigger] new[j]).0 != key by {
                if j < i {
                    assert(new[j] == out[j]);
                } else if j > i {
                    assert(new[(j - shift) + shift] == out[j - shift]);
                }
            }
            lemma_value_absent(new, key);
        },
    }
}

/// Putting a new key in its place keeps the keys ascending and gives it its value.
proof fn lemma_insert_param(out: Seq<(Seq<char>, Seq<char>)>, e: (Seq<char>, Seq<char>), i: int)
    requires
        keys_ascending(out),
        0 <= i <= out.len(),
        forall|j: int| 0 <= j < i ==> seq_less(#[trigger] out[j].0, e.0),
        i < out.len() ==> seq_less(e.0, out[i].0),
    ensures
        keys_ascending(out.insert(i, e)),
        forall|key: Seq<char>| #[trigger] parameter_value(out.insert(i, e), key) == if key == e.0 {
            Some(e.1)
        } else {
            parameter_value(out, key)
        },
{
    let n = out.insert(i, e);
    out.insert_ensures(i, e);
    assert forall|a: int, b: int| 0 <= a < b < n.len() implies seq_less(#[trigger] n[a].0, #[trigger] n[b].0) by {
        if b < i {
            assert(seq_less(out[a].0, out[b].0));
        } else if b == i {
            assert(seq_less(out[a].0, e.0));
        } else if a == i {
            if b - 1 > i {
                assert(seq_less(out[i].0, out[b - 1].0));
                lemma_seq_less_transitive(e.0, out[i].0, out[b - 1].0);
            }
        } else if a < i {
            assert(seq_less(out[a].0, e.0));
            if b - 1 == i {
                lemma_seq_less_transitive(out[a].0, e.0, out[i].0);
            } else {
                assert(seq_less(out[a].0, out[b - 1].0));
            }
        } else {
            assert(seq_less(out[a - 1].0, out[b - 1].0));
        }
    }
    lemma_ascending_distinct(n);
    assert forall|key: Seq<char>| #[trigger] parameter_value(n, key) == if key == e.0 {
        Some(e.1)
    } else {
        parameter_value(out, key)
    } by {
        if key == e.0 {
            lemma_value_at(n, key, i);
        } else {
            assert forall|j: int| i + 1 - 1 <= j < out.len() implies n[j + 1] == #[trigger] out[j] by {}
            lemma_value_moved(out, n, e, key, i, 1);
        }
    }
}

/// Giving a key already there a new value keeps the keys as they were.
proof fn lemma_replace_param(out: Seq<(Seq<char>, Seq<char>)>, e: (Seq<char>, Seq<char>), i: int)
    requires
        keys_ascending(out),
        0 <= i < out.len(),
        out[i].0 == e.0,
    ensures
        keys_ascending(out.update(i, e)),
        forall|key: Seq<char>| #[trigger] parameter_value(out.update(i, e), key) == if key == e.0 {
            Some(e.1)
        } else {
            parameter_value(out, key)
        },
{
    let n = out.update(i, e);
    assert forall|a: int, b: int| 0 <= a < b < n.len() implies seq_less(#[trigger] n[a].0, #[trigger] n[b].0) by {
        assert(seq_less(out[a].0, out[b].0));
    }
    lemma_ascending_distinct(n);
    assert forall|key: Seq<char>| #[trigger] parameter_value(n, key) == if key == e.0 {
        Some(e.1)
    } else {
        parameter_value(out, key)
    } by {
        if key == e.0 {
            lemma_value_at(n, key, i);
        } else {
            lemma_value_moved(out, n, e, key, i, 0);
        }
    }
}

/// Dropping the first entry of ascending keys: its key loses its value, the
/// others keep theirs.
proof fn lemma_value_tail(ps: Seq<(Seq<char>, Seq<char>)>, key: Seq<char>)
    requires
        keys_ascending(ps),
        ps.len() > 0,
    ensures
        keys_ascending(ps.drop_first()),
        parameter_value(ps.drop_first(), key) == if key == ps[0].0 {
            None
        } else {
            parameter_value(ps, key)
        },
{
    let t = ps.drop_first();
    assert forall|a: int, b: int| 0 <= a < b < t.len() implies seq_less(#[trigger] t[a].0, #[trigger] t[b].0) by {
        assert(seq_less(ps[a + 1].0, ps[b + 1].0));
    }
    lemma_ascending_distinct(ps);
    lemma_ascending_distinct(t);
    if key == ps[0].0 {
        assert forall|j: int| 0 <= j < t.len() implies (#[trigger] t[j]).0 != key by {
            assert(ps[j + 1].0 != ps[0].0);
        }
        lemma_value_absent(t, key);
    } else {
        lemma_last_named_found(ps, key, ps.len() as int);
        match last_named(ps, key, ps.len() as int) {
            Some(j) => {
                assert(j > 0);
                assert(t[j - 1] == ps[j]);
                lemma_value_at(t, key, j - 1);
            },
            None => {
                assert forall|j: int| 0 <= j < t.len() implies (#[trigger] t[j]).0 != key by {
                    assert(t[j] == ps[j + 1]);
                }
                lemma_value_absent(t, key);
            },
        }
    }
}

/// Two entry lists with ascending keys that give every key the same value
/// are the same list: what `parse_parameters` promises pins its result down.
pub proof fn parameters_are_determined(a: Seq<(Seq<char>, Seq<char>)>, b: Seq<(Seq<char>, Seq<char>)>)
    requires
        keys_ascending(a),
        keys_ascending(b),
        forall|key: Seq<char>| #[trigger] parameter_value(a, key) == parameter_value(b, key),
    ensures
        a == b,
    decreases a.len() + b.len(),
{
    lemma_ascending_distinct(a);
    lemma_ascending_distinct(b);
    if a.len() == 0 && b.len() == 0 {
        assert(a =~= b);
    } else if a.len() == 0 {
        lemma_value_at(b, b[0].0, 0);
        lemma_value_absent(a, b[0].0);
        assert(parameter_value(a, b[0].0) == parameter_value(b, b[0].0));
    } else if b.len() == 0 {
        lemma_value_at(a, a[0].0, 0);
        lemma_value_absent(b, a[0].0);
        assert(parameter_value(a, a[0].0) == parameter_value(b, a[0].0));
    } else {
        let a0 = a[0].0;
        let b0 = b[0].0;
        lemma_value_at(a, a0, 0);
        lemma_value_at(b, b0, 0);
        assert(parameter_value(a, a0) == parameter_value(b, a0));
        assert(parameter_value(a, b0) == parameter_value(b, b0));
        lemma_last_named_found(b, a0, b.len() as int);
        lemma_last_named_found(a, b0, a.len() as int);
        if a0 != b0 {
            lemma_seq_less_total(a0, b0);
            if seq_less(a0, b0) {
                let j = last_named(b, a0, b.len() as int)->0;
                assert(b[j].0 == a0);
                assert(j != 0);
                assert(seq_less(b0, b[j].0));
                lemma_seq_less_transitive(a0, b0, a0);
                lemma_seq_less_irreflexive(a0);
            } else {
                let j = last_named(a, b0, a.len() as int)->0;
                assert(a[j].0 == b0);
                assert(j != 0);
                assert(seq_less(a0, a[j].0));
                lemma_seq_less_transitive(b0, a0, b0);
                lemma_seq_less_irreflexive(b0);
            }
        }
        assert(a[0] == b[0]);
        assert forall|key: Seq<char>| #[trigger] parameter_value(a.drop_first(), key) == parameter_value(
            b.drop_first(),
            key,
        ) by {
            lemma_value_tail(a, key);
            lemma_value_tail(b, key);
            assert(parameter_value(a, key) == parameter_value(b, key));
        }
        lemma_value_tail(a, a0);
        lemma_value_tail(b, b0);
        parameters_are_determined(a.drop_first(), b.drop_first());
        assert(a =~= seq![a[0]] + a.drop_first());
        assert(b =~= seq![b[0]] + b.drop_first());
    }
}


// ---------------------------------------------------------------------------
// Parameters survive a round trip

/// A parameter `format_parameters` writes and `parse_parameters` reads back
/// as it was: a non-empty key without `:` or line breaks, a value without
/// line breaks, neither with whitespace at its ends.
pub open spec fn parameter_ok(key: Seq<char>, value: Seq<char>) -> bool {
    &&& key.len() > 0 && !is_ws(key[0]) && !is_ws(key.last())
    &&& forall|i: int| 0 <= i < key.len() ==> #[trigger] key[i] != ':' && key[i] != '\n'
    &&& forall|i: int| 0 <= i < value.len() ==> #[trigger] value[i] != '\n'
    &&& value.len() > 0 ==> !is_ws(value[0]) && !is_ws(value.last())
}

/// A parameter line without its line break.
pub open spec fn parameter_body(key: Seq<char>, value: Seq<char>) -> Seq<char> {
    if value.len() == 0 {
        key
    } else {
        key + ": "@ + value
    }
}

proof fn lemma_trim_of_plain(s: Seq<char>)
    requires
        s.len() > 0,
        !is_ws(s[0]),
        !is_ws(s.last()),
    ensures
        trim(s) == s,
{
    assert(back_ws(s, s.len() as int) == s.len());
    assert(s.take(s.len() as int) =~= s);
    assert(skip_ws(s, 0) == 0);
    assert(s.skip(0) =~= s);
}

proof fn lemma_trim_of_spaced(v: Seq<char>)
    requires
        v.len() > 0,
        !is_ws(v[0]),
        !is_ws(v.last()),
    ensures
        trim(seq![' '] + v) == v,
{
    let s = seq![' '] + v;
    assert(s.last() == v.last());
    assert(back_ws(s, s.len() as int) == s.len());
    assert(s.take(s.len() as int) =~= s);
    assert(s[1] == v[0]);
    assert(is_ws(' '));
    assert(skip_ws(s, 1) == 1);
    assert(skip_ws(s, 0) == 1);
    assert(s.skip(1) =~= v);
}

proof fn lemma_find_char_at(s: Seq<char>, c: char, i: int, j: int)
    requires
        0 <= i <= j < s.len(),
        s[j] == c,
        forall|k: int| i <= k < j ==> s[k] != c,
    ensures
        find_char(s, c, i) == Some(j),
    decreases j - i,
{
    if i < j {
        lemma_find_char_at(s, c, i + 1, j);
    }
}

proof fn lemma_no_char(s: Seq<char>, c: char, i: int)
    requires
        0 <= i,
        forall|k: int| i <= k < s.len() ==> s[k] != c,
    ensures
        find_char(s, c, i) is None,
    decreases s.len() - i,
{
    if i < s.len() {
        lemma_no_char(s, c, i + 1);
    }
}

proof fn lemma_parameter_entry(key: Seq<char>, value: Seq<char>)
    requires
        parameter_ok(key, value),
    ensures
        parameter_entry(parameter_body(key, value)) == Some((key, value)),
{
    lemma_trim_of_plain(key);
    if value.len() == 0 {
        assert forall|k: int| 0 <= k < key.len() implies key[k] != ':' by {
            assert(key[k] != ':' && key[k] != '\n');
        }
        lemma_no_char(key, ':', 0);
    } else {
        reveal_strlit(": ");
        let line = key + ": "@ + value;
        assert forall|k: int| 0 <= k < key.len() implies line[k] != ':' by {
            assert(line[k] == key[k]);
            assert(key[k] != ':' && key[k] != '\n');
        }
        assert(line[key.len() as int] == ':');
        lemma_find_char_at(line, ':', 0, key.len() as int);
        assert(line.take(key.len() as int) =~= key);
        assert(line.skip(key.len() as int + 1) =~= seq![' '] + value);
        lemma_trim_of_spaced(value);
    }
}

proof fn lemma_parameter_lines(ps: Seq<(Seq<char>, Seq<char>)>)
    requires
        forall|i: int| 0 <= i < ps.len() ==> parameter_ok(#[trigger] ps[i].0, ps[i].1),
    ensures
        lines_state(parameters_text(ps), 0, Seq::empty(), Seq::empty()) == (
            Seq::<char>::empty(),
            ps.map_values(|p: (Seq<char>, Seq<char>)| parameter_body(p.0, p.1)),
        ),
    decreases ps.len(),
{
    let body = |p: (Seq<char>, Seq<char>)| parameter_body(p.0, p.1);
    if ps.len() == 0 {
        assert(ps.map_values(body) =~= Seq::<Seq<char>>::empty());
    } else {
        let init = ps.drop_last();
        assert forall|i: int| 0 <= i < init.len() implies parameter_ok(#[trigger] init[i].0, init[i].1) by {
            assert(init[i] == ps[i]);
        }
        lemma_parameter_lines(init);
        let (k, v) = ps.last();
        assert(parameter_ok(ps[ps.len() - 1].0, ps[ps.len() - 1].1));
        let b = parameter_body(k, v);
        reveal_strlit(": ");
        reveal_strlit("\r\n");
        assert(parameter_line(k, v) =~= b + "\r\n"@);
        assert forall|j: int| 0 <= j < b.len() implies b[j] != '\n' by {
            if v.len() == 0 {
                assert(k[j] != ':' && k[j] != '\n');
            } else if j < k.len() {
                assert(b[j] == k[j]);
                assert(k[j] != ':' && k[j] != '\n');
            } else if j < k.len() + 2 {
            } else {
                assert(b[j] == v[j - k.len() - 2]);
            }
        }
        crate::text::lemma_lines_state_concat(
            parameters_text(init),
            parameter_line(k, v),
            0,
            Seq::empty(),
            Seq::empty(),
        );
        crate::text::lemma_lines_state_line(b, init.map_values(body));
        assert(init.map_values(body).push(b) =~= ps.map_values(body));
    }
}

proof fn lemma_parameter_entries(ls: Seq<Seq<char>>, ps: Seq<(Seq<char>, Seq<char>)>, k: int)
    requires
        0 <= k <= ls.len(),
        ls.len() == ps.len(),
        forall|i: int| 0 <= i < ls.len() ==> parameter_entry(#[trigger] ls[i]) == Some(ps[i]),
    ensures
        parameter_entries(ls, k) == ps.skip(k),
    decreases ls.len() - k,
{
    if k < ls.len() {
        lemma_parameter_entries(ls, ps, k + 1);
        assert(parameter_entry(ls[k]) == Some(ps[k]));
        assert(seq![ps[k]] + ps.skip(k + 1) =~= ps.skip(k));
    } else {
        assert(ps.skip(k) =~= Seq::<(Seq<char>, Seq<char>)>::empty());
    }
}

/// `parse_parameters` undoes `format_parameters`: the parameters written
/// are read back in order, each as it was, as long as each key is non-empty
/// without `:` or line breaks, each value has no line break, and neither has
/// whitespace at its ends.
pub proof fn format_then_parse_parameters(ps: Seq<(Seq<char>, Seq<char>)>)
    requires
        forall|i: int| 0 <= i < ps.len() ==> parameter_ok(#[trigger] ps[i].0, ps[i].1),
    ensures
        parameters_of(parameters_text(ps)) == ps,
{
    lemma_parameters_read_back(ps);
}

proof fn lemma_parameters_read_back(ps: Seq<(Seq<char>, Seq<char>)>)
    requires
        forall|i: int| 0 <= i < ps.len() ==> parameter_ok(#[trigger] ps[i].0, ps[i].1),
    ensures
        parameters_of(parameters_text(ps)) == ps,
{
    let body = |p: (Seq<char>, Seq<char>)| parameter_body(p.0, p.1);
    lemma_parameter_lines(ps);
    crate::text::lemma_lines_acc_state(parameters_text(ps), 0, Seq::empty(), Seq::empty());
    let ls = ps.map_values(body);
    assert(lines(parameters_text(ps)) == ls);
    assert forall|i: int| 0 <= i < ls.len() implies parameter_entry(#[trigger] ls[i]) == Some(ps[i]) by {
        assert(parameter_ok(ps[i].0, ps[i].1));
        lemma_parameter_entry(ps[i].0, ps[i].1);
    }
    lemma_parameter_entries(ls, ps, 0);
    assert(ps.skip(0) =~= ps);
}

/// Looking a key up after the round trip gives the last value written for it.
pub proof fn lookup_after_round_trip(ps: Seq<(Seq<char>, Seq<char>)>, key: Seq<char>)
    requires
        forall|i: int| 0 <= i < ps.len() ==> parameter_ok(#[trigger] ps[i].0, ps[i].1),
    ensures
        parameter_value(parameters_of(parameters_text(ps)), key) == parameter_value(ps, key),
{
    lemma_parameters_read_back(ps);
}


// ---------------------------------------------------------------------------
// Canonical names are stable

/// `s` is ASCII and has no `c`.
pub open spec fn ascii_without(s: Seq<char>, c: char) -> bool {
    all_ascii(s) && forall|k: int| 0 <= k < s.len() ==> #[trigger] s[k] != c
}

proof fn lemma_case_char(c: char)
    ensures
        (c as u32) < 128 ==> (ascii_upper(c) as u32) < 128 && (ascii_lower(c) as u32) < 128,
        c != '-' ==> ascii_upper(c) != '-' && ascii_lower(c) != '-',
        ascii_upper(ascii_upper(c)) == ascii_upper(c),
        ascii_lower(ascii_lower(c)) == ascii_lower(c),
        ascii_lower(ascii_upper(c)) == ascii_lower(c),
        ascii_upper(c) != 'w',
        ascii_lower(c) == '-' ==> c == '-',
{
    let u = c as u32;
    if 97 <= u <= 122 {
        assert((((u - 32) as char) as u32) == u - 32);
        assert((((u - 32 + 32) as char) as u32) == u);
    }
    if 65 <= u <= 90 {
        assert((((u + 32) as char) as u32) == u + 32);
    }
}

proof fn lemma_split_parts_ascii(s: Seq<char>, c: char, i: int, cur: Seq<char>, acc: Seq<Seq<char>>)
    requires
        0 <= i <= s.len(),
        all_ascii(s),
        ascii_without(cur, c),
        forall|k: int| 0 <= k < acc.len() ==> ascii_without(#[trigger] acc[k], c),
    ensures
        split_acc(s, c, i, cur, acc).len() >= 1,
        forall|k: int|
            0 <= k < split_acc(s, c, i, cur, acc).len() ==> ascii_without(
                #[trigger] split_acc(s, c, i, cur, acc)[k],
                c,
            ),
    decreases s.len() - i,
{
    if i < s.len() {
        if s[i] == c {
            let a = acc.push(cur);
            assert forall|k: int| 0 <= k < a.len() implies ascii_without(#[trigger] a[k], c) by {
                if k < acc.len() {
                    assert(a[k] == acc[k]);
                }
            }
            lemma_split_parts_ascii(s, c, i + 1, Seq::empty(), a);
        } else {
            let n = cur.push(s[i]);
            assert(ascii_without(n, c)) by {
                assert forall|k: int| 0 <= k < n.len() implies #[trigger] n[k] != c by {
                    if k < cur.len() {
                        assert(n[k] == cur[k]);
                    }
                }
                assert forall|k: int| 0 <= k < n.len() implies (#[trigger] n[k] as u32) < 128 by {
                    if k < cur.len() {
                        assert(n[k] == cur[k]);
                    }
                }
            }
            lemma_split_parts_ascii(s, c, i + 1, n, acc);
        }
    } else {
        let a = acc.push(cur);
        assert forall|k: int| 0 <= k < a.len() implies ascii_without(#[trigger] a[k], c) by {
            if k < acc.len() {
                assert(a[k] == acc[k]);
            }
        }
    }
}

/// Splitting reads a run without separators into the piece being read.
proof fn lemma_split_run(s: Seq<char>, c: char, i: int, w: Seq<char>, cur: Seq<char>, acc: Seq<Seq<char>>)
    requires
        0 <= i,
        i + w.len() <= s.len(),
        forall|k: int| 0 <= k < w.len() ==> s[i + k] == #[trigger] w[k] && w[k] != c,
    ensures
        split_acc(s, c, i, cur, acc) == split_acc(s, c, i + w.len(), cur + w, acc),
    decreases w.len(),
{
    if w.len() == 0 {
        assert(cur + w =~= cur);
    } else {
        assert(s[i + 0] == w[0] && w[0] != c);
        let w2 = w.drop_first();
        assert forall|k: int| 0 <= k < w2.len() implies s[i + 1 + k] == #[trigger] w2[k] && w2[k] != c by {
            assert(w2[k] == w[k + 1]);
            assert(s[i + (k + 1)] == w[k + 1] && w[k + 1] != c);
        }
        lemma_split_run(s, c, i + 1, w2, cur.push(w[0]), acc);
        assert(cur.push(w[0]) + w2 =~= cur + w);
    }
}

/// Splitting a join of separator-free pieces, followed by anything, reaches
/// the join's end holding the last piece, the others closed.
proof fn lemma_split_join(parts: Seq<Seq<char>>, c: char, t: Seq<char>)
    requires
        parts.len() >= 1,
        forall|k: int| 0 <= k < parts.len() ==> ascii_without(#[trigger] parts[k], c),
    ensures
        split_acc(join(parts, seq![c]) + t, c, 0, Seq::empty(), Seq::empty()) == split_acc(
            join(parts, seq![c]) + t,
            c,
            join(parts, seq![c]).len() as int,
            parts.last(),
            parts.drop_last(),
        ),
    decreases parts.len(),
{
    let sep = seq![c];
    let j = join(parts, sep);
    let s = j + t;
    if parts.len() == 1 {
        let p = parts[0];
        assert(j == p);
        assert(ascii_without(p, c));
        assert forall|k: int| 0 <= k < p.len() implies s[0 + k] == #[trigger] p[k] && p[k] != c by {
            assert(s[k] == j[k]);
        }
        lemma_split_run(s, c, 0, p, Seq::empty(), Seq::empty());
        assert(Seq::<char>::empty() + p =~= p);
        assert(parts.drop_last() =~= Seq::<Seq<char>>::empty());
    } else {
        let init = parts.drop_last();
        let p = parts.last();
        let j0 = join(init, sep);
        assert(j == j0 + sep + p);
        let t2 = sep + p + t;
        assert(s =~= j0 + t2);
        assert forall|k: int| 0 <= k < init.len() implies ascii_without(#[trigger] init[k], c) by {
            assert(init[k] == parts[k]);
        }
        lemma_split_join(init, c, t2);
        assert(s[j0.len() as int] == c);
        assert(init.drop_last().push(init.last()) =~= init);
        assert(ascii_without(parts[parts.len() - 1], c));
        assert forall|k: int| 0 <= k < p.len() implies s[j0.len() + 1 + k] == #[trigger] p[k] && p[k] != c by {
            assert(s[j0.len() + 1 + k] == (sep + p)[1 + k]);
        }
        lemma_split_run(s, c, j0.len() as int + 1, p, Seq::empty(), init);
        assert(Seq::<char>::empty() + p =~= p);
    }
}

/// Splitting a join of separator-free pieces gives the pieces back.
proof fn lemma_split_of_join(parts: Seq<Seq<char>>, c: char)
    requires
        parts.len() >= 1,
        forall|k: int| 0 <= k < parts.len() ==> ascii_without(#[trigger] parts[k], c),
    ensures
        split(join(parts, seq![c]), c) == parts,
{
    let j = join(parts, seq![c]);
    lemma_split_join(parts, c, Seq::empty());
    assert(j + Seq::<char>::empty() =~= j);
    assert(parts.drop_last().push(parts.last()) =~= parts);
}

/// Joining the pieces of a split gives the text back.
proof fn lemma_join_of_split(s: Seq<char>, c: char, i: int, cur: Seq<char>, acc: Seq<Seq<char>>)
    requires
        0 <= i <= s.len(),
    ensures
        join(split_acc(s, c, i, cur, acc), seq![c]) == join(acc.push(cur), seq![c]) + s.subrange(
            i,
            s.len() as int,
        ),
    decreases s.len() - i,
{
    let sep = seq![c];
    if i < s.len() {
        if s[i] == c {
            lemma_join_of_split(s, c, i + 1, Seq::empty(), acc.push(cur));
            let a = acc.push(cur);
            assert(a.push(Seq::<char>::empty()).drop_last() =~= a);
            assert(join(a.push(Seq::<char>::empty()), sep) == join(a, sep) + sep + Seq::<char>::empty());
            assert(s.subrange(i, s.len() as int) =~= sep + s.subrange(i + 1, s.len() as int));
            assert(join(a, sep) + sep + Seq::<char>::empty() + s.subrange(i + 1, s.len() as int) =~= join(a, sep)
                + s.subrange(i, s.len() as int));
        } else {
            let n = cur.push(s[i]);
            lemma_join_of_split(s, c, i + 1, n, acc);
            assert(acc.push(n).drop_last() =~= acc);
            assert(acc.push(cur).drop_last() =~= acc);
            if acc.len() == 0 {
                assert(join(acc.push(n), sep) == n);
                assert(join(acc.push(cur), sep) == cur);
            } else {
                assert(join(acc.push(n), sep) == join(acc, sep) + sep + n);
                assert(join(acc.push(cur), sep) == join(acc, sep) + sep + cur);
            }
            assert(s.subrange(i, s.len() as int) =~= seq![s[i]] + s.subrange(i + 1, s.len() as int));
            assert(join(acc.push(n), sep) + s.subrange(i + 1, s.len() as int) =~= join(acc.push(cur), sep)
                + s.subrange(i, s.len() as int));
        }
    } else {
        assert(s.subrange(i, s.len() as int) =~= Seq::<char>::empty());
        assert(join(acc.push(cur), sep) + Seq::<char>::empty() =~= join(acc.push(cur), sep));
    }
}

/// A join begins with its first piece, and the separator follows it when
/// there are more.
proof fn lemma_join_first(ps: Seq<Seq<char>>, sep: Seq<char>)
    requires
        ps.len() >= 1,
        sep.len() >= 1,
    ensures
        join(ps, sep).len() >= ps[0].len(),
        join(ps, sep).take(ps[0].len() as int) == ps[0],
        ps.len() > 1 ==> join(ps, sep).len() > ps[0].len() && join(ps, sep)[ps[0].len() as int]
            == sep[0],
    decreases ps.len(),
{
    if ps.len() == 1 {
        assert(join(ps, sep).take(ps[0].len() as int) =~= ps[0]);
    } else {
        let init = ps.drop_last();
        assert(init[0] == ps[0]);
        lemma_join_first(init, sep);
        let j = join(ps, sep);
        assert(j == join(init, sep) + sep + ps.last());
        assert(j.take(ps[0].len() as int) =~= join(init, sep).take(ps[0].len() as int));
        if init.len() == 1 {
            assert(join(init, sep) == ps[0]);
            assert(j[ps[0].len() as int] == sep[0]);
        } else {
            assert(j[ps[0].len() as int] == join(init, sep)[ps[0].len() as int]);
        }
    }
}

proof fn lemma_capitalized_part(p: Seq<char>)
    requires
        ascii_without(p, '-'),
    ensures
        ascii_without(capitalized(p), '-'),
        capitalized(capitalized(p)) == capitalized(p),
        ascii_lower_seq(capitalized(p)) == ascii_lower_seq(p),
        p.len() > 0 ==> capitalized(p).len() > 0 && capitalized(p)[0] == ascii_upper(p[0]),
        capitalized(p).len() == p.len(),
{
    if p.len() > 0 {
        let q = capitalized(p);
        let rest = p.drop_first();
        assert(q == seq![ascii_upper(p[0])] + ascii_lower_seq(rest));
        assert forall|k: int| 0 <= k < q.len() implies #[trigger] q[k] != '-' && (q[k] as u32) < 128 by {
            if k == 0 {
                lemma_case_char(p[0]);
                assert((p[0] as u32) < 128 && p[0] != '-');
            } else {
                assert(q[k] == ascii_lower(rest[k - 1]));
                assert(rest[k - 1] == p[k]);
                assert((p[k] as u32) < 128 && p[k] != '-');
                lemma_case_char(p[k]);
            }
        }
        assert(all_ascii(q));
        lemma_case_char(p[0]);
        let qr = q.drop_first();
        assert(qr =~= ascii_lower_seq(rest));
        assert forall|k: int| 0 <= k < qr.len() implies #[trigger] ascii_lower(qr[k]) == qr[k] by {
            lemma_case_char(rest[k]);
        }
        assert(ascii_lower_seq(qr) =~= qr);
        assert(capitalized(q) =~= q);
        assert forall|k: int| 0 <= k < q.len() implies #[trigger] ascii_lower_seq(q)[k] == ascii_lower_seq(p)[k] by {
            if k == 0 {
            } else {
                assert(rest[k - 1] == p[k]);
                lemma_case_char(p[k]);
            }
        }
        assert(ascii_lower_seq(q) =~= ascii_lower_seq(p));
    }
}

/// The canonical spelling of an ASCII header name is its own canonical
/// spelling: writing a name that was already written changes nothing.
pub proof fn canonical_is_stable(name: Seq<char>)
    requires
        all_ascii(name),
    ensures
        canonical_name(canonical_name(name)) == canonical_name(name),
{
    reveal_strlit("wfd_");
    reveal_strlit("cseq");
    reveal_strlit("CSeq");
    reveal_strlit("-");
    let r = canonical_name(name);
    if has_prefix(name, "wfd_"@) {
    } else if eq_ignore_case(name, "cseq"@) {
        assert(r == "CSeq"@);
        assert(r.take(4)[0] == 'C');
        assert(ascii_lower_seq("CSeq"@) =~= ascii_lower_seq("cseq"@)) by {
            assert(ascii_lower('C') == 'c');
            assert(ascii_lower('S') == 's');
        }
    } else {
        let dash = seq!['-'];
        assert("-"@ =~= dash);
        let parts = split(name, '-');
        let caps = parts.map_values(|p: Seq<char>| capitalized(p));
        assert(r == join(caps, dash));
        assert(ascii_without(Seq::<char>::empty(), '-'));
        lemma_split_parts_ascii(name, '-', 0, Seq::empty(), Seq::empty());
        assert forall|k: int| 0 <= k < caps.len() implies ascii_without(#[trigger] caps[k], '-') by {
            lemma_capitalized_part(parts[k]);
        }
        lemma_split_of_join(caps, '-');
        lemma_join_first(caps, dash);
        lemma_capitalized_part(parts[0]);
        if has_prefix(r, "wfd_"@) {
            assert(r[0] == r.take(4)[0]);
            assert("wfd_"@[0] == 'w');
            if caps[0].len() > 0 {
                assert(r[0] == r.take(caps[0].len() as int)[0]);
                lemma_case_char(parts[0][0]);
            } else if caps.len() > 1 {
                assert(r[0] == '-');
            } else {
                assert(r == caps[0]);
            }
        }
        if eq_ignore_case(r, "cseq"@) {
            assert(ascii_lower_seq(r).len() == 4);
            if caps.len() > 1 {
                let at = caps[0].len() as int;
                assert(r[at] == '-');
                assert(ascii_lower_seq(r)[at] == ascii_lower(r[at]));
                assert(ascii_lower_seq("cseq"@)[at] != '-');
            }
            assert(caps.len() == 1);
            lemma_join_of_split(name, '-', 0, Seq::empty(), Seq::empty());
            assert(Seq::<Seq<char>>::empty().push(Seq::<char>::empty()) =~= seq![Seq::<char>::empty()]);
            assert(name.subrange(0, name.len() as int) =~= name);
            assert(join(parts, dash) == name);
            assert(parts[0] == name);
            assert(r == caps[0]);
        }
        assert(split(r, '-') == caps);
        assert(caps.map_values(|p: Seq<char>| capitalized(p)) =~= caps) by {
            assert forall|k: int| 0 <= k < caps.len() implies capitalized(#[trigger] caps[k]) == caps[k] by {
                lemma_capitalized_part(parts[k]);
            }
        }
    }
}

// ---------------------------------------------------------------------------
// Messages survive a round trip

/// `s` has no line break.
pub open spec fn line_safe(s: Seq<char>) -> bool {
    forall|i: int| 0 <= i < s.len() ==> #[trigger] s[i] != '\r' && s[i] != '\n'
}

/// `s` has no line break.
pub open spec fn breaks_free(s: Seq<char>) -> bool {
    forall|i: int| 0 <= i < s.len() ==> #[trigger] s[i] != '\r' && s[i] != '\n'
}

/// A header name `encode` writes on a line of its own: ASCII, without line
/// breaks.
pub open spec fn name_safe(s: Seq<char>) -> bool {
    all_ascii(s) && breaks_free(s)
}

proof fn lemma_case_keeps_breaks(c: char)
    ensures
        (c != '\r' && c != '\n' && c != ':') ==> ascii_upper(c) != '\r' && ascii_upper(c) != '\n'
            && ascii_upper(c) != ':',
        (c != '\r' && c != '\n' && c != ':') ==> ascii_lower(c) != '\r' && ascii_lower(c) != '\n'
            && ascii_lower(c) != ':',
        (c as u32) < 128 ==> (ascii_upper(c) as u32) < 128 && (ascii_lower(c) as u32) < 128,
{
    let u = c as u32;
    if 97 <= u <= 122 {
        assert((((u - 32) as char) as u32) == u - 32);
    }
    if 65 <= u <= 90 {
        assert((((u + 32) as char) as u32) == u + 32);
    }
}

proof fn lemma_split_pieces_safe(s: Seq<char>, c: char, i: int, cur: Seq<char>, acc: Seq<Seq<char>>)
    requires
        0 <= i <= s.len(),
        name_safe(s),
        name_safe(cur),
        forall|k: int| 0 <= k < acc.len() ==> name_safe(#[trigger] acc[k]),
    ensures
        forall|k: int|
            0 <= k < split_acc(s, c, i, cur, acc).len() ==> name_safe(
                #[trigger] split_acc(s, c, i, cur, acc)[k],
            ),
    decreases s.len() - i,
{
    if i < s.len() {
        if s[i] == c {
            let a = acc.push(cur);
            assert forall|k: int| 0 <= k < a.len() implies name_safe(#[trigger] a[k]) by {
                if k < acc.len() {
                    assert(a[k] == acc[k]);
                }
            }
            assert(name_safe(Seq::<char>::empty()));
            lemma_split_pieces_safe(s, c, i + 1, Seq::empty(), a);
            assert(split_acc(s, c, i, cur, acc) == split_acc(s, c, i + 1, Seq::empty(), a));
        } else {
            let n = cur.push(s[i]);
            assert(name_safe(n)) by {
                assert forall|k: int| 0 <= k < n.len() implies #[trigger] n[k] != '\r' && n[k] != '\n' by {
                    if k < cur.len() {
                        assert(n[k] == cur[k]);
                    }
                }
                assert forall|k: int| 0 <= k < n.len() implies (#[trigger] n[k] as u32) < 128 by {
                    if k < cur.len() {
                        assert(n[k] == cur[k]);
                    }
                }
            }
            lemma_split_pieces_safe(s, c, i + 1, n, acc);
            assert(split_acc(s, c, i, cur, acc) == split_acc(s, c, i + 1, n, acc));
        }
    } else {
        let a = acc.push(cur);
        assert(split_acc(s, c, i, cur, acc) == a);
        assert forall|k: int| 0 <= k < a.len() implies name_safe(#[trigger] a[k]) by {
            if k < acc.len() {
                assert(a[k] == acc[k]);
            }
        }
    }
}

proof fn lemma_capitalized_safe(part: Seq<char>)
    requires
        name_safe(part),
    ensures
        breaks_free(capitalized(part)),
{
    if part.len() > 0 {
        let head = seq![ascii_upper(part[0])];
        let tail = ascii_lower_seq(part.drop_first());
        lemma_case_keeps_breaks(part[0]);
        assert forall|k: int| 0 <= k < capitalized(part).len() implies #[trigger] capitalized(part)[k]
            != '\r' && capitalized(part)[k] != '\n' by {
            if k >= 1 {
                assert(capitalized(part)[k] == ascii_lower(part[k]));
                lemma_case_keeps_breaks(part[k]);
            }
        }
    }
}

proof fn lemma_join_breaks_free(pieces: Seq<Seq<char>>, sep: Seq<char>)
    requires
        breaks_free(sep),
        forall|k: int| 0 <= k < pieces.len() ==> breaks_free(#[trigger] pieces[k]),
    ensures
        breaks_free(join(pieces, sep)),
    decreases pieces.len(),
{
    if pieces.len() == 1 {
        assert(breaks_free(pieces[0]));
    } else if pieces.len() > 1 {
        let init = pieces.drop_last();
        assert forall|k: int| 0 <= k < init.len() implies breaks_free(#[trigger] init[k]) by {
            assert(init[k] == pieces[k]);
        }
        lemma_join_breaks_free(init, sep);
        let a = join(init, sep);
        let l = pieces.last();
        assert(breaks_free(pieces[pieces.len() - 1]));
        let j = a + sep + l;
        assert forall|k: int| 0 <= k < j.len() implies #[trigger] j[k] != '\r' && j[k] != '\n' by {
            if k < a.len() {
                assert(j[k] == a[k]);
            } else if k < a.len() + sep.len() {
                assert(j[k] == sep[k - a.len()]);
            } else {
                assert(j[k] == l[k - a.len() - sep.len()]);
            }
        }
    }
}

/// `encode` writes a safe name without line breaks.
proof fn lemma_canonical_safe(name: Seq<char>)
    requires
        name_safe(name),
    ensures
        breaks_free(canonical_name(name)),
{
    if has_prefix(name, "wfd_"@) {
    } else if eq_ignore_case(name, "cseq"@) {
        reveal_strlit("CSeq");
    } else {
        let parts = split(name, '-');
        assert(name_safe(Seq::<char>::empty()));
        lemma_split_pieces_safe(name, '-', 0, Seq::empty(), Seq::empty());
        let caps = parts.map_values(|p: Seq<char>| capitalized(p));
        assert forall|k: int| 0 <= k < caps.len() implies breaks_free(#[trigger] caps[k]) by {
            assert(name_safe(parts[k]));
            lemma_capitalized_safe(parts[k]);
        }
        reveal_strlit("-");
        lemma_join_breaks_free(caps, "-"@);
    }
}


/// Every `\r` of `t` starts a `\r\n` that is followed by something other
/// than another `\r`.
pub open spec fn crlf_lines(t: Seq<char>) -> bool {
    forall|i: int|
        0 <= i < t.len() && #[trigger] t[i] == '\r' ==> i + 2 < t.len() && t[i + 1] == '\n' && t[i
            + 2] != '\r'
}

/// The headers as `encode` writes them are safe: names and values without
/// line breaks.
pub open spec fn lines_safe(hs: Seq<(Seq<char>, Seq<char>)>) -> bool {
    forall|j: int|
        0 <= j < hs.len() ==> breaks_free(canonical_name(#[trigger] hs[j].0)) && line_safe(hs[j].1)
}

proof fn lemma_header_text_first(hs: Seq<(Seq<char>, Seq<char>)>)
    requires
        hs.len() > 0,
    ensures
        header_text(hs) == "\r\n"@ + canonical_name(hs[0].0) + ": "@ + hs[0].1 + header_text(
            hs.drop_first(),
        ),
    decreases hs.len(),
{
    if hs.len() == 1 {
        assert(hs.drop_last() =~= Seq::<(Seq<char>, Seq<char>)>::empty());
        assert(hs.drop_first() =~= Seq::<(Seq<char>, Seq<char>)>::empty());
        assert(header_text(hs.drop_last()) =~= Seq::<char>::empty());
        assert(header_text(hs.drop_first()) =~= Seq::<char>::empty());
        assert(hs.last() == hs[0]);
        assert(header_text(hs) =~= "\r\n"@ + canonical_name(hs[0].0) + ": "@ + hs[0].1);
    } else {
        let init = hs.drop_last();
        lemma_header_text_first(init);
        assert(init[0] == hs[0]);
        assert(hs.drop_first().drop_last() =~= init.drop_first());
        assert(hs.drop_first().last() == hs.last());
        assert(header_text(hs) =~= "\r\n"@ + canonical_name(hs[0].0) + ": "@ + hs[0].1
            + header_text(hs.drop_first()));
    }
}

proof fn lemma_header_text_crlf(hs: Seq<(Seq<char>, Seq<char>)>)
    requires
        lines_safe(hs),
    ensures
        crlf_lines(header_text(hs)),
    decreases hs.len(),
{
    if hs.len() > 0 {
        let init = hs.drop_last();
        assert forall|j: int| 0 <= j < init.len() implies breaks_free(
            canonical_name(#[trigger] init[j].0),
        ) && line_safe(init[j].1) by {
            assert(init[j] == hs[j]);
        }
        lemma_header_text_crlf(init);
        let a = header_text(init);
        let (k, v) = hs.last();
        assert(breaks_free(canonical_name(hs[hs.len() - 1].0)) && line_safe(hs[hs.len() - 1].1));
        let c = canonical_name(k);
        reveal_strlit("\r\n");
        reveal_strlit(": ");
        let t = header_text(hs);
        assert(t =~= a + "\r\n"@ + c + ": "@ + v);
        assert forall|i: int| 0 <= i < t.len() && #[trigger] t[i] == '\r' implies i + 2 < t.len() && t[i
            + 1] == '\n' && t[i + 2] != '\r' by {
            if i < a.len() {
                assert(t[i] == a[i]);
                assert(a[i + 1] == t[i + 1] && a[i + 2] == t[i + 2]);
            } else if i == a.len() {
                if c.len() > 0 {
                    assert(t[i + 2] == c[0]);
                } else {
                    assert(t[i + 2] == ':');
                }
            } else if i < a.len() + 2 {
                assert(t[i] == '\n');
            } else if i < a.len() + 2 + c.len() {
                assert(t[i] == c[i - a.len() - 2]);
            } else if i < a.len() + 4 + c.len() {
            } else {
                assert(t[i] == v[i - a.len() - 4 - c.len()]);
            }
        }
    }
}

/// The first blank line of `start + headers + "\r\n\r\n" + body` is the
/// one that ends the headers.
proof fn lemma_terminator(st: Seq<char>, ht: Seq<char>, body: Seq<char>)
    requires
        line_safe(st),
        crlf_lines(ht),
    ensures
        find_seq(st + ht + "\r\n\r\n"@ + body, "\r\n\r\n"@, 0) == Some((st.len() + ht.len()) as int),
{
    reveal_strlit("\r\n\r\n");
    let p = "\r\n\r\n"@;
    let raw = st + ht + p + body;
    let t: int = (st.len() + ht.len()) as int;
    assert(raw.subrange(t, t + 4) =~= p);
    assert forall|k: int| 0 <= k < t implies !#[trigger] occurs_at(raw, p, k) by {
        if occurs_at(raw, p, k) {
            assert(raw.subrange(k, k + 4)[0] == raw[k]);
            assert(raw.subrange(k, k + 4)[2] == raw[k + 2]);
            if k < st.len() {
                assert(raw[k] == st[k]);
            } else {
                let j = k - st.len();
                assert(raw[k] == ht[j]);
                assert(j + 2 < ht.len());
                assert(raw[k + 2] == ht[j + 2]);
            }
        }
    }
    crate::text::lemma_find_seq_at(raw, p, 0, t);
}

/// The first two pieces of `x + "\r\n" + y + z` split at `\r\n` are `x`
/// and `y`, when neither holds a line break and `z` is empty or starts a
/// new line.
proof fn lemma_split_two(x: Seq<char>, y: Seq<char>, z: Seq<char>)
    requires
        line_safe(x),
        line_safe(y),
        z.len() == 0 || (z.len() >= 2 && z[0] == '\r' && z[1] == '\n'),
    ensures
        split_seq(x + "\r\n"@ + y + z, "\r\n"@).len() >= 2,
        split_seq(x + "\r\n"@ + y + z, "\r\n"@)[0] == x,
        split_seq(x + "\r\n"@ + y + z, "\r\n"@)[1] == y,
{
    reveal_strlit("\r\n");
    let p = "\r\n"@;
    let s = x + p + y + z;
    let xl: int = x.len() as int;
    let e: int = xl + 2 + y.len() as int;
    assert forall|k: int| 0 <= k < x.len() implies !#[trigger] occurs_at(s, p, k) by {
        assert(s[k] == x[k]);
        if occurs_at(s, p, k) {
            assert(s.subrange(k, k + 2)[0] == s[k]);
        }
    }
    crate::text::lemma_split_seq_skip(s, p, 0, x.len() as int, 0, Seq::empty());
    assert(s.subrange(xl, xl + 2) =~= p);
    assert(s.subrange(0, x.len() as int) =~= x);
    let a1 = seq![x];
    assert(Seq::<Seq<char>>::empty().push(x) =~= a1);
    assert forall|k: int| xl + 2 <= k < e implies !#[trigger] occurs_at(s, p, k) by {
        assert(s[k] == y[k - x.len() - 2]);
        if occurs_at(s, p, k) {
            assert(s.subrange(k, k + 2)[0] == s[k]);
        }
    }
    crate::text::lemma_split_seq_skip(s, p, xl + 2, e, xl + 2, a1);
    assert(s.subrange(xl + 2, e) =~= y);
    let a2 = a1.push(y);
    if z.len() == 0 {
        assert(s.len() == e);
        assert(split_seq_acc(s, p, e, xl + 2, a1) == a2);
    } else {
        assert(s.subrange(e, e + 2) =~= p);
        crate::text::lemma_split_seq_prefix(s, p, e + 2, e + 2, a2);
        assert(split_seq_acc(s, p, e, xl + 2, a1) == split_seq_acc(s, p, e + 2, e + 2, a2));
    }
    assert(a2[0] == x && a2[1] == y);
}



/// `s` has no space.
pub open spec fn no_space(s: Seq<char>) -> bool {
    forall|i: int| 0 <= i < s.len() ==> #[trigger] s[i] != ' '
}

/// A start line `parse` reads back: a request line of space-free method and
/// URL without line breaks (the method not starting like a status line), or
/// a status whose reason has no line break.
pub open spec fn start_safe(m: MessageView) -> bool {
    match m.request {
        Some((method, url)) => line_safe(method) && line_safe(url) && no_space(method) && no_space(
            url,
        ) && !has_prefix(method, "RTSP/"@),
        None => match m.status {
            Some((_, reason)) => line_safe(reason),
            None => true,
        },
    }
}

/// A message `encode` writes and `parse` reads back: a request line of
/// space-free method and URL (the method not starting like a status line),
/// or a status whose reason has no line break; headers whose names are
/// ASCII without line breaks, and whose values have no line break.
pub open spec fn message_safe(m: MessageView) -> bool {
    &&& start_safe(m)
    &&& forall|j: int|
        0 <= j < m.headers.len() ==> name_safe(#[trigger] m.headers[j].0) && line_safe(
            m.headers[j].1,
        )
}

proof fn lemma_decimal_safe(n: nat)
    ensures
        line_safe(decimal(n)),
        no_space(decimal(n)),
{
    crate::number::lemma_decimal_digits(n);
    assert forall|i: int| 0 <= i < decimal(n).len() implies #[trigger] decimal(n)[i] != '\r'
        && decimal(n)[i] != '\n' by {
        assert(48 <= (decimal(n)[i] as u32) <= 57);
    }
    assert forall|i: int| 0 <= i < decimal(n).len() implies #[trigger] decimal(n)[i] != ' ' by {
        assert(48 <= (decimal(n)[i] as u32) <= 57);
    }
}

proof fn lemma_concat_line_safe(a: Seq<char>, b: Seq<char>)
    requires
        line_safe(a),
        line_safe(b),
    ensures
        line_safe(a + b),
{
    assert forall|i: int| 0 <= i < (a + b).len() implies #[trigger] (a + b)[i] != '\r' && (a + b)[i]
        != '\n' by {
        if i < a.len() {
            assert((a + b)[i] == a[i]);
        } else {
            assert((a + b)[i] == b[i - a.len()]);
        }
    }
}

proof fn lemma_start_line_safe(m: MessageView)
    requires
        start_safe(m),
    ensures
        line_safe(start_line(m)),
{
    reveal_strlit("RTSP/1.0");
    reveal_strlit("OK");
    assert(line_safe(seq![' ']));
    assert(line_safe("RTSP/1.0"@));
    match m.request {
        Some((method, url)) => {
            lemma_concat_line_safe(method, seq![' ']);
            lemma_concat_line_safe(method + seq![' '], url);
            lemma_concat_line_safe(method + seq![' '] + url, seq![' ']);
            lemma_concat_line_safe(method + seq![' '] + url + seq![' '], "RTSP/1.0"@);
        },
        None => {
            let (code, reason) = match m.status {
                Some(st) => st,
                None => (200u16, "OK"@),
            };
            assert(line_safe(reason));
            lemma_decimal_safe(code as nat);
            lemma_concat_line_safe("RTSP/1.0"@, seq![' ']);
            lemma_concat_line_safe("RTSP/1.0"@ + seq![' '], decimal(code as nat));
            lemma_concat_line_safe("RTSP/1.0"@ + seq![' '] + decimal(code as nat), seq![' ']);
            lemma_concat_line_safe(
                "RTSP/1.0"@ + seq![' '] + decimal(code as nat) + seq![' '],
                reason,
            );
        },
    }
}

proof fn lemma_sent_safe(m: MessageView)
    requires
        message_safe(m),
    ensures
        lines_safe(sent_headers(m)),
        m.headers.len() > 0 ==> sent_headers(m).len() > 0 && sent_headers(m)[0] == m.headers[0],
{
    reveal_strlit("content-type");
    reveal_strlit("content-length");
    reveal_strlit("text/parameters");
    let extra = seq![("content-type"@, "text/parameters"@), ("content-length"@, decimal(byte_len(m.body)))];
    assert(name_safe("content-type"@));
    assert(name_safe("content-length"@));
    lemma_canonical_safe("content-type"@);
    lemma_canonical_safe("content-length"@);
    lemma_decimal_safe(byte_len(m.body));
    assert(line_safe("text/parameters"@));
    let hs = sent_headers(m);
    assert forall|j: int| 0 <= j < hs.len() implies breaks_free(canonical_name(#[trigger] hs[j].0))
        && line_safe(hs[j].1) by {
        if j < m.headers.len() {
            assert(hs[j] == m.headers[j]);
            assert(name_safe(m.headers[j].0) && line_safe(m.headers[j].1));
            lemma_canonical_safe(m.headers[j].0);
        }
    }
}

proof fn lemma_trim_of_space(v: Seq<char>)
    requires
        v.len() > 0 ==> !is_ws(v[0]) && !is_ws(v.last()),
    ensures
        trim(seq![' '] + v) == v,
{
    if v.len() > 0 {
        lemma_trim_of_spaced(v);
    } else {
        let s = seq![' '] + v;
        assert(s =~= seq![' ']);
        assert(is_ws(' '));
        assert(back_ws(s, 0) == 0);
        assert(back_ws(s, 1) == 0);
        assert(s.take(0) =~= Seq::<char>::empty());
        assert(trim(s) =~= v);
    }
}

proof fn lemma_splitn3_words(a: Seq<char>, b: Seq<char>, c: Seq<char>)
    requires
        no_space(a),
        no_space(b),
    ensures
        splitn3(a + seq![' '] + b + seq![' '] + c, ' ') == seq![a, b, c],
{
    let s = a + seq![' '] + b + seq![' '] + c;
    assert forall|k: int| 0 <= k < a.len() implies s[k] != ' ' by {
        assert(s[k] == a[k]);
    }
    lemma_find_char_at(s, ' ', 0, a.len() as int);
    let rest = s.skip(a.len() as int + 1);
    assert(rest =~= b + seq![' '] + c);
    assert forall|k: int| 0 <= k < b.len() implies rest[k] != ' ' by {
        assert(rest[k] == b[k]);
    }
    lemma_find_char_at(rest, ' ', 0, b.len() as int);
    assert(s.take(a.len() as int) =~= a);
    assert(rest.take(b.len() as int) =~= b);
    assert(rest.skip(b.len() as int + 1) =~= c);
}

/// `parse` reads back what `encode` wrote: the request line, or the status
/// (`200 OK` when none was set), the body exactly, and the `CSeq` when it is
/// the first header and its value has no whitespace at its ends. This holds
/// for every message whose parts have no line breaks, whose request line
/// parts have no spaces, and whose header names are ASCII.
pub proof fn encode_then_parse(m: MessageView)
    requires
        message_safe(m),
    ensures
        parsed_request(encoded(m)) == m.request,
        parsed_status(encoded(m)) == match m.request {
            Some(_) => None,
            None => Some(
                match m.status {
                    Some(st) => st,
                    None => (200u16, "OK"@),
                },
            ),
        },
        body_of(encoded(m)) == m.body,
        (m.headers.len() > 0 && eq_ignore_case(m.headers[0].0, "cseq"@) && (m.headers[0].1.len() > 0
            ==> !is_ws(m.headers[0].1[0]) && !is_ws(m.headers[0].1.last()))) ==> cseq_of(
            parsed_headers(encoded(m)),
        ) == cseq_of(m.headers),
{
    reveal_strlit("\r\n\r\n");
    encode_then_parse_start(m);
    if m.headers.len() > 0 {
        assert(line_safe(m.headers[0].1));
    }
    let st = start_line(m);
    let hs = sent_headers(m);
    let ht = header_text(hs);
    let raw = encoded(m);
    lemma_start_line_safe(m);
    lemma_sent_safe(m);
    lemma_header_text_crlf(hs);
    lemma_terminator(st, ht, m.body);
    assert(raw =~= st + ht + "\r\n\r\n"@ + m.body);
    assert(body_of(raw) =~= m.body);
}


proof fn lemma_find_seq_from(s: Seq<char>, p: Seq<char>, i: int, j: int)
    requires
        0 <= i <= j,
        forall|q: int| i <= q < j ==> !#[trigger] occurs_at(s, p, q),
    ensures
        find_seq(s, p, i) == find_seq(s, p, j),
    decreases j - i,
{
    if i < j && i + p.len() <= s.len() {
        assert(!occurs_at(s, p, i));
        lemma_find_seq_from(s, p, i + 1, j);
    } else if i < j {
        lemma_find_seq_none(s, p, j);
    }
}

proof fn lemma_find_seq_none(s: Seq<char>, p: Seq<char>, j: int)
    requires
        j + p.len() > s.len(),
    ensures
        find_seq(s, p, j) is None,
{
}

proof fn lemma_find_seq_exists(s: Seq<char>, p: Seq<char>, i: int, t: int)
    requires
        0 <= i <= t,
        occurs_at(s, p, t),
    ensures
        find_seq(s, p, i) is Some,
    decreases t - i,
{
    if i < t && !occurs_at(s, p, i) {
        lemma_find_seq_exists(s, p, i + 1, t);
    }
}

/// Where the head of a raw message ends, given that no blank line starts
/// before `e`, a line break starts at `e`, and a blank line starts at `t`:
/// the head is `raw[..e]` followed by nothing or by text that starts a new
/// line.
proof fn lemma_head_after(raw: Seq<char>, e: int, t: int)
    requires
        0 <= e <= t,
        e + 2 <= raw.len(),
        raw[e] == '\r',
        raw[e + 1] == '\n',
        occurs_at(raw, "\r\n\r\n"@, t),
        forall|q: int| 0 <= q < e ==> !#[trigger] occurs_at(raw, "\r\n\r\n"@, q),
    ensures
        ({
            let z = head_of(raw).skip(e);
            &&& head_of(raw).len() >= e
            &&& head_of(raw).take(e) == raw.take(e)
            &&& (z.len() == 0 || (z.len() >= 2 && z[0] == '\r' && z[1] == '\n'))
        }),
{
    reveal_strlit("\r\n\r\n");
    let p = "\r\n\r\n"@;
    lemma_find_seq_from(raw, p, 0, e);
    lemma_find_seq_exists(raw, p, e, t);
    crate::text::lemma_find_seq(raw, p, e);
    let k = find_seq(raw, p, e)->0;
    assert(occurs_at(raw, p, k) && e <= k);
    if k == e + 1 {
        assert(raw.subrange(k, k + 4)[0] == raw[e + 1]);
    }
    let h = raw.take(k);
    assert(head_of(raw) == h);
    assert(h.take(e) =~= raw.take(e));
    if k > e {
        assert(h.skip(e)[0] == raw[e]);
        assert(h.skip(e)[1] == raw[e + 1]);
    }
}

/// The first piece of `x + z` split at `\r\n` is `x`, when `x` holds no line
/// break and `z` is empty or starts a new line.
proof fn lemma_split_first(x: Seq<char>, z: Seq<char>)
    requires
        line_safe(x),
        z.len() == 0 || (z.len() >= 2 && z[0] == '\r' && z[1] == '\n'),
    ensures
        split_seq(x + z, "\r\n"@).len() >= 1,
        split_seq(x + z, "\r\n"@)[0] == x,
{
    reveal_strlit("\r\n");
    let p = "\r\n"@;
    let s = x + z;
    let xl: int = x.len() as int;
    assert forall|k: int| 0 <= k < x.len() implies !#[trigger] occurs_at(s, p, k) by {
        assert(s[k] == x[k]);
        if occurs_at(s, p, k) {
            assert(s.subrange(k, k + 2)[0] == s[k]);
        }
    }
    crate::text::lemma_split_seq_skip(s, p, 0, xl, 0, Seq::empty());
    assert(s.subrange(0, xl) =~= x);
    let a1 = seq![x];
    assert(Seq::<Seq<char>>::empty().push(x) =~= a1);
    if z.len() == 0 {
        assert(s.len() == xl);
        assert(split_seq_acc(s, p, xl, 0, Seq::empty()) == a1);
    } else {
        assert(s.subrange(xl, xl + 2) =~= p);
        crate::text::lemma_split_seq_prefix(s, p, xl + 2, xl + 2, a1);
        assert(split_seq_acc(s, p, xl, 0, Seq::empty()) == split_seq_acc(s, p, xl + 2, xl + 2, a1));
    }
}

/// The raw message as the start line, its headers' text, the blank line
/// and the body.
proof fn lemma_raw_parts(m: MessageView)
    ensures
        encoded(m) == start_line(m) + header_text(sent_headers(m)) + "\r\n\r\n"@ + m.body,
        occurs_at(
            encoded(m),
            "\r\n\r\n"@,
            (start_line(m).len() + header_text(sent_headers(m)).len()) as int,
        ),
{
    reveal_strlit("\r\n\r\n");
    let raw = encoded(m);
    let t: int = (start_line(m).len() + header_text(sent_headers(m)).len()) as int;
    assert(raw.subrange(t, t + 4) =~= "\r\n\r\n"@);
}

/// The first piece of the head `parse` reads is the start line.
proof fn lemma_start_piece(m: MessageView)
    requires
        start_safe(m),
    ensures
        split_seq(head_of(encoded(m)), "\r\n"@).len() >= 1,
        split_seq(head_of(encoded(m)), "\r\n"@)[0] == start_line(m),
{
    reveal_strlit("\r\n");
    reveal_strlit("\r\n\r\n");
    let p = "\r\n\r\n"@;
    let st = start_line(m);
    let hs = sent_headers(m);
    let ht = header_text(hs);
    let raw = encoded(m);
    lemma_start_line_safe(m);
    lemma_raw_parts(m);
    let t: int = (st.len() + ht.len()) as int;
    let sl: int = st.len() as int;
    if hs.len() > 0 {
        lemma_header_text_first(hs);
    } else {
        assert(ht =~= Seq::<char>::empty());
    }
    assert(raw[sl] == '\r' && raw[sl + 1] == '\n');
    assert forall|q: int| 0 <= q < sl implies !#[trigger] occurs_at(raw, p, q) by {
        if occurs_at(raw, p, q) {
            assert(raw.subrange(q, q + 4)[0] == raw[q]);
            assert(raw[q] == st[q]);
        }
    }
    lemma_head_after(raw, sl, t);
    let head = head_of(raw);
    assert(raw.take(sl) =~= st);
    assert(head =~= head.take(sl) + head.skip(sl));
    lemma_split_first(st, head.skip(sl));
}

/// The `CSeq` `parse` reads is that of the first header, when that header
/// is the `CSeq` with a value free of line breaks and of whitespace at its ends.
#[verifier::rlimit(80)]
proof fn lemma_cseq_read_back(m: MessageView)
    requires
        start_safe(m),
        m.headers.len() > 0,
        eq_ignore_case(m.headers[0].0, "cseq"@),
        line_safe(m.headers[0].1),
        m.headers[0].1.len() > 0 ==> !is_ws(m.headers[0].1[0]) && !is_ws(m.headers[0].1.last()),
    ensures
        cseq_of(parsed_headers(encoded(m))) == cseq_of(m.headers),
{
    reveal_strlit("\r\n");
    reveal_strlit("\r\n\r\n");
    reveal_strlit(": ");
    reveal_strlit("cseq");
    reveal_strlit("CSeq");
    reveal_strlit("wfd_");
    let p = "\r\n\r\n"@;
    let st = start_line(m);
    let hs = sent_headers(m);
    let ht = header_text(hs);
    let raw = encoded(m);
    lemma_start_line_safe(m);
    lemma_raw_parts(m);
    let t: int = (st.len() + ht.len()) as int;
    let sl: int = st.len() as int;
    lemma_header_text_first(hs);
    assert(hs[0] == m.headers[0]);
    let (k0, v0) = hs[0];
    let c0 = canonical_name(k0);
    let l0 = c0 + ": "@ + v0;
    let rest = header_text(hs.drop_first());
    assert(ascii_lower_seq(k0) == ascii_lower_seq("cseq"@));
    assert(ascii_lower_seq(k0).len() == 4);
    if has_prefix(k0, "wfd_"@) {
        assert(k0.take(4)[0] == k0[0]);
        assert(k0[0] == 'w');
        assert(ascii_lower_seq(k0)[0] == ascii_lower(k0[0]));
        assert(ascii_lower_seq("cseq"@)[0] == 'c');
    }
    assert(c0 == "CSeq"@);
    assert forall|i: int| 0 <= i < l0.len() implies #[trigger] l0[i] != '\r' && l0[i] != '\n' by {
        if i < c0.len() {
            assert(l0[i] == c0[i]);
        } else if i >= c0.len() + 2 {
            assert(l0[i] == v0[i - c0.len() - 2]);
        }
    }
    let e: int = sl + 2 + l0.len();
    assert(raw =~= st + "\r\n"@ + l0 + rest + p + m.body);
    if hs.drop_first().len() > 0 {
        lemma_header_text_first(hs.drop_first());
    } else {
        assert(rest =~= Seq::<char>::empty());
    }
    assert(raw[e] == '\r' && raw[e + 1] == '\n');
    assert forall|q: int| 0 <= q < e implies !#[trigger] occurs_at(raw, p, q) by {
        if occurs_at(raw, p, q) {
            assert(raw.subrange(q, q + 4)[0] == raw[q]);
            assert(raw.subrange(q, q + 4)[2] == raw[q + 2]);
            if q < sl {
                assert(raw[q] == st[q]);
            } else if q == sl {
                assert(raw[q + 2] == l0[0]);
            } else if q == sl + 1 {
            } else {
                assert(raw[q] == l0[q - sl - 2]);
            }
        }
    }
    lemma_head_after(raw, e, t);
    let head = head_of(raw);
    let z = head.skip(e);
    assert(raw.take(e) =~= st + "\r\n"@ + l0);
    assert(head =~= head.take(e) + z);
    lemma_split_two(st, l0, z);
    let pieces = split_seq(head, "\r\n"@);
    assert forall|i: int| 0 <= i < c0.len() implies l0[i] != ':' by {
        assert(l0[i] == c0[i]);
    }
    assert(l0[4] == ':');
    lemma_find_char_at(l0, ':', 0, 4);
    assert(l0.take(4) =~= c0);
    assert(l0.skip(5) =~= seq![' '] + v0);
    lemma_trim_of_plain(c0);
    lemma_trim_of_space(v0);
    assert(ascii_lower_seq(c0) =~= "cseq"@);
    assert(header_entry(l0) == Some(("cseq"@, v0)));
    let parsed = parsed_headers(raw);
    assert(parsed == header_entries(pieces, 1));
    assert(parsed =~= seq![("cseq"@, v0)] + header_entries(pieces, 2));
    assert(eq_ignore_case(parsed[0].0, "cseq"@));
    assert(find_header(parsed, "cseq"@, 0) == Some(0int));
    assert(find_header(m.headers, "cseq"@, 0) == Some(0int));
}

/// `parse` reads back the start of what `encode` wrote whatever the headers
/// hold: the request line, or the status (`200 OK` when none was set), and
/// the `CSeq` when it is the first header with a value free of line breaks
/// and of whitespace at its ends. Only the body needs more of the headers
/// (see [`encode_then_parse`]).
pub proof fn encode_then_parse_start(m: MessageView)
    requires
        start_safe(m),
    ensures
        parsed_request(encoded(m)) == m.request,
        parsed_status(encoded(m)) == match m.request {
            Some(_) => None,
            None => Some(
                match m.status {
                    Some(st) => st,
                    None => (200u16, "OK"@),
                },
            ),
        },
        (m.headers.len() > 0 && eq_ignore_case(m.headers[0].0, "cseq"@) && line_safe(m.headers[0].1)
            && (m.headers[0].1.len() > 0 ==> !is_ws(m.headers[0].1[0]) && !is_ws(
            m.headers[0].1.last(),
        ))) ==> cseq_of(parsed_headers(encoded(m))) == cseq_of(m.headers),
{
    reveal_strlit("RTSP/1.0");
    reveal_strlit("RTSP/");
    reveal_strlit("OK");
    lemma_start_piece(m);
    if m.headers.len() > 0 && eq_ignore_case(m.headers[0].0, "cseq"@) && line_safe(m.headers[0].1) && (
    m.headers[0].1.len() > 0 ==> !is_ws(m.headers[0].1[0]) && !is_ws(m.headers[0].1.last())) {
        lemma_cseq_read_back(m);
    }
    let raw = encoded(m);
    let words = splitn3(start_line(m), ' ');
    assert(start_words(raw) == words);
    match m.request {
        Some((method, url)) => {
            lemma_splitn3_words(method, url, "RTSP/1.0"@);
        },
        None => {
            let (code, reason) = match m.status {
                Some(x) => x,
                None => (200u16, "OK"@),
            };
            lemma_decimal_safe(code as nat);
            assert(no_space("RTSP/1.0"@));
            lemma_splitn3_words("RTSP/1.0"@, decimal(code as nat), reason);
            crate::number::lemma_decimal_parses(code as nat, u16::MAX as nat);
            assert("RTSP/1.0"@.take(5) =~= "RTSP/"@);
        },
    }
}
} // verus!
