//! What the HTTP endpoint answers.
//!
//! * `/`            a page that shows the MJPEG stream full-screen
//! * `/stream.mjpg` multipart JPEG, plays in any browser
//! * `/frame.jpg`   the latest frame
//! * `/live.ts`     H.264 in MPEG-TS, what a DLNA renderer is pointed at
//! * `/health`      plain-text status, handy from a second machine
//!
//! Sockets and threads are the caller's part; this module reads request
//! lines, routes paths and writes the response heads and pages.

use vstd::prelude::*;

use crate::number::{decimal, decimal_chars};
use crate::text::{
    chars_of, find_char, push_chars, push_str, same, slice, split_words, str_pairs, string_of,
    views, words,
};

verus! {

/// DLNA renderers key off this; without it many refuse to start a live stream.
pub const DLNA_FEATURES_LIVE: &'static str =
    "DLNA.ORG_OP=00;DLNA.ORG_CI=0;DLNA.ORG_FLAGS=8D500000000000000000000000000000";

/// The multipart boundary of the MJPEG stream.
pub const BOUNDARY: &'static str = "ttycastframe";

/// The page served at `/`.
pub open spec fn index_page(host: Seq<char>) -> Seq<char> {
    "<!doctype html>\n<html><head><meta charset=\"utf-8\"><title>ttycast</title>\n<meta name=\"viewport\" content=\"width=device-width,initial-scale=1\">\n<style>\nhtml,body{margin:0;height:100%;background:#0c0c0e;color:#dedede;font:16px/1.5 system-ui,sans-serif}\nbody{display:flex;flex-direction:column;align-items:center;justify-content:center}\nimg{max-width:100vw;max-height:100vh;object-fit:contain}\na{color:#ffb000}\nfooter{position:fixed;bottom:.5rem;opacity:.5;font-size:.8rem}\n</style></head><body>\n<img src=\"/stream.mjpg\" alt=\"terminal\">\n<footer>ttycast &middot; <a href=\"/live.ts\">live.ts</a> &middot; "@
        + host + "</footer>\n</body></html>\n"@
}

pub fn page(host: &str) -> (res: String)
    ensures
        res@ == index_page(host@),
{
    let mut out: Vec<char> = Vec::new();
    push_str(
        &mut out,
        "<!doctype html>\n<html><head><meta charset=\"utf-8\"><title>ttycast</title>\n<meta name=\"viewport\" content=\"width=device-width,initial-scale=1\">\n<style>\nhtml,body{margin:0;height:100%;background:#0c0c0e;color:#dedede;font:16px/1.5 system-ui,sans-serif}\nbody{display:flex;flex-direction:column;align-items:center;justify-content:center}\nimg{max-width:100vw;max-height:100vh;object-fit:contain}\na{color:#ffb000}\nfooter{position:fixed;bottom:.5rem;opacity:.5;font-size:.8rem}\n</style></head><body>\n<img src=\"/stream.mjpg\" alt=\"terminal\">\n<footer>ttycast &middot; <a href=\"/live.ts\">live.ts</a> &middot; ",
    );
    push_str(&mut out, host);
    push_str(&mut out, "</footer>\n</body></html>\n");
    string_of(&out)
}

// ---------------------------------------------------------------------------
// Requests

/// `(method, path)` of a request line: its first word, and its second or `/`.
pub open spec fn request_of(line: Seq<char>) -> Option<(Seq<char>, Seq<char>)> {
    let ws = words(line);
    if ws.len() == 0 {
        None
    } else {
        Some(
            (
                ws[0],
                if ws.len() > 1 {
                    ws[1]
                } else {
                    "/"@
                },
            ),
        )
    }
}

/// `(method, path)` from the request line, ignoring the headers we never use.
pub fn request_line(line: &str) -> (res: Option<(String, String)>)
    ensures
        match res {
            Some((m, p)) => request_of(line@) == Some((m@, p@)),
            None => request_of(line@) is None,
        },
{
    let ws = split_words(&chars_of(line));
    if ws.len() == 0 {
        return None;
    }
    assert(views(ws@)[0] == ws@[0]@);
    let method = string_of(&ws[0]);
    let path = if ws.len() > 1 {
        assert(views(ws@)[1] == ws@[1]@);
        string_of(&ws[1])
    } else {
        "/".to_owned()
    };
    Some((method, path))
}

/// Where a request goes.
#[derive(Debug, Clone, Copy, PartialEq, Eq, Structural)]
pub enum Route {
    Index,
    Health,
    Frame,
    Mjpeg,
    LiveTs,
    NotFound,
}

/// Length of `s` once trailing `/` are dropped.
pub open spec fn end_before_slashes(s: Seq<char>, j: int) -> int
    decreases j,
{
    if 0 < j <= s.len() && s[j - 1] == '/' {
        end_before_slashes(s, j - 1)
    } else {
        j
    }
}

/// A request path without its query and trailing slashes; `/` when nothing
/// is left.
pub open spec fn clean_path(path: Seq<char>) -> Seq<char> {
    let before_query = match find_char(path, '?', 0) {
        Some(k) => path.take(k),
        None => path,
    };
    let trimmed = before_query.take(end_before_slashes(before_query, before_query.len() as int));
    if trimmed.len() == 0 {
        "/"@
    } else {
        trimmed
    }
}

/// The route of a cleaned path.
pub open spec fn route_of(path: Seq<char>) -> Route {
    let p = clean_path(path);
    if p == "/"@ {
        Route::Index
    } else if p == "/health"@ {
        Route::Health
    } else if p == "/frame.jpg"@ {
        Route::Frame
    } else if p == "/stream.mjpg"@ {
        Route::Mjpeg
    } else if p == "/live.ts"@ {
        Route::LiveTs
    } else {
        Route::NotFound
    }
}

/// Route a request path; the query string and trailing slashes do not count.
pub fn route(path: &str) -> (res: Route)
    ensures
        res == route_of(path@),
{
    let p = chars_of(path);
    proof {
        crate::text::lemma_find_char(p@, '?', 0);
    }
    let before = match crate::text::position(&p, '?', 0) {
        Some(k) => slice(&p, 0, k),
        None => slice(&p, 0, p.len()),
    };
    let mut j = before.len();
    while j > 0 && before[j - 1] == '/'
        invariant
            j <= before@.len(),
            end_before_slashes(before@, before@.len() as int) == end_before_slashes(
                before@,
                j as int,
            ),
        decreases j,
    {
        j -= 1;
    }
    assert(end_before_slashes(before@, before@.len() as int) == j);
    let trimmed = slice(&before, 0, j);
    assert(trimmed@ =~= before@.take(end_before_slashes(before@, before@.len() as int)));
    let cleaned = if trimmed.len() == 0 {
        chars_of("/")
    } else {
        slice(&trimmed, 0, trimmed.len())
    };
    let ghost bq = match find_char(path@, '?', 0) {
        Some(k) => path@.take(k),
        None => path@,
    };
    assert(bq == before@);
    assert(clean_path(path@) == (if trimmed@.len() == 0 {
        "/"@
    } else {
        trimmed@
    }));
    assert(cleaned@ == clean_path(path@));
    if same(&cleaned, &chars_of("/")) {
        Route::Index
    } else if same(&cleaned, &chars_of("/health")) {
        Route::Health
    } else if same(&cleaned, &chars_of("/frame.jpg")) {
        Route::Frame
    } else if same(&cleaned, &chars_of("/stream.mjpg")) {
        Route::Mjpeg
    } else if same(&cleaned, &chars_of("/live.ts")) {
        Route::LiveTs
    } else {
        Route::NotFound
    }
}

// ---------------------------------------------------------------------------
// Responses

/// The reason phrase sent with a status code.
pub open spec fn reason_of(status: u16) -> Seq<char> {
    if status == 200 {
        "OK"@
    } else if status == 404 {
        "Not Found"@
    } else if status == 503 {
        "Service Unavailable"@
    } else {
        "Error"@
    }
}

/// The extra header lines, each `key: value\r\n`.
pub open spec fn extra_lines(hs: Seq<(Seq<char>, Seq<char>)>) -> Seq<char>
    decreases hs.len(),
{
    if hs.len() == 0 {
        Seq::empty()
    } else {
        extra_lines(hs.drop_last()) + hs.last().0 + ": "@ + hs.last().1 + "\r\n"@
    }
}

/// The head of a complete response.
pub open spec fn response_head_text(
    status: u16,
    content_type: Seq<char>,
    body_len: usize,
    extra: Seq<(Seq<char>, Seq<char>)>,
) -> Seq<char> {
    "HTTP/1.1 "@ + decimal(status as nat) + seq![' '] + reason_of(status) + "\r\nContent-Type: "@
        + content_type + "\r\nContent-Length: "@ + decimal(body_len as nat)
        + "\r\nCache-Control: no-store\r\nConnection: close\r\n"@ + extra_lines(extra) + "\r\n"@
}

/// The head sent before a body of `body_len` bytes.
pub fn response_head(status: u16, content_type: &str, body_len: usize, extra: &[(&str, &str)]) -> (res:
    String)
    ensures
        res@ == response_head_text(status, content_type@, body_len, str_pairs(extra@)),
{
    let mut out: Vec<char> = Vec::new();
    push_str(&mut out, "HTTP/1.1 ");
    push_chars(&mut out, &decimal_chars(status as u64));
    out.push(' ');
    let reason = if status == 200 {
        "OK"
    } else if status == 404 {
        "Not Found"
    } else if status == 503 {
        "Service Unavailable"
    } else {
        "Error"
    };
    push_str(&mut out, reason);
    push_str(&mut out, "\r\nContent-Type: ");
    push_str(&mut out, content_type);
    push_str(&mut out, "\r\nContent-Length: ");
    push_chars(&mut out, &decimal_chars(body_len as u64));
    push_str(&mut out, "\r\nCache-Control: no-store\r\nConnection: close\r\n");
    let ghost start = out@;
    let ghost hs = str_pairs(extra@);
    let mut k: usize = 0;
    while k < extra.len()
        invariant
            k <= extra@.len(),
            hs == str_pairs(extra@),
            out@ == start + extra_lines(hs.take(k as int)),
        decreases extra@.len() - k,
    {
        let (key, value) = extra[k];
        assert(hs[k as int] == (key@, value@));
        push_str(&mut out, key);
        push_str(&mut out, ": ");
        push_str(&mut out, value);
        push_str(&mut out, "\r\n");
        k += 1;
        assert(hs.take(k as int).drop_last() =~= hs.take(k - 1));
        assert(out@ =~= start + extra_lines(hs.take(k as int)));
    }
    assert(hs.take(extra@.len() as int) =~= hs);
    push_str(&mut out, "\r\n");
    string_of(&out)
}

/// The plain-text status served at `/health`.
pub open spec fn health_text(frames: u64, viewers: usize, ts_running: bool, ts_clients: usize) -> Seq<
    char,
> {
    "ttycast ok\nframes="@ + decimal(frames as nat) + "\nviewers="@ + decimal(viewers as nat)
        + "\nts_running="@ + (if ts_running {
        "true"@
    } else {
        "false"@
    }) + "\nts_clients="@ + decimal(ts_clients as nat) + seq!['\n']
}

pub fn health(frames: u64, viewers: usize, ts_running: bool, ts_clients: usize) -> (res: String)
    ensures
        res@ == health_text(frames, viewers, ts_running, ts_clients),
{
    let mut out: Vec<char> = Vec::new();
    push_str(&mut out, "ttycast ok\nframes=");
    push_chars(&mut out, &decimal_chars(frames));
    push_str(&mut out, "\nviewers=");
    push_chars(&mut out, &decimal_chars(viewers as u64));
    push_str(&mut out, "\nts_running=");
    if ts_running {
        push_str(&mut out, "true");
    } else {
        push_str(&mut out, "false");
    }
    push_str(&mut out, "\nts_clients=");
    push_chars(&mut out, &decimal_chars(ts_clients as u64));
    out.push('\n');
    string_of(&out)
}

/// The head of the MJPEG stream.
pub open spec fn mjpeg_head_text() -> Seq<char> {
    "HTTP/1.1 200 OK\r\nContent-Type: multipart/x-mixed-replace; boundary="@ + BOUNDARY@
        + "\r\nCache-Control: no-store\r\nConnection: close\r\n\r\n"@
}

pub fn mjpeg_head() -> (res: String)
    ensures
        res@ == mjpeg_head_text(),
{
    let mut out: Vec<char> = Vec::new();
    push_str(&mut out, "HTTP/1.1 200 OK\r\nContent-Type: multipart/x-mixed-replace; boundary=");
    push_str(&mut out, BOUNDARY);
    push_str(&mut out, "\r\nCache-Control: no-store\r\nConnection: close\r\n\r\n");
    string_of(&out)
}

/// The head of one JPEG part of the MJPEG stream.
pub open spec fn part_head_text(len: usize) -> Seq<char> {
    "--"@ + BOUNDARY@ + "\r\nContent-Type: image/jpeg\r\nContent-Length: "@ + decimal(len as nat)
        + "\r\n\r\n"@
}

pub fn part_head(len: usize) -> (res: String)
    ensures
        res@ == part_head_text(len),
{
    let mut out: Vec<char> = Vec::new();
    push_str(&mut out, "--");
    push_str(&mut out, BOUNDARY);
    push_str(&mut out, "\r\nContent-Type: image/jpeg\r\nContent-Length: ");
    push_chars(&mut out, &decimal_chars(len as u64));
    push_str(&mut out, "\r\n\r\n");
    string_of(&out)
}

/// The head of the transport stream, with the DLNA headers renderers check.
pub open spec fn live_ts_head_text() -> Seq<char> {
    "HTTP/1.1 200 OK\r\nContent-Type: video/mpeg\r\nCache-Control: no-store\r\nAccept-Ranges: none\r\nConnection: close\r\ntransferMode.dlna.org: Streaming\r\ncontentFeatures.dlna.org: "@
        + DLNA_FEATURES_LIVE@ + "\r\n\r\n"@
}

pub fn live_ts_head() -> (res: String)
    ensures
        res@ == live_ts_head_text(),
{
    let mut out: Vec<char> = Vec::new();
    push_str(
        &mut out,
        "HTTP/1.1 200 OK\r\nContent-Type: video/mpeg\r\nCache-Control: no-store\r\nAccept-Ranges: none\r\nConnection: close\r\ntransferMode.dlna.org: Streaming\r\ncontentFeatures.dlna.org: ",
    );
    push_str(&mut out, DLNA_FEATURES_LIVE);
    push_str(&mut out, "\r\n\r\n");
    string_of(&out)
}

/// The base URL clients reach the server at.
pub fn base_url(ip: &str, port: u16) -> (res: String)
    ensures
        res@ == "http://"@ + ip@ + seq![':'] + decimal(port as nat),
{
    let mut out: Vec<char> = Vec::new();
    push_str(&mut out, "http://");
    push_str(&mut out, ip);
    out.push(':');
    push_chars(&mut out, &decimal_chars(port as u64));
    string_of(&out)
}

/// Routing never confuses the named streams: each is reached by exactly
/// its own path, whatever query or trailing slashes come with it.
pub proof fn routes_are_distinct(path: Seq<char>)
    ensures
        route_of(path) == Route::Index <==> clean_path(path) == "/"@,
        route_of(path) == Route::Mjpeg <==> clean_path(path) == "/stream.mjpg"@,
        route_of(path) == Route::LiveTs <==> clean_path(path) == "/live.ts"@,
{
    reveal_strlit("/");
    reveal_strlit("/health");
    reveal_strlit("/frame.jpg");
    reveal_strlit("/stream.mjpg");
    reveal_strlit("/live.ts");
    assert("/"@.len() == 1 && "/health"@.len() == 7 && "/frame.jpg"@.len() == 10);
    assert("/stream.mjpg"@.len() == 12 && "/live.ts"@.len() == 8);
}

} // verus!
