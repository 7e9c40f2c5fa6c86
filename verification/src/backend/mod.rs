//! What a backend is: a way of getting the stream in front of a TV.
//!
//! Capture, rendering and the HTTP endpoint are shared. A backend only decides
//! how the display learns about the stream - by being told a URL (browser), by
//! being handed one over UPnP (dlna), or by a wireless display session
//! (miracast). The decisions each one makes live in its module here; the
//! caller drives them.

pub mod browser;
pub mod dlna;
pub mod miracast;
pub mod preview;

use vstd::prelude::*;

use crate::text::{debug_of, debug_str, push_str, string_of};

verus! {

/// `(name, one-line summary)` for `--help` and `ttycast backends`.
pub const SUMMARIES: [(&'static str, &'static str); 4] = [
    ("browser", "serve MJPEG at a URL; open it on the TV, a phone or a laptop"),
    ("dlna", "find a DLNA renderer and hand it the stream (works on most smart TVs)"),
    ("miracast", "wireless display over Wi-Fi Direct (lowest latency; needs P2P hardware)"),
    ("preview", "write the rendered frame to a PNG file (no network, for testing)"),
];

/// The error for a backend name nobody knows.
pub open spec fn unknown_backend_text(name: Seq<char>) -> Seq<char> {
    "unknown backend "@ + debug_of(name) + " (known: browser, dlna, miracast, preview)"@
}

pub fn unknown_backend(name: &str) -> (res: String)
    ensures
        res@ == unknown_backend_text(name@),
{
    let mut out: Vec<char> = Vec::new();
    push_str(&mut out, "unknown backend ");
    push_str(&mut out, debug_str(name).as_str());
    push_str(&mut out, " (known: browser, dlna, miracast, preview)");
    string_of(&out)
}

/// The reason a backend cannot produce an H.264 stream, if there is one.
pub open spec fn stream_problem(ffmpeg_found: bool, encoder_found: bool) -> Option<Seq<char>> {
    if !ffmpeg_found {
        Some("ffmpeg not found on PATH (needed to produce the H.264 stream)"@)
    } else if !encoder_found {
        Some(crate::encoder::no_encoder_text())
    } else {
        None
    }
}

/// What is missing for an H.264 stream: ffmpeg first, then an encoder.
pub fn stream_problems(ffmpeg_found: bool, encoder_found: bool) -> (res: Vec<String>)
    ensures
        crate::text::string_views(res@) == match stream_problem(ffmpeg_found, encoder_found) {
            Some(p) => seq![p],
            None => Seq::<Seq<char>>::empty(),
        },
{
    let mut out: Vec<String> = Vec::new();
    if !ffmpeg_found {
        out.push("ffmpeg not found on PATH (needed to produce the H.264 stream)".to_owned());
    } else if !encoder_found {
        out.push(crate::encoder::no_encoder_message());
    }
    proof {
        assert(crate::text::string_views(out@) =~= match stream_problem(ffmpeg_found, encoder_found) {
            Some(p) => seq![p],
            None => Seq::<Seq<char>>::empty(),
        });
    }
    out
}

} // verus!
