//! Wireless display over Miracast.
//!
//! This is the only backend that mirrors rather than plays a file, so it is
//! the only one with sub-second latency - the right choice for actually
//! working at the TV. The cost is that it needs Wi-Fi Direct in the driver.
//!
//! ttycast does not reimplement the Wi-Fi Direct link layer. It produces the
//! picture (H.264 in MPEG-TS over RTP, exactly what Miracast carries) and
//! leaves peer discovery and association to wpa_supplicant, driven either
//! directly or through MiracleCast. The RTSP capability negotiation lives in
//! [`crate::wfd`].
//!
//! Status: the RTSP layer and the RTP transport are implemented and
//! unit-tested; the end-to-end path is unverified because no P2P-capable radio
//! was available during development. Treat it as experimental.

use vstd::prelude::*;

use crate::number::{decimal, decimal_chars};
use crate::text::{push_chars, push_str, string_of, string_views};

verus! {

/// Userspace helpers that can drive the Wi-Fi Direct side for us.
pub const LINK_HELPERS: [&'static str; 2] = ["miracle-wifid", "gnome-network-displays"];

/// The advice given when no helper can drive the link.
pub open spec fn no_helper_text() -> Seq<char> {
    "no Wi-Fi Direct helper found. Install MiracleCast (miracle-wifid) or gnome-network-displays, or pass --sink-host/--sink-port to skip discovery and send RTP to an already connected sink."@
}

/// The problems the radio check adds: the report indented under a heading
/// when Wi-Fi Direct is unusable, then the advice when no helper is there.
pub open spec fn radio_problems(p2p_usable: bool, p2p_lines: Seq<Seq<char>>, helper_found: bool) -> Seq<
    Seq<char>,
> {
    (if p2p_usable {
        Seq::empty()
    } else {
        seq!["no Wi-Fi Direct capable adapter:"@] + p2p_lines.map_values(|l: Seq<char>| "  "@ + l)
    }) + if helper_found {
        Seq::empty()
    } else {
        seq![no_helper_text()]
    }
}

/// Blocking problems before a Miracast session. A pre-negotiated sink means
/// someone else already did the link layer, so the radio check is skipped.
pub fn preflight_problems(
    stream: Vec<String>,
    sink_known: bool,
    p2p_usable: bool,
    p2p_lines: &Vec<String>,
    helper_found: bool,
) -> (res: Vec<String>)
    ensures
        string_views(res@) == string_views(stream@) + if sink_known {
            Seq::empty()
        } else {
            radio_problems(p2p_usable, string_views(p2p_lines@), helper_found)
        },
{
    let mut problems = stream;
    if sink_known {
        assert(string_views(problems@) + Seq::<Seq<char>>::empty() =~= string_views(problems@));
        return problems;
    }
    let ghost start = string_views(problems@);
    if !p2p_usable {
        let ghost before = string_views(problems@);
        problems.push("no Wi-Fi Direct capable adapter:".to_owned());
        assert(string_views(problems@) =~= before.push("no Wi-Fi Direct capable adapter:"@));
        let ghost head = string_views(problems@);
        let mut i: usize = 0;
        while i < p2p_lines.len()
            invariant
                i <= p2p_lines@.len(),
                string_views(problems@) == head + string_views(p2p_lines@).take(i as int).map_values(
                    |l: Seq<char>| "  "@ + l,
                ),
            decreases p2p_lines@.len() - i,
        {
            let mut l: Vec<char> = Vec::new();
            push_str(&mut l, "  ");
            push_str(&mut l, p2p_lines[i].as_str());
            let ghost b = string_views(problems@);
            let s = string_of(&l);
            let ghost sv = s@;
            problems.push(s);
            assert(string_views(problems@) =~= b.push(sv));
            i += 1;
            assert(string_views(p2p_lines@).take(i as int).map_values(|l: Seq<char>| "  "@ + l)
                =~= string_views(p2p_lines@).take(i - 1).map_values(|l: Seq<char>| "  "@ + l).push(
                "  "@ + p2p_lines@[i - 1]@,
            ));
        }
        assert(string_views(p2p_lines@).take(p2p_lines@.len() as int) =~= string_views(
            p2p_lines@,
        ));
    }
    let ghost mid = string_views(problems@);
    if !helper_found {
        problems.push(
            "no Wi-Fi Direct helper found. Install MiracleCast (miracle-wifid) or gnome-network-displays, or pass --sink-host/--sink-port to skip discovery and send RTP to an already connected sink.".to_owned(),
        );
        assert(string_views(problems@) =~= mid.push(no_helper_text()));
    }
    assert(string_views(problems@) =~= start + radio_problems(
        p2p_usable,
        string_views(p2p_lines@),
        helper_found,
    ));
    problems
}

/// Why a session cannot start without a sink address.
pub open spec fn no_sink_text() -> Seq<char> {
    "automatic Miracast session setup is not wired up yet. Connect the sink with MiracleCast, then run ttycast with --sink-host <ip> --sink-port <port>."@
}

pub fn no_sink_message() -> (res: String)
    ensures
        res@ == no_sink_text(),
{
    "automatic Miracast session setup is not wired up yet. Connect the sink with MiracleCast, then run ttycast with --sink-host <ip> --sink-port <port>.".to_owned()
}

/// The status-bar text: where RTP goes, or `idle`.
pub fn status_text(sending: bool, sink_host: Option<&str>, sink_port: u16) -> (res: String)
    ensures
        res@ == match sink_host {
            Some(h) => if sending {
                "rtp -> "@ + h@ + seq![':'] + decimal(sink_port as nat)
            } else {
                "idle"@
            },
            None => "idle"@,
        },
{
    match sink_host {
        Some(h) => {
            if sending {
                let mut out: Vec<char> = Vec::new();
                push_str(&mut out, "rtp -> ");
                push_str(&mut out, h);
                out.push(':');
                push_chars(&mut out, &decimal_chars(sink_port as u64));
                string_of(&out)
            } else {
                "idle".to_owned()
            }
        },
        None => "idle".to_owned(),
    }
}

} // verus!
