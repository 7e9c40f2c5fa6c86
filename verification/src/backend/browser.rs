//! Serve the terminal at a URL and let something open it.
//!
//! The lowest-common-denominator backend: no ffmpeg, no discovery, no codec
//! negotiation. MJPEG plays in every browser, phone and most smart-TV
//! browsers, and the latency is one frame.

use vstd::prelude::*;

use crate::number::{decimal, decimal_chars};
use crate::text::{push_chars, push_str, string_of, string_views};

verus! {

pub struct BrowserBackend;

impl BrowserBackend {
    /// What `start` tells the user, given the server's base URL.
    pub fn announce(base: &str) -> (res: Vec<String>)
        ensures
            string_views(res@) == seq![
                "open on the TV:  "@ + base@ + seq!['/'],
                "raw stream:      "@ + base@ + "/stream.mjpg"@,
            ],
    {
        let mut first: Vec<char> = Vec::new();
        push_str(&mut first, "open on the TV:  ");
        push_str(&mut first, base);
        first.push('/');
        let mut second: Vec<char> = Vec::new();
        push_str(&mut second, "raw stream:      ");
        push_str(&mut second, base);
        push_str(&mut second, "/stream.mjpg");
        assert(first@ =~= "open on the TV:  "@ + base@ + seq!['/']);
        assert(second@ =~= "raw stream:      "@ + base@ + "/stream.mjpg"@);
        let mut out: Vec<String> = Vec::new();
        out.push(string_of(&first));
        out.push(string_of(&second));
        proof {
            assert(string_views(out@) =~= seq![
                "open on the TV:  "@ + base@ + seq!['/'],
                "raw stream:      "@ + base@ + "/stream.mjpg"@,
            ]);
        }
        out
    }

    /// The status-bar text: where to point a browser.
    pub fn status_text(ip: &str, port: u16) -> (res: String)
        ensures
            res@ == "http://"@ + ip@ + seq![':'] + decimal(port as nat) + seq!['/'],
    {
        let mut out: Vec<char> = Vec::new();
        push_str(&mut out, "http://");
        push_str(&mut out, ip);
        out.push(':');
        push_chars(&mut out, &decimal_chars(port as u64));
        out.push('/');
        string_of(&out)
    }
}

} // verus!
