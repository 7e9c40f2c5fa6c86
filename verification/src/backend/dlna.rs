//! Push the stream to a DLNA MediaRenderer (most smart TVs).
//!
//! The TV is handed a URL into our own HTTP server and pulls the transport
//! stream itself. Expect one to several seconds of latency: renderers buffer,
//! and that is not something a sender can turn off. Fine for watching a build
//! or a log, awkward for typing.
//!
//! If discovery comes back empty, the usual cause is the TV: content/screen
//! sharing has to be enabled in its settings before the renderer is announced.

use vstd::prelude::*;

use crate::number::{decimal, decimal_chars};
use crate::text::{
    chars_of, contains_seq, find, join, join_chars, lower_chars, lower_of, push_chars, push_str,
    string_of, views,
};
use crate::upnp::{renderer_view, url_host, Renderer};

verus! {

pub struct DlnaBackend {
    /// The renderer that accepted the stream.
    pub renderer: Option<Renderer>,
}

impl Default for DlnaBackend {
    fn default() -> (res: Self)
        ensures
            res.renderer is None,
    {
        DlnaBackend { renderer: None }
    }
}

/// The host a renderer is reached at, as `Renderer::host` gives it.
pub open spec fn renderer_host(r: Renderer) -> Seq<char> {
    match url_host(r.location@) {
        Some(h) => h,
        None => r.address@,
    }
}

/// Whether a renderer is the one asked for: at that host, if one was given,
/// and with the given name in its own, ignoring case, if one was given.
pub open spec fn wanted(r: Renderer, host: Option<Seq<char>>, name: Option<Seq<char>>) -> bool {
    &&& host matches Some(h) ==> renderer_host(r) == h
    &&& name matches Some(n) ==> contains_seq(lower_of(r.name@), lower_of(n))
}

/// Index of the first renderer from `k` on that is the one asked for.
pub open spec fn first_wanted(
    rs: Seq<Renderer>,
    host: Option<Seq<char>>,
    name: Option<Seq<char>>,
    k: int,
) -> Option<int>
    decreases rs.len() - k,
{
    if k < 0 || k >= rs.len() {
        None
    } else if wanted(rs[k], host, name) {
        Some(k)
    } else {
        first_wanted(rs, host, name, k + 1)
    }
}

/// The error when discovery found nothing.
pub open spec fn nobody_answered() -> Seq<char> {
    "no DLNA renderer answered. Switch the TV on and enable content/screen sharing in its settings, then try again (ttycast discover)."@
}

/// `name (host)` for each renderer.
pub open spec fn found_labels(rs: Seq<Renderer>) -> Seq<Seq<char>> {
    rs.map_values(|r: Renderer| r.name@ + " ("@ + renderer_host(r) + seq![')'])
}

/// What `choose_renderer` answers: the first wanted renderer, or why there is none.
pub open spec fn chosen(rs: Seq<Renderer>, host: Option<Seq<char>>, name: Option<Seq<char>>) -> Result<
    (Seq<char>, Seq<char>, Seq<char>, Seq<char>),
    Seq<char>,
> {
    if rs.len() == 0 {
        Err(nobody_answered())
    } else {
        match first_wanted(rs, host, name, 0) {
            Some(i) => Ok(renderer_view(rs[i])),
            None => Err("no renderer matched. Found: "@ + join(found_labels(rs), ", "@)),
        }
    }
}

/// The text of an optional string slice.
pub open spec fn opt_view(o: Option<&str>) -> Option<Seq<char>> {
    match o {
        Some(s) => Some(s@),
        None => None,
    }
}

fn copy_renderer(r: &Renderer) -> (res: Renderer)
    ensures
        renderer_view(res) == renderer_view(*r),
{
    Renderer {
        name: r.name.clone(),
        location: r.location.clone(),
        control_url: r.control_url.clone(),
        address: r.address.clone(),
    }
}

fn is_wanted(r: &Renderer, host: Option<&str>, name: Option<&str>) -> (res: bool)
    ensures
        res == wanted(*r, opt_view(host), opt_view(name)),
{
    match host {
        Some(h) => {
            let rh = r.host();
            if !crate::text::same(&chars_of(rh.as_str()), &chars_of(h)) {
                return false;
            }
        },
        None => {},
    }
    match name {
        Some(n) => {
            let have = lower_chars(&chars_of(r.name.as_str()));
            let want = lower_chars(&chars_of(n));
            match find(&have, &want, 0) {
                Some(_) => true,
                None => false,
            }
        },
        None => true,
    }
}

impl DlnaBackend {
    /// Pick the renderer to use among those discovery found: the first at
    /// `host` (when given) whose name contains `name` (when given), ignoring
    /// case.
    pub fn choose_renderer(renderers: &Vec<Renderer>, host: Option<&str>, name: Option<&str>) -> (res:
        Result<Renderer, String>)
        ensures
            match res {
                Ok(r) => chosen(renderers@, opt_view(host), opt_view(name)) == Ok::<
                    (Seq<char>, Seq<char>, Seq<char>, Seq<char>),
                    Seq<char>,
                >(renderer_view(r)),
                Err(e) => chosen(renderers@, opt_view(host), opt_view(name)) == Err::<
                    (Seq<char>, Seq<char>, Seq<char>, Seq<char>),
                    Seq<char>,
                >(e@),
            },
    {
        if renderers.len() == 0 {
            return Err(
                "no DLNA renderer answered. Switch the TV on and enable content/screen sharing in its settings, then try again (ttycast discover).".to_owned(),
            );
        }
        let mut i: usize = 0;
        while i < renderers.len()
            invariant
                i <= renderers@.len(),
                first_wanted(renderers@, opt_view(host), opt_view(name), 0) == first_wanted(
                    renderers@,
                    opt_view(host),
                    opt_view(name),
                    i as int,
                ),
            decreases renderers@.len() - i,
        {
            if is_wanted(&renderers[i], host, name) {
                return Ok(copy_renderer(&renderers[i]));
            }
            i += 1;
        }
        let mut labels: Vec<Vec<char>> = Vec::new();
        let mut k: usize = 0;
        while k < renderers.len()
            invariant
                k <= renderers@.len(),
                views(labels@) == found_labels(renderers@).take(k as int),
            decreases renderers@.len() - k,
        {
            let r = &renderers[k];
            let mut l: Vec<char> = Vec::new();
            push_str(&mut l, r.name.as_str());
            push_str(&mut l, " (");
            push_str(&mut l, r.host().as_str());
            l.push(')');
            let ghost before = views(labels@);
            let ghost lv = l@;
            assert(lv =~= found_labels(renderers@)[k as int]);
            labels.push(l);
            assert(views(labels@) =~= before.push(lv));
            k += 1;
            assert(views(labels@) =~= found_labels(renderers@).take(k as int));
        }
        assert(found_labels(renderers@).take(renderers@.len() as int) =~= found_labels(renderers@));
        let mut e: Vec<char> = Vec::new();
        push_str(&mut e, "no renderer matched. Found: ");
        push_chars(&mut e, &join_chars(&labels, &chars_of(", ")));
        Err(string_of(&e))
    }

    /// The URL the renderer is handed, under the server's base URL.
    pub fn stream_url(base: &str) -> (res: String)
        ensures
            res@ == base@ + "/live.ts"@,
    {
        let mut out: Vec<char> = Vec::new();
        push_str(&mut out, base);
        push_str(&mut out, "/live.ts");
        string_of(&out)
    }

    /// The status-bar text, with `connections` clients on the stream.
    pub fn status_text(&self, connections: usize) -> (res: String)
        ensures
            res@ == match self.renderer {
                None => "not connected"@,
                Some(r) => r.name@ + " <- "@ + decimal(connections as nat) + " conn"@,
            },
    {
        match &self.renderer {
            None => "not connected".to_owned(),
            Some(r) => {
                let mut out: Vec<char> = Vec::new();
                push_str(&mut out, r.name.as_str());
                push_str(&mut out, " <- ");
                push_chars(&mut out, &decimal_chars(connections as u64));
                push_str(&mut out, " conn");
                string_of(&out)
            },
        }
    }
}

} // verus!
