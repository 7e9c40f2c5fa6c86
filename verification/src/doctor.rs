//! `ttycast doctor` - tell the user what will and will not work here.
//!
//! Every check answers one question a user would otherwise have to answer by
//! reading source or by watching something fail halfway through. The caller
//! looks at the machine and fills in a [`Probe`]; this module turns the
//! findings into checks and the checks into a report.

use vstd::prelude::*;

use crate::display::{method_description, Method};
use crate::encoder::{known_encoders, H264_ENCODERS};
use crate::number::{decimal, decimal_chars};
use crate::text::{
    byte_len, chars_of, join, join_chars, push_chars, push_str, same, string_of, string_views,
    views,
};

verus! {

pub struct Check {
    pub name: String,
    pub ok: bool,
    pub detail: String,
    /// A failed check that is not fatal for every backend.
    pub optional: bool,
}

/// A check as text and flags.
pub open spec fn check_view(c: Check) -> (Seq<char>, bool, Seq<char>, bool) {
    (c.name@, c.ok, c.detail@, c.optional)
}

/// The checks of a list, as text and flags.
pub open spec fn check_views(cs: Seq<Check>) -> Seq<(Seq<char>, bool, Seq<char>, bool)> {
    cs.map_values(|c: Check| check_view(c))
}

impl Check {
    pub fn new(name: &str, ok: bool, detail: String, optional: bool) -> (res: Self)
        ensures
            check_view(res) == (name@, ok, detail@, optional),
    {
        Check { name: name.to_owned(), ok, detail, optional }
    }
}

// ---------------------------------------------------------------------------
// The report

/// The severity mark of a check.
pub open spec fn mark(c: (Seq<char>, bool, Seq<char>, bool)) -> Seq<char> {
    if c.1 {
        "ok  "@
    } else if c.3 {
        "warn"@
    } else {
        "FAIL"@
    }
}

/// The widest name, in UTF-8 bytes as `str::len` counts them.
pub open spec fn name_width(cs: Seq<(Seq<char>, bool, Seq<char>, bool)>) -> nat
    decreases cs.len(),
{
    if cs.len() == 0 {
        0
    } else {
        let rest = name_width(cs.drop_last());
        let last = byte_len(cs.last().0);
        if rest >= last {
            rest
        } else {
            last
        }
    }
}

/// `s` padded with spaces to `w` characters (`{:w$}`).
pub open spec fn padded(s: Seq<char>, w: nat) -> Seq<char> {
    if s.len() < w {
        s + Seq::new((w - s.len()) as nat, |i: int| ' ')
    } else {
        s
    }
}

/// The report line for one check.
pub open spec fn check_line(c: (Seq<char>, bool, Seq<char>, bool), w: nat) -> Seq<char> {
    seq!['['] + mark(c) + "] "@ + padded(c.0, w) + "  "@ + c.2
}

/// The report: one line per check, names padded to the widest.
pub open spec fn report(cs: Seq<(Seq<char>, bool, Seq<char>, bool)>) -> Seq<char> {
    join(cs.map_values(|c: (Seq<char>, bool, Seq<char>, bool)| check_line(c, name_width(cs))), "\n"@)
}

fn padded_chars(s: &Vec<char>, w: usize) -> (res: Vec<char>)
    ensures
        res@ == padded(s@, w as nat),
{
    let mut out: Vec<char> = Vec::new();
    push_chars(&mut out, s);
    if s.len() >= w {
        return out;
    }
    let mut n = s.len();
    assert(out@ =~= s@ + Seq::new((n - s@.len()) as nat, |i: int| ' '));
    while n < w
        invariant
            s@.len() <= n <= w,
            out@ == s@ + Seq::new((n - s@.len()) as nat, |i: int| ' '),
        decreases w - n,
    {
        out.push(' ');
        n += 1;
        assert(out@ =~= s@ + Seq::new((n - s@.len()) as nat, |i: int| ' '));
    }
    out
}

pub fn format(checks: &[Check]) -> (res: String)
    ensures
        res@ == report(check_views(checks@)),
{
    let ghost cv = check_views(checks@);
    let mut width: usize = 0;
    let mut i: usize = 0;
    while i < checks.len()
        invariant
            i <= checks@.len(),
            cv == check_views(checks@),
            width == name_width(cv.take(i as int)),
        decreases checks@.len() - i,
    {
        let len = checks[i].name.as_str().len();
        assert(cv.take(i + 1).drop_last() =~= cv.take(i as int));
        assert(cv[i as int].0 == checks@[i as int].name@);
        if len > width {
            width = len;
        }
        i += 1;
    }
    assert(cv.take(checks@.len() as int) =~= cv);
    let ghost lines = cv.map_values(
        |c: (Seq<char>, bool, Seq<char>, bool)| check_line(c, name_width(cv)),
    );
    let mut pieces: Vec<Vec<char>> = Vec::new();
    let mut k: usize = 0;
    while k < checks.len()
        invariant
            k <= checks@.len(),
            cv == check_views(checks@),
            width == name_width(cv),
            lines == cv.map_values(
                |c: (Seq<char>, bool, Seq<char>, bool)| check_line(c, name_width(cv)),
            ),
            views(pieces@) == lines.take(k as int),
        decreases checks@.len() - k,
    {
        let c = &checks[k];
        assert(cv[k as int] == check_view(*c));
        let mut line: Vec<char> = Vec::new();
        line.push('[');
        if c.ok {
            push_str(&mut line, "ok  ");
        } else if c.optional {
            push_str(&mut line, "warn");
        } else {
            push_str(&mut line, "FAIL");
        }
        push_str(&mut line, "] ");
        push_chars(&mut line, &padded_chars(&chars_of(c.name.as_str()), width));
        push_str(&mut line, "  ");
        push_str(&mut line, c.detail.as_str());
        assert(line@ =~= lines[k as int]);
        let ghost before = views(pieces@);
        let ghost lv = line@;
        pieces.push(line);
        assert(views(pieces@) =~= before.push(lv));
        k += 1;
        assert(views(pieces@) =~= lines.take(k as int));
    }
    assert(lines.take(checks@.len() as int) =~= lines);
    string_of(&join_chars(&pieces, &chars_of("\n")))
}

/// A name never takes more characters than bytes.
pub proof fn lemma_chars_within_bytes(s: Seq<char>)
    ensures
        s.len() <= vstd::utf8::encode_utf8(s).len(),
    decreases s.len(),
{
    if s.len() > 0 {
        lemma_chars_within_bytes(s.drop_first());
        assert(vstd::utf8::encode_scalar(s[0] as u32).len() >= 1);
    }
}

proof fn lemma_width_covers(cs: Seq<(Seq<char>, bool, Seq<char>, bool)>, i: int)
    requires
        0 <= i < cs.len(),
    ensures
        byte_len(cs[i].0) <= name_width(cs),
    decreases cs.len(),
{
    if i < cs.len() - 1 {
        lemma_width_covers(cs.drop_last(), i);
    }
}

/// The names are padded to one common width, so the details line up: every
/// padded name is exactly as wide as the report's name column.
pub proof fn names_line_up(cs: Seq<(Seq<char>, bool, Seq<char>, bool)>)
    requires
        forall|i: int|
            0 <= i < cs.len() ==> vstd::utf8::encode_utf8(#[trigger] cs[i].0).len() <= usize::MAX,
    ensures
        forall|i: int|
            0 <= i < cs.len() ==> (#[trigger] padded(cs[i].0, name_width(cs))).len() == name_width(
                cs,
            ),
{
    assert forall|i: int| 0 <= i < cs.len() implies (#[trigger] padded(
        cs[i].0,
        name_width(cs),
    )).len() == name_width(cs) by {
        lemma_width_covers(cs, i);
        lemma_chars_within_bytes(cs[i].0);
    }
}

// ---------------------------------------------------------------------------
// The checks

/// What was found on this machine, one field per question.
pub struct Probe {
    /// Where `tmux` is, if it is on `PATH`.
    pub tmux: Option<String>,
    /// Whether this runs inside tmux.
    pub inside_tmux: bool,
    /// The file fontconfig gives for `monospace`.
    pub font: Option<String>,
    /// Where `ffmpeg` is, if it is on `PATH`.
    pub ffmpeg: Option<String>,
    /// The H.264 encoder that would be used.
    pub encoder: Option<String>,
    /// The LAN address.
    pub ip: String,
    /// The HTTP port, and whether it can be bound.
    pub port: u16,
    pub port_free: bool,
    /// The screen-off method `auto` would use.
    pub screen: Option<Method>,
    /// Whether Wi-Fi Direct is usable, and the lines that explain it.
    pub wifi_usable: bool,
    pub wifi_lines: Vec<String>,
    /// `(name, host)` of each renderer found, when discovery was asked for.
    pub renderers: Option<Vec<(String, String)>>,
}

/// The text of an optional string, or `absent` when there is none.
pub open spec fn or_text(o: Option<String>, absent: Seq<char>) -> Seq<char> {
    match o {
        Some(s) => s@,
        None => absent,
    }
}

/// `name (host)` for each renderer.
pub open spec fn renderer_labels(rs: Seq<(String, String)>) -> Seq<Seq<char>> {
    rs.map_values(|r: (String, String)| r.0@ + " ("@ + r.1@ + seq![')'])
}

/// The checks the doctor reports for what was found.
pub open spec fn doctor_checks(p: Probe) -> Seq<(Seq<char>, bool, Seq<char>, bool)> {
    seq![
        ("tmux"@, p.tmux is Some, or_text(p.tmux, "not found - ttycast captures tmux panes"@), false),
        (
            "inside tmux"@,
            p.inside_tmux,
            if p.inside_tmux {
                "yes"@
            } else {
                "no - ttycast will open its own session"@
            },
            true,
        ),
        ("monospace font"@, p.font is Some, or_text(p.font, "fc-match found nothing"@), false),
        ("ffmpeg"@, p.ffmpeg is Some, or_text(p.ffmpeg, "not found"@), true),
        (
            "h264 encoder"@,
            p.encoder is Some,
            or_text(
                p.encoder,
                "none of "@ + join(known_encoders(), ", "@) + " - dlna and miracast need one"@,
            ),
            true,
        ),
        ("LAN address"@, p.ip@ != "127.0.0.1"@, p.ip@, false),
        (
            "port "@ + decimal(p.port as nat),
            p.port_free,
            if p.port_free {
                "free"@
            } else {
                "already in use"@
            },
            false,
        ),
        (
            "screen off (--screen-off)"@,
            p.screen is Some,
            match p.screen {
                Some(m) => method_description(m),
                None => "no usable method found on this session"@,
            },
            true,
        ),
        ("wifi direct (miracast)"@, p.wifi_usable, join(string_views(p.wifi_lines@), "; "@), true),
    ] + match p.renderers {
        None => Seq::empty(),
        Some(rs) => seq![
            (
                "dlna renderers"@,
                rs@.len() > 0,
                if rs@.len() == 0 {
                    "none found - switch the TV on and enable content/screen sharing"@
                } else {
                    join(renderer_labels(rs@), ", "@)
                },
                true,
            ),
        ],
    }
}

fn text_or(o: &Option<String>, absent: &str) -> (res: String)
    ensures
        res@ == or_text(*o, absent@),
{
    match o {
        Some(s) => s.clone(),
        None => absent.to_owned(),
    }
}

fn strings_joined(v: &Vec<String>, sep: &str) -> (res: String)
    ensures
        res@ == join(string_views(v@), sep@),
{
    let mut pieces: Vec<Vec<char>> = Vec::new();
    let mut i: usize = 0;
    while i < v.len()
        invariant
            i <= v@.len(),
            views(pieces@) == string_views(v@).take(i as int),
        decreases v@.len() - i,
    {
        let ghost before = views(pieces@);
        pieces.push(chars_of(v[i].as_str()));
        assert(views(pieces@) =~= before.push(v@[i as int]@));
        i += 1;
        assert(views(pieces@) =~= string_views(v@).take(i as int));
    }
    assert(string_views(v@).take(v@.len() as int) =~= string_views(v@));
    string_of(&join_chars(&pieces, &chars_of(sep)))
}

fn push_check(checks: &mut Vec<Check>, c: Check)
    ensures
        check_views(final(checks)@) == check_views(old(checks)@).push(check_view(c)),
{
    let ghost before = check_views(checks@);
    let ghost v = check_view(c);
    checks.push(c);
    assert(check_views(checks@) =~= before.push(v));
}

fn encoder_detail(encoder: &Option<String>) -> (res: String)
    ensures
        res@ == or_text(
            *encoder,
            "none of "@ + join(known_encoders(), ", "@) + " - dlna and miracast need one"@,
        ),
{
    match encoder {
        Some(e) => e.clone(),
        None => {
            let names = H264_ENCODERS;
            let mut v: Vec<String> = Vec::new();
            let mut i: usize = 0;
            while i < 5
                invariant
                    i <= 5,
                    names == H264_ENCODERS,
                    string_views(v@) == known_encoders().take(i as int),
                decreases 5 - i,
            {
                let ghost before = string_views(v@);
                v.push(names[i].to_owned());
                assert(string_views(v@) =~= before.push(names[i as int]@));
                i += 1;
                assert(string_views(v@) =~= known_encoders().take(i as int));
            }
            assert(known_encoders().take(5) =~= known_encoders());
            let mut text: Vec<char> = Vec::new();
            push_str(&mut text, "none of ");
            push_str(&mut text, strings_joined(&v, ", ").as_str());
            push_str(&mut text, " - dlna and miracast need one");
            string_of(&text)
        },
    }
}

fn renderers_check(rs: &Vec<(String, String)>) -> (res: Check)
    ensures
        check_view(res) == (
            "dlna renderers"@,
            rs@.len() > 0,
            if rs@.len() == 0 {
                "none found - switch the TV on and enable content/screen sharing"@
            } else {
                join(renderer_labels(rs@), ", "@)
            },
            true,
        ),
{
    let detail = if rs.len() == 0 {
        "none found - switch the TV on and enable content/screen sharing".to_owned()
    } else {
        let mut labels: Vec<String> = Vec::new();
        let mut i: usize = 0;
        while i < rs.len()
            invariant
                i <= rs@.len(),
                string_views(labels@) == renderer_labels(rs@).take(i as int),
            decreases rs@.len() - i,
        {
            let mut l: Vec<char> = Vec::new();
            push_str(&mut l, rs[i].0.as_str());
            push_str(&mut l, " (");
            push_str(&mut l, rs[i].1.as_str());
            l.push(')');
            let ghost before = string_views(labels@);
            let l = string_of(&l);
            let ghost lv = l@;
            assert(lv =~= rs@[i as int].0@ + " ("@ + rs@[i as int].1@ + seq![')']);
            labels.push(l);
            assert(string_views(labels@) =~= before.push(lv));
            i += 1;
            assert(string_views(labels@) =~= renderer_labels(rs@).take(i as int));
        }
        assert(renderer_labels(rs@).take(rs@.len() as int) =~= renderer_labels(rs@));
        strings_joined(&labels, ", ")
    };
    Check::new("dlna renderers", rs.len() > 0, detail, true)
}

fn port_check(port: u16, free: bool) -> (res: Check)
    ensures
        check_view(res) == (
            "port "@ + decimal(port as nat),
            free,
            if free {
                "free"@
            } else {
                "already in use"@
            },
            false,
        ),
{
    let mut port_name: Vec<char> = Vec::new();
    push_str(&mut port_name, "port ");
    push_chars(&mut port_name, &decimal_chars(port as u64));
    let port_name = string_of(&port_name);
    let detail = if free {
        "free".to_owned()
    } else {
        "already in use".to_owned()
    };
    Check::new(port_name.as_str(), free, detail, false)
}

/// The checks for what was found on this machine.
#[verifier::rlimit(50)]
pub fn run(probe: &Probe) -> (res: Vec<Check>)
    ensures
        check_views(res@) == doctor_checks(*probe),
{
    let mut checks: Vec<Check> = Vec::new();
    let ghost want = doctor_checks(*probe);
    push_check(
        &mut checks,
        Check::new(
            "tmux",
            probe.tmux.is_some(),
            text_or(&probe.tmux, "not found - ttycast captures tmux panes"),
            false,
        ),
    );
    let inside = if probe.inside_tmux {
        "yes".to_owned()
    } else {
        "no - ttycast will open its own session".to_owned()
    };
    push_check(&mut checks, Check::new("inside tmux", probe.inside_tmux, inside, true));
    push_check(
        &mut checks,
        Check::new(
            "monospace font",
            probe.font.is_some(),
            text_or(&probe.font, "fc-match found nothing"),
            false,
        ),
    );
    push_check(
        &mut checks,
        Check::new("ffmpeg", probe.ffmpeg.is_some(), text_or(&probe.ffmpeg, "not found"), true),
    );
    push_check(
        &mut checks,
        Check::new("h264 encoder", probe.encoder.is_some(), encoder_detail(&probe.encoder), true),
    );
    let lan = !same(&chars_of(probe.ip.as_str()), &chars_of("127.0.0.1"));
    push_check(&mut checks, Check::new("LAN address", lan, probe.ip.clone(), false));
    push_check(&mut checks, port_check(probe.port, probe.port_free));
    let screen = match probe.screen {
        Some(m) => m.describes().to_owned(),
        None => "no usable method found on this session".to_owned(),
    };
    push_check(
        &mut checks,
        Check::new("screen off (--screen-off)", probe.screen.is_some(), screen, true),
    );
    push_check(
        &mut checks,
        Check::new(
            "wifi direct (miracast)",
            probe.wifi_usable,
            strings_joined(&probe.wifi_lines, "; "),
            true,
        ),
    );
    assert(check_views(checks@) =~= want.take(9));
    match &probe.renderers {
        None => {},
        Some(rs) => {
            push_check(&mut checks, renderers_check(rs));
        },
    }
    assert(check_views(checks@) =~= want);
    checks
}

} // verus!
