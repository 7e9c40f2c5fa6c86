//! H.264/MPEG-TS encoding through ffmpeg: which encoder, and which command.
//!
//! Frames go in as raw RGB on stdin and come out as an endless transport
//! stream, which is what a DLNA renderer pulls over HTTP and what Miracast
//! carries over RTP. Running ffmpeg and fanning its output out is the
//! caller's part.

use vstd::prelude::*;

use crate::number::{decimal, decimal_chars};
use crate::text::{
    chars_of, has_prefix, join, lines, push_chars, push_str, same, split_lines, split_words,
    starts_with_str, string_of, string_views, views, words,
};

verus! {

/// H.264 encoders ttycast knows how to drive, best first.
///
/// Distributions that ship a patent-free ffmpeg (Fedora's `ffmpeg-free`) have
/// no libx264, but usually do have libopenh264 or a VAAPI encoder on the GPU.
pub const H264_ENCODERS: [&'static str; 5] = [
    "libx264",
    "libopenh264",
    "h264_vaapi",
    "h264_qsv",
    "h264_nvenc",
];

/// The render node a VAAPI encoder is opened on.
pub const VAAPI_DEVICE: &'static str = "/dev/dri/renderD128";

/// The text of each `&str`.
pub open spec fn str_views(v: Seq<&'static str>) -> Seq<Seq<char>> {
    v.map_values(|a: &'static str| a@)
}

/// The encoders of [`H264_ENCODERS`], as text.
pub open spec fn known_encoders() -> Seq<Seq<char>> {
    seq!["libx264"@, "libopenh264"@, "h264_vaapi"@, "h264_qsv"@, "h264_nvenc"@]
}

/// The encoder a line of `ffmpeg -encoders` names, if it is a video one.
pub open spec fn listed_encoder(line: Seq<char>) -> Option<Seq<char>> {
    if has_prefix(line, " V"@) && words(line).len() > 1 {
        Some(words(line)[1])
    } else {
        None
    }
}

/// The video encoders the lines from `k` on name, in order.
pub open spec fn listed_encoders(ls: Seq<Seq<char>>, k: int) -> Seq<Seq<char>>
    decreases ls.len() - k,
{
    if k < 0 || k >= ls.len() {
        Seq::empty()
    } else {
        match listed_encoder(ls[k]) {
            Some(e) => seq![e] + listed_encoders(ls, k + 1),
            None => listed_encoders(ls, k + 1),
        }
    }
}

/// The video encoders `ffmpeg -hide_banner -encoders` lists: the second word
/// of each line that starts with ` V`.
pub fn encoders_listed(text: &str) -> (res: Vec<String>)
    ensures
        string_views(res@) == listed_encoders(lines(text@), 0),
{
    let t = chars_of(text);
    let ls = split_lines(&t);
    let ghost lv = views(ls@);
    let mut out: Vec<String> = Vec::new();
    let mut k: usize = 0;
    proof {
        reveal_strlit(" V");
    }
    while k < ls.len()
        invariant
            k <= ls@.len(),
            lv == views(ls@),
            lv == lines(text@),
            listed_encoders(lv, 0) == string_views(out@) + listed_encoders(lv, k as int),
        decreases ls@.len() - k,
    {
        let line = &ls[k];
        assert(lv[k as int] == line@);
        let ghost before = string_views(out@);
        if starts_with_str(line, " V") {
            let ws = split_words(line);
            if ws.len() > 1 {
                assert(views(ws@)[1] == ws@[1]@);
                let e = string_of(&ws[1]);
                let ghost ev = e@;
                out.push(e);
                assert(string_views(out@) =~= before.push(ev));
                assert(string_views(out@) + listed_encoders(lv, k + 1) =~= before + (seq![ev]
                    + listed_encoders(lv, k + 1)));
            }
        }
        k += 1;
    }
    assert(string_views(out@) + listed_encoders(lv, k as int) =~= string_views(out@));
    out
}

/// The first of `names` from `k` on that `have` contains.
pub open spec fn first_present(names: Seq<Seq<char>>, have: Seq<Seq<char>>, k: int) -> Option<
    Seq<char>,
>
    decreases names.len() - k,
{
    if k < 0 || k >= names.len() {
        None
    } else if have.contains(names[k]) {
        Some(names[k])
    } else {
        first_present(names, have, k + 1)
    }
}

proof fn lemma_first_present(names: Seq<Seq<char>>, have: Seq<Seq<char>>, k: int)
    requires
        0 <= k <= names.len(),
    ensures
        first_present(names, have, k) is None <==> (forall|j: int| k <= j < names.len() ==> !have.contains(
            #[trigger] names[j],
        )),
        forall|j: int|
            k <= j < names.len() && have.contains(#[trigger] names[j]) && (forall|i: int| k <= i < j
                ==> !have.contains(names[i])) ==> first_present(names, have, k) == Some(names[j]),
    decreases names.len() - k,
{
    if k < names.len() {
        lemma_first_present(names, have, k + 1);
    }
}

/// Which encoder is used: one asked for by name only when ffmpeg has it;
/// otherwise the first of [`H264_ENCODERS`] that ffmpeg has, none when it
/// has none of them.
pub proof fn the_first_encoder_present_is_picked(preferred: Option<Seq<char>>, have: Seq<Seq<char>>)
    ensures
        preferred matches Some(name) ==> picked_encoder(preferred, have) == if have.contains(name) {
            Some(name)
        } else {
            None::<Seq<char>>
        },
        preferred is None ==> (picked_encoder(preferred, have) is None <==> (forall|j: int| 0 <= j < 5
            ==> !have.contains(#[trigger] H264_ENCODERS[j]@))),
        preferred is None ==> forall|j: int|
            0 <= j < 5 && have.contains(#[trigger] H264_ENCODERS[j]@) && (forall|i: int| 0 <= i < j
                ==> !have.contains(H264_ENCODERS[i]@)) ==> picked_encoder(preferred, have) == Some(
                H264_ENCODERS[j]@,
            ),
{
    lemma_first_present(known_encoders(), have, 0);
    assert forall|j: int| 0 <= j < 5 implies known_encoders()[j] == (#[trigger] H264_ENCODERS[j])@ by {
        reveal_strlit("libx264");
        reveal_strlit("libopenh264");
        reveal_strlit("h264_vaapi");
        reveal_strlit("h264_qsv");
        reveal_strlit("h264_nvenc");
    }
}

/// The encoder `pick_encoder` answers with.
pub open spec fn picked_encoder(preferred: Option<Seq<char>>, have: Seq<Seq<char>>) -> Option<
    Seq<char>,
> {
    match preferred {
        Some(name) => if have.contains(name) {
            Some(name)
        } else {
            None
        },
        None => first_present(known_encoders(), have, 0),
    }
}

fn has_name(have: &Vec<String>, name: &Vec<char>) -> (res: bool)
    ensures
        res == string_views(have@).contains(name@),
{
    let ghost hv = string_views(have@);
    let mut i: usize = 0;
    while i < have.len()
        invariant
            i <= have@.len(),
            hv == string_views(have@),
            forall|k: int| 0 <= k < i ==> #[trigger] hv[k] != name@,
        decreases have@.len() - i,
    {
        let h = chars_of(have[i].as_str());
        assert(hv[i as int] == h@);
        if same(&h, name) {
            return true;
        }
        i += 1;
    }
    false
}

/// The best H.264 encoder present, or `None` if there is none; `have` is
/// what [`encoders_listed`] found.
pub fn pick_encoder(preferred: Option<&str>, have: &Vec<String>) -> (res: Option<String>)
    ensures
        match res {
            Some(e) => picked_encoder(
                match preferred {
                    Some(p) => Some(p@),
                    None => None,
                },
                string_views(have@),
            ) == Some(e@),
            None => picked_encoder(
                match preferred {
                    Some(p) => Some(p@),
                    None => None,
                },
                string_views(have@),
            ) is None,
        },
{
    match preferred {
        Some(name) => {
            if has_name(have, &chars_of(name)) {
                Some(name.to_owned())
            } else {
                None
            }
        },
        None => {
            let names = H264_ENCODERS;
            assert(str_views(names@) =~= known_encoders());
            let mut i: usize = 0;
            while i < 5
                invariant
                    i <= 5,
                    preferred is None,
                    names == H264_ENCODERS,
                    str_views(names@) == known_encoders(),
                    first_present(known_encoders(), string_views(have@), 0) == first_present(
                        known_encoders(),
                        string_views(have@),
                        i as int,
                    ),
                decreases 5 - i,
            {
                let name = names[i];
                assert(known_encoders()[i as int] == name@);
                if has_name(have, &chars_of(name)) {
                    return Some(name.to_owned());
                }
                i += 1;
            }
            None
        },
    }
}

/// The advice given when no H.264 encoder is there.
pub open spec fn no_encoder_text() -> Seq<char> {
    "ffmpeg has no usable H.264 encoder (looked for "@ + join(known_encoders(), ", "@)
        + "). On Fedora, ffmpeg-free ships without libx264: install openh264/libopenh264 or use the GPU encoder h264_vaapi."@
}

pub fn no_encoder_message() -> (res: String)
    ensures
        res@ == no_encoder_text(),
{
    let names = H264_ENCODERS;
    let mut listed: Vec<char> = Vec::new();
    let mut i: usize = 0;
    assert(str_views(names@) =~= known_encoders());
    while i < 5
        invariant
            i <= 5,
            names == H264_ENCODERS,
            str_views(names@) == known_encoders(),
            listed@ == join(known_encoders().take(i as int), ", "@),
        decreases 5 - i,
    {
        let ghost before = listed@;
        if i > 0 {
            push_str(&mut listed, ", ");
        }
        push_str(&mut listed, names[i]);
        assert(known_encoders()[i as int] == names[i as int]@);
        i += 1;
        let ghost t = known_encoders().take(i as int);
        assert(t.drop_last() =~= known_encoders().take(i - 1));
        if i == 1 {
            assert(before =~= Seq::<char>::empty());
            assert(listed@ =~= t[0]);
        }
    }
    assert(known_encoders().take(5) =~= known_encoders());
    let mut out: Vec<char> = Vec::new();
    push_str(&mut out, "ffmpeg has no usable H.264 encoder (looked for ");
    push_chars(&mut out, &listed);
    push_str(
        &mut out,
        "). On Fedora, ffmpeg-free ships without libx264: install openh264/libopenh264 or use the GPU encoder h264_vaapi.",
    );
    string_of(&out)
}

// ---------------------------------------------------------------------------
// ffmpeg command lines

/// The arguments that declare the raw RGB input.
pub open spec fn input_list(width: usize, height: usize, fps: u32, encoder: Seq<char>) -> Seq<
    Seq<char>,
> {
    seq!["-hide_banner"@, "-loglevel"@, "error"@] + (if encoder == "h264_vaapi"@ {
        seq!["-vaapi_device"@, VAAPI_DEVICE@]
    } else {
        Seq::empty()
    }) + seq![
        "-f"@,
        "rawvideo"@,
        "-pix_fmt"@,
        "rgb24"@,
        "-s"@,
        decimal(width as nat) + seq!['x'] + decimal(height as nat),
        "-r"@,
        decimal(fps as nat),
        "-i"@,
        "pipe:0"@,
        "-an"@,
    ]
}

/// The keyframe interval in frames: `fps * gop_seconds`, at least one.
pub open spec fn gop_frames(fps: u32, gop_seconds: u32) -> nat {
    if fps * gop_seconds >= 1 {
        (fps * gop_seconds) as nat
    } else {
        1
    }
}

/// The H.264 arguments, tuned for a still picture that changes in bursts.
pub open spec fn video_list(
    encoder: Seq<char>,
    fps: u32,
    bitrate: Seq<char>,
    gop_seconds: u32,
    preset: Seq<char>,
) -> Seq<Seq<char>> {
    (if encoder == "h264_vaapi"@ {
        seq!["-vf"@, "format=nv12,hwupload"@]
    } else {
        seq!["-pix_fmt"@, "yuv420p"@]
    }) + seq!["-c:v"@, encoder] + (if encoder == "libx264"@ {
        seq!["-preset"@, preset, "-tune"@, "zerolatency"@, "-profile:v"@, "high"@]
    } else {
        Seq::empty()
    }) + seq![
        "-b:v"@,
        bitrate,
        "-maxrate"@,
        bitrate,
        "-bufsize"@,
        bitrate,
        "-g"@,
        decimal(gop_frames(fps, gop_seconds)),
    ]
}

fn push_arg(args: &mut Vec<String>, a: &str)
    ensures
        string_views(final(args)@) == string_views(old(args)@).push(a@),
{
    let ghost before = string_views(args@);
    args.push(a.to_owned());
    assert(string_views(args@) =~= before.push(a@));
}

fn push_arg_chars(args: &mut Vec<String>, a: &Vec<char>)
    ensures
        string_views(final(args)@) == string_views(old(args)@).push(a@),
{
    let ghost before = string_views(args@);
    args.push(string_of(a));
    assert(string_views(args@) =~= before.push(a@));
}

fn input_args(width: usize, height: usize, fps: u32, encoder: &str) -> (res: Vec<String>)
    ensures
        string_views(res@) == input_list(width, height, fps, encoder@),
{
    let mut args: Vec<String> = Vec::new();
    push_arg(&mut args, "-hide_banner");
    push_arg(&mut args, "-loglevel");
    push_arg(&mut args, "error");
    if same(&chars_of(encoder), &chars_of("h264_vaapi")) {
        // The device has to be opened before the input that will use it.
        push_arg(&mut args, "-vaapi_device");
        push_arg(&mut args, VAAPI_DEVICE);
    }
    let mut size = decimal_chars(width as u64);
    size.push('x');
    push_chars(&mut size, &decimal_chars(height as u64));
    assert(size@ =~= decimal(width as nat) + seq!['x'] + decimal(height as nat));
    push_arg(&mut args, "-f");
    push_arg(&mut args, "rawvideo");
    push_arg(&mut args, "-pix_fmt");
    push_arg(&mut args, "rgb24");
    push_arg(&mut args, "-s");
    push_arg_chars(&mut args, &size);
    push_arg(&mut args, "-r");
    push_arg_chars(&mut args, &decimal_chars(fps as u64));
    push_arg(&mut args, "-i");
    push_arg(&mut args, "pipe:0");
    push_arg(&mut args, "-an");
    assert(string_views(args@) =~= input_list(width, height, fps, encoder@));
    args
}

fn video_args(encoder: &str, fps: u32, bitrate: &str, gop_seconds: u32, preset: &str) -> (res:
    Vec<String>)
    requires
        fps * gop_seconds <= u32::MAX,
    ensures
        string_views(res@) == video_list(encoder@, fps, bitrate@, gop_seconds, preset@),
{
    let e = chars_of(encoder);
    let mut args: Vec<String> = Vec::new();
    if same(&e, &chars_of("h264_vaapi")) {
        push_arg(&mut args, "-vf");
        push_arg(&mut args, "format=nv12,hwupload");
    } else {
        push_arg(&mut args, "-pix_fmt");
        push_arg(&mut args, "yuv420p");
    }
    push_arg(&mut args, "-c:v");
    push_arg(&mut args, encoder);
    if same(&e, &chars_of("libx264")) {
        // Only libx264 takes these; another encoder errors out on them.
        push_arg(&mut args, "-preset");
        push_arg(&mut args, preset);
        push_arg(&mut args, "-tune");
        push_arg(&mut args, "zerolatency");
        push_arg(&mut args, "-profile:v");
        push_arg(&mut args, "high");
    }
    let product = fps * gop_seconds;
    let gop = if product >= 1 {
        product
    } else {
        1
    };
    push_arg(&mut args, "-b:v");
    push_arg(&mut args, bitrate);
    push_arg(&mut args, "-maxrate");
    push_arg(&mut args, bitrate);
    push_arg(&mut args, "-bufsize");
    push_arg(&mut args, bitrate);
    push_arg(&mut args, "-g");
    push_arg_chars(&mut args, &decimal_chars(gop as u64));
    assert(string_views(args@) =~= video_list(encoder@, fps, bitrate@, gop_seconds, preset@));
    args
}

/// The whole `ffmpeg` command line for the transport stream.
pub open spec fn ts_list(width: usize, height: usize, fps: u32, bitrate: Seq<char>, encoder: Seq<
    char,
>) -> Seq<Seq<char>> {
    input_list(width, height, fps, encoder) + video_list(encoder, fps, bitrate, 2, "veryfast"@)
        + seq!["-f"@, "mpegts"@, "-muxdelay"@, "0"@, "-muxpreload"@, "0"@, "pipe:1"@]
}

/// Raw RGB on stdin to MPEG-TS on stdout - what a DLNA renderer pulls.
pub fn ts_command(width: usize, height: usize, fps: u32, bitrate: &str, encoder: &str) -> (res:
    Vec<String>)
    requires
        fps * 2 <= u32::MAX,
    ensures
        string_views(res@) == ts_list(width, height, fps, bitrate@, encoder@),
{
    let mut args = input_args(width, height, fps, encoder);
    let mut video = video_args(encoder, fps, bitrate, 2, "veryfast");
    let ghost a = args@;
    let ghost v = video@;
    args.append(&mut video);
    assert(string_views(args@) =~= string_views(a) + string_views(v));
    push_arg(&mut args, "-f");
    push_arg(&mut args, "mpegts");
    push_arg(&mut args, "-muxdelay");
    push_arg(&mut args, "0");
    push_arg(&mut args, "-muxpreload");
    push_arg(&mut args, "0");
    push_arg(&mut args, "pipe:1");
    assert(string_views(args@) =~= ts_list(width, height, fps, bitrate@, encoder@));
    args
}

/// The address ffmpeg sends RTP to; 1316 keeps a packet under the wifi MTU.
pub open spec fn rtp_url(host: Seq<char>, port: u16) -> Seq<char> {
    "rtp://"@ + host + seq![':'] + decimal(port as nat) + "?pkt_size=1316"@
}

/// The whole `ffmpeg` command line for RTP.
pub open spec fn rtp_list(
    width: usize,
    height: usize,
    fps: u32,
    host: Seq<char>,
    port: u16,
    bitrate: Seq<char>,
    encoder: Seq<char>,
) -> Seq<Seq<char>> {
    input_list(width, height, fps, encoder) + video_list(encoder, fps, bitrate, 1, "ultrafast"@)
        + seq!["-f"@, "rtp_mpegts"@, rtp_url(host, port)]
}

/// Raw RGB on stdin to RTP/MPEG-TS on the wire - what Miracast carries.
pub fn rtp_command(
    width: usize,
    height: usize,
    fps: u32,
    host: &str,
    port: u16,
    bitrate: &str,
    encoder: &str,
) -> (res: Vec<String>)
    ensures
        string_views(res@) == rtp_list(width, height, fps, host@, port, bitrate@, encoder@),
{
    let mut args = input_args(width, height, fps, encoder);
    let mut video = video_args(encoder, fps, bitrate, 1, "ultrafast");
    let ghost a = args@;
    let ghost v = video@;
    args.append(&mut video);
    assert(string_views(args@) =~= string_views(a) + string_views(v));
    push_arg(&mut args, "-f");
    push_arg(&mut args, "rtp_mpegts");
    let mut url: Vec<char> = Vec::new();
    push_str(&mut url, "rtp://");
    push_str(&mut url, host);
    url.push(':');
    push_chars(&mut url, &decimal_chars(port as u64));
    push_str(&mut url, "?pkt_size=1316");
    assert(url@ =~= rtp_url(host@, port));
    push_arg_chars(&mut args, &url);
    assert(string_views(args@) =~= rtp_list(width, height, fps, host@, port, bitrate@, encoder@));
    args
}

} // verus!
