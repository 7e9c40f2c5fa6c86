//! Write frames to disk instead of a TV - for developing and for screenshots.
//!
//! Each changed frame is written beside the target and renamed, so a viewer
//! never sees half a file; the file system work is the caller's part.

use vstd::prelude::*;

use crate::number::{decimal, decimal_chars};
use crate::render::Frame;
use crate::text::{push_chars, push_str, string_of};

verus! {

/// What the `png` crate makes of an 8-bit RGB image of that size and data:
/// the PNG file, or the text of the error it reports.
pub uninterp spec fn png_result(width: u32, height: u32, data: Seq<u8>) -> Result<
    Seq<u8>,
    Seq<char>,
>;

/// `png::Encoder` for an 8-bit RGB image: `new`, `set_color`, `set_depth`,
/// `write_header`, `write_image_data`. The contract claims that the outcome
/// (the file or the error's text) is a function of the size and the data
/// alone, named by [`png_result`]; which inputs it refuses is not restated.
/// `write_image_data` multiplies the row length by the height unchecked, so
/// that product must fit in a `usize`.
#[verifier::external_body]
fn png_encode(width: u32, height: u32, data: &[u8]) -> (res: Result<Vec<u8>, String>)
    requires
        (width as int) * 3 * (height as int) <= usize::MAX,
    ensures
        match res {
            Ok(b) => png_result(width, height, data@) == Ok::<Seq<u8>, Seq<char>>(b@),
            Err(e) => png_result(width, height, data@) == Err::<Seq<u8>, Seq<char>>(e@),
        },
{
    let mut out = Vec::new();
    {
        let mut encoder = png::Encoder::new(&mut out, width, height);
        encoder.set_color(png::ColorType::Rgb);
        encoder.set_depth(png::BitDepth::Eight);
        let mut writer = encoder.write_header().map_err(|e| e.to_string())?;
        writer.write_image_data(data).map_err(|e| e.to_string())?;
    }
    Ok(out)
}

/// Encode one frame as a PNG; the sides are handed to the encoder as `u32`,
/// cut to their low 32 bits as `as u32` does.
pub fn encode_png(frame: &Frame) -> (res: Result<Vec<u8>, String>)
    requires
        ((frame.width as u32) as int) * 3 * ((frame.height as u32) as int) <= usize::MAX,
    ensures
        match res {
            Ok(b) => png_result(frame.width as u32, frame.height as u32, frame.data@) == Ok::<
                Seq<u8>,
                Seq<char>,
            >(b@),
            Err(e) => png_result(frame.width as u32, frame.height as u32, frame.data@) == Err::<
                Seq<u8>,
                Seq<char>,
            >(e@),
        },
{
    png_encode(frame.width as u32, frame.height as u32, frame.data.as_slice())
}

pub struct PreviewBackend {
    /// Where frames are written.
    pub path: String,
    /// How many frames were written so far.
    pub written: u64,
}

impl Default for PreviewBackend {
    fn default() -> (res: Self)
        ensures
            res.path@.len() == 0,
            res.written == 0,
    {
        PreviewBackend { path: String::new(), written: 0 }
    }
}

impl PreviewBackend {
    /// Start writing to `path`.
    pub fn start(&mut self, path: &str)
        ensures
            final(self).path@ == path@,
            final(self).written == old(self).written,
    {
        self.path = path.to_owned();
    }

    /// The file a frame is written to before it is renamed into place.
    pub fn temporary_path(&self) -> (res: String)
        ensures
            res@ == self.path@ + ".tmp"@,
    {
        let mut out: Vec<char> = Vec::new();
        push_str(&mut out, self.path.as_str());
        push_str(&mut out, ".tmp");
        string_of(&out)
    }

    /// Count one more frame written.
    pub fn wrote(&mut self)
        requires
            old(self).written < u64::MAX,
        ensures
            final(self).written == old(self).written + 1,
            final(self).path == old(self).path,
    {
        self.written = self.written + 1;
    }

    /// The status-bar text.
    pub fn status_text(&self) -> (res: String)
        ensures
            res@ == self.path@ + " ("@ + decimal(self.written as nat) + " frames)"@,
    {
        let mut out: Vec<char> = Vec::new();
        push_str(&mut out, self.path.as_str());
        push_str(&mut out, " (");
        push_chars(&mut out, &decimal_chars(self.written));
        push_str(&mut out, " frames)");
        string_of(&out)
    }
}

} // verus!
