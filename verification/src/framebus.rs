//! Fan-out point between the capture loop and whoever is watching.
//!
//! The bus holds the latest frame, a sequence number that moves on every
//! change, and the frame's JPEG once somebody asked for it. Locking and
//! waking consumers is the caller's part: every operation here is a plain
//! step on the state.

use std::sync::Arc;

use vstd::prelude::*;

use crate::render::Frame;

verus! {

/// A frame's size and pixels.
pub open spec fn frame_view(f: Frame) -> (usize, usize, Seq<u8>) {
    (f.width, f.height, f.data@)
}

/// Whether a frame of that size and pixels can be encoded: a size libjpeg
/// accepts and exactly one RGB triple per pixel.
pub open spec fn encodable(v: (usize, usize, Seq<u8>)) -> bool {
    &&& 0 < v.0 <= 65500
    &&& 0 < v.1 <= 65500
    &&& v.2.len() == v.0 * v.1 * 3
}

/// Whether a frame can be encoded.
pub open spec fn frame_ok(f: Frame) -> bool {
    encodable(frame_view(f))
}

/// The JPEG mozjpeg writes for an RGB frame of that size at that quality,
/// with the settings `encode_jpeg` uses.
pub uninterp spec fn jpeg_of(width: usize, height: usize, data: Seq<u8>, quality: u8) -> Seq<u8>;

/// libjpeg-turbo through mozjpeg: fast where it does not show, exact where it
/// does.
///
/// Two settings decide this, and both were measured rather than assumed.
/// mozjpeg optimises for file size by default - trellis quantisation and
/// optimised Huffman tables - which costs 90 ms per 720p frame for bytes
/// nobody is counting on a LAN; turning that off is free quality-wise.
///
/// Chroma subsampling is the opposite trade. 4:2:0 halves colour resolution in
/// both axes, and a terminal is thin coloured glyphs on a dark background -
/// exactly the content it wrecks. Full 4:4:4 chroma costs 15.6 ms instead of
/// 8.7 ms per 1080p frame, which at 15 fps is affordable, and it is the
/// difference between crisp text and coloured fringes.
///
/// Calls `mozjpeg::Compress` (new, the settings above, `start_compress`,
/// `write_scanlines`, `finish`). The contract claims that what comes back is
/// a function of the frame and the quality alone, named by [`jpeg_of`], and
/// that encoding succeeds: with these settings `start_compress` passes its
/// sampling checks, `write_scanlines` gets a non-zero width and exactly the
/// rows the image has, and `finish` always returns `Ok`. libjpeg reports
/// errors by unwinding, so the frame must have a size it accepts and exactly
/// the pixels that size needs.
#[verifier::external_body]
fn encode_jpeg(frame: &Frame, quality: u8) -> (res: Option<Vec<u8>>)
    requires
        frame_ok(*frame),
    ensures
        res is Some,
        res matches Some(j) ==> j@ == jpeg_of(frame.width, frame.height, frame.data@, quality),
{
    let mut compress = mozjpeg::Compress::new(mozjpeg::ColorSpace::JCS_RGB);
    compress.set_fastest_defaults();
    compress.set_optimize_coding(false);
    compress.set_optimize_scans(false);
    compress.set_chroma_sampling_pixel_sizes((1, 1), (1, 1));
    compress.set_size(frame.width, frame.height);
    compress.set_quality(quality.into());
    let mut started = compress.start_compress(Vec::new()).ok()?;
    started.write_scanlines(&frame.data).ok()?;
    started.finish().ok()
}

/// `Arc::clone`: another handle on the same value.
#[verifier::external_body]
fn share<T>(a: &Arc<T>) -> (res: Arc<T>)
    ensures
        res == *a,
{
    Arc::clone(a)
}

/// Holds the latest frame and its JPEG, and counts changes.
///
/// The JPEG is encoded lazily and cached, so a frame nobody asks for is never
/// compressed and ten clients share one encode.
pub struct FrameBus {
    frame: Option<Arc<Frame>>,
    jpeg: Option<Arc<Vec<u8>>>,
    seq: u64,
    quality: u8,
}

/// The bus as values: the frame, the cached JPEG, the sequence number and
/// the JPEG quality.
pub struct BusView {
    pub frame: Option<(usize, usize, Seq<u8>)>,
    pub jpeg: Option<Seq<u8>>,
    pub seq: u64,
    pub quality: u8,
}

impl View for FrameBus {
    type V = BusView;

    closed spec fn view(&self) -> BusView {
        BusView {
            frame: match self.frame {
                Some(f) => Some(frame_view(*f)),
                None => None,
            },
            jpeg: match self.jpeg {
                Some(j) => Some((*j)@),
                None => None,
            },
            seq: self.seq,
            quality: self.quality,
        }
    }
}

/// The bus's invariant, as values: a cached JPEG is the encoding of the
/// frame held, which can be encoded.
pub open spec fn bus_ok(b: BusView) -> bool {
    b.jpeg matches Some(j) ==> (b.frame matches Some(f) && encodable(f) && j == jpeg_of(
        f.0,
        f.1,
        f.2,
        b.quality,
    ))
}

impl FrameBus {
    /// A cached JPEG is always the encoding of the frame held.
    #[verifier::type_invariant]
    spec fn well_formed(self) -> bool {
        bus_ok(self@)
    }

    pub fn new(quality: u8) -> (res: Self)
        ensures
            res@.frame is None,
            res@.jpeg is None,
            res@.seq == 0,
            res@.quality == quality,
            bus_ok(res@),
    {
        FrameBus { frame: None, jpeg: None, seq: 0, quality }
    }

    pub fn seq(&self) -> (res: u64)
        ensures
            res == self@.seq,
    {
        self.seq
    }

    /// Make `frame` the latest; any cached JPEG is dropped.
    pub fn publish(&mut self, frame: Frame)
        requires
            old(self)@.seq < u64::MAX,
        ensures
            final(self)@.frame == Some(frame_view(frame)),
            final(self)@.jpeg is None,
            final(self)@.seq == old(self)@.seq + 1,
            final(self)@.quality == old(self)@.quality,
    {
        self.jpeg = None;
        self.frame = Some(Arc::new(frame));
        self.seq = self.seq + 1;
    }

    /// Move the sequence on without a frame, so consumers notice shutdown.
    pub fn close(&mut self)
        requires
            old(self)@.seq < u64::MAX,
        ensures
            final(self)@.frame == old(self)@.frame,
            final(self)@.jpeg == old(self)@.jpeg,
            final(self)@.seq == old(self)@.seq + 1,
            final(self)@.quality == old(self)@.quality,
    {
        proof {
            use_type_invariant(&*self);
        }
        self.seq = self.seq + 1;
    }

    pub fn latest(&self) -> (res: Option<Arc<Frame>>)
        ensures
            match res {
                Some(f) => self@.frame == Some(frame_view(*f)),
                None => self@.frame is None,
            },
    {
        match &self.frame {
            Some(f) => Some(share(f)),
            None => None,
        }
    }

    /// The JPEG of the latest frame, encoded on the first request for it and
    /// handed out from the cache after that; `None` when there is no frame or
    /// the frame cannot be encoded (a side outside 1..=65500, or not exactly
    /// one RGB triple per pixel).
    pub fn latest_jpeg(&mut self) -> (res: Option<Arc<Vec<u8>>>)
        ensures
            final(self)@.frame == old(self)@.frame,
            final(self)@.seq == old(self)@.seq,
            final(self)@.quality == old(self)@.quality,
            old(self)@.jpeg is Some ==> final(self)@.jpeg == old(self)@.jpeg,
            match res {
                Some(j) => final(self)@.jpeg == Some((*j)@),
                None => final(self)@.jpeg is None,
            },
            res is Some <==> (old(self)@.frame matches Some(f) && encodable(f)),
            res matches Some(j) ==> (old(self)@.frame matches Some(f) && (*j)@ == jpeg_of(
                f.0,
                f.1,
                f.2,
                old(self)@.quality,
            )),
    {
        proof {
            use_type_invariant(&*self);
        }
        match &self.jpeg {
            Some(j) => return Some(share(j)),
            None => {},
        }
        let frame = match &self.frame {
            Some(f) => share(f),
            None => return None,
        };
        let fits = 0 < frame.width && frame.width <= 65500 && 0 < frame.height && frame.height
            <= 65500;
        if !fits {
            return None;
        }
        let w = frame.width as u64;
        let h = frame.height as u64;
        assert(w * h <= 65500 * 65500) by (nonlinear_arith)
            requires
                w <= 65500,
                h <= 65500,
        ;
        let pixels = w * h * 3;
        if pixels != frame.data.len() as u64 {
            return None;
        }
        match encode_jpeg(&frame, self.quality) {
            Some(bytes) => {
                let j = Arc::new(bytes);
                self.jpeg = Some(share(&j));
                Some(j)
            },
            None => None,
        }
    }

    /// The sequence number if it has moved past `last`; `None` means the
    /// caller should wait for a change.
    pub fn wait(&self, last: u64) -> (res: Option<u64>)
        ensures
            res == if self@.seq != last {
                Some(self@.seq)
            } else {
                None::<u64>
            },
    {
        if self.seq != last {
            Some(self.seq)
        } else {
            None
        }
    }
}

} // verus!
