//! Frames, the looping sequencer, and the encoder session.
//!
//! The sequencer assembles the displayed order: the first endpoint held for
//! `pause_len` repeated frames, the forward morph, the second endpoint held
//! likewise, then the morph frames again in reverse, which closes the loop.
//! The encoder session records frames strictly in submission order; closing
//! it hands the ordered sequence to the container writer.

use vstd::prelude::*;

use crate::raster::Image;
use crate::MorphError;

verus! {

/// One animation frame: an RGBA image and its display delay.
pub struct Frame {
    pub image: Image,
    pub delay_ms: u32,
}

/// Two images with the same dimensions and the same bytes.
pub open spec fn same_image(a: Image, b: Image) -> bool {
    &&& a.width == b.width
    &&& a.height == b.height
    &&& a.data@ == b.data@
}

/// Assembles the final looping frame order.
///
/// Every frame carries the same `frame_duration` delay; the pauses are
/// realized as repeated copies of the endpoint frames, which is what a
/// streaming container writer can consume.
pub fn sequence_frames(
    first: &Image,
    morphs: Vec<Image>,
    last: &Image,
    pause_len: usize,
    frame_duration: u32,
) -> (r: Vec<Frame>)
    requires
        pause_len <= 0x100000,
        morphs@.len() <= 0x100000,
    ensures
        r@.len() == 2 * pause_len + 2 * morphs@.len(),
        forall|i: int|
            0 <= i < pause_len ==> same_image((#[trigger] r@[i]).image, *first) && r@[i].delay_ms
                == frame_duration,
        forall|k: int|
            0 <= k < morphs@.len() ==> same_image(
                (#[trigger] r@[pause_len + k]).image,
                morphs@[k],
            ) && r@[pause_len + k].delay_ms == frame_duration,
        forall|i: int|
            0 <= i < pause_len ==> same_image(
                (#[trigger] r@[pause_len + morphs@.len() + i]).image,
                *last,
            ) && r@[pause_len + morphs@.len() + i].delay_ms == frame_duration,
        forall|k: int|
            0 <= k < morphs@.len() ==> same_image(
                (#[trigger] r@[2 * pause_len + morphs@.len() + k]).image,
                morphs@[morphs@.len() - 1 - k],
            ) && r@[2 * pause_len + morphs@.len() + k].delay_ms == frame_duration,
{
    let m: usize = morphs.len();
    let mut r: Vec<Frame> = Vec::new();
    let mut i: usize = 0;
    while i < pause_len
        invariant
            0 <= i <= pause_len,
            r@.len() == i,
            forall|t: int|
                0 <= t < i ==> same_image((#[trigger] r@[t]).image, *first) && r@[t].delay_ms
                    == frame_duration,
        decreases pause_len - i,
    {
        r.push(Frame { image: first.duplicate(), delay_ms: frame_duration });
        i += 1;
    }
    let mut k: usize = 0;
    while k < m
        invariant
            m == morphs@.len(),
            0 <= k <= m,
            r@.len() == pause_len + k,
            forall|t: int|
                0 <= t < pause_len ==> same_image((#[trigger] r@[t]).image, *first) && r@[t].delay_ms
                    == frame_duration,
            forall|t: int|
                0 <= t < k ==> same_image((#[trigger] r@[pause_len + t]).image, morphs@[t])
                    && r@[pause_len + t].delay_ms == frame_duration,
        decreases m - k,
    {
        r.push(Frame { image: morphs[k].duplicate(), delay_ms: frame_duration });
        k += 1;
    }
    let mut i2: usize = 0;
    while i2 < pause_len
        invariant
            m == morphs@.len(),
            0 <= i2 <= pause_len,
            r@.len() == pause_len + m + i2,
            forall|t: int|
                0 <= t < pause_len ==> same_image((#[trigger] r@[t]).image, *first) && r@[t].delay_ms
                    == frame_duration,
            forall|t: int|
                0 <= t < m ==> same_image((#[trigger] r@[pause_len + t]).image, morphs@[t])
                    && r@[pause_len + t].delay_ms == frame_duration,
            forall|t: int|
                0 <= t < i2 ==> same_image((#[trigger] r@[pause_len + m + t]).image, *last)
                    && r@[pause_len + m + t].delay_ms == frame_duration,
        decreases pause_len - i2,
    {
        r.push(Frame { image: last.duplicate(), delay_ms: frame_duration });
        i2 += 1;
    }
    let mut k2: usize = 0;
    while k2 < m
        invariant
            m == morphs@.len(),
            0 <= k2 <= m,
            r@.len() == 2 * pause_len + m + k2,
            forall|t: int|
                0 <= t < pause_len ==> same_image((#[trigger] r@[t]).image, *first) && r@[t].delay_ms
                    == frame_duration,
            forall|t: int|
                0 <= t < m ==> same_image((#[trigger] r@[pause_len + t]).image, morphs@[t])
                    && r@[pause_len + t].delay_ms == frame_duration,
            forall|t: int|
                0 <= t < pause_len ==> same_image(
                    (#[trigger] r@[pause_len + m + t]).image,
                    *last,
                ) && r@[pause_len + m + t].delay_ms == frame_duration,
            forall|t: int|
                0 <= t < k2 ==> same_image(
                    (#[trigger] r@[2 * pause_len + m + t]).image,
                    morphs@[m - 1 - t],
                ) && r@[2 * pause_len + m + t].delay_ms == frame_duration,
        decreases m - k2,
    {
        r.push(Frame { image: morphs[m - 1 - k2].duplicate(), delay_ms: frame_duration });
        k2 += 1;
    }
    r
}

/// A frame the container can hold: its buffer matches its dimensions
/// exactly, and each dimension fits the format's 16-bit size fields.
pub open spec fn frame_encodable(f: Frame) -> bool {
    &&& f.image.wf()
    &&& f.image.width <= 0xffff
    &&& f.image.height <= 0xffff
}

/// An encode session. Frames are recorded strictly in submission order;
/// consuming the session at close is what rules out any submission after it.
pub struct GifEncoder {
    pub frames: Vec<Frame>,
}

impl GifEncoder {
    /// The frames submitted so far, in order.
    pub open spec fn submitted(&self) -> Seq<Frame> {
        self.frames@
    }

    /// Every submitted frame can be held by the container.
    pub open spec fn wf(&self) -> bool {
        forall|i: int| 0 <= i < self.frames@.len() ==> frame_encodable(#[trigger] self.frames@[i])
    }

    /// Opens a session with no frames submitted.
    pub fn new() -> (e: GifEncoder)
        ensures
            e.submitted() == Seq::<Frame>::empty(),
            e.wf(),
    {
        GifEncoder { frames: Vec::new() }
    }

    /// Enqueues one frame; the order submitted is the order kept. The frame
    /// must fit the container: its bytes match its dimensions and each
    /// dimension fits 16 bits.
    pub fn write_frame(&mut self, image: Image, delay_ms: u32)
        requires
            image.wf(),
            image.width <= 0xffff,
            image.height <= 0xffff,
        ensures
            final(self).submitted() == old(self).submitted().push(Frame { image, delay_ms }),
            old(self).wf() ==> final(self).wf(),
    {
        self.frames.push(Frame { image, delay_ms });
    }
}

/// The spec-level content of a frame.
pub ghost struct FrameV {
    pub width: int,
    pub height: int,
    pub data: Seq<u8>,
    pub delay_ms: int,
}

impl View for Frame {
    type V = FrameV;

    open spec fn view(&self) -> FrameV {
        FrameV {
            width: self.image.width as int,
            height: self.image.height as int,
            data: self.image.data@,
            delay_ms: self.delay_ms as int,
        }
    }
}

/// What the container encoder writes for the given frames, in order, with
/// the infinite repeat flag: a function of the frames alone.
pub uninterp spec fn gif_bytes_of(frames: Seq<FrameV>) -> Seq<u8>;

/// Relies on image::codecs::gif::GifEncoder (new, set_repeat, encode_frames):
/// encodes the frames, in order, into an in-memory buffer with infinite
/// looping. For frames that match their dimensions exactly and fit the
/// format's 16-bit size fields, the encode cannot fail: the repeat flag is
/// only stored before the first frame, each frame passes the dimension
/// check, the buffer length matches, and every write goes to memory.
#[verifier::external_body]
fn encode_gif_raw(frames: &Vec<Frame>) -> (r: Vec<u8>)
    requires
        forall|i: int| 0 <= i < frames@.len() ==> frame_encodable(#[trigger] frames@[i]),
    ensures
        r@ == gif_bytes_of(frames@.map_values(|f: Frame| f@)),
{
    let mut out: Vec<u8> = Vec::new();
    let mut enc = image::codecs::gif::GifEncoder::new(&mut out);
    enc.set_repeat(image::codecs::gif::Repeat::Infinite).expect("the repeat flag is set before any frame");
    let fs: Vec<image::Frame> = frames.iter().map(|f| {
        let buf = image::RgbaImage::from_raw(f.image.width, f.image.height, f.image.data.clone())
            .expect("frame bytes match its dimensions");
        image::Frame::from_parts(buf, 0, 0, image::Delay::from_numer_denom_ms(f.delay_ms, 1))
    }).collect();
    enc.encode_frames(fs).expect("an in-memory encode of such frames cannot fail");
    drop(enc);
    out
}

impl GifEncoder {
    /// Closes the session: every submitted frame is encoded, in submission
    /// order, into an infinitely looping container, whose bytes are
    /// returned. The result is the close-time error channel; with every
    /// frame fitting the container and the bytes kept in memory, the encode
    /// succeeds.
    pub fn flush(self) -> (r: Result<Vec<u8>, MorphError>)
        requires
            self.wf(),
        ensures
            r is Ok,
            r.unwrap()@ == gif_bytes_of(self.submitted().map_values(|f: Frame| f@)),
    {
        Ok(encode_gif_raw(&self.frames))
    }
}

} // verus!
