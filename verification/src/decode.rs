//! Decoding: from the bytes of an archive entry to a decoded page.
//!
//! The decoders themselves are not part of this library. What they hand
//! over is checked here before it becomes a page: sizes must agree with
//! buffers, the frames of an animation with each other, and an animation
//! plays no longer than the configured time.

use crate::budget::{kept, lemma_kept_is, total};
use crate::error::DecodeError;
use crate::image_binding::{
    frames_decoded, gif_decode, image_decode, resample, still_decoded,
};
use crate::page::{
    animation_ok, frame_models, rgba_len, rgba_size, still_ok, DecodedPage, Frame, FrameModel,
    PageModel,
};
use crate::zoom::{scaled, scaled_size};
use vstd::prelude::*;

verus! {

/// A still image as a decoder hands it over.
pub struct RawImage {
    pub width: u32,
    pub height: u32,
    pub pixels: Vec<u8>,
}

/// An animation as a decoder hands it over: the size that the decoder
/// reports of its canvas, and the frames.
pub struct RawAnimation {
    pub size: (u32, u32),
    pub frames: Vec<Frame>,
}

/// Why a decoder gave up.
#[derive(Clone, Copy, Debug, PartialEq, Eq, Structural)]
pub enum RawFault {
    Decoding,
    Encoding,
    Parameter,
    Limits,
    Unsupported,
    Io,
}

/// A decoded page, and how many frames of its animation were left out
/// because they would have played beyond the allowed time.
pub struct Decoded {
    pub page: DecodedPage,
    pub dropped_frames: usize,
}

/// The error that a page fails with when its decoder gave up: a decoder
/// that ran into its limits is out of memory, every other fault is one of
/// the format.
pub open spec fn fault_error(f: RawFault) -> DecodeError {
    match f {
        RawFault::Limits => DecodeError::OutOfMemory,
        _ => DecodeError::FormatError,
    }
}

/// The error that a page fails with when its decoder gave up.
pub fn error_of_fault(f: RawFault) -> (e: DecodeError)
    ensures
        e == fault_error(f),
{
    match f {
        RawFault::Limits => DecodeError::OutOfMemory,
        _ => DecodeError::FormatError,
    }
}

/// Whether the bytes begin as a GIF file does: `GIF87a` or `GIF89a`.
pub open spec fn is_gif_bytes(b: Seq<u8>) -> bool {
    &&& b.len() >= 6
    &&& b[0] == 0x47
    &&& b[1] == 0x49
    &&& b[2] == 0x46
    &&& b[3] == 0x38
    &&& (b[4] == 0x37 || b[4] == 0x39)
    &&& b[5] == 0x61
}

/// Whether the bytes begin as a GIF file does.
pub fn is_gif(bytes: &[u8]) -> (b: bool)
    ensures
        b == is_gif_bytes(bytes@),
{
    bytes.len() >= 6 && bytes[0] == 0x47 && bytes[1] == 0x49 && bytes[2] == 0x46 && bytes[3]
        == 0x38 && (bytes[4] == 0x37 || bytes[4] == 0x39) && bytes[5] == 0x61
}

/// A decode result, as specifications see it.
pub open spec fn model_of(r: Result<DecodedPage, DecodeError>) -> Result<PageModel, DecodeError> {
    match r {
        Ok(p) => Ok(p@),
        Err(e) => Err(e),
    }
}

/// The result of decoding a page, as specifications see it.
pub open spec fn decoded_model(r: Result<Decoded, DecodeError>) -> Result<PageModel, DecodeError> {
    match r {
        Ok(d) => Ok(d.page@),
        Err(e) => Err(e),
    }
}

/// The number of frames that decoding a page left out.
pub open spec fn dropped_of(r: Result<Decoded, DecodeError>) -> nat {
    match r {
        Ok(d) => d.dropped_frames as nat,
        Err(_) => 0,
    }
}

/// What becomes of a still image that a decoder handed over: a page, if
/// the buffer is one RGBA8 image of the reported size.
pub open spec fn still_result(width: u32, height: u32, pixels: Seq<u8>) -> Result<
    PageModel,
    DecodeError,
> {
    if still_ok(width, height, pixels) {
        Ok(PageModel::still(width, height, pixels))
    } else {
        Err(DecodeError::FormatError)
    }
}

/// The delays of a run of frames, in milliseconds.
pub open spec fn delays(frames: Seq<FrameModel>) -> Seq<nat> {
    frames.map_values(|f: FrameModel| f.delay_ms)
}

/// How many frames of an animation are played when it may last `cap_ms`
/// milliseconds: as many as end within that time, and the first in any case.
pub open spec fn playing_len(frames: Seq<FrameModel>, cap_ms: u64) -> int {
    let n = kept(delays(frames), frames.len() as int, cap_ms as int);
    if n == 0 && frames.len() > 0 {
        1
    } else {
        n as int
    }
}

/// Whether there are frames and each is one RGBA8 image of the reported size.
pub open spec fn frames_fit(frames: Seq<FrameModel>, size: (u32, u32)) -> bool {
    &&& frames.len() > 0
    &&& forall|i: int|
        0 <= i < frames.len() ==> still_ok(size.0, size.1, (#[trigger] frames[i]).pixels)
}

/// What becomes of an animation that a decoder handed over. Frames that
/// are not of the reported size are a format error. Of the others, those
/// that play within `cap_ms` make the page; a single frame makes a still
/// page.
pub open spec fn animation_result(frames: Seq<FrameModel>, size: (u32, u32), cap_ms: u64) -> Result<
    PageModel,
    DecodeError,
> {
    if !frames_fit(frames, size) {
        Err(DecodeError::FormatError)
    } else {
        let play = frames.take(playing_len(frames, cap_ms));
        if play.len() == 1 {
            Ok(PageModel::still(size.0, size.1, play[0].pixels))
        } else if animation_ok(size.0, size.1, play) {
            Ok(PageModel::animation(size.0, size.1, play))
        } else {
            Err(DecodeError::OutOfMemory)
        }
    }
}

/// How many frames of an animation are left out of its page: those that
/// would play beyond `cap_ms`; none where no page is made.
pub open spec fn frames_left_out(frames: Seq<FrameModel>, size: (u32, u32), cap_ms: u64) -> nat {
    if animation_result(frames, size, cap_ms) is Ok {
        (frames.len() - playing_len(frames, cap_ms)) as nat
    } else {
        0
    }
}

/// Makes a page of a still image that a decoder handed over.
pub fn page_from_raw(raw: RawImage) -> (r: Result<DecodedPage, DecodeError>)
    ensures
        model_of(r) == still_result(raw.width, raw.height, raw.pixels@),
{
    match DecodedPage::from_rgba(raw.width, raw.height, raw.pixels) {
        Some(p) => Ok(p),
        None => Err(DecodeError::FormatError),
    }
}

/// The number of frames that are played when the animation may last
/// `cap_ms` milliseconds.
fn count_playing(frames: &Vec<Frame>, cap_ms: u64) -> (n: usize)
    requires
        frames@.len() > 0,
    ensures
        n == playing_len(frame_models(frames@), cap_ms),
        1 <= n <= frames@.len(),
{
    let ghost d = delays(frame_models(frames@));
    let mut sum: u64 = 0;
    let mut i: usize = 0;
    assert(d.take(0) =~= Seq::<nat>::empty());
    loop
        invariant
            i <= frames.len(),
            d == delays(frame_models(frames@)),
            d.len() == frames@.len(),
            sum == total(d.take(i as int)),
            sum <= cap_ms,
        ensures
            i <= frames.len(),
            sum == total(d.take(i as int)),
            sum <= cap_ms,
            i < frames.len() ==> total(d.take(i + 1)) > cap_ms,
        decreases frames.len() - i,
    {
        if i >= frames.len() {
            break ;
        }
        let ms = frames[i].delay_ms();
        assert(d[i as int] == ms);
        proof {
            crate::budget::lemma_total_drop_last(d.take(i + 1));
            assert(d.take(i + 1).drop_last() =~= d.take(i as int));
        }
        if ms as u64 > cap_ms - sum {
            break ;
        }
        sum = sum + ms as u64;
        i += 1;
    }
    proof {
        lemma_kept_is(d, frames@.len() as int, cap_ms as int, i as int);
    }
    if i == 0 {
        1
    } else {
        i
    }
}

/// Makes a page of an animation that a decoder handed over, playing no
/// longer than `cap_ms` milliseconds.
pub fn animation_from_raw(raw: RawAnimation, cap_ms: u64) -> (r: Result<Decoded, DecodeError>)
    ensures
        decoded_model(r) == animation_result(frame_models(raw.frames@), raw.size, cap_ms),
        dropped_of(r) == frames_left_out(frame_models(raw.frames@), raw.size, cap_ms),
{
    let RawAnimation { size, frames } = raw;
    let mut frames = frames;
    let ghost all = frame_models(frames@);
    let n = frames.len();
    if n == 0 {
        return Err(DecodeError::FormatError);
    }
    let (w, h) = size;
    if w == 0 || h == 0 {
        assert(!still_ok(w, h, all[0].pixels));
        return Err(DecodeError::FormatError);
    }
    let len = match rgba_size(w, h) {
        Some(len) => len,
        None => {
            let first = frames[0].pixels.len();
            assert(all[0] == frames@[0]@);
            assert(!still_ok(w, h, all[0].pixels));
            return Err(DecodeError::FormatError);
        },
    };
    let mut i: usize = 0;
    while i < n
        invariant
            i <= n,
            n == frames@.len(),
            frames@ == raw.frames@,
            size == raw.size,
            (w, h) == size,
            all == frame_models(frames@),
            w > 0,
            h > 0,
            len == rgba_len(w as int, h as int),
            forall|j: int| 0 <= j < i ==> still_ok(w, h, (#[trigger] all[j]).pixels),
        decreases n - i,
    {
        assert(all[i as int] == frames@[i as int]@);
        if frames[i].pixels.len() != len {
            assert(!still_ok(w, h, all[i as int].pixels));
            return Err(DecodeError::FormatError);
        }
        assert(still_ok(w, h, all[i as int].pixels));
        i += 1;
    }
    assert(frames_fit(all, size));
    let keep = count_playing(&frames, cap_ms);
    let dropped_frames = n - keep;
    frames.truncate(keep);
    let ghost play = all.take(keep as int);
    assert(frame_models(frames@) =~= play);
    if keep == 1 {
        match frames.pop() {
            Some(f) => {
                assert(play[0] == f@);
                match DecodedPage::from_rgba(w, h, f.pixels) {
                    Some(page) => Ok(Decoded { page, dropped_frames }),
                    None => Err(DecodeError::FormatError),
                }
            },
            None => Err(DecodeError::FormatError),
        }
    } else {
        match DecodedPage::animated(w, h, frames) {
            Some(page) => Ok(Decoded { page, dropped_frames }),
            None => Err(DecodeError::OutOfMemory),
        }
    }
}

/// What becomes of what the still-image decoder came back with.
pub open spec fn still_outcome(raw: Result<(u32, u32, Seq<u8>), RawFault>) -> Result<
    PageModel,
    DecodeError,
> {
    match raw {
        Ok((width, height, pixels)) => still_result(width, height, pixels),
        Err(f) => Err(fault_error(f)),
    }
}

/// What becomes of what the animation decoder came back with.
pub open spec fn animation_outcome(
    raw: Result<(Seq<FrameModel>, (u32, u32)), RawFault>,
    cap_ms: u64,
) -> Result<PageModel, DecodeError> {
    match raw {
        Ok((frames, size)) => animation_result(frames, size, cap_ms),
        Err(f) => Err(fault_error(f)),
    }
}

/// How many frames are left out of what the animation decoder came back with.
pub open spec fn animation_left_out(
    raw: Result<(Seq<FrameModel>, (u32, u32)), RawFault>,
    cap_ms: u64,
) -> nat {
    match raw {
        Ok((frames, size)) => frames_left_out(frames, size, cap_ms),
        Err(_) => 0,
    }
}

/// Decodes the bytes of an archive entry into a page. Bytes that begin as
/// a GIF file go to the animation decoder, all others to the still-image
/// decoder; what the decoder comes back with is checked and, for an
/// animation, cut to `cap_ms` milliseconds of playing time. The result
/// says how many frames the cut left out.
pub fn decode_page(bytes: &[u8], cap_ms: u64) -> (r: Result<Decoded, DecodeError>)
    ensures
        is_gif_bytes(bytes@) ==> decoded_model(r) == animation_outcome(
            frames_decoded(bytes@),
            cap_ms,
        ) && dropped_of(r) == animation_left_out(frames_decoded(bytes@), cap_ms),
        !is_gif_bytes(bytes@) ==> decoded_model(r) == still_outcome(still_decoded(bytes@))
            && dropped_of(r) == 0,
{
    if is_gif(bytes) {
        match gif_decode(bytes) {
            Ok(raw) => animation_from_raw(raw, cap_ms),
            Err(f) => Err(error_of_fault(f)),
        }
    } else {
        match image_decode(bytes) {
            Ok(raw) => match page_from_raw(raw) {
                Ok(page) => Ok(Decoded { page, dropped_frames: 0 }),
                Err(e) => Err(e),
            },
            Err(f) => Err(error_of_fault(f)),
        }
    }
}

/// Whether an image of `width` x `height` pixels can be resampled to
/// `new_width` x `new_height`: the result, and the rows of samples that
/// are held between, fit into one allocation each.
pub open spec fn resample_fits(width: int, height: int, new_width: int, new_height: int) -> bool {
    &&& 4 * rgba_len(width, new_height) <= isize::MAX
    &&& rgba_len(new_width, new_height) <= isize::MAX
}

/// The still image of `page` at a zoom of `zoom` thousandths, for upload
/// as a texture: a still page of the scaled size. Where the scaled size
/// is the size of the page, the image is the page's own.
pub fn scale_page(page: &DecodedPage, zoom: u32) -> (r: Option<DecodedPage>)
    ensures
        r is Some <==> resample_fits(
            page@.width as int,
            page@.height as int,
            scaled(page@.width as int, zoom as int),
            scaled(page@.height as int, zoom as int),
        ),
        r matches Some(p) ==> p@.width == scaled(page@.width as int, zoom as int) && p@.height
            == scaled(page@.height as int, zoom as int) && !p@.is_animated(),
        r matches Some(p) ==> (p@.width == page@.width && p@.height == page@.height ==> p@.pixels
            == page@.pixels),
{
    proof {
        use_type_invariant(page);
    }
    let w = page.width();
    let h = page.height();
    let nw = scaled_size(w, zoom);
    let nh = scaled_size(h, zoom);
    assert(w * nh <= 0xFFFF_FFFF * 0xFFFF_FFFF && nw * nh <= 0xFFFF_FFFF * 0xFFFF_FFFF)
        by (nonlinear_arith)
        requires
            0 <= w <= 0xFFFF_FFFF,
            0 <= nw <= 0xFFFF_FFFF,
            0 <= nh <= 0xFFFF_FFFF,
    ;
    assert(4 * w * nh == 4 * (w * nh) && 4 * nw * nh == 4 * (nw * nh)) by (nonlinear_arith);
    let between: u128 = 16 * ((w as u128) * (nh as u128));
    let result: u128 = 4 * ((nw as u128) * (nh as u128));
    if between > isize::MAX as u128 || result > isize::MAX as u128 {
        return None;
    }
    let out = resample(page.pixels().as_slice(), w, h, nw, nh);
    DecodedPage::from_rgba(nw, nh, out)
}

} // verus!
