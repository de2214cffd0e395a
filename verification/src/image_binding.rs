//! The decoders and the resampler of the `image` crate, and what this
//! library takes for granted about them.
//!
//! Nothing in this module is proved. What a decoder makes of given bytes
//! is given a name here and no more: the callers check every size themselves.

use crate::decode::{RawAnimation, RawFault, RawImage};
use crate::page::{frame_models, rgba_len, Frame, FrameModel};
use image::codecs::gif::GifDecoder;
use image::imageops::FilterType;
use image::ImageError::{Decoding, Encoding, IoError, Parameter, Unsupported};
use image::{AnimationDecoder, ImageBuffer, ImageDecoder, ImageError, Limits, Rgba};
use std::io::Cursor;
use vstd::prelude::*;

verus! {

/// What the still-image decoders make of the bytes: the size they report
/// and the image as RGBA8, or the kind of error they end with.
pub uninterp spec fn still_decoded(bytes: Seq<u8>) -> Result<(u32, u32, Seq<u8>), RawFault>;

/// What the GIF decoder makes of the bytes: the frames, each as RGBA8 with
/// its delay, and the size it reports of the canvas, or the kind of error
/// it ends with.
pub uninterp spec fn frames_decoded(bytes: Seq<u8>) -> Result<
    (Seq<FrameModel>, (u32, u32)),
    RawFault,
>;

/// `image::guess_format`, then `image::load_from_memory_with_format` and
/// `DynamicImage::into_rgba8`: the format is told by the first bytes
/// alone and decoded by the crate's own decoder for it, under the crate's
/// default limits. An error comes back as its variant of `ImageError`.
#[verifier::external_body]
pub(crate) fn image_decode(bytes: &[u8]) -> (r: Result<RawImage, RawFault>)
    ensures
        still_decoded(bytes@) == match r {
            Ok(raw) => Ok((raw.width, raw.height, raw.pixels@)),
            Err(f) => Err(f),
        },
{
    match image::guess_format(bytes).and_then(|f| image::load_from_memory_with_format(bytes, f)) {
        Ok(img) => {
            let rgba = img.into_rgba8();
            Ok(RawImage { width: rgba.width(), height: rgba.height(), pixels: rgba.into_raw() })
        },
        Err(e) => Err(match e {
            Decoding(_) => RawFault::Decoding,
            Encoding(_) => RawFault::Encoding,
            Parameter(_) => RawFault::Parameter,
            ImageError::Limits(_) => RawFault::Limits,
            Unsupported(_) => RawFault::Unsupported,
            IoError(_) => RawFault::Io,
        }),
    }
}

/// `GifDecoder::new` and `ImageDecoder::set_limits` with the crate's
/// default limits, then `ImageDecoder::dimensions`,
/// `AnimationDecoder::into_frames` and `Frames::collect_frames`: the size
/// of the canvas and every frame with its delay. An error comes back as
/// its variant of `ImageError`.
#[verifier::external_body]
pub(crate) fn gif_decode(bytes: &[u8]) -> (r: Result<RawAnimation, RawFault>)
    ensures
        frames_decoded(bytes@) == match r {
            Ok(raw) => Ok((frame_models(raw.frames@), raw.size)),
            Err(f) => Err(f),
        },
{
    match GifDecoder::new(Cursor::new(bytes)).and_then(|mut d| { d.set_limits(Limits::default())?; Ok((d.dimensions(), d.into_frames().collect_frames()?)) }) {
        Ok((size, fs)) => Ok(RawAnimation { size, frames: fs.into_iter().map(|f| Frame { delay: f.delay().numer_denom_ms(), pixels: f.into_buffer().into_raw() }).collect() }),
        Err(e) => Err(match e {
            Decoding(_) => RawFault::Decoding,
            Encoding(_) => RawFault::Encoding,
            Parameter(_) => RawFault::Parameter,
            ImageError::Limits(_) => RawFault::Limits,
            Unsupported(_) => RawFault::Unsupported,
            IoError(_) => RawFault::Io,
        }),
    }
}

/// `image::imageops::resize` with the Lanczos filter: an RGBA8 image of
/// the new size, and where the size stays the same a copy of the image. Left out are the sizes at which the crate's buffers, the
/// result and one of `f32` samples between, could not be allocated.
#[verifier::external_body]
pub(crate) fn resample(
    pixels: &[u8],
    width: u32,
    height: u32,
    new_width: u32,
    new_height: u32,
) -> (out: Vec<u8>)
    requires
        width > 0,
        height > 0,
        new_width > 0,
        new_height > 0,
        pixels@.len() == rgba_len(width as int, height as int),
        4 * rgba_len(width as int, new_height as int) <= isize::MAX,
        rgba_len(new_width as int, new_height as int) <= isize::MAX,
    ensures
        out@.len() == rgba_len(new_width as int, new_height as int),
        new_width == width && new_height == height ==> out@ == pixels@,
{
    match ImageBuffer::<Rgba<u8>, &[u8]>::from_raw(width, height, pixels) {
        Some(view) => image::imageops::resize(
            &view,
            new_width,
            new_height,
            FilterType::Lanczos3,
        ).into_raw(),
        None => Vec::new(),
    }
}

} // verus!
