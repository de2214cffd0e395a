//! Decoded pages: immutable RGBA8 pixel buffers with their dimensions.

use crate::budget::{lemma_total_drop_last, total};
use vstd::prelude::*;

verus! {

/// Number of bytes of a tightly packed RGBA8 buffer of the given dimensions.
pub open spec fn rgba_len(width: int, height: int) -> int {
    4 * width * height
}

/// One frame of an animated page, as specifications see it.
pub struct FrameModel {
    pub pixels: Seq<u8>,
    pub delay_ms: nat,
}

/// A decoded page, as specifications see it.
///
/// `pixels` is the image shown when the page is drawn as a still; `frames`
/// is empty for a still image and holds every frame, in playing order, for
/// an animated one.
pub struct PageModel {
    pub width: nat,
    pub height: nat,
    pub pixels: Seq<u8>,
    pub frames: Seq<FrameModel>,
}

impl PageModel {
    /// A still image of the given size.
    pub open spec fn still(width: u32, height: u32, pixels: Seq<u8>) -> PageModel {
        PageModel { width: width as nat, height: height as nat, pixels, frames: Seq::empty() }
    }

    /// An animation whose still image is its first frame.
    pub open spec fn animation(width: u32, height: u32, frames: Seq<FrameModel>) -> PageModel {
        PageModel { width: width as nat, height: height as nat, pixels: frames[0].pixels, frames }
    }

    /// Number of bytes the page keeps resident: the still image and every frame.
    pub open spec fn byte_size(self) -> nat {
        self.pixels.len() + self.frames.len() * self.pixels.len()
    }

    /// Whether the page has frames to play.
    pub open spec fn is_animated(self) -> bool {
        self.frames.len() > 0
    }

    /// The delays of the frames, in milliseconds.
    pub open spec fn delays(self) -> Seq<nat> {
        self.frames.map_values(|f: FrameModel| f.delay_ms)
    }

    /// The frame that is up when the page has been shown for `elapsed`
    /// milliseconds: the animation starts over when its last frame is
    /// done. A page that takes no time shows its first frame.
    pub open spec fn frame_at(self, elapsed: int) -> int {
        if total(self.delays()) == 0 {
            0
        } else {
            playing_at(self.delays(), elapsed % (total(self.delays()) as int))
        }
    }

    /// Both dimensions are positive, the buffer is exactly one RGBA8 image,
    /// every frame has the size of the page, and the whole fits in memory.
    pub open spec fn ok(self) -> bool {
        &&& 0 < self.width <= u32::MAX
        &&& 0 < self.height <= u32::MAX
        &&& self.pixels.len() == rgba_len(self.width as int, self.height as int)
        &&& forall|i: int|
            0 <= i < self.frames.len() ==> (#[trigger] self.frames[i]).pixels.len()
                == self.pixels.len()
        &&& self.byte_size() <= usize::MAX
    }
}

/// The frame that is up `t` milliseconds into one run of an animation
/// with the given delays; the last frame stays up.
pub open spec fn playing_at(delays: Seq<nat>, t: int) -> int
    decreases delays.len(),
{
    if delays.len() <= 1 || t < delays[0] {
        0
    } else {
        1 + playing_at(delays.drop_first(), t - delays[0])
    }
}

/// Whether `pixels` is one RGBA8 image of positive dimensions `width` x `height`.
pub open spec fn still_ok(width: u32, height: u32, pixels: Seq<u8>) -> bool {
    &&& width > 0
    &&& height > 0
    &&& pixels.len() == rgba_len(width as int, height as int)
}

/// Whether `frames` is a non-empty animation of `width` x `height` RGBA8
/// images that fits in memory together with its still image.
pub open spec fn animation_ok(width: u32, height: u32, frames: Seq<FrameModel>) -> bool {
    &&& width > 0
    &&& height > 0
    &&& frames.len() > 0
    &&& forall|i: int|
        0 <= i < frames.len() ==> (#[trigger] frames[i]).pixels.len() == rgba_len(
            width as int,
            height as int,
        )
    &&& (frames.len() + 1) * rgba_len(width as int, height as int) <= usize::MAX
}

/// The whole milliseconds in a delay of `numer / denom` milliseconds; a
/// delay without a denominator counts as none.
pub open spec fn delay_of(numer: u32, denom: u32) -> nat {
    if denom == 0 {
        0
    } else {
        (numer / denom) as nat
    }
}

/// One frame of an animation: a full RGBA8 buffer and the time it stays
/// up, in milliseconds, as a fraction.
pub struct Frame {
    pub pixels: Vec<u8>,
    /// Numerator and denominator of the delay in milliseconds.
    pub delay: (u32, u32),
}

impl View for Frame {
    type V = FrameModel;

    open spec fn view(&self) -> FrameModel {
        FrameModel { pixels: self.pixels@, delay_ms: delay_of(self.delay.0, self.delay.1) }
    }
}

impl Frame {
    /// The whole milliseconds that the frame stays up.
    pub fn delay_ms(&self) -> (ms: u32)
        ensures
            ms == self@.delay_ms,
    {
        if self.delay.1 == 0 {
            0
        } else {
            self.delay.0 / self.delay.1
        }
    }
}

/// The views of a run of frames.
pub open spec fn frame_models(frames: Seq<Frame>) -> Seq<FrameModel> {
    frames.map_values(|f: Frame| f@)
}

/// A decoded page. Never changes after construction.
pub struct DecodedPage {
    width: u32,
    height: u32,
    pixels: Vec<u8>,
    frames: Vec<Frame>,
}

impl View for DecodedPage {
    type V = PageModel;

    closed spec fn view(&self) -> PageModel {
        PageModel {
            width: self.width as nat,
            height: self.height as nat,
            pixels: self.pixels@,
            frames: frame_models(self.frames@),
        }
    }
}

/// The byte length of a `width` x `height` RGBA8 buffer, where a `usize` can hold it.
pub fn rgba_size(width: u32, height: u32) -> (r: Option<usize>)
    ensures
        r is Some <==> rgba_len(width as int, height as int) <= usize::MAX,
        r matches Some(n) ==> n == rgba_len(width as int, height as int),
{
    assert(width * height <= 0xFFFF_FFFF * 0xFFFF_FFFF) by (nonlinear_arith)
        requires
            width <= 0xFFFF_FFFF,
            height <= 0xFFFF_FFFF,
    ;
    assert(4 * width * height == 4 * (width * height)) by (nonlinear_arith);
    let area: u64 = (width as u64) * (height as u64);
    if area > (usize::MAX as u64) / 4 {
        None
    } else {
        Some((area * 4) as usize)
    }
}

impl DecodedPage {
    /// What holds of every page.
    #[verifier::type_invariant]
    pub open spec fn wf(&self) -> bool {
        self@.ok()
    }

    /// Wraps one RGBA8 buffer as a still page, if it has the stated size.
    pub fn from_rgba(width: u32, height: u32, pixels: Vec<u8>) -> (r: Option<DecodedPage>)
        ensures
            r is Some <==> still_ok(width, height, pixels@),
            r matches Some(p) ==> p@ == PageModel::still(width, height, pixels@),
    {
        if width == 0 || height == 0 {
            return None;
        }
        let len = pixels.len();
        match rgba_size(width, height) {
            Some(n) => {
                if len != n {
                    return None;
                }
                let frames: Vec<Frame> = Vec::new();
                assert(frame_models(frames@) =~= Seq::empty());
                assert(0 * pixels.len() == 0);
                Some(DecodedPage { width, height, pixels, frames })
            },
            None => None,
        }
    }

    /// Wraps the frames of an animation as a page whose still image is the
    /// first frame, if every frame has the stated size and the whole fits in
    /// memory.
    pub fn animated(width: u32, height: u32, frames: Vec<Frame>) -> (r: Option<DecodedPage>)
        ensures
            r is Some <==> animation_ok(width, height, frame_models(frames@)),
            r matches Some(p) ==> p@ == PageModel::animation(
                width,
                height,
                frame_models(frames@),
            ),
    {
        let ghost models = frame_models(frames@);
        if width == 0 || height == 0 || frames.len() == 0 {
            return None;
        }
        let n = match rgba_size(width, height) {
            Some(n) => n,
            None => {
                assert((frames.len() + 1) * rgba_len(width as int, height as int) >= rgba_len(
                    width as int,
                    height as int,
                )) by (nonlinear_arith)
                    requires
                        frames.len() >= 0,
                        rgba_len(width as int, height as int) >= 0,
                ;
                return None;
            },
        };
        // The still image and the frames must fit in memory together.
        let count: u128 = frames.len() as u128 + 1;
        assert(count * n <= 0x1_0000_0000_0000_0000 * 0xFFFF_FFFF_FFFF_FFFF) by (nonlinear_arith)
            requires
                0 <= count <= 0x1_0000_0000_0000_0000,
                0 <= n <= 0xFFFF_FFFF_FFFF_FFFF,
        ;
        if count * (n as u128) > usize::MAX as u128 {
            return None;
        }
        let mut i: usize = 0;
        while i < frames.len()
            invariant
                i <= frames.len(),
                models == frame_models(frames@),
                n == rgba_len(width as int, height as int),
                forall|j: int| 0 <= j < i ==> (#[trigger] models[j]).pixels.len() == n,
            decreases frames.len() - i,
        {
            assert(models[i as int] == frames@[i as int]@);
            if frames[i].pixels.len() != n {
                return None;
            }
            i += 1;
        }
        let poster = frames[0].pixels.clone();
        assert(poster@ =~= frames[0].pixels@);
        assert(models[0] == frames@[0]@);
        assert(n + models.len() * n == (models.len() + 1) * n) by (nonlinear_arith);
        Some(DecodedPage { width, height, pixels: poster, frames })
    }

    /// The width in pixels.
    pub fn width(&self) -> (w: u32)
        ensures
            w == self@.width,
    {
        self.width
    }

    /// The height in pixels.
    pub fn height(&self) -> (h: u32)
        ensures
            h == self@.height,
    {
        self.height
    }

    /// The still image, row by row from the top, four bytes per pixel.
    pub fn pixels(&self) -> (p: &Vec<u8>)
        ensures
            p@ == self@.pixels,
    {
        &self.pixels
    }

    /// Whether the page has frames to play.
    pub fn is_animated(&self) -> (b: bool)
        ensures
            b == self@.is_animated(),
    {
        self.frames.len() > 0
    }

    /// The number of frames; none for a still page.
    pub fn frame_count(&self) -> (n: usize)
        ensures
            n == self@.frames.len(),
    {
        self.frames.len()
    }

    /// The `i`-th frame of an animated page.
    pub fn frame(&self, i: usize) -> (f: &Frame)
        requires
            i < self@.frames.len(),
        ensures
            f@ == self@.frames[i as int],
    {
        &self.frames[i]
    }

    /// The frame to draw when the page has been shown for `elapsed_ms`
    /// milliseconds; 0 for a still page.
    pub fn frame_at(&self, elapsed_ms: u64) -> (at: usize)
        ensures
            at == self@.frame_at(elapsed_ms as int),
            at == 0 || at < self@.frames.len(),
    {
        let n = self.frames.len();
        let ghost d = self@.delays();
        if n == 0 {
            assert(d =~= Seq::<nat>::empty());
            return 0;
        }
        let mut sum: u128 = 0;
        let mut k: usize = 0;
        assert(d.take(0) =~= Seq::<nat>::empty());
        while k < n
            invariant
                k <= n,
                n == self.frames@.len(),
                d == self@.delays(),
                d.len() == n,
                sum == total(d.take(k as int)),
                sum <= k * 0xFFFF_FFFF,
            decreases n - k,
        {
            proof {
                lemma_total_drop_last(d.take(k + 1));
                assert(d.take(k + 1).drop_last() =~= d.take(k as int));
                assert(d[k as int] == self.frames@[k as int]@.delay_ms);
            }
            sum = sum + self.frames[k].delay_ms() as u128;
            k += 1;
        }
        assert(d.take(n as int) =~= d);
        if sum == 0 {
            return 0;
        }
        let t: u128 = (elapsed_ms as u128) % sum;
        let mut acc: u128 = 0;
        let mut i: usize = 0;
        assert(d.skip(0) =~= d);
        loop
            invariant
                i < n,
                n == self.frames@.len(),
                d == self@.delays(),
                d.len() == n,
                acc <= t,
                t < sum,
                sum <= n * 0xFFFF_FFFF,
                playing_at(d, t as int) == i + playing_at(d.skip(i as int), t - acc),
            ensures
                i < n,
                playing_at(d, t as int) == i,
            decreases n - i,
        {
            if i + 1 >= n {
                break ;
            }
            let ms = self.frames[i].delay_ms() as u128;
            assert(d.skip(i as int)[0] == ms) by {
                assert(d[i as int] == self.frames@[i as int]@.delay_ms);
            }
            if t - acc < ms {
                break ;
            }
            assert(d.skip(i as int).drop_first() =~= d.skip(i + 1));
            acc = acc + ms;
            i += 1;
        }
        i
    }

    /// Number of bytes the page keeps resident.
    pub fn byte_size(&self) -> (n: usize)
        ensures
            n == self@.byte_size(),
    {
        proof {
            use_type_invariant(self);
        }
        let per = self.pixels.len();
        let count = self.frames.len();
        assert(count * per <= per + count * per) by (nonlinear_arith)
            requires
                per >= 0,
                count >= 0,
        ;
        per + count * per
    }
}

} // verus!
