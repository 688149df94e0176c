//! Decoded images and animations packed as a grid of frames; which frame shows when.

use vstd::prelude::*;

use image::AnimationDecoder;

verus! {

/// How an animation's frames sit in its texture: `count` cells, row by row.
#[derive(Clone, Debug, PartialEq)]
pub struct Frames {
    pub cols: u32,
    pub rows: u32,
    pub count: u32,
    /// One frame's size before any scaling, for layout.
    pub frame_w: u32,
    pub frame_h: u32,
    pub delays_ms: Vec<u32>,
    pub total_ms: u64,
}

/// Decoded pixels, straight-alpha RGBA8. For an animation `px` is the packed grid.
pub struct Decoded {
    pub px: Vec<u8>,
    pub w: u32,
    pub h: u32,
    pub frames: Option<Frames>,
}

impl Decoded {
    /// The size to lay the image out at: one frame's.
    pub fn size(&self) -> (r: (u32, u32))
        ensures
            r == match self.frames {
                Some(f) => (f.frame_w, f.frame_h),
                None => (self.w, self.h),
            },
    {
        match &self.frames {
            Some(f) => (f.frame_w, f.frame_h),
            None => (self.w, self.h),
        }
    }
}

/// The sum of the first `n` delays.
pub open spec fn delay_sum(ds: Seq<u32>, n: int) -> nat
    decreases n,
{
    if n <= 0 || ds.len() == 0 {
        0
    } else if n > ds.len() {
        delay_sum(ds, ds.len() as int)
    } else {
        delay_sum(ds, n - 1) + ds[n - 1] as nat
    }
}

/// When frame `i` ends, in ms from the start of a loop.
pub open spec fn end_of(ds: Seq<u32>, i: int) -> nat {
    delay_sum(ds, i + 1)
}

/// The frame showing `t` ms into one loop: the first frame whose delays so far reach
/// past `t`; frame 0 when none does.
pub open spec fn frame_index(ds: Seq<u32>, t: nat) -> int {
    if exists|i: int| 0 <= i < ds.len() && t < end_of(ds, i) {
        choose|i: int| 0 <= i < ds.len() && t < end_of(ds, i) && forall|j: int| 0 <= j < i ==> t >= end_of(ds, j)
    } else {
        0
    }
}

proof fn lemma_delay_sum_mono(ds: Seq<u32>, a: int, b: int)
    requires
        0 <= a <= b <= ds.len(),
    ensures
        delay_sum(ds, a) <= delay_sum(ds, b),
    decreases b - a,
{
    if a < b {
        lemma_delay_sum_mono(ds, a, b - 1);
    }
}

/// The frame showing `elapsed_ms` into a looping animation.
pub fn frame_at(f: &Frames, elapsed_ms: u64) -> (r: u32)
    ensures
        r == frame_index(f.delays_ms@, (elapsed_ms % if f.total_ms > 1 { f.total_ms } else { 1 }) as nat) as u32,
{
    let period = if f.total_ms > 1 {
        f.total_ms
    } else {
        1
    };
    let t0 = elapsed_ms % period;
    let ghost ds = f.delays_ms@;
    let mut t = t0;
    let mut i: usize = 0;
    while i < f.delays_ms.len()
        invariant
            i <= f.delays_ms.len(),
            ds == f.delays_ms@,
            t0 == elapsed_ms % if f.total_ms > 1 {
                f.total_ms
            } else {
                1
            },
            t0 as nat == t as nat + delay_sum(ds, i as int),
            forall|j: int| 0 <= j < i ==> t0 >= end_of(ds, j),
        decreases f.delays_ms.len() - i,
    {
        let d = f.delays_ms[i] as u64;
        if t < d {
            proof {
                assert(t0 < end_of(ds, i as int));
                let w = i as int;
                assert(0 <= w < ds.len() && t0 < end_of(ds, w) && forall|j: int|
                    0 <= j < w ==> t0 >= end_of(ds, j));
                let c = choose|k: int|
                    0 <= k < ds.len() && t0 < end_of(ds, k) && forall|j: int|
                        0 <= j < k ==> t0 >= end_of(ds, j);
                if c < w {
                    assert(t0 >= end_of(ds, c));
                } else if c > w {
                    assert(t0 >= end_of(ds, w));
                }
                assert(c == w);
                assert(exists|k: int| 0 <= k < ds.len() && t0 < end_of(ds, k));
                assert(frame_index(ds, t0 as nat) == w);
            }
            return i as u32;
        }
        t = t - d;
        i += 1;
    }
    proof {
        if exists|k: int| 0 <= k < ds.len() && t0 < end_of(ds, k) {
            let k = choose|k: int| 0 <= k < ds.len() && t0 < end_of(ds, k);
            assert(t0 >= end_of(ds, k));
        }
    }
    0
}


/// Largest side of a packed animation; bigger ones are scaled down to fit.
pub const MAX_ATLAS: u32 = 4096;

/// At most this many frames of an animation are kept.
pub const MAX_FRAMES: usize = 300;

/// A frame delay below this is played at 100 ms, as browsers do (GIFs often say 0 or 10).
pub const MIN_DELAY_MS: u32 = 20;

/// How long a frame shows, from the delay a file gives as a fraction of milliseconds.
pub open spec fn delay_of(numer: u32, denom: u32) -> u32 {
    let ms = if denom == 0 {
        0
    } else {
        numer / denom
    };
    if ms < 20 {
        100
    } else {
        ms
    }
}

/// How long a frame shows: its delay in whole milliseconds, 100 when that is under
/// `MIN_DELAY_MS`.
pub fn frame_delay(numer: u32, denom: u32) -> (r: u32)
    ensures
        r == delay_of(numer, denom),
{
    let ms = if denom == 0 {
        0
    } else {
        numer / denom
    };
    if ms < MIN_DELAY_MS {
        100
    } else {
        ms
    }
}

/// The columns and rows of a near-square grid of `n` frames: as many columns as the
/// square root of `n`, rounded up, and the rows that takes.
pub open spec fn grid_of(n: int, cols: int, rows: int) -> bool {
    &&& cols * cols >= n
    &&& cols >= 1
    &&& (cols - 1) * (cols - 1) < n
    &&& rows == (n + cols - 1) / cols
}

/// The grid an animation of `n` frames is packed in.
pub fn grid_size(n: u32) -> (r: (u32, u32))
    requires
        n >= 1,
    ensures
        grid_of(n as int, r.0 as int, r.1 as int),
{
    let mut c: u64 = 1;
    while c * c < n as u64
        invariant
            1 <= c <= 65536,
            c * c <= 0x1_0000_0000,
            (c - 1) * (c - 1) < n,
        decreases 65536 - c,
    {
        assert(c * c < 0x1_0000_0000) by (nonlinear_arith)
            requires
                c * c < n,
                n <= u32::MAX;
        assert(c < 65536) by (nonlinear_arith)
            requires
                c * c < 0x1_0000_0000,
                c >= 1;
        assert((c + 1) * (c + 1) <= 0x1_0000_0000) by (nonlinear_arith)
            requires
                c < 65536;
        c += 1;
    }
    let cols = c as u32;
    let rows = ((n as u64 + c - 1) / c) as u32;
    assert((n + c - 1) / (c as int) <= n) by (nonlinear_arith)
        requires
            c >= 1,
            n >= 1;
    (cols, rows)
}

/// What kind of file an image's first bytes say it is, as far as reading its frames goes.
#[derive(Clone, Copy, Debug, PartialEq, Eq, Structural)]
pub enum Kind {
    Gif,
    WebP,
    Png,
    Other,
}

/// One frame as a file gives it: RGBA8 pixels, its size, and its delay as a fraction of
/// milliseconds (numerator, denominator).
pub struct RawFrame {
    pub px: Vec<u8>,
    pub w: u32,
    pub h: u32,
    pub numer: u32,
    pub denom: u32,
}

/// A frame by its plain values: pixels, width, height, delay numerator and denominator.
pub type FrameView = (Seq<u8>, u32, u32, u32, u32);

pub open spec fn frame_view(f: RawFrame) -> FrameView {
    (f.px@, f.w, f.h, f.numer, f.denom)
}

/// What reading an animation gave: nothing when its decoder could not be made; else the
/// frames, none when one of them could not be read.
pub open spec fn read_view(r: Option<Option<Vec<RawFrame>>>) -> Option<Option<Seq<FrameView>>> {
    match r {
        Some(Some(v)) => Some(Some(v@.map_values(|f: RawFrame| frame_view(f)))),
        Some(None) => Some(None),
        None => None,
    }
}

/// The kind `image::guess_format` reads from the first bytes; none when it knows no format
/// by them.
pub uninterp spec fn kind_of(bytes: Seq<u8>) -> Option<Kind>;

/// The first `limit` frames of a GIF, as `image`'s GIF decoder reads them.
pub uninterp spec fn gif_read(bytes: Seq<u8>, limit: usize) -> Option<Option<Seq<FrameView>>>;

/// Whether `image`'s WebP decoder finds an animation; none when it cannot read the header.
pub uninterp spec fn webp_animated(bytes: Seq<u8>) -> Option<bool>;

/// The first `limit` frames of an animated WebP, as `image`'s WebP decoder reads them.
pub uninterp spec fn webp_read(bytes: Seq<u8>, limit: usize) -> Option<Option<Seq<FrameView>>>;

/// Whether `image`'s PNG decoder finds an APNG animation; none when it cannot read the
/// header.
pub uninterp spec fn png_animated(bytes: Seq<u8>) -> Option<bool>;

/// The first `limit` frames of an APNG, as `image`'s APNG decoder reads them.
pub uninterp spec fn apng_read(bytes: Seq<u8>, limit: usize) -> Option<Option<Seq<FrameView>>>;

/// The picture `image::load_from_memory` decodes, as RGBA8 pixels and its size.
pub uninterp spec fn still_read(bytes: Seq<u8>) -> Option<(Seq<u8>, u32, u32)>;

/// `image::guess_format`, by the kinds whose frames are read.
#[verifier::external_body]
fn guess_kind(bytes: &[u8]) -> (r: Option<Kind>)
    ensures
        r == kind_of(bytes@),
{
    match image::guess_format(bytes) {
        Ok(image::ImageFormat::Gif) => Some(Kind::Gif),
        Ok(image::ImageFormat::WebP) => Some(Kind::WebP),
        Ok(image::ImageFormat::Png) => Some(Kind::Png),
        Ok(_) => Some(Kind::Other),
        Err(_) => None,
    }
}

/// `image::codecs::gif::GifDecoder`'s first `limit` frames.
#[verifier::external_body]
fn read_gif(bytes: &[u8], limit: usize) -> (r: Option<Option<Vec<RawFrame>>>)
    ensures
        read_view(r) == gif_read(bytes@, limit),
{
    let d = image::codecs::gif::GifDecoder::new(std::io::Cursor::new(bytes)).ok()?;
    let fs: Option<Vec<image::Frame>> = d.into_frames().take(limit).collect::<Result<_, _>>().ok();
    Some(fs.map(|v| v.into_iter().map(|f| {
        let (numer, denom) = f.delay().numer_denom_ms();
        let b = f.into_buffer();
        RawFrame { w: b.width(), h: b.height(), px: b.into_raw(), numer, denom }
    }).collect()))
}

/// `image::codecs::webp::WebPDecoder::has_animation`.
#[verifier::external_body]
fn webp_is_animated(bytes: &[u8]) -> (r: Option<bool>)
    ensures
        r == webp_animated(bytes@),
{
    image::codecs::webp::WebPDecoder::new(std::io::Cursor::new(bytes)).ok().map(|d| d.has_animation())
}

/// `image::codecs::webp::WebPDecoder`'s first `limit` frames.
#[verifier::external_body]
fn read_webp(bytes: &[u8], limit: usize) -> (r: Option<Option<Vec<RawFrame>>>)
    ensures
        read_view(r) == webp_read(bytes@, limit),
{
    let d = image::codecs::webp::WebPDecoder::new(std::io::Cursor::new(bytes)).ok()?;
    let fs: Option<Vec<image::Frame>> = d.into_frames().take(limit).collect::<Result<_, _>>().ok();
    Some(fs.map(|v| v.into_iter().map(|f| {
        let (numer, denom) = f.delay().numer_denom_ms();
        let b = f.into_buffer();
        RawFrame { w: b.width(), h: b.height(), px: b.into_raw(), numer, denom }
    }).collect()))
}

/// `image::codecs::png::PngDecoder::is_apng` (which never fails in this version of the
/// crate).
#[verifier::external_body]
fn png_is_animated(bytes: &[u8]) -> (r: Option<bool>)
    ensures
        r == png_animated(bytes@),
{
    image::codecs::png::PngDecoder::new(std::io::Cursor::new(bytes)).ok().map(|d| d.is_apng().unwrap_or(false))
}

/// The first `limit` frames of `image::codecs::png::PngDecoder::apng`.
#[verifier::external_body]
fn read_apng(bytes: &[u8], limit: usize) -> (r: Option<Option<Vec<RawFrame>>>)
    ensures
        read_view(r) == apng_read(bytes@, limit),
{
    let d = image::codecs::png::PngDecoder::new(std::io::Cursor::new(bytes)).ok()?.apng().ok()?;
    let fs: Option<Vec<image::Frame>> = d.into_frames().take(limit).collect::<Result<_, _>>().ok();
    Some(fs.map(|v| v.into_iter().map(|f| {
        let (numer, denom) = f.delay().numer_denom_ms();
        let b = f.into_buffer();
        RawFrame { w: b.width(), h: b.height(), px: b.into_raw(), numer, denom }
    }).collect()))
}

/// `image::load_from_memory`, as RGBA8.
#[verifier::external_body]
fn read_still(bytes: &[u8]) -> (r: Option<(Vec<u8>, u32, u32)>)
    ensures
        match r {
            Some((px, w, h)) => still_read(bytes@) == Some((px@, w, h)),
            None => still_read(bytes@) is None,
        },
{
    let img = image::load_from_memory(bytes).ok()?.to_rgba8();
    let (w, h) = (img.width(), img.height());
    Some((img.into_raw(), w, h))
}

/// The frames of a file: nothing when its kind is unknown or its decoder could not be
/// made; else an animation's frames (at most `MAX_FRAMES`), none when it is no animation
/// (or a frame could not be read).
pub open spec fn frames_of_file(bytes: Seq<u8>) -> Option<Option<Seq<FrameView>>> {
    match kind_of(bytes) {
        None => None,
        Some(Kind::Gif) => gif_read(bytes, MAX_FRAMES),
        Some(Kind::WebP) => match webp_animated(bytes) {
            None => None,
            Some(true) => webp_read(bytes, MAX_FRAMES),
            Some(false) => Some(None),
        },
        Some(Kind::Png) => match png_animated(bytes) {
            None => None,
            Some(true) => apng_read(bytes, MAX_FRAMES),
            Some(false) => Some(None),
        },
        Some(Kind::Other) => Some(None),
    }
}

/// An image file's content: an animation's frames, each with how long it shows, or one
/// picture.
pub enum Image {
    Animation(Vec<(Vec<u8>, u32, u32, u32)>),
    Still { px: Vec<u8>, w: u32, h: u32 },
}

/// An image by its plain values.
pub enum ImageView {
    Animation(Seq<(Seq<u8>, u32, u32, u32)>),
    Still(Seq<u8>, u32, u32),
}

impl View for Image {
    type V = ImageView;

    open spec fn view(&self) -> ImageView {
        match self {
            Image::Animation(fs) => ImageView::Animation(
                fs@.map_values(|f: (Vec<u8>, u32, u32, u32)| (f.0@, f.1, f.2, f.3)),
            ),
            Image::Still { px, w, h } => ImageView::Still(px@, *w, *h),
        }
    }
}

/// What to make of the frames a file gave: more than one is an animation, each frame
/// showing for `delay_of` its delay; exactly one is a still picture; otherwise the file
/// is read as a still picture instead (`None`).
pub open spec fn chosen(frames: Option<Seq<FrameView>>) -> Option<ImageView> {
    match frames {
        Some(f) => if f.len() > 1 {
            Some(
                ImageView::Animation(
                    f.map_values(|x: FrameView| (x.0, x.1, x.2, delay_of(x.3, x.4))),
                ),
            )
        } else if f.len() == 1 {
            Some(ImageView::Still(f[0].0, f[0].1, f[0].2))
        } else {
            None
        },
        None => None,
    }
}

/// See `chosen`.
pub fn choose_image(frames: Option<Vec<RawFrame>>) -> (r: Option<Image>)
    ensures
        match r {
            Some(i) => chosen(read_frames(frames)) == Some(i@),
            None => chosen(read_frames(frames)) is None,
        },
{
    match frames {
        Some(mut f) => {
            if f.len() > 1 {
                let ghost v = f@;
                let mut out: Vec<(Vec<u8>, u32, u32, u32)> = Vec::new();
                let n = f.len();
                while f.len() > 0
                    invariant
                        f.len() + out.len() == n,
                        n == v.len(),
                        f@ == v.skip(out.len() as int),
                        forall|k: int| 0 <= k < out.len() ==> (#[trigger] out@[k]).0@ == v[k].px@ && out@[k].1
                            == v[k].w && out@[k].2 == v[k].h && out@[k].3 == delay_of(v[k].numer, v[k].denom),
                    decreases f.len(),
                {
                    let x = f.remove(0);
                    let d = frame_delay(x.numer, x.denom);
                    out.push((x.px, x.w, x.h, d));
                    assert(f@ =~= v.skip(out.len() as int));
                }
                let r = Image::Animation(out);
                proof {
                    let a = out@.map_values(|f: (Vec<u8>, u32, u32, u32)| (f.0@, f.1, f.2, f.3));
                    let b = v.map_values(|f: RawFrame| frame_view(f)).map_values(
                        |x: FrameView| (x.0, x.1, x.2, delay_of(x.3, x.4)),
                    );
                    assert(a =~= b);
                }
                Some(r)
            } else if f.len() == 1 {
                let ghost v = f@;
                let x = f.remove(0);
                assert(x == v[0]);
                Some(Image::Still { px: x.px, w: x.w, h: x.h })
            } else {
                None
            }
        },
        None => None,
    }
}

/// Frames by their plain values.
pub open spec fn read_frames(frames: Option<Vec<RawFrame>>) -> Option<Seq<FrameView>> {
    match frames {
        Some(v) => Some(v@.map_values(|f: RawFrame| frame_view(f))),
        None => None,
    }
}

/// What an image file decodes to: an animated GIF, WebP or APNG keeps its frames (at most
/// `MAX_FRAMES`); a single frame, or any other file `image` reads, is a still picture;
/// nothing when the kind is unknown or a decoder cannot start.
pub open spec fn decoded_image(bytes: Seq<u8>) -> Option<ImageView> {
    match frames_of_file(bytes) {
        None => None,
        Some(fr) => match chosen(fr) {
            Some(i) => Some(i),
            None => match still_read(bytes) {
                Some((px, w, h)) => Some(ImageView::Still(px, w, h)),
                None => None,
            },
        },
    }
}

/// Decodes an image file from its bytes; see `decoded_image`.
pub fn decode_bytes(bytes: &[u8]) -> (r: Option<Image>)
    ensures
        match r {
            Some(i) => decoded_image(bytes@) == Some(i@),
            None => decoded_image(bytes@) is None,
        },
{
    let read = match guess_kind(bytes) {
        None => return None,
        Some(Kind::Gif) => read_gif(bytes, MAX_FRAMES),
        Some(Kind::WebP) => match webp_is_animated(bytes) {
            None => return None,
            Some(true) => read_webp(bytes, MAX_FRAMES),
            Some(false) => Some(None),
        },
        Some(Kind::Png) => match png_is_animated(bytes) {
            None => return None,
            Some(true) => read_apng(bytes, MAX_FRAMES),
            Some(false) => Some(None),
        },
        Some(Kind::Other) => Some(None),
    };
    let frames = match read {
        None => return None,
        Some(fr) => fr,
    };
    proof {
        assert(read_frames(frames) == match read_view(read) {
            Some(x) => x,
            None => None,
        });
    }
    match choose_image(frames) {
        Some(i) => Some(i),
        None => match read_still(bytes) {
            Some((px, w, h)) => Some(Image::Still { px, w, h }),
            None => None,
        },
    }
}

} // verus!
