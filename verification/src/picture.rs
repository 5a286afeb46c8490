//! Pictures of pages: decoding, resizing, cropping, side-by-side joining and
//! JPEG encoding, done by the `image` crate on the library's own pixel model.

use vstd::prelude::*;
use image::DynamicImage;

verus! {

/// Declares `image::DynamicImage`, opaque, to Verus.
#[verifier::external_type_specification]
#[verifier::external_body]
pub struct ExDynamicImage(DynamicImage);

/// The width and height that `image::load_from_memory` decodes `bytes` to, or
/// none when it refuses them.
pub uninterp spec fn decoded_size(bytes: Seq<u8>) -> Option<(u32, u32)>;

/// The bytes `image`'s `JpegEncoder` writes for an 8-bit RGB picture of the
/// given size, pixel data and quality.
pub uninterp spec fn jpeg_encoded(width: u32, height: u32, data: Seq<u8>, quality: u8) -> Seq<u8>;

/// A resampling filter of `image::imageops::FilterType`.
#[derive(Clone, Copy, Debug, PartialEq, Eq, Structural)]
pub enum Filter {
    /// Nearest neighbour.
    Nearest,
    /// Linear (triangle).
    Triangle,
    /// Cubic (Catmull-Rom).
    CatmullRom,
    /// Gaussian.
    Gaussian,
    /// Lanczos with window 3.
    Lanczos3,
}

/// What a picture is to the library: its size, the bytes it was decoded
/// from, and the filter it was then resized with (to that size), if any.
pub struct PictureView {
    pub width: u32,
    pub height: u32,
    pub origin: Seq<u8>,
    pub resized: Option<Filter>,
}

/// The 8-bit RGB pixels, three bytes per pixel row after row, that
/// `DynamicImage::to_rgb8` gives for the picture `image::load_from_memory`
/// decodes from `bytes`.
pub uninterp spec fn rgb_pixels(bytes: Seq<u8>) -> Seq<u8>;

/// `v` can be the RGB content of the picture `p` describes: it has the
/// picture's size, and, for a picture as decoded, its pixels are the decoded
/// ones. A resized picture's pixels are left open: resampling computes in
/// floating point (Lanczos3 calls `f32::sin`, whose results std does not fix).
pub open spec fn pixels_fit(p: PictureView, v: RgbView) -> bool {
    &&& v.width == p.width
    &&& v.height == p.height
    &&& v.wf()
    &&& p.resized is None ==> v.data == rgb_pixels(p.origin)
}

/// A decoded page picture, in whatever pixel format it was stored, with its
/// size and where it came from.
pub struct Picture {
    image: DynamicImage,
    width: u32,
    height: u32,
    origin: Ghost<Seq<u8>>,
    resized: Ghost<Option<Filter>>,
}

impl View for Picture {
    type V = PictureView;

    closed spec fn view(&self) -> PictureView {
        PictureView {
            width: self.width,
            height: self.height,
            origin: self.origin@,
            resized: self.resized@,
        }
    }
}

impl Picture {
    /// Width in pixels.
    pub open spec fn w(&self) -> u32 {
        self@.width
    }

    /// Height in pixels.
    pub open spec fn h(&self) -> u32 {
        self@.height
    }

    /// Width in pixels.
    pub fn width(&self) -> (r: u32)
        ensures
            r == self.w(),
    {
        self.width
    }

    /// Height in pixels.
    pub fn height(&self) -> (r: u32)
        ensures
            r == self.h(),
    {
        self.height
    }

    /// The image value the picture holds.
    pub closed spec fn held_image(&self) -> DynamicImage {
        self.image
    }

    /// The decoded picture itself, for display.
    pub fn image(&self) -> (r: &DynamicImage)
        ensures
            *r == self.held_image(),
    {
        &self.image
    }
}

/// The abstract content of an 8-bit RGB picture: its size and its rows of
/// pixels, three bytes (red, green, blue) per pixel.
pub struct RgbView {
    pub width: nat,
    pub height: nat,
    pub data: Seq<u8>,
}

impl RgbView {
    /// The data holds exactly three bytes per pixel.
    pub open spec fn wf(self) -> bool {
        self.data.len() == 3 * self.width * self.height
    }

    /// Channel `c` of the pixel at column `x`, row `y`.
    pub open spec fn at(self, x: int, y: int, c: int) -> u8 {
        self.data[(y * self.width + x) * 3 + c]
    }
}

/// An 8-bit RGB picture with its pixels as plain bytes.
pub struct Rgb8 {
    width: u32,
    height: u32,
    data: Vec<u8>,
}

impl View for Rgb8 {
    type V = RgbView;

    closed spec fn view(&self) -> RgbView {
        RgbView { width: self.width as nat, height: self.height as nat, data: self.data@ }
    }
}

impl Rgb8 {
    /// Width in pixels.
    pub fn width(&self) -> (r: u32)
        ensures
            r == self@.width,
    {
        self.width
    }

    /// Height in pixels.
    pub fn height(&self) -> (r: u32)
        ensures
            r == self@.height,
    {
        self.height
    }

    /// The pixel bytes, row after row, three per pixel.
    pub fn data(&self) -> (r: &Vec<u8>)
        ensures
            r@ == self@.data,
    {
        &self.data
    }
}

/// Channel `c` at `(x, y)` of `l` and `r` put side by side: `l` on the left,
/// `r` on the right, black below a picture that is shorter than the canvas.
pub open spec fn joined_at(l: RgbView, r: RgbView, x: int, y: int, c: int) -> u8 {
    if x < l.width {
        if y < l.height {
            l.at(x, y, c)
        } else {
            0
        }
    } else {
        if y < r.height {
            r.at(x - l.width, y, c)
        } else {
            0
        }
    }
}

/// `out` is `l` and `r` side by side on a canvas `out.height` rows high.
pub open spec fn is_joined(l: RgbView, r: RgbView, out: RgbView) -> bool {
    &&& out.width == l.width + r.width
    &&& out.wf()
    &&& forall|x: int, y: int, c: int|
        0 <= x < out.width && 0 <= y < out.height && 0 <= c < 3 ==> #[trigger] out.at(x, y, c)
            == joined_at(l, r, x, y, c)
}

/// Two pictures have the same size and the same pixels.
pub open spec fn same_picture(a: RgbView, b: RgbView) -> bool {
    &&& a.width == b.width
    &&& a.height == b.height
    &&& forall|x: int, y: int, c: int|
        0 <= x < a.width && 0 <= y < a.height && 0 <= c < 3 ==> #[trigger] a.at(x, y, c) == b.at(
            x,
            y,
            c,
        )
}

/// Where a crop starting at `start` along a side of `size` pixels begins.
pub open spec fn crop_start(size: nat, start: nat) -> nat {
    if start < size {
        start
    } else {
        size
    }
}

/// How long a crop of `len` pixels starting at `start` along a side of `size`
/// pixels is, once clipped to the picture.
pub open spec fn crop_len(size: nat, start: nat, len: nat) -> nat {
    let s = crop_start(size, start);
    if len < size - s {
        len
    } else {
        (size - s) as nat
    }
}

/// `out` is the part of `src` that starts at column `x`, row `y` and is `w`
/// columns wide and `h` rows high, clipped to `src`.
pub open spec fn is_crop(src: RgbView, x: nat, y: nat, w: nat, h: nat, out: RgbView) -> bool {
    let cx = crop_start(src.width, x);
    let cy = crop_start(src.height, y);
    &&& out.width == crop_len(src.width, x, w)
    &&& out.height == crop_len(src.height, y, h)
    &&& out.wf()
    &&& forall|px: int, py: int, c: int|
        0 <= px < out.width && 0 <= py < out.height && 0 <= c < 3 ==> #[trigger] out.at(px, py, c)
            == src.at(cx + px, cy + py, c)
}

/// Decodes a page with `image::load_from_memory` (format guessed from the
/// bytes). The contract claims that success and the decoded size are
/// `decoded_size(bytes)`, and that the picture is the one decoded from
/// `bytes` (its pixels are named by `rgb_pixels`).
#[verifier::external_body]
fn load_picture(bytes: &[u8]) -> (r: Result<Picture, String>)
    ensures
        match r {
            Ok(p) => decoded_size(bytes@) == Some((p.w(), p.h())) && p@.origin == bytes@
                && p@.resized is None,
            Err(_) => decoded_size(bytes@) is None,
        },
{
    match image::load_from_memory(bytes) {
        Ok(img) => {
            let (width, height) = (img.width(), img.height());
            Ok(Picture { image: img, width, height, origin: Ghost(bytes@), resized: Ghost(None) })
        },
        Err(e) => Err(e.to_string()),
    }
}

/// Decodes a page's bytes into a picture; the error is the decoder's message.
pub fn decode_picture(bytes: &[u8]) -> (r: Result<Picture, String>)
    ensures
        match r {
            Ok(p) => decoded_size(bytes@) == Some((p.w(), p.h())) && p@.origin == bytes@
                && p@.resized is None,
            Err(_) => decoded_size(bytes@) is None,
        },
{
    load_picture(bytes)
}

/// `DynamicImage::to_rgb8`: the picture converted pixel by pixel to 8-bit RGB.
/// The contract claims the size is kept, and, for a picture as decoded, names
/// the pixels `rgb_pixels` of the bytes it was decoded from; of a resized
/// picture it states the size only.
#[verifier::external_body]
fn to_rgb8(p: &Picture) -> (r: Rgb8)
    requires
        3 * p.w() * p.h() <= usize::MAX,
    ensures
        r@.width == p.w(),
        r@.height == p.h(),
        r@.wf(),
        p@.resized is None ==> r@.data == rgb_pixels(p@.origin),
{
    Rgb8 { width: p.width, height: p.height, data: p.image.to_rgb8().into_raw() }
}

/// `DynamicImage::resize_exact` with the given filter, on a picture as
/// decoded. The contract claims the result is that picture resized with that
/// filter to exactly the requested size (its pixels are named by
/// `rgb_pixels`).
#[verifier::external_body]
fn resize_exact(p: &Picture, w: u32, h: u32, filter: Filter) -> (r: Picture)
    requires
        p@.resized is None,
        4 * p.w() * h <= usize::MAX,
        4 * w * h <= usize::MAX,
    ensures
        r@ == (PictureView { width: w, height: h, origin: p@.origin, resized: Some(filter) }),
{
    let f = match filter {
        Filter::Nearest => image::imageops::FilterType::Nearest,
        Filter::Triangle => image::imageops::FilterType::Triangle,
        Filter::CatmullRom => image::imageops::FilterType::CatmullRom,
        Filter::Gaussian => image::imageops::FilterType::Gaussian,
        Filter::Lanczos3 => image::imageops::FilterType::Lanczos3,
    };
    let img = p.image.resize_exact(w, h, f);
    Picture { image: img, width: w, height: h, origin: Ghost(p.origin@), resized: Ghost(Some(filter)) }
}

/// `image::imageops::crop_imm` on an RGB buffer: the part starting at `(x, y)`
/// of size `w` x `h`, clipped to the picture, pixel for pixel.
#[verifier::external_body]
fn crop_rgb8(img: &Rgb8, x: u32, y: u32, w: u32, h: u32) -> (r: Rgb8)
    requires
        img@.wf(),
    ensures
        is_crop(img@, x as nat, y as nat, w as nat, h as nat, r@),
{
    let buf: image::RgbImage = image::ImageBuffer::from_raw(img.width, img.height, img.data.clone()).unwrap();
    let out = image::imageops::crop_imm(&buf, x, y, w, h).to_image();
    Rgb8 { width: out.width(), height: out.height(), data: out.into_raw() }
}

/// `image::imageops::overlay` of RGB buffers at `(x, y)`: every pixel of
/// `top` that falls inside `canvas` replaces the canvas pixel under it.
#[verifier::external_body]
fn overlay_rgb8(canvas: &mut Rgb8, top: &Rgb8, x: u32, y: u32)
    requires
        old(canvas)@.wf(),
        top@.wf(),
    ensures
        final(canvas)@.width == old(canvas)@.width,
        final(canvas)@.height == old(canvas)@.height,
        final(canvas)@.wf(),
        forall|px: int, py: int, c: int|
            0 <= px < old(canvas)@.width && 0 <= py < old(canvas)@.height && 0 <= c < 3
                ==> #[trigger] final(canvas)@.at(px, py, c) == if x <= px < x + top@.width && y
                <= py < y + top@.height {
                top@.at(px - x, py - y, c)
            } else {
                old(canvas)@.at(px, py, c)
            },
{
    let mut bottom: image::RgbImage = image::ImageBuffer::from_raw(canvas.width, canvas.height, std::mem::take(&mut canvas.data)).unwrap();
    let upper: image::RgbImage = image::ImageBuffer::from_raw(top.width, top.height, top.data.clone()).unwrap();
    image::imageops::overlay(&mut bottom, &upper, x as i64, y as i64);
    canvas.data = bottom.into_raw();
}

/// A picture of this size can be written as JPEG: each side between 1 and
/// 65535 pixels.
pub open spec fn jpeg_fits(width: nat, height: nat) -> bool {
    1 <= width <= 65535 && 1 <= height <= 65535
}

/// Encodes an RGB picture as JPEG with `image`'s `JpegEncoder` at the given
/// quality, into an in-memory buffer. The encoder refuses a size out of
/// `jpeg_fits` before writing anything, and otherwise only fails when writing
/// fails, which an in-memory buffer does not; the contract claims it succeeds
/// exactly on `jpeg_fits`, with the bytes `jpeg_encoded(..)` of the picture.
#[verifier::external_body]
fn encode_jpeg(img: &Rgb8, quality: u8) -> (r: Result<Vec<u8>, String>)
    requires
        img@.wf(),
    ensures
        r is Ok <==> jpeg_fits(img@.width, img@.height),
        r matches Ok(b) ==> b@ == jpeg_encoded(img@.width as u32, img@.height as u32, img@.data, quality),
{
    let buf: image::RgbImage = image::ImageBuffer::from_raw(img.width, img.height, img.data.clone()).unwrap();
    let mut bytes: Vec<u8> = Vec::new();
    let res = image::codecs::jpeg::JpegEncoder::new_with_quality(&mut bytes, quality).encode_image(&buf);
    match res {
        Ok(()) => Ok(bytes),
        Err(e) => Err(e.to_string()),
    }
}

/// The byte of channel `c` of pixel `(x, y)` lies inside the pixel data.
pub proof fn lemma_pixel_index(w: nat, h: nat, x: int, y: int, c: int)
    requires
        0 <= x < w,
        0 <= y < h,
        0 <= c < 3,
    ensures
        0 <= (y * w + x) * 3 + c < 3 * w * h,
{
    assert(0 <= (y * w + x) * 3 + c < 3 * w * h) by (nonlinear_arith)
        requires
            0 <= x < w,
            0 <= y < h,
            0 <= c < 3,
    ;
}

/// An all-black RGB picture, as `RgbImage::new` makes it.
pub fn blank_rgb8(w: u32, h: u32) -> (r: Rgb8)
    requires
        3 * w * h <= usize::MAX,
    ensures
        r@.width == w,
        r@.height == h,
        r@.wf(),
        forall|x: int, y: int, c: int|
            0 <= x < w && 0 <= y < h && 0 <= c < 3 ==> #[trigger] r@.at(x, y, c) == 0,
{
    let n: usize = if w == 0 || h == 0 {
        assert(3 * w * h == 0) by (nonlinear_arith)
            requires
                w == 0 || h == 0,
        ;
        0
    } else {
        assert(3 * w <= 3 * w * h && 3 * w * h <= usize::MAX) by (nonlinear_arith)
            requires
                h >= 1,
                3 * w * h <= usize::MAX,
        ;
        3 * (w as usize) * (h as usize)
    };
    let mut data: Vec<u8> = Vec::new();
    let mut i: usize = 0;
    while i < n
        invariant
            i <= n,
            data@.len() == i,
            forall|k: int| 0 <= k < i ==> data@[k] == 0,
        decreases n - i,
    {
        data.push(0);
        i = i + 1;
    }
    let r = Rgb8 { width: w, height: h, data };
    proof {
        assert forall|x: int, y: int, c: int|
            0 <= x < w && 0 <= y < h && 0 <= c < 3 implies #[trigger] r@.at(x, y, c) == 0 by {
            lemma_pixel_index(w as nat, h as nat, x, y, c);
        }
    }
    r
}

/// Puts `l` and `r` side by side on a black canvas `h` rows high.
pub fn join_side_by_side(l: &Rgb8, r: &Rgb8, h: u32) -> (out: Rgb8)
    requires
        l@.wf(),
        r@.wf(),
        l@.width + r@.width <= u32::MAX,
        3 * (l@.width + r@.width) * h <= usize::MAX,
    ensures
        is_joined(l@, r@, out@),
        out@.height == h,
{
    let w = l.width + r.width;
    let mut canvas = blank_rgb8(w, h);
    let ghost blank = canvas@;
    overlay_rgb8(&mut canvas, l, 0, 0);
    let ghost first = canvas@;
    overlay_rgb8(&mut canvas, r, l.width, 0);
    proof {
        assert forall|x: int, y: int, c: int|
            0 <= x < canvas@.width && 0 <= y < canvas@.height && 0 <= c < 3 implies #[trigger] canvas@.at(
            x,
            y,
            c,
        ) == joined_at(l@, r@, x, y, c) by {
            assert(first.at(x, y, c) == if 0 <= x < l@.width && 0 <= y < l@.height {
                l@.at(x, y, c)
            } else {
                blank.at(x, y, c)
            });
            assert(blank.at(x, y, c) == 0);
        }
    }
    canvas
}

/// The width a picture `w` x `h0` gets when scaled to `h` rows: `w * h / h0`,
/// at least 1, cut to 32 bits.
pub open spec fn scaled_width(w: u32, h0: u32, h: u32) -> u32 {
    let q = (w as nat * h as nat) / (h0 as nat);
    (if q >= 1 {
        q
    } else {
        1
    }) as u32
}

/// The size of a `w` x `h0` picture brought to `h` rows: unchanged when it
/// already has `h` rows or has none, else `scaled_width` x `h`.
pub open spec fn height_matched(w: u32, h0: u32, h: u32) -> (u32, u32) {
    if h0 == h || h0 == 0 {
        (w, h0)
    } else {
        (scaled_width(w, h0, h), h)
    }
}

/// Bringing a `w` x `h0` picture to `h` rows stays within memory limits.
pub open spec fn height_match_fits(w: u32, h0: u32, h: u32) -> bool {
    h0 == h || h0 == 0 || (4 * w * h <= usize::MAX && 4 * scaled_width(w, h0, h) * h
        <= usize::MAX)
}

/// The picture `p` describes brought to `h` rows, keeping its proportions:
/// itself when it already has `h` rows or has none, else resized to
/// `height_matched`.
pub open spec fn matched_view(p: PictureView, h: u32) -> PictureView {
    if p.height == h || p.height == 0 {
        p
    } else {
        PictureView {
            width: scaled_width(p.width, p.height, h),
            height: h,
            origin: p.origin,
            resized: Some(Filter::Lanczos3),
        }
    }
}

/// Brings a decoded picture to `h` rows, keeping its proportions (Lanczos3).
pub fn to_height(img: Picture, h: u32) -> (r: Picture)
    requires
        img@.resized is None,
        height_match_fits(img.w(), img.h(), h),
    ensures
        r@ == matched_view(img@, h),
        (r.w(), r.h()) == height_matched(img.w(), img.h(), h),
{
    if img.height == h || img.height == 0 {
        img
    } else {
        assert((img.width as nat) * (h as nat) <= u64::MAX) by (nonlinear_arith)
            requires
                img.width <= u32::MAX,
                h <= u32::MAX,
        ;
        let q: u64 = ((img.width as u64) * (h as u64)) / (img.height as u64);
        let q1: u64 = if q >= 1 {
            q
        } else {
            1
        };
        let w: u32 = #[verifier::truncate] (q1 as u32);
        assert(w == scaled_width(img.width, img.height, h));
        resize_exact(&img, w, h, Filter::Lanczos3)
    }
}

/// Joining two pictures side by side stays within memory and 32-bit limits.
pub open spec fn concat_fits(lw: u32, lh: u32, rw: u32, rh: u32) -> bool {
    let h = joined_height(lh, rh);
    let (lw2, lh2) = height_matched(lw, lh, h);
    let (rw2, rh2) = height_matched(rw, rh, h);
    &&& height_match_fits(lw, lh, h)
    &&& height_match_fits(rw, rh, h)
    &&& 3 * lw2 * lh2 <= usize::MAX
    &&& 3 * rw2 * rh2 <= usize::MAX
    &&& lw2 + rw2 <= u32::MAX
    &&& 3 * (lw2 + rw2) * h <= usize::MAX
}

/// The height of two pictures joined: the larger height, at least 1.
pub open spec fn joined_height(lh: u32, rh: u32) -> u32 {
    let m = if lh > rh {
        lh
    } else {
        rh
    };
    if m > 1 {
        m
    } else {
        1
    }
}

/// Two pictures are joined at the larger of their heights: it is at least
/// each height, and it is one of them (or 1, for two empty pictures).
pub proof fn law_joined_height_is_the_larger(lh: u32, rh: u32)
    ensures
        joined_height(lh, rh) >= lh,
        joined_height(lh, rh) >= rh,
        joined_height(lh, rh) >= 1,
        joined_height(lh, rh) == lh || joined_height(lh, rh) == rh || (lh <= 1 && rh <= 1
            && joined_height(lh, rh) == 1),
{
}

/// Joins two decoded pictures side by side (left | right) at a common height:
/// each is first brought to the larger height, keeping its proportions.
pub fn concat_h(left: Picture, right: Picture) -> (out: Rgb8)
    requires
        left@.resized is None,
        right@.resized is None,
        concat_fits(left.w(), left.h(), right.w(), right.h()),
    ensures
        ({
            let h = joined_height(left.h(), right.h());
            &&& out@.height == h
            &&& exists|l: RgbView, r: RgbView|
                pixels_fit(matched_view(left@, h), l) && pixels_fit(matched_view(right@, h), r)
                    && is_joined(l, r, out@)
        }),
{
    let lh = left.height;
    let rh = right.height;
    let m = if lh > rh {
        lh
    } else {
        rh
    };
    let h = if m > 1 {
        m
    } else {
        1
    };
    let lp = to_height(left, h);
    let rp = to_height(right, h);
    let l = to_rgb8(&lp);
    let r = to_rgb8(&rp);
    let out = join_side_by_side(&l, &r, h);
    assert(pixels_fit(matched_view(left@, h), l@) && pixels_fit(matched_view(right@, h), r@)
        && is_joined(l@, r@, out@));
    out
}

/// Cutting a page in two and joining the halves again as a double page, in
/// the same reading direction, gives back the page's pixels.
pub proof fn law_split_then_join(
    src: RgbView,
    c: nat,
    rtl: bool,
    first: RgbView,
    second: RgbView,
    out: RgbView,
)
    requires
        src.wf(),
        1 <= c < src.width,
        is_split(src, c, rtl, first, second),
        is_joined(
            if rtl {
                second
            } else {
                first
            },
            if rtl {
                first
            } else {
                second
            },
            out,
        ),
        out.height == src.height,
    ensures
        same_picture(out, src),
{
    let l = if rtl {
        second
    } else {
        first
    };
    let r = if rtl {
        first
    } else {
        second
    };
    assert(is_crop(src, 0, 0, c, src.height, l));
    assert(is_crop(src, c, 0, (src.width - c) as nat, src.height, r));
    assert forall|x: int, y: int, ch: int|
        0 <= x < out.width && 0 <= y < out.height && 0 <= ch < 3 implies #[trigger] out.at(
        x,
        y,
        ch,
    ) == src.at(x, y, ch) by {
        assert(out.at(x, y, ch) == joined_at(l, r, x, y, ch));
        if x < c {
            assert(l.at(x, y, ch) == src.at(0 + x, 0 + y, ch));
        } else {
            assert(r.at(x - c, y, ch) == src.at(c + (x - c), 0 + y, ch));
        }
    }
}

/// `height_matched`, computed.
fn height_matched_exec(w: u32, h0: u32, h: u32) -> (r: (u32, u32))
    ensures
        r == height_matched(w, h0, h),
{
    if h0 == h || h0 == 0 {
        (w, h0)
    } else {
        assert((w as nat) * (h as nat) <= u64::MAX) by (nonlinear_arith)
            requires
                w <= u32::MAX,
                h <= u32::MAX,
        ;
        let q: u64 = ((w as u64) * (h as u64)) / (h0 as u64);
        let q1: u64 = if q >= 1 {
            q
        } else {
            1
        };
        (#[verifier::truncate] (q1 as u32), h)
    }
}

/// Whether `k * a * b` stays within `usize`.
fn product_fits(k: u32, a: u32, b: u32) -> (r: bool)
    requires
        k <= 4,
    ensures
        r == (k * a * b <= usize::MAX),
{
    assert((k as nat) * (a as nat) <= 4 * 0x1_0000_0000 && (k as nat) * (a as nat) * (b as nat)
        <= 4 * 0x1_0000_0000 * 0x1_0000_0000) by (nonlinear_arith)
        requires
            k <= 4,
            a <= u32::MAX,
            b <= u32::MAX,
    ;
    let p: u128 = (k as u128) * (a as u128) * (b as u128);
    p <= (usize::MAX as u128)
}

/// Whether bringing a `w` x `h0` picture to `h` rows stays within limits.
fn height_match_fits_exec(w: u32, h0: u32, h: u32) -> (r: bool)
    ensures
        r == height_match_fits(w, h0, h),
{
    if h0 == h || h0 == 0 {
        true
    } else {
        let (sw, _) = height_matched_exec(w, h0, h);
        product_fits(4, w, h) && product_fits(4, sw, h)
    }
}

/// Whether two pictures can be joined side by side within the limits.
pub fn concat_fits_exec(lw: u32, lh: u32, rw: u32, rh: u32) -> (r: bool)
    ensures
        r == concat_fits(lw, lh, rw, rh),
{
    let m = if lh > rh {
        lh
    } else {
        rh
    };
    let h = if m > 1 {
        m
    } else {
        1
    };
    let (lw2, lh2) = height_matched_exec(lw, lh, h);
    let (rw2, rh2) = height_matched_exec(rw, rh, h);
    if !height_match_fits_exec(lw, lh, h) || !height_match_fits_exec(rw, rh, h) {
        return false;
    }
    if !product_fits(3, lw2, lh2) || !product_fits(3, rw2, rh2) {
        return false;
    }
    if lw2 > u32::MAX - rw2 {
        return false;
    }
    let total: u32 = lw2 + rw2;
    product_fits(3, total, h)
}

/// Where a page is cut in two: `cut` kept at least one column from either edge.
pub open spec fn clamped_cut(cut: u32, w: u32) -> u32 {
    if cut < 1 {
        1
    } else if cut > w - 1 {
        (w - 1) as u32
    } else {
        cut
    }
}

/// `first` and `second`, read in this order, are the two halves of `src` cut
/// at column `c`: the left half first, or the right half first when pages
/// read right to left.
pub open spec fn is_split(src: RgbView, c: nat, rtl: bool, first: RgbView, second: RgbView) -> bool {
    let left_ok = |v: RgbView| is_crop(src, 0, 0, c, src.height, v);
    let right_ok = |v: RgbView| is_crop(src, c, 0, (src.width - c) as nat, src.height, v);
    if rtl {
        right_ok(first) && left_ok(second)
    } else {
        left_ok(first) && right_ok(second)
    }
}

/// Cuts a picture in two at column `cut` (kept off the edges), and gives the
/// halves in reading order.
pub fn split_at_cut(rgb: &Rgb8, cut: u32, rtl: bool) -> (r: (Rgb8, Rgb8))
    requires
        rgb@.wf(),
        rgb@.width >= 2,
    ensures
        is_split(rgb@, clamped_cut(cut, rgb@.width as u32) as nat, rtl, r.0@, r.1@),
{
    let w = rgb.width;
    let h = rgb.height;
    let c: u32 = if cut < 1 {
        1
    } else if cut > w - 1 {
        w - 1
    } else {
        cut
    };
    let left = crop_rgb8(rgb, 0, 0, c, h);
    let right = crop_rgb8(rgb, c, 0, w - c, h);
    if rtl {
        (right, left)
    } else {
        (left, right)
    }
}

/// A copy of an RGB picture.
pub fn copy_rgb8(rgb: &Rgb8) -> (r: Rgb8)
    ensures
        r@ == rgb@,
{
    let mut data: Vec<u8> = Vec::new();
    let mut i: usize = 0;
    while i < rgb.data.len()
        invariant
            i <= rgb.data@.len(),
            data@ =~= rgb.data@.subrange(0, i as int),
        decreases rgb.data.len() - i,
    {
        data.push(rgb.data[i]);
        i = i + 1;
    }
    assert(rgb.data@.subrange(0, rgb.data@.len() as int) =~= rgb.data@);
    Rgb8 { width: rgb.width, height: rgb.height, data }
}

/// The picture a crop selection gives: the whole picture, or the selected
/// `[x, y, w, h]` rectangle (clipped), or nothing without a selection.
pub open spec fn is_cropped_region(src: RgbView, sel: Option<[u32; 4]>, whole: bool, out: RgbView) -> bool {
    if whole {
        out == src
    } else {
        match sel {
            Some(s) => is_crop(src, s[0] as nat, s[1] as nat, s[2] as nat, s[3] as nat, out),
            None => false,
        }
    }
}

/// The size of the part `is_cropped_region` keeps of a `width` x `height`
/// picture: all of it, or the selected rectangle clipped to it.
pub open spec fn cropped_size(width: nat, height: nat, sel: Option<[u32; 4]>, whole: bool) -> (nat, nat) {
    if whole {
        (width, height)
    } else {
        match sel {
            Some(s) => (crop_len(width, s[0] as nat, s[2] as nat), crop_len(height, s[1] as nat, s[3] as nat)),
            None => (0, 0),
        }
    }
}

/// A selection `[x, y, w, h]` lying inside the picture is cut exactly: the
/// part kept is `w` columns wide and `h` rows high, and its pixel `(px, py)`
/// is the picture's pixel `(x + px, y + py)`; and its size is what
/// `cropped_size` gives. The whole picture is kept as it is.
pub proof fn law_selection_is_cut_exactly(src: RgbView, s: [u32; 4], out: RgbView)
    requires
        s[0] + s[2] <= src.width,
        s[1] + s[3] <= src.height,
        is_cropped_region(src, Some(s), false, out),
    ensures
        out.width == s[2],
        out.height == s[3],
        cropped_size(src.width, src.height, Some(s), false) == (s[2] as nat, s[3] as nat),
        forall|px: int, py: int, c: int|
            0 <= px < s[2] && 0 <= py < s[3] && 0 <= c < 3 ==> #[trigger] out.at(px, py, c) == src.at(
                s[0] + px,
                s[1] + py,
                c,
            ),
{
}

/// A selection is clipped to the picture: the part kept never reaches past
/// the picture's right or bottom edge, is never wider or higher than
/// selected, and is cut short only where it meets the edge.
pub proof fn law_selection_is_clipped(src: RgbView, s: [u32; 4], out: RgbView)
    requires
        is_cropped_region(src, Some(s), false, out),
    ensures
        out.width <= s[2],
        out.height <= s[3],
        s[0] <= src.width ==> s[0] + out.width <= src.width && (out.width == s[2] || s[0]
            + out.width == src.width),
        s[1] <= src.height ==> s[1] + out.height <= src.height && (out.height == s[3] || s[1]
            + out.height == src.height),
        s[0] >= src.width ==> out.width == 0,
        s[1] >= src.height ==> out.height == 0,
{
}

/// Keeping the whole picture keeps it as it is, whatever the selection.
pub proof fn law_whole_picture_is_kept(src: RgbView, sel: Option<[u32; 4]>, out: RgbView)
    requires
        is_cropped_region(src, sel, true, out),
    ensures
        out == src,
        cropped_size(src.width, src.height, sel, true) == (src.width, src.height),
{
}

/// Cuts the part of a page kept as cover: the whole picture, or the selected
/// rectangle; none without a selection.
pub fn crop_region(rgb: &Rgb8, sel: Option<[u32; 4]>, whole: bool) -> (r: Option<Rgb8>)
    requires
        rgb@.wf(),
    ensures
        r is None <==> (!whole && sel is None),
        r matches Some(out) ==> is_cropped_region(rgb@, sel, whole, out@),
{
    if whole {
        Some(copy_rgb8(rgb))
    } else {
        match sel {
            Some(s) => Some(crop_rgb8(rgb, s[0], s[1], s[2], s[3])),
            None => None,
        }
    }
}

/// Converts a page picture to 8-bit RGB.
pub fn picture_rgb8(p: &Picture) -> (r: Rgb8)
    requires
        3 * p.w() * p.h() <= usize::MAX,
    ensures
        pixels_fit(p@, r@),
{
    to_rgb8(p)
}

/// Encodes an RGB picture as JPEG; it fails, with the encoder's message,
/// exactly when a side is 0 or over 65535 pixels.
pub fn jpeg_of(img: &Rgb8, quality: u8) -> (r: Result<Vec<u8>, String>)
    requires
        img@.wf(),
    ensures
        r is Ok <==> jpeg_fits(img@.width, img@.height),
        r matches Ok(b) ==> b@ == jpeg_encoded(img@.width as u32, img@.height as u32, img@.data, quality),
{
    encode_jpeg(img, quality)
}

} // verus!
