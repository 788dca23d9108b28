//! Raster images: decoding, the size that fits the reader's screen,
//! brightness, the test for decorative images, and encoding.
//!
//! Pixels are held as plain bytes, three per pixel (red, green, blue),
//! row by row. The codecs and the resampling kernel are those of the
//! `image` crate; everything that is decided about an image is decided
//! here.

use crate::config::{FilterKind, ImageFormat, ImageHandling, BRIGHTNESS_ONE};
use vstd::prelude::*;

verus! {

/// A decoded image.
pub struct Raster {
    pub width: u32,
    pub height: u32,
    pub pixels: Vec<u8>,
}

/// The mathematical content of a [`Raster`].
pub struct RasterModel {
    pub width: u32,
    pub height: u32,
    pub pixels: Seq<u8>,
}

impl View for Raster {
    type V = RasterModel;

    open spec fn view(&self) -> RasterModel {
        RasterModel { width: self.width, height: self.height, pixels: self.pixels@ }
    }
}

impl RasterModel {
    /// Both sides are positive and there are three bytes for each pixel.
    pub open spec fn well_formed(self) -> bool {
        &&& self.width >= 1
        &&& self.height >= 1
        &&& self.pixels.len() == 3 * self.width * self.height
    }
}

/// What `image::load_from_memory` followed by `DynamicImage::into_rgb8`
/// yields for these bytes: width, height and the raw buffer, or `None`
/// where the bytes are no image that it can read.
pub uninterp spec fn decoded_image(data: Seq<u8>) -> Option<(u32, u32, Seq<u8>)>;

/// What `image::imageops::resize` yields, as a raw buffer, for an RGB
/// image of the given size and the new size with the given kernel.
pub uninterp spec fn resampled_image(
    width: u32,
    height: u32,
    pixels: Seq<u8>,
    new_width: u32,
    new_height: u32,
    filter: FilterKind,
) -> Seq<u8>;

/// The file that `image::codecs::jpeg::JpegEncoder` writes for an RGB
/// image at the given quality, or `None` where it reports an error.
pub uninterp spec fn jpeg_image(width: u32, height: u32, pixels: Seq<u8>, quality: u8) -> Option<
    Seq<u8>,
>;

/// The file that `image::codecs::png::PngEncoder` writes for an RGB
/// image, or `None` where it reports an error.
pub uninterp spec fn png_image(width: u32, height: u32, pixels: Seq<u8>) -> Option<Seq<u8>>;

/// Calls `image::load_from_memory`, which guesses the format from the
/// bytes themselves, and flattens the result to 8-bit RGB with
/// `DynamicImage::into_rgb8`. Nothing is claimed of the result but that
/// it is the one these bytes always give.
#[verifier::external_body]
fn decode_rgb(data: &[u8]) -> (res: Option<(u32, u32, Vec<u8>)>)
    ensures
        res.is_some() == decoded_image(data@).is_some(),
        res matches Some(t) ==> decoded_image(data@) == Some((t.0, t.1, t.2@)),
{
    match image::load_from_memory(data) {
        Ok(img) => {
            let rgb = img.into_rgb8();
            Some((rgb.width(), rgb.height(), rgb.into_raw()))
        },
        Err(_) => None,
    }
}

/// Calls `image::imageops::resize` on an RGB image. The buffer must hold
/// exactly the image, and the new size must not exceed the old one, so
/// that the call can neither reject the buffer nor fail to allocate the
/// result. Nothing is claimed of the result but that it is
/// the one these arguments always give.
#[verifier::external_body]
fn resample_rgb(
    width: u32,
    height: u32,
    pixels: &[u8],
    new_width: u32,
    new_height: u32,
    filter: FilterKind,
) -> (res: Vec<u8>)
    requires
        width >= 1,
        height >= 1,
        pixels@.len() == 3 * width * height,
        1 <= new_width <= width,
        1 <= new_height <= height,
    ensures
        res@ == resampled_image(width, height, pixels@, new_width, new_height, filter),
{
    let kernel = match filter {
        FilterKind::Nearest => image::imageops::FilterType::Nearest,
        FilterKind::Triangle => image::imageops::FilterType::Triangle,
    };
    let img = image::ImageBuffer::<image::Rgb<u8>, &[u8]>::from_raw(width, height, pixels).unwrap();
    image::imageops::resize(&img, new_width, new_height, kernel).into_raw()
}

/// Calls `JpegEncoder::new_with_quality` and `JpegEncoder::encode` on
/// an RGB buffer, which must hold exactly the image: the encoder panics
/// on any other length. An error of the encoder becomes `None`.
#[verifier::external_body]
fn encode_jpeg(width: u32, height: u32, pixels: &[u8], quality: u8) -> (res: Option<Vec<u8>>)
    requires
        pixels@.len() == 3 * width * height,
    ensures
        res.is_some() == jpeg_image(width, height, pixels@, quality).is_some(),
        res matches Some(v) ==> jpeg_image(width, height, pixels@, quality) == Some(v@),
{
    let mut out: Vec<u8> = Vec::new();
    let mut encoder = image::codecs::jpeg::JpegEncoder::new_with_quality(&mut out, quality);
    match encoder.encode(pixels, width, height, image::ExtendedColorType::Rgb8) {
        Ok(()) => Some(out),
        Err(_) => None,
    }
}

/// Calls `PngEncoder::new` and `ImageEncoder::write_image` on an RGB
/// buffer, which must hold exactly the image: the encoder panics on any
/// other length. An error of the encoder becomes `None`.
#[verifier::external_body]
fn encode_png(width: u32, height: u32, pixels: &[u8]) -> (res: Option<Vec<u8>>)
    requires
        pixels@.len() == 3 * width * height,
    ensures
        res.is_some() == png_image(width, height, pixels@).is_some(),
        res matches Some(v) ==> png_image(width, height, pixels@) == Some(v@),
{
    let mut out: Vec<u8> = Vec::new();
    let encoder = image::codecs::png::PngEncoder::new(&mut out);
    match image::ImageEncoder::write_image(
        encoder,
        pixels,
        width,
        height,
        image::ExtendedColorType::Rgb8,
    ) {
        Ok(()) => Some(out),
        Err(_) => None,
    }
}

/// The image of the given size and pixels, where they make one: both
/// sides positive and three bytes for each pixel.
pub open spec fn raster_of(width: u32, height: u32, pixels: Seq<u8>) -> Option<RasterModel> {
    let r = RasterModel { width, height, pixels };
    if r.well_formed() {
        Some(r)
    } else {
        None
    }
}

/// The image that the bytes hold, where the decoder reads one and hands
/// back a buffer of the right size.
pub open spec fn decoded(data: Seq<u8>) -> Option<RasterModel> {
    match decoded_image(data) {
        Some((width, height, pixels)) => raster_of(width, height, pixels),
        None => None,
    }
}

/// The number of bytes that an RGB image of this size takes.
fn buffer_len(width: u32, height: u32) -> (n: u128)
    ensures
        n == 3 * width * height,
{
    assert(3 * width * height <= 3 * 0xFFFF_FFFF * 0xFFFF_FFFF) by (nonlinear_arith)
        requires
            0 <= width <= 0xFFFF_FFFF,
            0 <= height <= 0xFFFF_FFFF,
    ;
    assert(3 * width <= 3 * 0xFFFF_FFFF);
    3u128 * (width as u128) * (height as u128)
}

/// Makes an image of a size and a buffer of pixels, where they make
/// one: whatever hands the buffer over, the image is well formed.
pub fn raster_from(width: u32, height: u32, pixels: Vec<u8>) -> (res: Option<Raster>)
    ensures
        res.is_some() == raster_of(width, height, pixels@).is_some(),
        res matches Some(r) ==> raster_of(width, height, pixels@) == Some(r@) && r@.well_formed(),
{
    if width >= 1 && height >= 1 && pixels.len() as u128 == buffer_len(width, height) {
        Some(Raster { width, height, pixels })
    } else {
        None
    }
}

/// Decodes an image, whatever its format is said to be.
pub fn decode(data: &[u8]) -> (res: Option<Raster>)
    ensures
        res.is_some() == decoded(data@).is_some(),
        res matches Some(r) ==> decoded(data@) == Some(r@) && r@.well_formed(),
{
    match decode_rgb(data) {
        Some((width, height, pixels)) => raster_from(width, height, pixels),
        None => None,
    }
}

/// No less than one.
pub open spec fn at_least_one(x: int) -> int {
    if x < 1 {
        1
    } else {
        x
    }
}

/// The size to which an image of `w` by `h` pixels is brought so that it
/// fits `max_w` by `max_h`: its own size where it fits already (nothing
/// is ever enlarged), else the largest size of its proportions that
/// fits, rounded down and never below one pixel.
pub open spec fn fitted(w: int, h: int, max_w: int, max_h: int) -> (int, int) {
    if w <= max_w && h <= max_h {
        (w, h)
    } else if max_w * h <= max_h * w {
        (max_w, at_least_one(h * max_w / w))
    } else {
        (at_least_one(w * max_h / h), max_h)
    }
}

/// The two sizes have the same proportions, as nearly as whole pixels
/// allow: cross-multiplied they differ by less than one row or column.
pub open spec fn same_proportions(w: int, h: int, nw: int, nh: int) -> bool {
    let d = nw * h - nh * w;
    let m = if w >= h { w } else { h };
    -m < d < m
}

/// A fitted size is within the bounds, no larger than the image was, at
/// least one pixel each way, and of the proportions of the image.
pub proof fn lemma_fitted(w: int, h: int, max_w: int, max_h: int)
    requires
        w >= 1,
        h >= 1,
        max_w >= 1,
        max_h >= 1,
    ensures
        1 <= fitted(w, h, max_w, max_h).0 <= max_w,
        1 <= fitted(w, h, max_w, max_h).1 <= max_h,
        fitted(w, h, max_w, max_h).0 <= w,
        fitted(w, h, max_w, max_h).1 <= h,
        same_proportions(w, h, fitted(w, h, max_w, max_h).0, fitted(w, h, max_w, max_h).1),
{
    if w <= max_w && h <= max_h {
        assert(w * h - h * w == 0) by (nonlinear_arith);
    } else if max_w * h <= max_h * w {
        lemma_scaled(h, max_w, w, max_h);
        assert(w > max_w) by (nonlinear_arith)
            requires
                max_w * h <= max_h * w,
                !(w <= max_w && h <= max_h),
                w >= 1,
                h >= 1,
                max_w >= 1,
                max_h >= 1,
        ;
        let q = h * max_w / w;
        let nh = at_least_one(q);
        assert(same_proportions(w, h, max_w, nh)) by (nonlinear_arith)
            requires
                0 <= h * max_w - q * w < w,
                nh == at_least_one(q),
                h >= 1,
                max_w >= 1,
                w >= 1,
        ;
    } else {
        lemma_scaled(w, max_h, h, max_w);
        assert(h > max_h) by (nonlinear_arith)
            requires
                max_w * h > max_h * w,
                !(w <= max_w && h <= max_h),
                w >= 1,
                h >= 1,
                max_w >= 1,
                max_h >= 1,
        ;
        let q = w * max_h / h;
        let nw = at_least_one(q);
        assert(same_proportions(w, h, nw, max_h)) by (nonlinear_arith)
            requires
                0 <= w * max_h - q * h < h,
                nw == at_least_one(q),
                h >= 1,
                max_h >= 1,
                w >= 1,
        ;
    }
}

/// `a * m / b`, where `m * a <= other * b` and `m <= b` is implied.
proof fn lemma_scaled(a: int, m: int, b: int, other: int)
    requires
        a >= 1,
        m >= 1,
        b >= 1,
        other >= 1,
        m * a <= other * b,
    ensures
        0 <= a * m / b <= other,
        0 <= a * m - (a * m / b) * b < b,
        m <= b ==> a * m / b <= a,
{
    let q = a * m / b;
    assert(0 <= a * m - q * b < b && q == a * m / b) by (nonlinear_arith)
        requires
            q == a * m / b,
            b >= 1,
            a * m >= 0,
    ;
    assert(a * m >= 0) by (nonlinear_arith)
        requires
            a >= 1,
            m >= 1,
    ;
    assert(q <= other) by (nonlinear_arith)
        requires
            q * b <= a * m,
            m * a <= other * b,
            b >= 1,
    ;
    if m <= b {
        assert(q <= a) by (nonlinear_arith)
            requires
                q * b <= a * m,
                m <= b,
                a >= 1,
                b >= 1,
                m >= 1,
        ;
    }
}

/// Computes the size to which an image is brought to fit the bounds.
pub fn fit_within(w: u32, h: u32, max_w: u32, max_h: u32) -> (r: (u32, u32))
    requires
        w >= 1,
        h >= 1,
        max_w >= 1,
        max_h >= 1,
    ensures
        (r.0 as int, r.1 as int) == fitted(w as int, h as int, max_w as int, max_h as int),
{
    proof {
        lemma_fitted(w as int, h as int, max_w as int, max_h as int);
    }
    if w <= max_w && h <= max_h {
        return (w, h);
    }
    assert(max_w * h <= 0xFFFF_FFFF * 0xFFFF_FFFF && max_h * w <= 0xFFFF_FFFF * 0xFFFF_FFFF)
        by (nonlinear_arith)
        requires
            0 <= w <= 0xFFFF_FFFF,
            0 <= h <= 0xFFFF_FFFF,
            0 <= max_w <= 0xFFFF_FFFF,
            0 <= max_h <= 0xFFFF_FFFF,
    ;
    let wide: u64 = (max_w as u64) * (h as u64);
    let tall: u64 = (max_h as u64) * (w as u64);
    if wide <= tall {
        assert(h * max_w == max_w * h) by (nonlinear_arith);
        let q: u64 = wide / (w as u64);
        let nh: u32 = if q < 1 {
            1
        } else {
            q as u32
        };
        (max_w, nh)
    } else {
        assert(w * max_h == max_h * w) by (nonlinear_arith);
        let q: u64 = tall / (h as u64);
        let nw: u32 = if q < 1 {
            1
        } else {
            q as u32
        };
        (nw, max_h)
    }
}

/// One colour value multiplied by a factor in thousandths, and held
/// within the range of a byte.
pub open spec fn brightened_value(v: u8, factor: u32) -> u8 {
    let x = (v as int) * (factor as int) / (BRIGHTNESS_ONE as int);
    if x > 255 {
        255u8
    } else {
        x as u8
    }
}

/// Every colour value multiplied by the factor.
pub open spec fn brightened(pixels: Seq<u8>, factor: u32) -> Seq<u8> {
    Seq::new(pixels.len(), |i: int| brightened_value(pixels[i], factor))
}

/// A factor of one changes no pixel.
pub proof fn lemma_brightness_identity(pixels: Seq<u8>)
    ensures
        brightened(pixels, BRIGHTNESS_ONE) == pixels,
{
    assert(brightened(pixels, BRIGHTNESS_ONE) =~= pixels) by {
        assert forall|i: int| 0 <= i < pixels.len() implies brightened_value(
            pixels[i],
            BRIGHTNESS_ONE,
        ) == pixels[i] by {
            let v = pixels[i] as int;
            assert(v * 1000 / 1000 == v);
        }
    }
}

/// A brightened value is never darker than the value was when the factor
/// is at least one, and never lighter when it is at most one.
pub proof fn lemma_brightness_monotone(v: u8, factor: u32)
    ensures
        factor >= BRIGHTNESS_ONE ==> brightened_value(v, factor) >= v,
        factor <= BRIGHTNESS_ONE ==> brightened_value(v, factor) <= v,
{
    let x = (v as int) * (factor as int) / 1000;
    if factor >= 1000 {
        assert(x >= v) by (nonlinear_arith)
            requires
                x == (v as int) * (factor as int) / 1000,
                factor >= 1000,
                v >= 0,
        ;
    } else {
        assert(x <= v) by (nonlinear_arith)
            requires
                x == (v as int) * (factor as int) / 1000,
                0 <= factor <= 1000,
                v >= 0,
        ;
    }
}

fn brighten_value(v: u8, factor: u32) -> (r: u8)
    ensures
        r == brightened_value(v, factor),
{
    assert((v as int) * (factor as int) <= 255 * 0xFFFF_FFFF) by (nonlinear_arith)
        requires
            0 <= v <= 255,
            0 <= factor <= 0xFFFF_FFFF,
    ;
    let x: u64 = (v as u64) * (factor as u64) / (BRIGHTNESS_ONE as u64);
    if x > 255 {
        255
    } else {
        x as u8
    }
}

/// Multiplies every colour value by the factor, in thousandths.
pub fn brighten(pixels: &[u8], factor: u32) -> (res: Vec<u8>)
    ensures
        res@ == brightened(pixels@, factor),
{
    let mut out: Vec<u8> = Vec::new();
    let mut i: usize = 0;
    while i < pixels.len()
        invariant
            i <= pixels.len(),
            out@.len() == i,
            forall|k: int| 0 <= k < i ==> out@[k] == brightened_value(pixels@[k], factor),
        decreases pixels.len() - i,
    {
        out.push(brighten_value(pixels[i], factor));
        i += 1;
    }
    assert(out@ =~= brightened(pixels@, factor));
    out
}

/// Every pixel has the colour of the first.
pub open spec fn uniform(pixels: Seq<u8>) -> bool {
    forall|i: int| 3 <= i < pixels.len() ==> #[trigger] pixels[i] == pixels[i % 3]
}

/// The shortest side that an image of content has.
pub const MIN_CONTENT_SIDE: u32 = 8;

/// An image that carries no content: narrower or lower than
/// [`MIN_CONTENT_SIDE`], as tracking pixels and spacers are, or of one
/// colour throughout.
pub open spec fn decorative(r: RasterModel) -> bool {
    r.width < MIN_CONTENT_SIDE || r.height < MIN_CONTENT_SIDE || uniform(r.pixels)
}

fn is_uniform(pixels: &[u8]) -> (r: bool)
    ensures
        r == uniform(pixels@),
{
    let mut i: usize = 3;
    while i < pixels.len()
        invariant
            3 <= i,
            forall|k: int|
                3 <= k < i && k < pixels@.len() ==> #[trigger] pixels@[k] == pixels@[k % 3],
        decreases pixels.len() - i,
    {
        if pixels[i] != pixels[i % 3] {
            return false;
        }
        i += 1;
    }
    true
}

/// Decides whether an image carries no content.
pub fn is_decorative(r: &Raster) -> (d: bool)
    ensures
        d == decorative(r@),
{
    r.width < MIN_CONTENT_SIDE || r.height < MIN_CONTENT_SIDE || is_uniform(r.pixels.as_slice())
}

/// The image brought to the size `nw` by `nh`: itself where that is its
/// size, else what the resampling kernel makes of it; `None` where the
/// kernel hands back a buffer of another size.
pub open spec fn resized(r: RasterModel, nw: u32, nh: u32, filter: FilterKind) -> Option<
    RasterModel,
> {
    if nw == r.width && nh == r.height {
        Some(r)
    } else {
        raster_of(nw, nh, resampled_image(r.width, r.height, r.pixels, nw, nh, filter))
    }
}

/// Brings an image to a size that is no larger than its own.
pub fn resize(r: Raster, nw: u32, nh: u32, filter: FilterKind) -> (res: Option<Raster>)
    requires
        r@.well_formed(),
        1 <= nw <= r.width,
        1 <= nh <= r.height,
    ensures
        res.is_some() == resized(r@, nw, nh, filter).is_some(),
        res matches Some(out) ==> resized(r@, nw, nh, filter) == Some(out@) && out@.well_formed(),
{
    if nw == r.width && nh == r.height {
        return Some(r);
    }
    let pixels = resample_rgb(r.width, r.height, r.pixels.as_slice(), nw, nh, filter);
    raster_from(nw, nh, pixels)
}

/// The file that holds the image in the given format, where the encoder
/// writes one.
pub open spec fn encoded(r: RasterModel, format: ImageFormat) -> Option<Seq<u8>> {
    match format {
        ImageFormat::Jpeg(quality) => jpeg_image(r.width, r.height, r.pixels, quality),
        ImageFormat::Png => png_image(r.width, r.height, r.pixels),
    }
}

/// Encodes an image in the given format.
pub fn encode(r: &Raster, format: ImageFormat) -> (res: Option<Vec<u8>>)
    requires
        r@.well_formed(),
    ensures
        res.is_some() == encoded(r@, format).is_some(),
        res matches Some(v) ==> encoded(r@, format) == Some(v@),
{
    match format {
        ImageFormat::Jpeg(quality) => encode_jpeg(
            r.width,
            r.height,
            r.pixels.as_slice(),
            quality,
        ),
        ImageFormat::Png => encode_png(r.width, r.height, r.pixels.as_slice()),
    }
}

/// What the settings for images are, taken together.
#[derive(Clone, Copy)]
pub struct ImageSettings {
    pub handling: ImageHandling,
    pub format: ImageFormat,
    pub max_width: u32,
    pub max_height: u32,
    pub filter: FilterKind,
    pub brighten: u32,
}

impl ImageSettings {
    /// Both bounds are positive.
    pub open spec fn valid(self) -> bool {
        self.max_width >= 1 && self.max_height >= 1
    }
}

/// What became of one image.
pub enum Outcome {
    /// The image stays, as this file.
    Kept(Vec<u8>),
    /// The image is removed, as the policy asks.
    Removed,
    /// The image could not be decoded, scaled or encoded, and is removed.
    Failed,
}

/// The mathematical content of an [`Outcome`].
pub enum OutcomeModel {
    Kept(Seq<u8>),
    Removed,
    Failed,
}

impl View for Outcome {
    type V = OutcomeModel;

    open spec fn view(&self) -> OutcomeModel {
        match self {
            Outcome::Kept(v) => OutcomeModel::Kept(v@),
            Outcome::Removed => OutcomeModel::Removed,
            Outcome::Failed => OutcomeModel::Failed,
        }
    }
}

/// The size that a decoded image has in the book.
pub open spec fn target_size(r: RasterModel, s: ImageSettings) -> (int, int) {
    fitted(r.width as int, r.height as int, s.max_width as int, s.max_height as int)
}

/// The image as it is written to the book: brought to its target size,
/// brightened, encoded.
pub open spec fn processed(r: RasterModel, s: ImageSettings) -> Option<Seq<u8>> {
    let size = target_size(r, s);
    match resized(r, size.0 as u32, size.1 as u32, s.filter) {
        Some(small) => encoded(
            RasterModel {
                width: small.width,
                height: small.height,
                pixels: brightened(small.pixels, s.brighten),
            },
            s.format,
        ),
        None => None,
    }
}

/// What becomes of a decoded image where not every image is removed:
/// under `Filter` a decorative one is removed; any other is processed,
/// and has failed where that cannot be done.
pub open spec fn treated(r: RasterModel, s: ImageSettings) -> OutcomeModel {
    if s.handling == ImageHandling::Filter && decorative(r) {
        OutcomeModel::Removed
    } else {
        match processed(r, s) {
            Some(file) => OutcomeModel::Kept(file),
            None => OutcomeModel::Failed,
        }
    }
}

/// What becomes of the image that the bytes hold. Under `Strip` it is
/// removed unread. Otherwise it is decoded; one that cannot be decoded
/// has failed, any other is treated as the policy says.
pub open spec fn transcoded(data: Seq<u8>, s: ImageSettings) -> OutcomeModel {
    if s.handling == ImageHandling::Strip {
        OutcomeModel::Removed
    } else {
        match decoded(data) {
            None => OutcomeModel::Failed,
            Some(r) => treated(r, s),
        }
    }
}

/// Applies the policy to a decoded image: removes it where it is
/// decorative and the policy filters, else brings it to its size in the
/// book, brightens and encodes it.
pub fn treat(r: Raster, s: ImageSettings) -> (res: Outcome)
    requires
        r@.well_formed(),
        s.valid(),
    ensures
        res@ == treated(r@, s),
{
    if s.handling == ImageHandling::Filter && is_decorative(&r) {
        return Outcome::Removed;
    }
    proof {
        lemma_fitted(r.width as int, r.height as int, s.max_width as int, s.max_height as int);
    }
    let (nw, nh) = fit_within(r.width, r.height, s.max_width, s.max_height);
    let small = match resize(r, nw, nh, s.filter) {
        Some(small) => small,
        None => {
            return Outcome::Failed;
        },
    };
    let pixels = brighten(small.pixels.as_slice(), s.brighten);
    let bright = Raster { width: small.width, height: small.height, pixels };
    match encode(&bright, s.format) {
        Some(file) => Outcome::Kept(file),
        None => Outcome::Failed,
    }
}

/// Applies the image policy to one image.
pub fn transcode(data: &[u8], s: ImageSettings) -> (res: Outcome)
    requires
        s.valid(),
    ensures
        res@ == transcoded(data@, s),
{
    if s.handling == ImageHandling::Strip {
        return Outcome::Removed;
    }
    match decode(data) {
        Some(r) => treat(r, s),
        None => Outcome::Failed,
    }
}

/// Under `Strip` no image stays, whatever its bytes are.
pub proof fn lemma_strip_removes(data: Seq<u8>, s: ImageSettings)
    requires
        s.handling == ImageHandling::Strip,
    ensures
        transcoded(data, s) == OutcomeModel::Removed,
{
}

/// Under `Filter` a decorative image is removed; an image of one pixel
/// is decorative.
pub proof fn lemma_filter_removes(data: Seq<u8>, s: ImageSettings)
    requires
        s.handling == ImageHandling::Filter,
        decoded(data).is_some(),
    ensures
        decorative(decoded(data).unwrap()) ==> transcoded(data, s) == OutcomeModel::Removed,
        decoded(data).unwrap().width == 1 && decoded(data).unwrap().height == 1 ==> decorative(
            decoded(data).unwrap(),
        ),
{
}

/// Under `Keep` an image that can be decoded stays whenever it can be
/// processed, and the file that stands for it is the encoding of an
/// image within the bounds, no larger than the image was, and of its
/// proportions.
pub proof fn lemma_keep_fits(data: Seq<u8>, s: ImageSettings)
    requires
        s.valid(),
        s.handling == ImageHandling::Keep,
        decoded(data).is_some(),
    ensures
        ({
            let r = decoded(data).unwrap();
            let size = target_size(r, s);
            &&& 1 <= size.0 <= s.max_width && size.0 <= r.width
            &&& 1 <= size.1 <= s.max_height && size.1 <= r.height
            &&& same_proportions(r.width as int, r.height as int, size.0, size.1)
            &&& processed(r, s) matches Some(file) ==> {
                &&& transcoded(data, s) == OutcomeModel::Kept(file)
                &&& resized(r, size.0 as u32, size.1 as u32, s.filter) matches Some(small)
                &&& small.width == size.0 && small.height == size.1
            }
            &&& processed(r, s).is_none() ==> transcoded(data, s) == OutcomeModel::Failed
        }),
{
    let r = decoded(data).unwrap();
    lemma_fitted(r.width as int, r.height as int, s.max_width as int, s.max_height as int);
}

/// With a brightness factor of one, the pixels that are encoded are
/// those that the decoder and the resampling kernel gave.
pub proof fn lemma_unit_brightness(r: RasterModel, s: ImageSettings)
    requires
        s.brighten == BRIGHTNESS_ONE,
    ensures
        processed(r, s) == match resized(
            r,
            target_size(r, s).0 as u32,
            target_size(r, s).1 as u32,
            s.filter,
        ) {
            Some(small) => encoded(small, s.format),
            None => None,
        },
{
    let size = target_size(r, s);
    match resized(r, size.0 as u32, size.1 as u32, s.filter) {
        Some(small) => {
            lemma_brightness_identity(small.pixels);
        },
        None => {},
    }
}

} // verus!
