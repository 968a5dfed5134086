//! Resampling, and the limits that some transports set.

use std::num::NonZeroU32;

use fast_image_resize as fir;
use image::imageops::FilterType;
use image::{DynamicImage, RgbImage, RgbaImage};

use vstd::prelude::*;
use vstd::string::StrSliceExecFns;

use crate::overlay::Px;
#[allow(unused_imports)]
use crate::geometry::least;
#[allow(unused_imports)]
use crate::pixmap::{lemma_packed, opaque, packed, Raster};
use crate::pixmap::{PageImage, PixelKind};
#[allow(unused_imports)]
use crate::rounding::{
    floored_side, law_shrunk_side_is_no_longer, law_shrunk_side_is_no_shorter,
    law_shrunk_sides_keep_to_the_budget, shrunk_side,
};
use crate::rounding::shrink_sides;
use crate::text::PipelineError;

verus! {

/// Whether the fast resampler can count the pixels of an image, of its resized
/// copy and of the image in between.
pub open spec fn fast_resizable(sw: int, sh: int, dw: int, dh: int) -> bool {
    &&& sw * sh <= u32::MAX
    &&& dw * dh <= u32::MAX
    &&& dw * sh <= u32::MAX
    &&& dw * dh * 3 <= isize::MAX
    &&& dw * sh * 3 + 3 <= isize::MAX
}

/// `out` is what the fast resampler makes of the packed RGB pixels `data`: the
/// extent changes from `w` by `h` to `nw` by `nh`.
pub uninterp spec fn resampled_fast(
    out: Seq<u8>,
    data: Seq<u8>,
    w: u32,
    h: u32,
    nw: u32,
    nh: u32,
) -> bool;

/// Resamples packed RGB pixels.
///
/// Calls `Resizer::resize` of `fast_image_resize` with the Lanczos3
/// convolution, on images of the pixel type `U8x3`. `Image::from_vec_u8` fails
/// only on a buffer that is too small, since such pixels are always aligned;
/// `resize` fails only where the pixel types differ; the result is packed in
/// the same way, and an image that has the extent already is copied. Of the
/// pixels it is said only that they were made of this image for this extent;
/// their values are left unsaid, since the crate chooses its arithmetic by the
/// processor it runs on.
#[verifier::external_body]
fn resample_rgb(data: Vec<u8>, sw: u32, sh: u32, dw: u32, dh: u32) -> (r: Option<Vec<u8>>)
    requires
        sw > 0,
        sh > 0,
        dw > 0,
        dh > 0,
        data@.len() == sw * sh * 3,
        fast_resizable(sw as int, sh as int, dw as int, dh as int),
    ensures
        r is Some,
        r->0@.len() == dw * dh * 3,
        resampled_fast(r->0@, data@, sw, sh, dw, dh),
        sw == dw && sh == dh ==> r->0@ == data@,
{
    let (sw, sh) = (NonZeroU32::new(sw)?, NonZeroU32::new(sh)?);
    let src = fir::Image::from_vec_u8(sw, sh, data, fir::PixelType::U8x3).ok()?;
    let mut dst = fir::Image::new(NonZeroU32::new(dw)?, NonZeroU32::new(dh)?, fir::PixelType::U8x3);
    let mut resizer = fir::Resizer::new(fir::ResizeAlg::Convolution(fir::FilterType::Lanczos3));
    resizer.resize(&src.view(), &mut dst.view_mut()).ok()?;
    Some(dst.into_vec())
}

/// The longest side that the general resampler is given: `2^23` pixels.
///
/// It places the centre of a column in single precision. Up to this length the
/// sides and the halves between columns are exact. The ratio of the sides is
/// off by one part in `2^24` at most, which moves the last centre by half a
/// column at most, so that it stays on the image; and so it does when the
/// product is rounded, since the end of the image is a number that single
/// precision holds. Some pixel is then no further from the centre than half a
/// column, where the filter is above one half, and what the negative lobes take
/// off is less. Sums of up to `2^23` weights lose less to rounding than is left.
/// Beyond this length the halves are rounded too, a centre can come to lie
/// outside of the image, all weights can be zero, and dividing by their sum
/// then ends in a panic.
pub const RESAMPLED_SIDE_MAX: u32 = 0x80_0000;

/// Whether the general resampler takes an image. It has to allocate the resized
/// image; and, unless there is nothing to sample or the extent stays, the image
/// in between, which takes four numbers of four bytes per pixel.
pub open spec fn resizable(w: int, h: int, nw: int, nh: int) -> bool {
    &&& nw * nh * 4 <= isize::MAX
    &&& {
        ||| w == 0 || h == 0
        ||| w == nw && h == nh
        ||| {
            &&& w * nh * 16 <= isize::MAX
            &&& w <= RESAMPLED_SIDE_MAX
            &&& h <= RESAMPLED_SIDE_MAX
            &&& nw <= RESAMPLED_SIDE_MAX
            &&& nh <= RESAMPLED_SIDE_MAX
        }
    }
}

/// `out` is what the general resampler makes of the packed pixels `data`, of
/// `channels` bytes each: the extent changes from `w` by `h` to `nw` by `nh`.
pub uninterp spec fn resampled(
    out: Seq<u8>,
    data: Seq<u8>,
    channels: int,
    w: u32,
    h: u32,
    nw: u32,
    nh: u32,
) -> bool;

/// Resamples packed pixels.
///
/// Calls `DynamicImage::resize_exact` of `image` with the Lanczos3 filter. The
/// result has the requested extent and the same pixel format; where the image
/// holds no pixel the result is all zero, and an image that has the extent
/// already is copied. Of other pixels it is said only that they were made of
/// this image for this extent; their values are left unsaid, since the filter is
/// computed with the sine of the machine's mathematical library.
#[verifier::external_body]
fn resample(kind: PixelKind, data: Vec<u8>, w: u32, h: u32, nw: u32, nh: u32) -> (r: Option<Vec<u8>>)
    requires
        nw > 0,
        nh > 0,
        data@.len() == w * h * kind.bytes(),
        resizable(w as int, h as int, nw as int, nh as int),
    ensures
        r is Some,
        r->0@.len() == nw * nh * kind.bytes(),
        resampled(r->0@, data@, kind.bytes(), w, h, nw, nh),
        w == 0 || h == 0 ==> forall|i: int| 0 <= i < r->0@.len() ==> r->0@[i] == 0,
        w == nw && h == nh ==> r->0@ == data@,
{
    let img = match kind {
        PixelKind::Rgb => DynamicImage::ImageRgb8(RgbImage::from_raw(w, h, data)?),
        PixelKind::Rgba => DynamicImage::ImageRgba8(RgbaImage::from_raw(w, h, data)?),
    };
    Some(img.resize_exact(nw, nh, FilterType::Lanczos3).into_bytes())
}

proof fn lemma_products(a: u32, b: u32)
    ensures
        0 <= a as int * b as int <= 0xffff_ffff * 0xffff_ffff,
{
    assert(0 <= a as int * b as int <= 0xffff_ffff * 0xffff_ffff) by (nonlinear_arith)
        requires
            0 <= a <= 0xffff_ffff,
            0 <= b <= 0xffff_ffff,
    ;
}

/// Whether the fast resampler takes an image.
pub fn is_fast_resizable(sw: u32, sh: u32, dw: u32, dh: u32) -> (r: bool)
    ensures
        r == fast_resizable(sw as int, sh as int, dw as int, dh as int),
{
    proof {
        lemma_products(sw, sh);
        lemma_products(dw, dh);
        lemma_products(dw, sh);
    }
    let limit: u128 = isize::MAX as u128;
    let source: u128 = sw as u128 * sh as u128;
    let target: u128 = dw as u128 * dh as u128;
    let between: u128 = dw as u128 * sh as u128;
    source <= 0xffff_ffff && target <= 0xffff_ffff && between <= 0xffff_ffff && target * 3 <= limit
        && between * 3 + 3 <= limit
}

/// Whether the general resampler takes an image.
pub fn is_resizable(w: u32, h: u32, nw: u32, nh: u32) -> (r: bool)
    ensures
        r == resizable(w as int, h as int, nw as int, nh as int),
{
    proof {
        lemma_products(w, nh);
        lemma_products(nw, nh);
    }
    let limit: u128 = isize::MAX as u128;
    if nw as u128 * nh as u128 * 4 > limit {
        return false;
    }
    if w == 0 || h == 0 || (w == nw && h == nh) {
        return true;
    }
    w as u128 * nh as u128 * 16 <= limit && w <= RESAMPLED_SIDE_MAX && h <= RESAMPLED_SIDE_MAX && nw
        <= RESAMPLED_SIDE_MAX && nh <= RESAMPLED_SIDE_MAX
}

/// An image that the fast resampler made of another.
pub open spec fn is_fast_resampling(out: Raster, r: Raster) -> bool {
    resampled_fast(packed(out), packed(r), r.width, r.height, out.width, out.height)
}

/// An image that the general resampler made of another.
pub open spec fn is_resampling(out: Raster, r: Raster) -> bool {
    resampled(
        packed(out),
        packed(r),
        r.kind.bytes(),
        r.width,
        r.height,
        out.width,
        out.height,
    )
}

/// What keeps an image from being resized, if anything does.
pub open spec fn resize_fault(sw: u32, sh: u32, dw: u32, dh: u32) -> Option<PipelineError> {
    if sw == 0 {
        Some(PipelineError::InvalidSourceWidth)
    } else if sh == 0 {
        Some(PipelineError::InvalidSourceHeight)
    } else if dw == 0 {
        Some(PipelineError::InvalidTargetWidth)
    } else if dh == 0 {
        Some(PipelineError::InvalidTargetHeight)
    } else {
        None
    }
}

/// Resizes an image, without its transparency.
pub fn resize_exact_fast(img: &PageImage, width: u32, height: u32) -> (r: Result<
    PageImage,
    PipelineError,
>)
    requires
        img.wf(),
        resize_fault(img.width, img.height, width, height) is None ==> fast_resizable(
            img.width as int,
            img.height as int,
            width as int,
            height as int,
        ),
    ensures
        match resize_fault(img.width, img.height, width, height) {
            Some(fault) => r matches Err(e) && e == fault,
            None => r matches Ok(out) && out.wf() && out.kind == PixelKind::Rgb && out.width == width
                && out.height == height && is_fast_resampling(out@, opaque(img@)) && (img.width
                == width && img.height == height ==> out@ == opaque(img@)),
        },
{
    let rgb = img.to_rgb8();
    if rgb.width == 0 {
        return Err(PipelineError::InvalidSourceWidth);
    }
    if rgb.height == 0 {
        return Err(PipelineError::InvalidSourceHeight);
    }
    if width == 0 {
        return Err(PipelineError::InvalidTargetWidth);
    }
    if height == 0 {
        return Err(PipelineError::InvalidTargetHeight);
    }
    proof {
        lemma_packed(rgb);
    }
    let data = resample_rgb(rgb.data, rgb.width, rgb.height, width, height).unwrap();
    let out = PageImage { kind: PixelKind::Rgb, width, height, data };
    proof {
        lemma_packed(out);
    }
    Ok(out)
}

/// An image without content: black, or transparent where it can be.
pub open spec fn blank(kind: PixelKind, w: u32, h: u32) -> Raster {
    Raster::of(
        kind,
        w,
        h,
        |x: int, y: int|
            Px { r: 0, g: 0, b: 0, a: if kind == PixelKind::Rgb { 255u8 } else { 0u8 } },
    )
}

/// Resizes an image of any kind.
pub fn resize_exact(img: PageImage, width: u32, height: u32) -> (out: PageImage)
    requires
        img.wf(),
        width > 0,
        height > 0,
        resizable(img.width as int, img.height as int, width as int, height as int),
    ensures
        out.wf(),
        out.kind == img.kind,
        out.width == width,
        out.height == height,
        is_resampling(out@, img@),
        img.width == 0 || img.height == 0 ==> out@ == blank(img.kind, width, height),
        img.width == width && img.height == height ==> out@ == img@,
{
    let kind = img.kind;
    let ghost empty = img.width == 0 || img.height == 0;
    proof {
        lemma_packed(img);
    }
    let data = resample(kind, img.data, img.width, img.height, width, height).unwrap();
    let out = PageImage { kind, width, height, data };
    proof {
        lemma_packed(out);
        if empty {
            lemma_blank(out);
        }
    }
    out
}

proof fn lemma_blank(img: PageImage)
    requires
        img.wf(),
        forall|i: int| 0 <= i < img.data@.len() ==> img.data@[i] == 0,
    ensures
        img@ == blank(img.kind, img.width, img.height),
{
    let want = blank(img.kind, img.width, img.height);
    assert forall|y: int| 0 <= y < img.height implies img@.rows[y] == want.rows[y] by {
        assert forall|x: int| 0 <= x < img.width implies img@.rows[y][x] == want.rows[y][x] by {
            crate::pixmap::lemma_pixel_index(x, y, img.width as int, img.height as int);
            let k = y * img.width + x;
            assert(img@.rows[y][x] == crate::pixmap::packed_px(img.kind, img.data@, k));
            assert(k * 3 + 3 <= img.width * img.height * 3);
            assert(k * 4 + 4 <= img.width * img.height * 4);
        }
        assert(img@.rows[y] =~= want.rows[y]);
    }
    assert(img@.rows =~= want.rows);
}

// Transport limits.

/// The limit in MiB inside a terminal that bounds its graphics frames at
/// 32 MiB: raw pixels grow by a third when they are sent on as text, and the
/// rest of the frame needs room too.
pub const HERDR_KITTY_RAW_IMAGE_LIMIT_MB: u32 = 20;

/// The limit on the raw bytes of an image, if there is one.
pub open spec fn raw_image_limit(setting: Option<u32>, herdr_env: Option<&str>) -> Option<u64> {
    match setting {
        Some(mb) => if mb == 0 {
            None
        } else {
            Some((mb * 1024 * 1024) as u64)
        },
        None => if herdr_env matches Some(value) && value@ == seq!['1'] {
            Some((HERDR_KITTY_RAW_IMAGE_LIMIT_MB * 1024 * 1024) as u64)
        } else {
            None
        },
    }
}

/// The limit on the raw bytes of an image, from the user's setting in MiB
/// (zero for no limit) and from the environment variable `HERDR_ENV`, which is 1
/// where the terminal runs inside Herdr.
pub fn kitty_raw_image_limit_bytes(setting: Option<u32>, herdr_env: Option<&str>) -> (r: Option<u64>)
    ensures
        r == raw_image_limit(setting, herdr_env),
{
    let herdr = match herdr_env {
        Some(value) => value.unicode_len() == 1 && value.get_char(0) == '1',
        None => false,
    };
    assert(herdr == (herdr_env matches Some(value) && value@ =~= seq!['1']));
    match setting {
        Some(mb) => if mb == 0 {
            None
        } else {
            Some(mb as u64 * 1024 * 1024)
        },
        None => if herdr {
            Some(HERDR_KITTY_RAW_IMAGE_LIMIT_MB as u64 * 1024 * 1024)
        } else {
            None
        },
    }
}

/// How many pixels of an image fit into a number of bytes, at least one.
pub open spec fn pixel_budget(kind: PixelKind, max_raw_bytes: u64) -> int {
    let n = max_raw_bytes as int / kind.bytes();
    if n < 1 {
        1
    } else {
        n
    }
}

/// The extent of an image that keeps to a limit. An image within the limit
/// keeps its extent; another shrinks on both sides by the same factor, but to
/// one pixel at least. Where that leaves too many pixels, because a side was too
/// short to shrink, the other side is held at what the limit has room for.
pub open spec fn capped_extent(r: Raster, max_raw_bytes: u64) -> (u32, u32) {
    let pixels = r.width * r.height;
    let budget = pixel_budget(r.kind, max_raw_bytes);
    if pixels <= budget {
        (r.width, r.height)
    } else {
        let w = least(shrunk_side(r.width, budget, pixels) as int, budget);
        let h = least(shrunk_side(r.height, budget, pixels) as int, budget / w);
        (w as u32, h as u32)
    }
}

/// Whether an image can be brought within a limit.
pub open spec fn can_cap(r: Raster, max_raw_bytes: u64) -> bool {
    let (w, h) = capped_extent(r, max_raw_bytes);
    (r.width * r.height <= pixel_budget(r.kind, max_raw_bytes)) || resizable(
        r.width as int,
        r.height as int,
        w as int,
        h as int,
    )
}

/// What an image becomes under a limit: within the limit it stays as it is,
/// otherwise it is resampled to the capped extent.
pub open spec fn is_capped(out: Raster, r: Raster, max_raw_bytes: u64) -> bool {
    let (w, h) = capped_extent(r, max_raw_bytes);
    if r.width * r.height <= pixel_budget(r.kind, max_raw_bytes) {
        out == r
    } else {
        &&& out.wf()
        &&& out.kind == r.kind
        &&& out.width == w
        &&& out.height == h
        &&& is_resampling(out, r)
    }
}

fn capped_sides(img: &PageImage, max_raw_bytes: u64) -> (r: Option<(u32, u32)>)
    ensures
        match r {
            None => img@.width * img@.height <= pixel_budget(img@.kind, max_raw_bytes),
            Some(sides) => img@.width * img@.height > pixel_budget(img@.kind, max_raw_bytes)
                && sides == capped_extent(img@, max_raw_bytes) && sides.0 >= 1 && sides.1 >= 1,
        },
{
    let bytes_per_pixel: u64 = img.kind.bytes_per_pixel() as u64;
    proof {
        lemma_products(img.width, img.height);
    }
    let current_pixels: u64 = img.width as u64 * img.height as u64;
    let quotient: u64 = max_raw_bytes / bytes_per_pixel;
    let max_pixels: u64 = if quotient < 1 {
        1
    } else {
        quotient
    };
    if current_pixels <= max_pixels {
        None
    } else {
        let (w, h) = shrink_sides(img.width, img.height, max_pixels, current_pixels);
        let width: u32 = if w as u64 <= max_pixels {
            w
        } else {
            max_pixels as u32
        };
        let room: u64 = max_pixels / width as u64;
        assert(1 <= room <= max_pixels) by (nonlinear_arith)
            requires
                room == max_pixels / (width as u64),
                1 <= width <= max_pixels,
        ;
        let height: u32 = if h as u64 <= room {
            h
        } else {
            room as u32
        };
        Some((width, height))
    }
}

/// Whether an image can be brought within a limit.
pub fn is_cappable(img: &PageImage, max_raw_bytes: u64) -> (r: bool)
    ensures
        r == can_cap(img@, max_raw_bytes),
{
    match capped_sides(img, max_raw_bytes) {
        None => true,
        Some((w, h)) => is_resizable(img.width, img.height, w, h),
    }
}

/// Brings the raw bytes of an image within a limit.
pub fn cap_kitty_image_raw_bytes(img: PageImage, max_raw_bytes: u64) -> (out: PageImage)
    requires
        img.wf(),
        can_cap(img@, max_raw_bytes),
    ensures
        out.wf(),
        is_capped(out@, img@, max_raw_bytes),
{
    match capped_sides(&img, max_raw_bytes) {
        None => img,
        Some((w, h)) => {
            let out = resize_exact(img, w, h);
            proof {
                out.lemma_view_wf();
            }
            out
        },
    }
}

/// A capped image keeps to the limit, if the limit has room for a pixel at all.
/// It keeps its pixel format, no side gets longer or vanishes, and it changes
/// only if it was over the limit.
pub proof fn law_capped_image_keeps_to_the_limit(out: Raster, r: Raster, max_raw_bytes: u64)
    requires
        is_capped(out, r, max_raw_bytes),
        max_raw_bytes >= r.kind.bytes(),
        r.width >= 1,
        r.height >= 1,
    ensures
        out.kind == r.kind,
        out.width * out.height * out.kind.bytes() <= max_raw_bytes,
        1 <= out.width <= r.width,
        1 <= out.height <= r.height,
        out == r <==> r.width * r.height * r.kind.bytes() <= max_raw_bytes,
{
    let pixels = r.width * r.height;
    let budget = pixel_budget(r.kind, max_raw_bytes);
    let b = r.kind.bytes();
    assert(pixels <= budget <==> pixels * b <= max_raw_bytes) by {
        assert(b == 3 || b == 4);
    }
    if pixels > budget {
        law_shrunk_side_is_no_longer(r.width, budget, pixels);
        law_shrunk_side_is_no_longer(r.height, budget, pixels);
        let (w, h) = (out.width as int, out.height as int);
        let room = budget / w;
        assert(1 <= room && w * room <= budget) by (nonlinear_arith)
            requires
                room == budget / w,
                1 <= w <= budget,
        ;
        assert(w * h <= budget) by (nonlinear_arith)
            requires
                w * room <= budget,
                0 <= h <= room,
                1 <= w,
        ;
        assert(w * h * b <= max_raw_bytes) by {
            assert(b == 3 || b == 4);
        }
    }
}

/// An image whose sides both stay keeps its shape: each side is the original
/// one times the same factor, rounded down.
pub proof fn law_capped_image_keeps_its_shape(r: Raster, max_raw_bytes: u64)
    requires
        ({
            let pixels = r.width * r.height;
            let budget = pixel_budget(r.kind, max_raw_bytes);
            &&& budget < pixels
            &&& budget <= 0x4_0000_0000_0000
            &&& floored_side(r.width, budget, pixels) >= 1
            &&& floored_side(r.height, budget, pixels) >= 1
        }),
    ensures
        ({
            let pixels = r.width * r.height;
            let budget = pixel_budget(r.kind, max_raw_bytes);
            let (w, h) = capped_extent(r, max_raw_bytes);
            &&& w as int == floored_side(r.width, budget, pixels)
            &&& h as int == floored_side(r.height, budget, pixels)
        }),
{
    let pixels = r.width * r.height;
    let budget = pixel_budget(r.kind, max_raw_bytes);
    law_shrunk_sides_keep_to_the_budget(r.width, r.height, budget);
    law_shrunk_side_is_no_longer(r.width, budget, pixels);
    law_shrunk_side_is_no_longer(r.height, budget, pixels);
    let (a, b) = (floored_side(r.width, budget, pixels), floored_side(r.height, budget, pixels));
    assert(a <= budget) by (nonlinear_arith)
        requires
            a * b <= budget,
            a >= 1,
            b >= 1,
    ;
    assert(b <= budget / a) by (nonlinear_arith)
        requires
            a * b <= budget,
            a >= 1,
            b >= 1,
    ;
}

/// An image within the limit is sent as it is.
pub proof fn law_small_image_is_not_resampled(out: Raster, r: Raster, max_raw_bytes: u64)
    requires
        is_capped(out, r, max_raw_bytes),
        r.width * r.height * r.kind.bytes() <= max_raw_bytes,
    ensures
        out == r,
{
    let pixels = r.width * r.height;
    match r.kind {
        PixelKind::Rgb => assert(pixels * 3 <= max_raw_bytes),
        PixelKind::Rgba => assert(pixels * 4 <= max_raw_bytes),
    }
}

/// A limit that is set in MiB counts in bytes, and zero is none. Without a
/// setting there is a limit of 20 MiB where the environment variable is 1, and
/// none elsewhere.
pub proof fn law_limit_follows_the_setting(setting: Option<u32>, herdr_env: Option<&str>)
    ensures
        ({
            let limit = raw_image_limit(setting, herdr_env);
            let inside = herdr_env is Some && herdr_env->0@ == seq!['1'];
            &&& setting == Some(0u32) ==> limit is None
            &&& setting is Some && setting->0 != 0 ==> limit is Some && limit->0 == setting->0
                * 1_048_576
            &&& setting is None && inside ==> limit == Some(20_971_520u64)
            &&& setting is None && !inside ==> limit is None
        }),
{
}

/// As many pixels as the limit has room for, and one at least: three bytes
/// each, four with transparency.
pub proof fn law_budget_fills_the_limit(kind: PixelKind, max_raw_bytes: u64)
    ensures
        ({
            let n = pixel_budget(kind, max_raw_bytes);
            let b: int = match kind {
                PixelKind::Rgba => 4,
                PixelKind::Rgb => 3,
            };
            &&& n >= 1
            &&& n == 1 || n * b <= max_raw_bytes
            &&& max_raw_bytes < (n + 1) * b
        }),
{
}

/// Nothing but a side of no length keeps an image from being resized. The
/// image's own sides come first, and the width comes before the height.
pub proof fn law_faults_of_an_extent(sw: u32, sh: u32, dw: u32, dh: u32)
    ensures
        ({
            let fault = resize_fault(sw, sh, dw, dh);
            &&& fault is None <==> sw > 0 && sh > 0 && dw > 0 && dh > 0
            &&& fault == Some(PipelineError::InvalidSourceWidth) <==> sw == 0
            &&& fault == Some(PipelineError::InvalidSourceHeight) <==> sw > 0 && sh == 0
            &&& fault == Some(PipelineError::InvalidTargetWidth) <==> sw > 0 && sh > 0 && dw == 0
            &&& fault == Some(PipelineError::InvalidTargetHeight) <==> sw > 0 && sh > 0 && dw > 0
                && dh == 0
        }),
{
}

/// A blank image is black, or transparent where it can be.
pub proof fn law_blank_shows_nothing(kind: PixelKind, w: u32, h: u32, x: int, y: int)
    requires
        0 <= x < w,
        0 <= y < h,
    ensures
        ({
            let p = blank(kind, w, h).at(x, y);
            &&& blank(kind, w, h).wf()
            &&& blank(kind, w, h).kind == kind
            &&& blank(kind, w, h).width == w && blank(kind, w, h).height == h
            &&& p.r == 0 && p.g == 0 && p.b == 0
            &&& kind == PixelKind::Rgb ==> p.a == 255
            &&& kind == PixelKind::Rgba ==> p.a == 0
        }),
{
}

/// What one image is to another that was resampled from it, said of their
/// buffers.
pub proof fn law_resampling_reads_the_buffers(out: PageImage, img: PageImage)
    requires
        out.wf(),
        img.wf(),
    ensures
        is_fast_resampling(out@, img@) <==> resampled_fast(
            out.data@,
            img.data@,
            img.width,
            img.height,
            out.width,
            out.height,
        ),
        is_resampling(out@, img@) <==> resampled(
            out.data@,
            img.data@,
            match img.kind {
                PixelKind::Rgba => 4int,
                PixelKind::Rgb => 3int,
            },
            img.width,
            img.height,
            out.width,
            out.height,
        ),
{
    lemma_packed(out);
    lemma_packed(img);
}

/// An image over the limit is resampled from the whole image.
pub proof fn law_large_image_is_resampled(out: Raster, r: Raster, max_raw_bytes: u64)
    requires
        is_capped(out, r, max_raw_bytes),
        r.width * r.height > 1,
        r.width * r.height * r.kind.bytes() > max_raw_bytes,
    ensures
        out.wf(),
        is_resampling(out, r),
{
    let pixels = r.width * r.height;
    match r.kind {
        PixelKind::Rgb => assert(pixels * 3 > max_raw_bytes),
        PixelKind::Rgba => assert(pixels * 4 > max_raw_bytes),
    }
}

/// A capped image is no smaller than it has to be. With one pixel more, its
/// width would be over what the limit leaves of it, to one part in `2^40`, or
/// its columns alone would be over the limit; and so with the height.
pub proof fn law_capped_image_is_no_smaller(out: Raster, r: Raster, max_raw_bytes: u64)
    requires
        is_capped(out, r, max_raw_bytes),
        r.width * r.height * r.kind.bytes() > max_raw_bytes >= r.kind.bytes(),
    ensures
        ({
            let pixels = r.width * r.height;
            let budget = max_raw_bytes as int / r.kind.bytes();
            let (w, h) = (out.width as int, out.height as int);
            &&& (r.width * r.width * budget) * 0xff_ffff_ffff < ((w + 1) * (w + 1) * pixels)
                * 0x100_0000_0000 || w == budget
            &&& (r.height * r.height * budget) * 0xff_ffff_ffff < ((h + 1) * (h + 1) * pixels)
                * 0x100_0000_0000 || w * (h + 1) > budget
        }),
{
    let pixels = r.width * r.height;
    let budget = pixel_budget(r.kind, max_raw_bytes);
    let b = r.kind.bytes();
    assert(pixels > budget) by {
        assert(b == 3 || b == 4);
    }
    law_shrunk_side_is_no_longer(r.width, budget, pixels);
    law_shrunk_side_is_no_longer(r.height, budget, pixels);
    law_shrunk_side_is_no_shorter(r.width, budget, pixels);
    law_shrunk_side_is_no_shorter(r.height, budget, pixels);
    let (w, h) = (out.width as int, out.height as int);
    let (fw, fh) = (
        floored_side(r.width, budget, pixels),
        floored_side(r.height, budget, pixels),
    );
    if w != budget {
        lemma_longer(fw + 1, w + 1, pixels);
    }
    if h >= fh {
        lemma_longer(fh + 1, h + 1, pixels);
    } else {
        let room = budget / w;
        assert(h == room);
        assert(w * (room + 1) > budget) by (nonlinear_arith)
            requires
                room == budget / w,
                w >= 1,
        ;
    }
}

proof fn lemma_longer(a: int, b: int, c: int)
    requires
        0 <= a <= b,
        0 <= c,
    ensures
        a * a * c <= b * b * c,
{
    assert(a * a <= b * b) by (nonlinear_arith)
        requires
            0 <= a <= b,
    ;
    assert(a * a * c <= b * b * c) by (nonlinear_arith)
        requires
            a * a <= b * b,
            0 <= c,
    ;
}

/// The resamplers take every image whose pixels they can count: the fast one
/// goes by the image, its copy and the image in between, the general one by its
/// copy, the image in between and the length of the sides.
pub proof fn law_countable_images_can_be_resampled(w: u32, h: u32, nw: u32, nh: u32)
    ensures
        w * h <= 0x2aaa_aaa9 && nw * nh <= 0x2aaa_aaa9 && nw * h <= 0x2aaa_aaa9 ==> fast_resizable(
            w as int,
            h as int,
            nw as int,
            nh as int,
        ),
        nw * nh <= 0x1fff_ffff && w * nh <= 0x7ff_ffff && w <= 0x80_0000 && h <= 0x80_0000 && nw
            <= 0x80_0000 && nh <= 0x80_0000 ==> resizable(w as int, h as int, nw as int, nh as int),
{
}

} // verus!
