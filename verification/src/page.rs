//! Rendered pages, and what is drawn over them.

use vstd::prelude::*;

use crate::geometry::{push_box_strokes, PixelRect};
#[allow(unused_imports)]
use crate::geometry::{box_strokes, listed};
use crate::overlay::RgbColor;
use crate::pixmap::{PageImage, PixelKind};
#[allow(unused_imports)]
use crate::pixmap::{unpacked, Raster};
use crate::rounding::{link_stroke_thickness, scale_coord, ScaleFactor};
#[allow(unused_imports)]
use crate::rounding::{link_stroke, scaled};
use crate::text::PipelineError;

verus! {

/// The visible box of a link, in page pixels.
#[derive(Clone, Copy, Debug, PartialEq, Eq, Structural)]
pub struct LinkBox {
    pub x0: u32,
    pub y0: u32,
    pub x1: u32,
    pub y1: u32,
}

/// A rendered page.
pub struct PageData {
    pub page_num: usize,
    /// Packed pixels: four bytes each if there are four channels, otherwise
    /// three.
    pub pixels: Vec<u8>,
    pub width_px: u32,
    pub height_px: u32,
    pub channels: u8,
    pub width_cell: u16,
    pub height_cell: u16,
    /// The scale that the page was rendered at.
    pub scale_factor: ScaleFactor,
    /// The scale that was asked for.
    pub requested_scale: ScaleFactor,
    /// The links, each with its visible boxes.
    pub links: Vec<Vec<LinkBox>>,
}

/// Which part of a page the terminal shows, in cells.
#[derive(Clone, Copy, Debug, PartialEq, Eq, Structural)]
pub struct ViewportUpdate {
    pub page: usize,
    pub y_offset_cells: u32,
    pub x_offset_cells: u32,
    pub viewport_height_cells: u16,
    pub viewport_width_cells: u16,
}

/// A part of a page that is selected or commented on.
#[derive(Clone, Copy, Debug, PartialEq, Eq, Structural)]
pub struct SelectionRect {
    pub page: usize,
    pub topleft_x: u32,
    pub topleft_y: u32,
    pub bottomright_x: u32,
    pub bottomright_y: u32,
}

/// A highlighted part of a page.
#[derive(Clone, Copy, Debug, PartialEq, Eq, Structural)]
pub struct HighlightOverlay {
    pub rect: SelectionRect,
    pub rgb: RgbColor,
    pub alpha: u8,
}

/// A part of a page that is marked in visual mode.
#[derive(Clone, Copy, Debug, PartialEq, Eq, Structural)]
pub struct VisualRect {
    pub page: usize,
    pub x: u32,
    pub y: u32,
    pub width: u32,
    pub height: u32,
}

/// Something that belongs to one page.
pub trait PageScoped {
    spec fn on_page(&self) -> usize;

    fn page(&self) -> (r: usize)
        ensures
            r == self.on_page(),
    ;
}

impl PageScoped for SelectionRect {
    open spec fn on_page(&self) -> usize {
        self.page
    }

    fn page(&self) -> (r: usize) {
        self.page
    }
}

impl PageScoped for HighlightOverlay {
    open spec fn on_page(&self) -> usize {
        self.rect.page
    }

    fn page(&self) -> (r: usize) {
        self.rect.page
    }
}

impl PageScoped for VisualRect {
    open spec fn on_page(&self) -> usize {
        self.page
    }

    fn page(&self) -> (r: usize) {
        self.page
    }
}

// Decoding.

/// What the pixels of a page with this many channels mean.
pub open spec fn kind_of(channels: u8) -> PixelKind {
    if channels == 4 {
        PixelKind::Rgba
    } else {
        PixelKind::Rgb
    }
}

/// The image that a page's pixels stand for.
pub open spec fn decoding(pixels: Seq<u8>, width: u32, height: u32, channels: u8) -> Result<
    Raster,
    PipelineError,
> {
    let kind = kind_of(channels);
    let expected = width * height * kind.bytes();
    if expected > u32::MAX {
        Err(PipelineError::PixelSizeOverflow)
    } else if pixels.len() != expected {
        Err(
            PipelineError::PixelBufferMismatch { expected: expected as u64, got: pixels.len() as u64 },
        )
    } else {
        Ok(unpacked(kind, width, height, pixels))
    }
}

fn copy_bytes(bytes: &[u8]) -> (r: Vec<u8>)
    ensures
        r@ == bytes@,
{
    let mut out: Vec<u8> = Vec::with_capacity(bytes.len());
    let mut i: usize = 0;
    while i < bytes.len()
        invariant
            i <= bytes.len(),
            out@ == bytes@.take(i as int),
        decreases bytes.len() - i,
    {
        out.push(bytes[i]);
        i += 1;
        assert(out@ =~= bytes@.take(i as int));
    }
    assert(out@ =~= bytes@);
    out
}

/// Builds an image from the packed pixels of a page.
pub fn decode_pixels(pixels: &[u8], width: u32, height: u32, channels: u8) -> (r: Result<
    PageImage,
    PipelineError,
>)
    ensures
        match decoding(pixels@, width, height, channels) {
            Ok(raster) => r matches Ok(img) && img.wf() && img@ == raster,
            Err(fault) => r matches Err(e) && e == fault,
        },
{
    let kind = if channels == 4 {
        PixelKind::Rgba
    } else {
        PixelKind::Rgb
    };
    let bpp: u32 = kind.bytes_per_pixel();
    let ghost area = width as int * height as int;
    proof {
        assert(area >= 0) by (nonlinear_arith)
            requires
                area == width as int * height as int,
        ;
        assert(area * bpp >= area) by (nonlinear_arith)
            requires
                area >= 0,
                bpp >= 1,
        ;
    }
    let expected: u32 = match width.checked_mul(height) {
        Some(n) => match n.checked_mul(bpp) {
            Some(n) => n,
            None => return Err(PipelineError::PixelSizeOverflow),
        },
        None => return Err(PipelineError::PixelSizeOverflow),
    };
    let len: usize = pixels.len();
    if len != expected as usize {
        return Err(PipelineError::PixelBufferMismatch { expected: expected as u64, got: len as u64 });
    }
    Ok(PageImage { kind, width, height, data: copy_bytes(pixels) })
}

impl PageData {
    /// The image of the page.
    pub open spec fn raster(self) -> Result<Raster, PipelineError> {
        decoding(self.pixels@, self.width_px, self.height_px, self.channels)
    }

    /// Builds the image of the page.
    pub fn decode(&self) -> (r: Result<PageImage, PipelineError>)
        ensures
            match self.raster() {
                Ok(raster) => r matches Ok(img) && img.wf() && img@ == raster,
                Err(fault) => r matches Err(e) && e == fault,
            },
    {
        decode_pixels(self.pixels.as_slice(), self.width_px, self.height_px, self.channels)
    }
}

/// Decoding loses nothing: a page that decodes gives back its pixels, one
/// byte after the other.
pub proof fn law_decoding_keeps_the_bytes(data: PageData, x: int, y: int)
    requires
        data.raster() is Ok,
        0 <= x < data.width_px,
        0 <= y < data.height_px,
    ensures
        ({
            let r = data.raster()->Ok_0;
            let at = (y * data.width_px + x) * r.kind.bytes();
            &&& r.width == data.width_px
            &&& r.height == data.height_px
            &&& r.kind == kind_of(data.channels)
            &&& r.at(x, y).r == data.pixels@[at]
            &&& r.at(x, y).g == data.pixels@[at + 1]
            &&& r.at(x, y).b == data.pixels@[at + 2]
            &&& r.at(x, y).a == if data.channels == 4 {
                data.pixels@[at + 3]
            } else {
                255
            }
        }),
{
}

// Scaling.

/// A rectangle in document coordinates, at the scale of a page; as a list.
pub open spec fn scaled_rect(rect: SelectionRect, scale: ScaleFactor) -> Seq<PixelRect> {
    listed(
        PixelRect::with_corners(
            scaled(rect.topleft_x, scale) as int,
            scaled(rect.topleft_y, scale) as int,
            scaled(rect.bottomright_x, scale) as int,
            scaled(rect.bottomright_y, scale) as int,
        ),
    )
}

/// Scales a rectangle from document coordinates to page pixels.
pub fn scale_rect(rect: &SelectionRect, scale: ScaleFactor) -> (r: Option<PixelRect>)
    ensures
        listed(r) == scaled_rect(*rect, scale),
{
    PixelRect::new(
        scale_coord(rect.topleft_x, scale),
        scale_coord(rect.topleft_y, scale),
        scale_coord(rect.bottomright_x, scale),
        scale_coord(rect.bottomright_y, scale),
    )
}

/// The rectangles of one page, scaled, in order; those without a pixel are
/// left out.
pub open spec fn scaled_rects(rects: Seq<SelectionRect>, page: usize, scale: ScaleFactor) -> Seq<
    PixelRect,
>
    decreases rects.len(),
{
    if rects.len() == 0 {
        Seq::empty()
    } else {
        let rest = scaled_rects(rects.drop_last(), page, scale);
        if rects.last().page == page {
            rest + scaled_rect(rects.last(), scale)
        } else {
            rest
        }
    }
}

/// The comments of a page, in page pixels.
pub fn comment_rects_for_page(
    rects: &Vec<SelectionRect>,
    page_num: usize,
    scale_factor: ScaleFactor,
) -> (out: Vec<PixelRect>)
    ensures
        out@ == scaled_rects(rects@, page_num, scale_factor),
{
    let mut out: Vec<PixelRect> = Vec::new();
    let mut i: usize = 0;
    assert(rects@.take(0) =~= Seq::empty());
    while i < rects.len()
        invariant
            i <= rects.len(),
            out@ == scaled_rects(rects@.take(i as int), page_num, scale_factor),
        decreases rects.len() - i,
    {
        proof {
            assert(rects@.take(i as int + 1).drop_last() =~= rects@.take(i as int));
        }
        let ghost before = out@;
        if rects[i].page == page_num {
            if let Some(rect) = scale_rect(&rects[i], scale_factor) {
                out.push(rect);
            }
            assert(out@ =~= before + scaled_rect(rects@[i as int], scale_factor));
        }
        i += 1;
    }
    assert(rects@.take(i as int) =~= rects@);
    out
}

// Links.

/// The border strips of a link's box.
pub open spec fn link_strokes_of(b: LinkBox) -> Seq<PixelRect> {
    box_strokes(b.x0, b.y0, b.x1, b.y1, link_stroke((if b.y0 <= b.y1 { b.y1 - b.y0 } else { 0 }) as u32))
}

/// The border strips of some boxes, box by box.
pub open spec fn strokes_of_boxes(boxes: Seq<LinkBox>) -> Seq<PixelRect>
    decreases boxes.len(),
{
    if boxes.len() == 0 {
        Seq::empty()
    } else {
        strokes_of_boxes(boxes.drop_last()) + link_strokes_of(boxes.last())
    }
}

/// The border strips of the boxes of all links, link by link.
pub open spec fn all_link_strokes(links: Seq<Vec<LinkBox>>) -> Seq<PixelRect>
    decreases links.len(),
{
    if links.len() == 0 {
        Seq::empty()
    } else {
        all_link_strokes(links.drop_last()) + strokes_of_boxes(links.last()@)
    }
}

fn push_link_strokes(out: &mut Vec<PixelRect>, boxes: &Vec<LinkBox>)
    ensures
        final(out)@ == old(out)@ + strokes_of_boxes(boxes@),
{
    let ghost before = out@;
    let mut i: usize = 0;
    assert(boxes@.take(0) =~= Seq::empty());
    assert(out@ =~= before + strokes_of_boxes(boxes@.take(0)));
    while i < boxes.len()
        invariant
            i <= boxes.len(),
            out@ == before + strokes_of_boxes(boxes@.take(i as int)),
        decreases boxes.len() - i,
    {
        proof {
            assert(boxes@.take(i as int + 1).drop_last() =~= boxes@.take(i as int));
        }
        let b = boxes[i];
        let stroke: u32 = link_stroke_thickness(b.y1.saturating_sub(b.y0));
        push_box_strokes(out, b.x0, b.y0, b.x1, b.y1, stroke);
        i += 1;
        assert(out@ =~= before + strokes_of_boxes(boxes@.take(i as int)));
    }
    assert(boxes@.take(i as int) =~= boxes@);
}

/// The border strips of the boxes around links. A box that is upside down has
/// none.
pub fn link_box_stroke_rects(links: &Vec<Vec<LinkBox>>) -> (out: Vec<PixelRect>)
    ensures
        out@ == all_link_strokes(links@),
{
    let mut out: Vec<PixelRect> = Vec::new();
    let mut i: usize = 0;
    assert(links@.take(0) =~= Seq::empty());
    while i < links.len()
        invariant
            i <= links.len(),
            out@ == all_link_strokes(links@.take(i as int)),
        decreases links.len() - i,
    {
        proof {
            assert(links@.take(i as int + 1).drop_last() =~= links@.take(i as int));
        }
        push_link_strokes(&mut out, &links[i]);
        i += 1;
    }
    assert(links@.take(i as int) =~= links@);
    out
}

/// A link's box that is upside down has no border.
pub proof fn law_upside_down_box_has_no_border(b: LinkBox)
    requires
        b.y1 <= b.y0,
    ensures
        link_strokes_of(b).len() == 0,
{
}

/// A page decodes if and only if its buffer holds four bytes for every pixel
/// where there are four channels, three otherwise, and the number of bytes can
/// be counted. If it can be but the buffer holds another number, the fault says
/// both.
pub proof fn law_which_pages_decode(data: PageData)
    ensures
        ({
            let bytes: int = if data.channels == 4 {
                4
            } else {
                3
            };
            let expected = data.width_px * data.height_px * bytes;
            let got = data.pixels@.len();
            &&& data.raster() is Ok <==> expected <= 0xffff_ffff && got == expected
            &&& data.raster() == Err::<Raster, PipelineError>(PipelineError::PixelSizeOverflow)
                <==> expected > 0xffff_ffff
            &&& expected <= 0xffff_ffff && got != expected ==> (data.raster() matches Err(
                PipelineError::PixelBufferMismatch { expected: e, got: g },
            ) && e == expected && g == got as u64)
            &&& data.raster() matches Ok(r) ==> r.wf() && (r.kind == PixelKind::Rgba
                <==> data.channels == 4)
        }),
{
    let bytes: int = if data.channels == 4 {
        4
    } else {
        3
    };
    let area = data.width_px * data.height_px;
    assert(area >= 0) by (nonlinear_arith)
        requires
            area == data.width_px * data.height_px,
    ;
}

} // verus!
