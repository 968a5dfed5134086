//! What holds of pixels: of brushes, of cut-outs and of what a view shows.

use vstd::prelude::*;

#[allow(unused_imports)]
use crate::geometry::{
    density_of, expanded, underline_of, CellSize, CursorRect, Picker, PixelRect, ProtocolType, Rect,
};
#[allow(unused_imports)]
use crate::overlay::{blended, overlaid, Brush, Px, RgbColor, Stroke};
#[allow(unused_imports)]
use crate::page::{PageData, ViewportUpdate};
#[allow(unused_imports)]
use crate::paint::painted;
#[allow(unused_imports)]
use crate::pixmap::{as_kind, cropped, extended_down, opaque, padded, pads, PixelKind, Raster};
#[allow(unused_imports)]
use crate::render::{
    image_id, in_view, is_normalized, is_page_work, is_rendering, needs_resampling, page_in_view,
    Encoder, PageWork, Transport,
};
#[allow(unused_imports)]
use crate::resize::is_fast_resampling;
#[allow(unused_imports)]
use crate::simd_overlay::{tinted_row, OverlayOp};
#[allow(unused_imports)]
use crate::text::PipelineError;
#[allow(unused_imports)]
use crate::tiles::Grid;

verus! {

// Brushes.

/// A highlight mixes the page's colour and its own in the proportion that its
/// opacity says, rounded down. The mixture lies between the two. It leaves the
/// page's colour for a darker one whatever the opacity, and for a lighter one as
/// soon as the difference is a whole step.
pub proof fn law_highlights_mix_colours(base: u8, overlay: u8, alpha: u8)
    ensures
        ({
            let b = blended(base, overlay, alpha);
            let sum = base * (255 - alpha) + overlay * alpha;
            &&& 255 * b <= sum < 255 * (b + 1)
            &&& base <= overlay ==> base <= b <= overlay
            &&& overlay <= base ==> overlay <= b <= base
            &&& overlay < base && alpha > 0 ==> b < base
            &&& (overlay - base) * alpha >= 255 ==> b > base
        }),
{
    let (p, q, a) = (base as int, overlay as int, alpha as int);
    let sum = p * (255 - a) + q * a;
    assert(sum == 255 * p + (q - p) * a) by (nonlinear_arith)
        requires
            sum == p * (255 - a) + q * a,
    ;
    assert(0 <= sum <= 255 * 255) by (nonlinear_arith)
        requires
            sum == p * (255 - a) + q * a,
            0 <= p <= 255,
            0 <= q <= 255,
            0 <= a <= 255,
    ;
    if p <= q {
        assert(0 <= (q - p) * a <= (q - p) * 255) by (nonlinear_arith)
            requires
                0 <= q - p,
                0 <= a <= 255,
        ;
    }
    if q <= p {
        assert(0 >= (q - p) * a >= (q - p) * 255) by (nonlinear_arith)
            requires
                q - p <= 0,
                0 <= a <= 255,
        ;
    }
    if q < p && a > 0 {
        assert((q - p) * a < 0) by (nonlinear_arith)
            requires
                q - p < 0,
                a > 0,
        ;
    }
}

/// What each brush does to a pixel. A highlight mixes colour by colour, a solid
/// stroke replaces the pixel, a selection adds forty to the red and takes twenty
/// off the green and sixty off the blue, and the cursor inverts. The result is
/// always opaque.
pub proof fn law_brushes(p: Px, rgb: RgbColor, alpha: u8)
    ensures
        (Brush::Solid { rgb }).stroked(p) == (Px { r: rgb.r, g: rgb.g, b: rgb.b, a: 255 }),
        ({
            let q = (Brush::Blend { rgb, alpha }).stroked(p);
            &&& 255 * q.r <= p.r * (255 - alpha) + rgb.r * alpha < 255 * (q.r + 1)
            &&& 255 * q.g <= p.g * (255 - alpha) + rgb.g * alpha < 255 * (q.g + 1)
            &&& 255 * q.b <= p.b * (255 - alpha) + rgb.b * alpha < 255 * (q.b + 1)
            &&& q.a == 255
        }),
        ({
            let q = (Brush::Tint { op: OverlayOp::Selection }).stroked(p);
            &&& q.r == if p.r <= 215 { p.r + 40 } else { 255 }
            &&& q.g == if p.g >= 20 { p.g - 20 } else { 0 }
            &&& q.b == if p.b >= 60 { p.b - 60 } else { 0 }
            &&& q.a == 255
        }),
        ({
            let q = (Brush::Tint { op: OverlayOp::Cursor }).stroked(p);
            &&& q.r + p.r == 255
            &&& q.g + p.g == 255
            &&& q.b + p.b == 255
            &&& q.a == 255
        }),
        ({
            let q = (Brush::Tint { op: OverlayOp::Comment }).stroked(p);
            &&& q.r == if p.r >= 15 { p.r - 15 } else { 0 }
            &&& q.g == p.g
            &&& q.b == if p.b <= 235 { p.b + 20 } else { 255 }
            &&& q.a == 255
        }),
{
    law_highlights_mix_colours(p.r, rgb.r, alpha);
    law_highlights_mix_colours(p.g, rgb.g, alpha);
    law_highlights_mix_colours(p.b, rgb.b, alpha);
}

/// Tinting a row of bytes tints each of its pixels as the brush does, and leaves
/// what is behind the last whole pixel.
pub proof fn law_rows_are_tinted_pixel_by_pixel(row: Seq<u8>, op: OverlayOp, k: int)
    requires
        0 <= k,
    ensures
        tinted_row(row, op).len() == row.len(),
        3 * k + 2 < row.len() ==> ({
            let p = Px { r: row[3 * k], g: row[3 * k + 1], b: row[3 * k + 2], a: 255 };
            let t = tinted_row(row, op);
            (Brush::Tint { op }).stroked(p) == (Px {
                r: t[3 * k],
                g: t[3 * k + 1],
                b: t[3 * k + 2],
                a: 255,
            })
        }),
        row.len() / 3 * 3 <= k < row.len() ==> tinted_row(row, op)[k] == row[k],
{
}

/// A stroke changes the pixels of its rectangle, each for itself, and no other;
/// the image keeps its extent and its kind.
pub proof fn law_stroke_changes_its_rectangle(r: Raster, s: Stroke, x: int, y: int)
    requires
        0 <= x < r.width,
        0 <= y < r.height,
    ensures
        painted(r, seq![s]).kind == r.kind,
        painted(r, seq![s]).width == r.width,
        painted(r, seq![s]).height == r.height,
        painted(r, seq![s]).at(x, y) == (if s.rect.x0 <= x < s.rect.x1 && s.rect.y0 <= y < s.rect.y1 {
            s.brush.stroked(r.at(x, y))
        } else {
            r.at(x, y)
        }),
{
    reveal_with_fuel(overlaid, 2);
    assert(seq![s].drop_last() =~= Seq::<Stroke>::empty());
}

/// Where no stroke reaches, the page shows as it is.
pub proof fn law_untouched_pixels_stay(r: Raster, strokes: Seq<Stroke>, x: int, y: int)
    requires
        0 <= x < r.width,
        0 <= y < r.height,
        forall|i: int|
            0 <= i < strokes.len() ==> !((#[trigger] strokes[i]).rect.x0 <= x < strokes[i].rect.x1
                && strokes[i].rect.y0 <= y < strokes[i].rect.y1),
    ensures
        painted(r, strokes).at(x, y) == r.at(x, y),
{
    lemma_untouched(strokes, x, y, r.at(x, y));
}

proof fn lemma_untouched(strokes: Seq<Stroke>, x: int, y: int, p: Px)
    requires
        forall|i: int| 0 <= i < strokes.len() ==> !(#[trigger] strokes[i]).rect.covers(x, y),
    ensures
        overlaid(strokes, x, y, p) == p,
    decreases strokes.len(),
{
    if strokes.len() > 0 {
        let rest = strokes.drop_last();
        assert forall|i: int| 0 <= i < rest.len() implies !(#[trigger] rest[i]).rect.covers(x, y) by {
            assert(rest[i] == strokes[i]);
        }
        lemma_untouched(rest, x, y, p);
        assert(!strokes[strokes.len() - 1].rect.covers(x, y));
    }
}

// Rectangles.

/// A rectangle with given corners is there if and only if it holds a pixel, and
/// then it holds the pixels between the corners.
pub proof fn law_corners(x0: u32, y0: u32, x1: u32, y1: u32, x: int, y: int)
    ensures
        ({
            let r = PixelRect::with_corners(x0 as int, y0 as int, x1 as int, y1 as int);
            &&& r is Some <==> x0 < x1 && y0 < y1
            &&& r is Some ==> r->0 == (PixelRect { x0, y0, x1, y1 })
            &&& (r is Some && r->0.covers(x, y)) <==> x0 <= x < x1 && y0 <= y < y1
        }),
{
}

/// A comment's underline is as wide as the text, begins two rows below it and is
/// three rows thick, as far as there are rows.
pub proof fn law_underline_lies_below_the_text(rect: PixelRect, x: int, y: int)
    ensures
        underline_of(rect).covers(x, y) <==> rect.x0 <= x < rect.x1 && rect.y1 + 2 <= y < rect.y1 + 5
            && y < u32::MAX,
{
}

/// The cursor stays where it is on its page, and is drawn as large as it is, but
/// no smaller than a character.
pub proof fn law_cursor_is_at_least_a_character(cursor: CursorRect, picker: Picker)
    ensures
        ({
            let e = expanded(cursor, picker);
            &&& e.page == cursor.page && e.x == cursor.x && e.y == cursor.y
            &&& e.width >= cursor.width && e.width >= picker.font_width
            &&& e.height >= cursor.height && e.height >= picker.font_height
            &&& e.width == cursor.width || e.width == picker.font_width
            &&& e.height == cursor.height || e.height == picker.font_height
        }),
{
}

/// A cell holds as many whole pixels as fit when the image is divided among its
/// cells, but one at least. Without cells it holds a character of the font.
pub proof fn law_pixels_per_cell(width: u32, height: u32, cells: CellSize, picker: Picker)
    ensures
        ({
            let d = density_of(width, height, cells, picker);
            &&& d.x >= 1 && d.y >= 1
            &&& 0 < cells.width <= width ==> d.x * cells.width <= width < (d.x + 1) * cells.width
            &&& 0 < cells.height <= height ==> d.y * cells.height <= height < (d.y + 1)
                * cells.height
            &&& cells.width > width ==> d.x == 1
            &&& cells.height > height ==> d.y == 1
            &&& cells.width == 0 && picker.font_width > 0 ==> d.x == picker.font_width
            &&& cells.height == 0 && picker.font_height > 0 ==> d.y == picker.font_height
            &&& cells.width == 0 && picker.font_width == 0 ==> d.x == 1
            &&& cells.height == 0 && picker.font_height == 0 ==> d.y == 1
        }),
{
    lemma_quotient(width, cells.width);
    lemma_quotient(height, cells.height);
}

proof fn lemma_quotient(px: u32, cells: u16)
    ensures
        cells > 0 ==> ({
            let q = px as int / cells as int;
            &&& 0 <= q <= px
            &&& q * cells <= px < (q + 1) * cells
            &&& cells <= px ==> q >= 1
            &&& cells > px ==> q == 0
        }),
{
    if cells > 0 {
        let (p, c) = (px as int, cells as int);
        let q = p / c;
        vstd::arithmetic::div_mod::lemma_fundamental_div_mod(p, c);
        assert(q * c <= p < (q + 1) * c) by (nonlinear_arith)
            requires
                p == c * q + p % c,
                0 <= p % c < c,
        ;
        assert(0 <= q <= p && (c <= p ==> q >= 1) && (c > p ==> q == 0)) by (nonlinear_arith)
            requires
                q * c <= p < (q + 1) * c,
                p >= 0,
                c >= 1,
        ;
    }
}

// Cut-outs.

/// A cut-out inside an image has the extent that was asked for, as far as the
/// image goes, and shows the image's pixels from its corner on.
pub proof fn law_cut_out_shows_its_part(r: Raster, x: int, y: int, w: int, h: int, i: int, j: int)
    requires
        0 <= x <= r.width,
        0 <= y <= r.height,
        0 <= w <= u32::MAX,
        0 <= h <= u32::MAX,
        0 <= i < w,
        0 <= j < h,
        x + i < r.width,
        y + j < r.height,
    ensures
        ({
            let c = cropped(r, x, y, w, h);
            &&& c.kind == r.kind
            &&& c.width == if x + w <= r.width { w } else { r.width - x }
            &&& c.height == if y + h <= r.height { h } else { r.height - y }
            &&& c.at(i, j) == r.at(x + i, y + j)
        }),
{
}

/// An image that is extended downwards keeps its rows, and has the given colour
/// below them.
pub proof fn law_extending_keeps_the_rows(r: Raster, h: u32, bg: Px, x: int, y: int)
    requires
        r.wf(),
        r.height <= h,
        r.kind == PixelKind::Rgb ==> bg.a == 255,
        0 <= x < r.width,
        0 <= y < h,
    ensures
        ({
            let e = extended_down(r, h, bg);
            &&& e.kind == r.kind
            &&& e.width == r.width
            &&& e.height == h
            &&& e.at(x, y) == if y < r.height { r.at(x, y) } else { bg }
        }),
{
    if y < r.height {
        assert(r.kind == PixelKind::Rgb ==> r.at(x, y).a == 255);
    }
}

/// Dropping the transparency keeps the colours.
pub proof fn law_opaque_keeps_colours(r: Raster, x: int, y: int)
    requires
        0 <= x < r.width,
        0 <= y < r.height,
    ensures
        ({
            let o = opaque(r);
            &&& o.kind == PixelKind::Rgb
            &&& o.width == r.width
            &&& o.height == r.height
            &&& o.at(x, y) == (Px { a: 255, ..r.at(x, y) })
        }),
{
}

/// An image that has the extent already is not changed by padding; another one
/// loses its transparency.
pub proof fn law_padding_leaves_what_fits(r: Raster, w: int, h: int)
    requires
        0 <= w <= u32::MAX,
        0 <= h <= u32::MAX,
    ensures
        r.width == w && r.height == h ==> padded(r, w, h) == r,
        r.width != w || r.height != h ==> padded(r, w, h).kind == PixelKind::Rgb,
        padded(r, w, h).width == w,
        padded(r, w, h).height == h,
{
}

// Views.

proof fn lemma_product(a: int, b: int)
    requires
        0 <= a,
        0 <= b,
    ensures
        0 <= a * b,
{
    assert(0 <= a * b) by (nonlinear_arith)
        requires
            0 <= a,
            0 <= b,
    ;
}

/// A view shows the page from the row on that it is scrolled to. Its image is as
/// high as the view, but one row at least. Row by row it is the page, as far as the page goes; below,
/// it is transparent on a transparent page, and goes on in the first colour that
/// is in view on another. Kitty is shown all columns. Elsewhere, a page that is
/// wider than the view is shown from the column on that the view is moved to,
/// and no wider than the view.
pub proof fn law_view_shows_its_part_of_the_page(
    page: Raster,
    cells: CellSize,
    vp: ViewportUpdate,
    picker: Picker,
    x: int,
    y: int,
)
    requires
        page.wf(),
        vp.y_offset_cells * density_of(page.width, page.height, cells, picker).y < page.height,
    ensures
        ({
            let d = density_of(page.width, page.height, cells, picker);
            let (part, area) = in_view(page, cells, vp, picker);
            let top = vp.y_offset_cells * d.y;
            let high = vp.viewport_height_cells * d.y;
            let narrow = picker.protocol != ProtocolType::Kitty && cells.width
                > vp.viewport_width_cells;
            let wanted = vp.viewport_width_cells * d.x;
            let cut = narrow && wanted < page.width;
            let left = if !cut {
                0
            } else if vp.x_offset_cells * d.x < page.width {
                vp.x_offset_cells * d.x
            } else {
                page.width - 1
            };
            &&& part.kind == page.kind
            &&& part.height == if high == 0 {
                1
            } else if high <= u32::MAX {
                high
            } else {
                u32::MAX as int
            }
            &&& !cut ==> part.width == page.width
            &&& cut && left + wanted <= page.width ==> part.width == wanted
            &&& cut && left + wanted > page.width ==> part.width == page.width - left
            &&& area.height == vp.viewport_height_cells
            &&& area.width == if narrow { vp.viewport_width_cells } else { cells.width }
            &&& 0 <= x < part.width && 0 <= y < part.height && top + y < page.height ==> part.at(x, y)
                == page.at(left + x, top + y)
            &&& 0 <= x < part.width && 0 <= y < part.height && top + y >= page.height ==> part.at(x, y)
                == (if page.kind == PixelKind::Rgba {
                Px { r: 0, g: 0, b: 0, a: 0 }
            } else {
                page.at(0, top)
            })
        }),
{
    let d = density_of(page.width, page.height, cells, picker);
    law_pixels_per_cell(page.width, page.height, cells, picker);
    let top = vp.y_offset_cells * d.y;
    let high = vp.viewport_height_cells * d.y;
    lemma_product(vp.y_offset_cells as int, d.y as int);
    lemma_product(vp.x_offset_cells as int, d.x as int);
    lemma_product(vp.viewport_width_cells as int, d.x as int);
    lemma_product(vp.viewport_height_cells as int, d.y as int);
    assert(page.kind == PixelKind::Rgb && page.width > 0 ==> page.at(0, top).a == 255);
    assert(forall|i: int, j: int|
        page.kind == PixelKind::Rgb && 0 <= i < page.width && 0 <= j < page.height
            ==> (#[trigger] page.at(i, j)).a == 255);
}

/// A view that lies below the page altogether shows all rows of the page.
pub proof fn law_view_below_the_page_shows_all_rows(
    page: Raster,
    cells: CellSize,
    vp: ViewportUpdate,
    picker: Picker,
)
    requires
        vp.y_offset_cells * density_of(page.width, page.height, cells, picker).y >= page.height,
    ensures
        in_view(page, cells, vp, picker).0.height == page.height,
        in_view(page, cells, vp, picker).1.height == cells.height,
        picker.protocol == ProtocolType::Kitty ==> in_view(page, cells, vp, picker) == (page, cells),
{
}

/// Only a view of the page itself cuts it; without one, or with one of another
/// page, the whole page is shown.
pub proof fn law_other_views_cut_nothing(
    page: Raster,
    cells: CellSize,
    page_num: usize,
    viewport: Option<ViewportUpdate>,
    picker: Picker,
)
    ensures
        viewport is None || viewport->0.page != page_num ==> page_in_view(
            page,
            cells,
            page_num,
            viewport,
            picker,
        ) == (page, cells),
        viewport is Some && viewport->0.page == page_num ==> page_in_view(
            page,
            cells,
            page_num,
            viewport,
            picker,
        ) == in_view(page, cells, viewport->0, picker),
{
}

/// What is handed over of a page. Kitty is handed the visible part itself, as an
/// image numbered one above the page, with the extent of the view. iTerm2 is
/// handed the visible part on a canvas of whole cells, at the page's own density;
/// the others one in the terminal's font, resampled if it does not fit.
pub proof fn law_rendering(
    work: PageWork,
    page: Raster,
    cells: CellSize,
    page_num: usize,
    viewport: Option<ViewportUpdate>,
    picker: Picker,
    transport: Transport,
)
    requires
        is_rendering(work, page, cells, page_num, viewport, picker, transport),
    ensures
        ({
            let (part, area) = page_in_view(page, cells, page_num, viewport, picker);
            let font_w = area.width * picker.font_width;
            let font_h = area.height * picker.font_height;
            let fits = part.width == font_w && part.height == font_h;
            match picker.protocol {
                ProtocolType::Kitty => work matches PageWork::Kitty { upload, cell_size } && cell_size
                    == area && (transport.raw_limit is None ==> upload.image@ == part)
                    && upload.page_num == page_num && (page_num < u32::MAX ==> upload.image_id
                    == page_num + 1) && upload.pid == transport.pid && upload.shared_memory
                    == transport.kitty_shm_support,
                ProtocolType::Iterm2 => {
                    let d = density_of(part.width, part.height, area, picker);
                    &&& work matches PageWork::Encode { request }
                    &&& request.encoder == Encoder::Iterm2
                    &&& request.area == (Rect { x: 0, y: 0, width: area.width, height: area.height })
                    &&& area.width * d.x <= u32::MAX ==> request.image.width == area.width * d.x
                    &&& area.height * d.y <= u32::MAX ==> request.image.height == area.height * d.y
                },
                _ => {
                    &&& work matches PageWork::Encode { request }
                    &&& request.encoder == Encoder::Native
                    &&& request.area == (Rect { x: 0, y: 0, width: area.width, height: area.height })
                    &&& request.image.width == font_w
                    &&& request.image.height == font_h
                    &&& fits ==> request.image@ == part
                    &&& !fits && part.width > 0 && part.height > 0 && font_w > 0 && font_h > 0
                        ==> is_fast_resampling(request.image@, opaque(part))
                },
            }
        }),
{
    let (part, area) = page_in_view(page, cells, page_num, viewport, picker);
    let d = density_of(part.width, part.height, area, picker);
    lemma_product(area.width as int, d.x as int);
    lemma_product(area.height as int, d.y as int);
}

/// Where an image without pixels has to be resampled to the font, a black one is
/// handed over.
pub proof fn law_nothing_to_resample_is_black(
    work: PageWork,
    page: Raster,
    cells: CellSize,
    page_num: usize,
    viewport: Option<ViewportUpdate>,
    picker: Picker,
    transport: Transport,
    x: int,
    y: int,
)
    requires
        is_rendering(work, page, cells, page_num, viewport, picker, transport),
        picker.protocol != ProtocolType::Kitty,
        picker.protocol != ProtocolType::Iterm2,
        ({
            let (part, area) = page_in_view(page, cells, page_num, viewport, picker);
            &&& part.width == 0 || part.height == 0
            &&& 0 <= x < area.width * picker.font_width
            &&& 0 <= y < area.height * picker.font_height
        }),
    ensures
        ({
            let p = work->request.image@.at(x, y);
            p.r == 0 && p.g == 0 && p.b == 0
        }),
{
    let (part, area) = page_in_view(page, cells, page_num, viewport, picker);
    lemma_cells_in_font(area.width, picker.font_width);
    lemma_cells_in_font(area.height, picker.font_height);
}

proof fn lemma_cells_in_font(a: u16, b: u16)
    ensures
        0 <= a * b <= 0xfffe_0001,
{
    assert(0 <= a * b <= 0xfffe_0001) by (nonlinear_arith)
        requires
            0 <= a <= 0xffff,
            0 <= b <= 0xffff,
    ;
}

/// What an image becomes when it is fitted to the font: Kitty and iTerm2, and
/// an image that fits, get it as it is; elsewhere it is resampled to the font's
/// extent, or is blank if it has no pixels.
pub proof fn law_fitting_to_the_font(out: Raster, r: Raster, cells: CellSize, picker: Picker)
    requires
        is_normalized(out, r, cells, picker),
    ensures
        ({
            let (w, h) = (cells.width * picker.font_width, cells.height * picker.font_height);
            let stays = picker.protocol == ProtocolType::Kitty || picker.protocol
                == ProtocolType::Iterm2 || (r.width == w && r.height == h);
            let empty = r.width == 0 || r.height == 0;
            &&& stays ==> out == r
            &&& !stays ==> out.width == (if w > 1 {
                w
            } else {
                1
            }) && out.height == (if h > 1 {
                h
            } else {
                1
            })
            &&& !stays && !empty ==> out.wf() && out.kind == PixelKind::Rgb && is_fast_resampling(
                out,
                opaque(r),
            )
            &&& !stays && empty ==> out.kind == r.kind && forall|x: int, y: int|
                0 <= x < out.width && 0 <= y < out.height ==> {
                    let p = #[trigger] out.at(x, y);
                    p.r == 0 && p.g == 0 && p.b == 0 && (p.a == 0 <==> r.kind == PixelKind::Rgba)
                }
        }),
{
    lemma_cells_in_font(cells.width, picker.font_width);
    lemma_cells_in_font(cells.height, picker.font_height);
}

/// On iTerm2 the pixels of the visible part are handed over as they are, as far
/// as whole cells of the page go.
pub proof fn law_iterm2_is_handed_the_pixels(
    work: PageWork,
    page: Raster,
    cells: CellSize,
    page_num: usize,
    viewport: Option<ViewportUpdate>,
    picker: Picker,
    transport: Transport,
    x: int,
    y: int,
)
    requires
        picker.protocol == ProtocolType::Iterm2,
        is_rendering(work, page, cells, page_num, viewport, picker, transport),
        work is Encode,
    ensures
        ({
            let part = page_in_view(page, cells, page_num, viewport, picker).0;
            let shown = work->request.image@;
            0 <= x < part.width && 0 <= y < part.height && x < shown.width && y < shown.height ==> (
            shown.at(x, y).r == part.at(x, y).r && shown.at(x, y).g == part.at(x, y).g && shown.at(
                x,
                y,
            ).b == part.at(x, y).b)
        }),
{
}

// Tiles.

/// A tile shows the painted page from its own row of cells on, and from the
/// column on that the view is moved to: one cell high, and as wide as the view
/// or the page, whichever is narrower. Where the page ends it goes on in its
/// first colour.
pub proof fn law_tile_shows_its_cells(
    grid: Grid,
    index: int,
    strokes: Seq<Stroke>,
    x: int,
    y: int,
)
    requires
        grid.page.wf(),
        0 <= index,
        index * grid.density().y < grid.page.height,
        grid.page.width > 0,
        0 <= x < grid.tile_extent().0,
        0 <= y < grid.tile_extent().1,
    ensures
        ({
            let d = density_of(grid.page.width, grid.page.height, grid.cells, grid.picker);
            let columns = if grid.cells.width <= grid.vp.viewport_width_cells {
                grid.cells.width
            } else {
                grid.vp.viewport_width_cells
            };
            let left = if grid.vp.x_offset_cells * d.x < grid.page.width {
                grid.vp.x_offset_cells * d.x
            } else {
                grid.page.width - 1
            };
            let top = index * d.y;
            let shown = painted(grid.page, strokes);
            let p = grid.picture(index, strokes).at(x, y);
            let q = if x < columns * d.x && left + x < grid.page.width && y < d.y && top + y
                < grid.page.height {
                shown.at(left + x, top + y)
            } else {
                shown.at(left, top)
            };
            columns > 0 ==> p.r == q.r && p.g == q.g && p.b == q.b
        }),
{
    let d = grid.density();
    law_pixels_per_cell(grid.page.width, grid.page.height, grid.cells, grid.picker);
    lemma_product(grid.vp.x_offset_cells as int, d.x as int);
    lemma_product(grid.columns() as int, d.x as int);
    grid.lemma_step();
    assert(index * grid.step() < grid.page.height);
    grid.lemma_span(index);
    crate::tiles::law_tile_shows_the_painted_page(grid, index, strokes);
    if grid.columns() > 0 {
        assert(grid.columns() * d.x >= 1) by (nonlinear_arith)
            requires
                grid.columns() >= 1,
                d.x >= 1,
        ;
    }
    let (w, h) = grid.tile_extent();
    lemma_extent(grid);
    let s = grid.span(index);
    let part = cropped(
        painted(grid.page, strokes),
        s.x as int,
        s.y as int,
        s.width as int,
        s.height as int,
    );
    crate::paint::lemma_painted_wf(grid.page, strokes);
    assert(part.width == s.width && part.height == s.height);
}

proof fn lemma_extent(grid: Grid)
    ensures
        0 <= grid.tile_extent().0 <= u32::MAX,
        0 <= grid.tile_extent().1 <= u32::MAX,
{
    let d = grid.density();
    lemma_product(grid.columns() as int, d.x as int);
    lemma_product(grid.columns() as int, grid.picker.font_width as int);
    assert(grid.columns() * grid.picker.font_width <= 0xffff * 0xffff) by (nonlinear_arith)
        requires
            0 <= grid.columns() <= 0xffff,
            0 <= grid.picker.font_width <= 0xffff,
    ;
}

/// A tile is one cell high, and as wide as the view or the page, whichever is
/// narrower. Its image has the extent of these cells: on iTerm2 at the page's
/// density, elsewhere in the terminal's font.
pub proof fn law_tile_extent(grid: Grid)
    ensures
        ({
            let d = density_of(grid.page.width, grid.page.height, grid.cells, grid.picker);
            let c = grid.tile_cells();
            &&& c.height == 1
            &&& c.width <= grid.cells.width && c.width <= grid.vp.viewport_width_cells
            &&& c.width == grid.cells.width || c.width == grid.vp.viewport_width_cells
            &&& grid.picker.protocol == ProtocolType::Iterm2 && c.width * d.x <= u32::MAX
                ==> grid.tile_extent() == (c.width * d.x, d.y as int)
            &&& grid.picker.protocol != ProtocolType::Iterm2 ==> grid.tile_extent() == (
                c.width * grid.picker.font_width,
                grid.picker.font_height as int,
            )
        }),
{
}

} // verus!
