//! Painting overlays into images.

use rayon::iter::{IndexedParallelIterator, ParallelIterator};
use rayon::slice::ParallelSliceMut;
use vstd::prelude::*;

use crate::geometry::{comment_underline_rect, PixelRect};
#[allow(unused_imports)]
use crate::geometry::listed;
use crate::overlay::{
    stroke_pixel, Brush, HighlightPixelRect, OverlaySet, RgbColor, COMMENT_UNDERLINE_RGB,
    LINK_STROKE_RGB,
};
#[allow(unused_imports)]
use crate::overlay::{
    clip_strokes, highlight_strokes, is_tile_of, law_cursor_is_its_own_inverse, lemma_overlaid_clipped, lemma_overlaid_joined,
    lemma_tile_strokes, overlaid, solid, strokes_with, underlines, Px, Stroke, TileSpan,
};
use crate::pixmap::{PageImage, PixelKind};
#[allow(unused_imports)]
use crate::pixmap::{as_kind, cropped, opaque, lemma_same_raster, packed_px, Raster};
use crate::simd_overlay::{apply_row_simd, OverlayOp};
#[allow(unused_imports)]
use crate::simd_overlay::tinted_row;

verus! {

/// The image after strokes, each pixel for itself.
pub open spec fn painted(r: Raster, strokes: Seq<Stroke>) -> Raster {
    Raster::of(
        r.kind,
        r.width,
        r.height,
        |x: int, y: int| overlaid(strokes, x, y, r.at(x, y)),
    )
}

proof fn lemma_overlaid_opaque(strokes: Seq<Stroke>, x: int, y: int, p: Px)
    requires
        p.a == 255,
    ensures
        overlaid(strokes, x, y, p).a == 255,
    decreases strokes.len(),
{
    if strokes.len() > 0 {
        lemma_overlaid_opaque(strokes.drop_last(), x, y, p);
    }
}

pub proof fn lemma_painted_wf(r: Raster, strokes: Seq<Stroke>)
    requires
        r.wf(),
    ensures
        painted(r, strokes).wf(),
{
    let q = painted(r, strokes);
    if r.kind == PixelKind::Rgb {
        assert forall|x: int, y: int| 0 <= x < q.width && 0 <= y < q.height implies (#[trigger] q.at(
            x,
            y,
        )).a == 255 by {
            assert(r.at(x, y).a == 255);
            lemma_overlaid_opaque(strokes, x, y, r.at(x, y));
        }
    }
}

/// Painting one list of strokes after another paints both.
pub proof fn law_painting_composes(r: Raster, a: Seq<Stroke>, b: Seq<Stroke>)
    ensures
        painted(painted(r, a), b) == painted(r, a + b),
{
    let p = painted(painted(r, a), b);
    let q = painted(r, a + b);
    assert forall|y: int| 0 <= y < r.height implies p.rows[y] == q.rows[y] by {
        assert forall|x: int| 0 <= x < r.width implies p.rows[y][x] == q.rows[y][x] by {
            lemma_overlaid_joined(a, b, x, y, r.at(x, y));
        }
        assert(p.rows[y] =~= q.rows[y]);
    }
    assert(p.rows =~= q.rows);
}

/// Painting nothing leaves an image as it is.
pub proof fn law_painting_nothing(r: Raster)
    requires
        r.wf(),
    ensures
        painted(r, Seq::empty()) == r,
{
    lemma_painted_wf(r, Seq::empty());
    lemma_same_raster(painted(r, Seq::empty()), r);
}

/// Overlays stay visible over transparent parts of a page: where something is
/// drawn, the image is opaque.
pub proof fn law_overlays_are_opaque(r: Raster, strokes: Seq<Stroke>, i: int, x: int, y: int)
    requires
        r.wf(),
        0 <= i < strokes.len(),
        strokes[i].rect.covers(x, y),
        0 <= x < r.width,
        0 <= y < r.height,
    ensures
        painted(r, strokes).at(x, y).a == 255,
{
    lemma_opaque_once_covered(strokes, i, x, y, r.at(x, y));
}

proof fn lemma_opaque_once_covered(strokes: Seq<Stroke>, i: int, x: int, y: int, p: Px)
    requires
        0 <= i < strokes.len(),
        strokes[i].rect.covers(x, y),
    ensures
        overlaid(strokes, x, y, p).a == 255,
    decreases strokes.len(),
{
    if i < strokes.len() - 1 {
        lemma_opaque_once_covered(strokes.drop_last(), i, x, y, p);
    }
}

/// Transparency makes no difference to colours: painting and dropping the
/// transparency can be done in either order.
pub proof fn law_painting_ignores_transparency(r: Raster, strokes: Seq<Stroke>)
    requires
        r.wf(),
    ensures
        opaque(painted(r, strokes)) == painted(opaque(r), strokes),
{
    let a = opaque(painted(r, strokes));
    let b = painted(opaque(r), strokes);
    assert forall|y: int| 0 <= y < r.height implies a.rows[y] == b.rows[y] by {
        assert forall|x: int| 0 <= x < r.width implies a.rows[y][x] == b.rows[y][x] by {
            lemma_colours_ignore_alpha(strokes, x, y, r.at(x, y));
        }
        assert(a.rows[y] =~= b.rows[y]);
    }
    assert(a.rows =~= b.rows);
}

proof fn lemma_colours_ignore_alpha(strokes: Seq<Stroke>, x: int, y: int, p: Px)
    ensures
        as_kind(PixelKind::Rgb, overlaid(strokes, x, y, p)) == overlaid(
            strokes,
            x,
            y,
            as_kind(PixelKind::Rgb, p),
        ),
    decreases strokes.len(),
{
    if strokes.len() > 0 {
        lemma_colours_ignore_alpha(strokes.drop_last(), x, y, p);
    }
}

/// The cursor vanishes when it is drawn a second time.
pub proof fn law_cursor_drawn_twice_vanishes(r: Raster, cursor: PixelRect)
    requires
        r.wf(),
        r.kind == PixelKind::Rgb,
    ensures
        ({
            let stroke = Stroke { rect: cursor, brush: Brush::Tint { op: OverlayOp::Cursor } };
            painted(painted(r, seq![stroke]), seq![stroke]) == r
        }),
{
    let stroke = Stroke { rect: cursor, brush: Brush::Tint { op: OverlayOp::Cursor } };
    let once = painted(r, seq![stroke]);
    let twice = painted(once, seq![stroke]);
    lemma_painted_wf(r, seq![stroke]);
    lemma_painted_wf(once, seq![stroke]);
    assert forall|x: int, y: int| 0 <= x < r.width && 0 <= y < r.height implies #[trigger] twice.at(
        x,
        y,
    ) == r.at(x, y) by {
        reveal_with_fuel(overlaid, 2);
        assert(seq![stroke].drop_last() =~= Seq::<Stroke>::empty());
        assert(once.at(x, y) == overlaid(seq![stroke], x, y, r.at(x, y)));
        assert(twice.at(x, y) == overlaid(seq![stroke], x, y, once.at(x, y)));
        law_cursor_is_its_own_inverse(r.at(x, y));
    }
    lemma_same_raster(twice, r);
}

/// A part of a page can be painted by itself: painting the clipped strokes into
/// a part of the page gives that part of the painted page.
pub proof fn law_parts_show_the_painted_page(page: Raster, strokes: Seq<Stroke>, tile: TileSpan)
    requires
        page.wf(),
        tile.x + tile.width <= page.width,
        tile.y + tile.height <= page.height,
    ensures
        painted(
            cropped(page, tile.x as int, tile.y as int, tile.width as int, tile.height as int),
            clip_strokes(strokes, tile),
        ) == cropped(
            painted(page, strokes),
            tile.x as int,
            tile.y as int,
            tile.width as int,
            tile.height as int,
        ),
{
    let (tx, ty) = (tile.x as int, tile.y as int);
    let (tw, th) = (tile.width as int, tile.height as int);
    let a = painted(cropped(page, tx, ty, tw, th), clip_strokes(strokes, tile));
    let b = cropped(painted(page, strokes), tx, ty, tw, th);
    assert forall|y: int| 0 <= y < th implies a.rows[y] == b.rows[y] by {
        assert forall|x: int| 0 <= x < tw implies a.rows[y][x] == b.rows[y][x] by {
            lemma_overlaid_clipped(strokes, tile, x, y, page.at(tx + x, ty + y));
        }
        assert(a.rows[y] =~= b.rows[y]);
    }
    assert(a.rows =~= b.rows);
}

/// Tiles and pages agree: painting a tile's overlays into the tile's part of
/// the page gives the tile's part of the painted page.
pub proof fn law_tiles_show_the_painted_page(
    page: Raster,
    whole: OverlaySet,
    local: OverlaySet,
    tile: TileSpan,
)
    requires
        page.wf(),
        !whole.comments_are_underlines,
        is_tile_of(local, whole, tile),
        tile.x + tile.width <= page.width,
        tile.y + tile.height <= page.height,
    ensures
        painted(
            cropped(page, tile.x as int, tile.y as int, tile.width as int, tile.height as int),
            local.strokes(),
        ) == cropped(
            painted(page, whole.strokes()),
            tile.x as int,
            tile.y as int,
            tile.width as int,
            tile.height as int,
        ),
{
    lemma_tile_strokes(local, whole, tile);
    law_parts_show_the_painted_page(page, whole.strokes(), tile);
}

/// A tile without overlays of its own shows the page unpainted, so its
/// encoding may be reused whatever is drawn elsewhere on the page.
pub proof fn law_tile_without_overlays_is_plain(
    page: Raster,
    whole: OverlaySet,
    local: OverlaySet,
    tile: TileSpan,
)
    requires
        page.wf(),
        !whole.comments_are_underlines,
        is_tile_of(local, whole, tile),
        tile.x + tile.width <= page.width,
        tile.y + tile.height <= page.height,
        local.strokes().len() == 0,
    ensures
        cropped(
            painted(page, whole.strokes()),
            tile.x as int,
            tile.y as int,
            tile.width as int,
            tile.height as int,
        ) == cropped(page, tile.x as int, tile.y as int, tile.width as int, tile.height as int),
{
    law_tiles_show_the_painted_page(page, whole, local, tile);
    assert(local.strokes() =~= Seq::<Stroke>::empty());
    let c = cropped(page, tile.x as int, tile.y as int, tile.width as int, tile.height as int);
    assert(painted(c, Seq::<Stroke>::empty()).rows =~~= c.rows);
}

/// Passes a brush over one rectangle.
pub fn paint_rect(img: &mut PageImage, rect: PixelRect, brush: Brush)
    requires
        old(img).wf(),
    ensures
        final(img).wf(),
        final(img)@ == painted(old(img)@, seq![Stroke { rect, brush }]),
{
    let ghost before = img@;
    let ghost one = seq![Stroke { rect, brush }];
    proof {
        img.lemma_view_wf();
        lemma_painted_wf(before, one);
        assert(one.drop_last() =~= Seq::<Stroke>::empty());
        reveal_with_fuel(overlaid, 2);
    }
    let clamped = rect.clamp_to(img.width, img.height);
    if let Some(c) = clamped {
        let mut y: u32 = c.y0;
        while y < c.y1
            invariant
                img.wf(),
                img.kind == before.kind,
                img.width == before.width,
                img.height == before.height,
                c.x0 < c.x1 <= img.width,
                c.y0 <= y <= c.y1 <= img.height,
                forall|x2: int, y2: int|
                    0 <= x2 < before.width && 0 <= y2 < before.height ==> #[trigger] img@.at(x2, y2)
                        == (if c.covers(x2, y2) && y2 < y {
                        brush.stroked(before.at(x2, y2))
                    } else {
                        before.at(x2, y2)
                    }),
            decreases c.y1 - y,
        {
            let mut x: u32 = c.x0;
            while x < c.x1
                invariant
                    img.wf(),
                    img.kind == before.kind,
                    img.width == before.width,
                    img.height == before.height,
                    c.x0 <= x <= c.x1 <= img.width,
                    c.y0 <= y < c.y1 <= img.height,
                    forall|x2: int, y2: int|
                        0 <= x2 < before.width && 0 <= y2 < before.height ==> #[trigger] img@.at(
                            x2,
                            y2,
                        ) == (if c.covers(x2, y2) && (y2 < y || y2 == y && x2 < x) {
                            brush.stroked(before.at(x2, y2))
                        } else {
                            before.at(x2, y2)
                        }),
                decreases c.x1 - x,
            {
                let p = img.get(x, y);
                img.put(x, y, stroke_pixel(brush, p));
                x += 1;
            }
            y += 1;
        }
    }
    proof {
        img.lemma_view_wf();
        assert forall|x2: int, y2: int|
            0 <= x2 < before.width && 0 <= y2 < before.height implies #[trigger] img@.at(x2, y2)
            == painted(before, one).at(x2, y2) by {
            match clamped {
                Some(c) => {
                    assert(c.covers(x2, y2) == rect.covers(x2, y2));
                },
                None => {
                    assert(!rect.covers(x2, y2));
                },
            }
        }
        lemma_same_raster(img@, painted(before, one));
    }
}

/// Passes one brush over each rectangle.
fn paint_rects(img: &mut PageImage, rects: &Vec<PixelRect>, brush: Brush)
    requires
        old(img).wf(),
    ensures
        final(img).wf(),
        final(img)@ == painted(old(img)@, strokes_with(rects@, brush)),
{
    let ghost before = img@;
    proof {
        img.lemma_view_wf();
        law_painting_nothing(before);
        assert(strokes_with(rects@.take(0), brush) =~= Seq::<Stroke>::empty());
    }
    let mut i: usize = 0;
    while i < rects.len()
        invariant
            i <= rects@.len(),
            img.wf(),
            img@ == painted(before, strokes_with(rects@.take(i as int), brush)),
        decreases rects.len() - i,
    {
        paint_rect(img, rects[i], brush);
        proof {
            let one = seq![Stroke { rect: rects@[i as int], brush }];
            law_painting_composes(before, strokes_with(rects@.take(i as int), brush), one);
            assert(strokes_with(rects@.take(i as int), brush) + one =~= strokes_with(
                rects@.take(i + 1),
                brush,
            ));
        }
        i += 1;
    }
    assert(rects@.take(i as int) =~= rects@);
}

/// The brush that replaces pixels by a colour.
fn solid_brush(color: (u8, u8, u8)) -> (r: Brush)
    ensures
        r == solid(color),
{
    let (r, g, b) = color;
    Brush::Solid { rgb: RgbColor { r, g, b } }
}

/// Lays highlights over an image.
pub fn apply_highlight_rects(img: &mut PageImage, rects: &Vec<HighlightPixelRect>)
    requires
        old(img).wf(),
    ensures
        final(img).wf(),
        final(img)@ == painted(old(img)@, highlight_strokes(rects@)),
{
    let ghost before = img@;
    proof {
        img.lemma_view_wf();
        law_painting_nothing(before);
        assert(highlight_strokes(rects@.take(0)) =~= Seq::<Stroke>::empty());
    }
    let mut i: usize = 0;
    while i < rects.len()
        invariant
            i <= rects@.len(),
            img.wf(),
            img@ == painted(before, highlight_strokes(rects@.take(i as int))),
        decreases rects.len() - i,
    {
        let highlight = rects[i];
        paint_rect(
            img,
            highlight.rect,
            Brush::Blend { rgb: highlight.rgb, alpha: highlight.alpha },
        );
        proof {
            let one = seq![rects@[i as int].stroke()];
            law_painting_composes(before, highlight_strokes(rects@.take(i as int)), one);
            assert(highlight_strokes(rects@.take(i as int)) + one =~= highlight_strokes(
                rects@.take(i + 1),
            ));
        }
        i += 1;
    }
    assert(rects@.take(i as int) =~= rects@);
}

/// Draws an underline below each rectangle.
pub fn apply_underline_rects(img: &mut PageImage, rects: &Vec<PixelRect>, color: (u8, u8, u8))
    requires
        old(img).wf(),
    ensures
        final(img).wf(),
        final(img)@ == painted(old(img)@, strokes_with(underlines(rects@), solid(color))),
{
    let ghost before = img@;
    let ghost lines = underlines(rects@);
    let brush = solid_brush(color);
    proof {
        img.lemma_view_wf();
        law_painting_nothing(before);
        assert(strokes_with(lines.take(0), brush) =~= Seq::<Stroke>::empty());
    }
    let mut i: usize = 0;
    while i < rects.len()
        invariant
            i <= rects@.len(),
            lines == underlines(rects@),
            img.wf(),
            img@ == painted(before, strokes_with(lines.take(i as int), brush)),
        decreases rects.len() - i,
    {
        paint_rect(img, comment_underline_rect(rects[i]), brush);
        proof {
            let one = seq![Stroke { rect: lines[i as int], brush }];
            law_painting_composes(before, strokes_with(lines.take(i as int), brush), one);
            assert(strokes_with(lines.take(i as int), brush) + one =~= strokes_with(
                lines.take(i + 1),
                brush,
            ));
        }
        i += 1;
    }
    assert(lines.take(i as int) =~= lines);
}

/// Fills each rectangle with a colour.
pub fn draw_underline_rects_direct(img: &mut PageImage, rects: &Vec<PixelRect>, color: (u8, u8, u8))
    requires
        old(img).wf(),
    ensures
        final(img).wf(),
        final(img)@ == painted(old(img)@, strokes_with(rects@, solid(color))),
{
    paint_rects(img, rects, solid_brush(color));
}

// Tinting rows of packed RGB bytes.

/// A row after a tint of its columns from `x0` up to `x1`.
pub open spec fn span_tinted(row: Seq<u8>, x0: int, x1: int, op: OverlayOp) -> Seq<u8> {
    row.subrange(0, 3 * x0) + tinted_row(row.subrange(3 * x0, 3 * x1), op) + row.subrange(
        3 * x1,
        row.len() as int,
    )
}

/// Row `y` of an image after a tint of all rectangles.
pub open spec fn row_tinted(row: Seq<u8>, y: int, rects: Seq<PixelRect>, op: OverlayOp) -> Seq<u8>
    decreases rects.len(),
{
    if rects.len() == 0 {
        row
    } else {
        let before = row_tinted(row, y, rects.drop_last(), op);
        let rect = rects.last();
        if rect.y0 <= y < rect.y1 {
            span_tinted(before, rect.x0 as int, rect.x1 as int, op)
        } else {
            before
        }
    }
}

/// Whether the rectangles' columns lie in rows of `stride` bytes.
pub open spec fn columns_fit(rects: Seq<PixelRect>, stride: int) -> bool {
    forall|i: int|
        0 <= i < rects.len() ==> (#[trigger] rects[i]).x0 <= rects[i].x1 && 3 * rects[i].x1
            <= stride
}

proof fn lemma_row_tinted_len(row: Seq<u8>, y: int, rects: Seq<PixelRect>, op: OverlayOp)
    requires
        columns_fit(rects, row.len() as int),
    ensures
        row_tinted(row, y, rects, op).len() == row.len(),
    decreases rects.len(),
{
    if rects.len() > 0 {
        let init = rects.drop_last();
        assert(columns_fit(init, row.len() as int)) by {
            assert forall|i: int| 0 <= i < init.len() implies (#[trigger] init[i]).x0 <= init[i].x1
                && 3 * init[i].x1 <= row.len() by {
                assert(init[i] == rects[i]);
            }
        }
        lemma_row_tinted_len(row, y, init, op);
        assert(rects.last() == rects[rects.len() - 1]);
    }
}

/// Tints the columns from `x0` up to `x1` of a row.
fn tint_span(row: &mut [u8], x0: u32, x1: u32, op: OverlayOp)
    requires
        x0 <= x1,
        3 * x1 <= old(row)@.len(),
    ensures
        final(row)@ == span_tinted(old(row)@, x0 as int, x1 as int, op),
{
    let len: usize = row.len();
    let start: usize = x0 as usize * 3;
    let width: usize = (x1 - x0) as usize * 3;
    let (_, rest) = row.split_at_mut(start);
    let (span, _) = rest.split_at_mut(width);
    apply_row_simd(span, op);
    assert(row@ =~= span_tinted(old(row)@, x0 as int, x1 as int, op));
}

/// Tints row `y` of an image under all rectangles.
fn tint_row(y: u32, row: &mut [u8], rects: &Vec<PixelRect>, op: OverlayOp)
    requires
        columns_fit(rects@, old(row)@.len() as int),
    ensures
        final(row)@ == row_tinted(old(row)@, y as int, rects@, op),
{
    let mut i: usize = 0;
    let ghost before = row@;
    while i < rects.len()
        invariant
            i <= rects@.len(),
            columns_fit(rects@, before.len() as int),
            row@.len() == before.len(),
            row@ == row_tinted(before, y as int, rects@.take(i as int), op),
        decreases rects.len() - i,
    {
        let rect = rects[i];
        proof {
            assert(rects@.take(i + 1).drop_last() =~= rects@.take(i as int));
            assert(rects@[i as int].x0 <= rects@[i as int].x1);
        }
        if rect.y0 <= y && y < rect.y1 {
            tint_span(row, rect.x0, rect.x1, op);
        }
        i += 1;
    }
    assert(rects@.take(i as int) =~= rects@);
}

/// The `y`-th row of packed rows.
pub open spec fn row_of(data: Seq<u8>, stride: int, y: int) -> Seq<u8> {
    data.subrange(y * stride, y * stride + stride)
}

/// `rayon`'s `par_chunks_mut`, `enumerate` and `for_each`: the buffer is split
/// into consecutive chunks of `stride` bytes, and each chunk is handed once,
/// with its number, to `tint_row`.
#[verifier::external_body]
fn tint_rows_in_parallel(buf: &mut Vec<u8>, stride: usize, rects: &Vec<PixelRect>, op: OverlayOp)
    requires
        stride > 0,
        old(buf)@.len() % (stride as nat) == 0,
        old(buf)@.len() / (stride as nat) <= u32::MAX,
        columns_fit(rects@, stride as int),
    ensures
        final(buf)@.len() == old(buf)@.len(),
        forall|y: int|
            0 <= y < old(buf)@.len() / (stride as nat) ==> #[trigger] row_of(
                final(buf)@,
                stride as int,
                y,
            ) == row_tinted(row_of(old(buf)@, stride as int, y), y, rects@, op),
{
    buf.par_chunks_mut(stride).enumerate().for_each(
        |(y, row)| tint_row(y as u32, row, rects, op),
    );
}

proof fn lemma_row_bounds(y: int, stride: int, rows: int)
    requires
        0 <= y < rows,
        0 <= stride,
    ensures
        0 <= y * stride,
        y * stride + stride <= rows * stride,
{
    assert(0 <= y * stride && (y + 1) * stride <= rows * stride) by (nonlinear_arith)
        requires
            0 <= y < rows,
            0 <= stride,
    ;
    assert((y + 1) * stride == y * stride + stride) by (nonlinear_arith);
}

/// Tints the columns from `x0` up to `x1` of the `y`-th of `rows` rows.
fn tint_span_of_row(
    buf: &mut Vec<u8>,
    stride: usize,
    rows: u32,
    y: u32,
    x0: u32,
    x1: u32,
    op: OverlayOp,
)
    requires
        y < rows,
        x0 <= x1,
        3 * x1 <= stride,
        old(buf)@.len() == rows * stride,
    ensures
        final(buf)@.len() == old(buf)@.len(),
        row_of(final(buf)@, stride as int, y as int) == span_tinted(
            row_of(old(buf)@, stride as int, y as int),
            x0 as int,
            x1 as int,
            op,
        ),
        forall|y2: int|
            0 <= y2 < rows && y2 != y ==> #[trigger] row_of(final(buf)@, stride as int, y2)
                == row_of(old(buf)@, stride as int, y2),
{
    let ghost s = stride as int;
    let ghost before = buf@;
    proof {
        lemma_row_bounds(y as int, s, rows as int);
    }
    let len: usize = buf.len();
    let start: usize = y as usize * stride;
    let all: &mut [u8] = buf.as_mut_slice();
    let (_, rest) = all.split_at_mut(start);
    let (row, _) = rest.split_at_mut(stride);
    tint_span(row, x0, x1, op);
    proof {
        let mid = span_tinted(row_of(before, s, y as int), x0 as int, x1 as int, op);
        assert(mid.len() == s);
        assert(buf@ =~= before.subrange(0, start as int) + mid + before.subrange(
            start + s,
            len as int,
        ));
        assert(row_of(buf@, s, y as int) =~= mid);
        assert forall|y2: int| 0 <= y2 < rows && y2 != y implies #[trigger] row_of(buf@, s, y2)
            == row_of(before, s, y2) by {
            lemma_row_bounds(y2, s, rows as int);
            if y2 < y {
                lemma_row_bounds(y2, s, y as int);
            } else {
                lemma_row_bounds(y as int, s, y2);
            }
            assert(row_of(buf@, s, y2) =~= row_of(before, s, y2));
        }
    }
}

/// Tints rows one rectangle after another.
fn tint_rows(buf: &mut Vec<u8>, stride: usize, rows: u32, rects: &Vec<PixelRect>, op: OverlayOp)
    requires
        old(buf)@.len() == rows * stride,
        columns_fit(rects@, stride as int),
        forall|i: int| 0 <= i < rects@.len() ==> (#[trigger] rects@[i]).y1 <= rows,
    ensures
        final(buf)@.len() == old(buf)@.len(),
        forall|y: int|
            0 <= y < rows ==> #[trigger] row_of(final(buf)@, stride as int, y) == row_tinted(
                row_of(old(buf)@, stride as int, y),
                y,
                rects@,
                op,
            ),
{
    let ghost s = stride as int;
    let ghost before = buf@;
    let mut i: usize = 0;
    while i < rects.len()
        invariant
            i <= rects@.len(),
            s == stride,
            before.len() == rows * stride,
            buf@.len() == before.len(),
            columns_fit(rects@, stride as int),
            forall|j: int| 0 <= j < rects@.len() ==> (#[trigger] rects@[j]).y1 <= rows,
            forall|y: int|
                0 <= y < rows ==> #[trigger] row_of(buf@, s, y) == row_tinted(
                    row_of(before, s, y),
                    y,
                    rects@.take(i as int),
                    op,
                ),
        decreases rects.len() - i,
    {
        let rect = rects[i];
        let ghost at_start = buf@;
        assert(rects@[i as int].y1 <= rows && rects@[i as int].x0 <= rects@[i as int].x1);
        let mut y: u32 = rect.y0;
        while y < rect.y1
            invariant
                s == stride,
                rect.y0 <= y,
                rect.y1 <= rows,
                rect.x0 <= rect.x1,
                3 * rect.x1 <= stride,
                at_start.len() == rows * stride,
                buf@.len() == at_start.len(),
                forall|y2: int|
                    0 <= y2 < rows ==> #[trigger] row_of(buf@, s, y2) == (if rect.y0 <= y2 < rect.y1
                        && y2 < y {
                        span_tinted(row_of(at_start, s, y2), rect.x0 as int, rect.x1 as int, op)
                    } else {
                        row_of(at_start, s, y2)
                    }),
            decreases rect.y1 - y,
        {
            tint_span_of_row(buf, stride, rows, y, rect.x0, rect.x1, op);
            y += 1;
        }
        proof {
            assert(rects@.take(i + 1).drop_last() =~= rects@.take(i as int));
            assert forall|y2: int| 0 <= y2 < rows implies #[trigger] row_of(buf@, s, y2)
                == row_tinted(row_of(before, s, y2), y2, rects@.take(i + 1), op) by {
                assert(row_of(at_start, s, y2) == row_tinted(
                    row_of(before, s, y2),
                    y2,
                    rects@.take(i as int),
                    op,
                ));
            }
        }
        i += 1;
    }
    assert(rects@.take(i as int) =~= rects@);
}

/// What a tint of a row does to one of its pixels.
proof fn lemma_row_tinted_px(
    row: Seq<u8>,
    w: int,
    x: int,
    y: int,
    rects: Seq<PixelRect>,
    op: OverlayOp,
)
    requires
        row.len() == 3 * w,
        0 <= x < w,
        columns_fit(rects, row.len() as int),
    ensures
        packed_px(PixelKind::Rgb, row_tinted(row, y, rects, op), x) == overlaid(
            strokes_with(rects, Brush::Tint { op }),
            x,
            y,
            packed_px(PixelKind::Rgb, row, x),
        ),
    decreases rects.len(),
{
    if rects.len() > 0 {
        let init = rects.drop_last();
        let rect = rects.last();
        assert(rect == rects[rects.len() - 1]);
        assert(columns_fit(init, row.len() as int)) by {
            assert forall|i: int| 0 <= i < init.len() implies (#[trigger] init[i]).x0 <= init[i].x1
                && 3 * init[i].x1 <= row.len() by {
                assert(init[i] == rects[i]);
            }
        }
        lemma_row_tinted_px(row, w, x, y, init, op);
        lemma_row_tinted_len(row, y, init, op);
        assert(strokes_with(rects, Brush::Tint { op }).drop_last() =~= strokes_with(
            init,
            Brush::Tint { op },
        ));
        let before = row_tinted(row, y, init, op);
        if rect.y0 <= y < rect.y1 {
            let x0 = rect.x0 as int;
            let x1 = rect.x1 as int;
            let span = before.subrange(3 * x0, 3 * x1);
            let after = span_tinted(before, x0, x1, op);
            if x0 <= x < x1 {
                let i = 3 * (x - x0);
                assert(tinted_row(span, op)[i] == op.tint(0, span[i]));
                assert(tinted_row(span, op)[i + 1] == op.tint(1, span[i + 1]));
                assert(tinted_row(span, op)[i + 2] == op.tint(2, span[i + 2]));
                assert(after[3 * x] == op.tint(0, before[3 * x]));
                assert(after[3 * x + 1] == op.tint(1, before[3 * x + 1]));
                assert(after[3 * x + 2] == op.tint(2, before[3 * x + 2]));
            } else {
                assert(after[3 * x] == before[3 * x]);
                assert(after[3 * x + 1] == before[3 * x + 1]);
                assert(after[3 * x + 2] == before[3 * x + 2]);
            }
        }
    }
}

/// The pixels of the rows of an image are the pixels of the image.
proof fn lemma_row_px(data: Seq<u8>, w: int, h: int, x: int, y: int)
    requires
        0 <= x < w,
        0 <= y < h,
        data.len() == w * h * 3,
    ensures
        packed_px(PixelKind::Rgb, row_of(data, 3 * w, y), x) == packed_px(
            PixelKind::Rgb,
            data,
            y * w + x,
        ),
        row_of(data, 3 * w, y).len() == 3 * w,
{
    lemma_row_bounds(y, 3 * w, h);
    assert(y * (3 * w) == 3 * (y * w)) by (nonlinear_arith);
    assert(h * (3 * w) == w * h * 3) by (nonlinear_arith);
}

/// Tints the pixels of an image without transparency under each rectangle.
/// Large areas are worked on by several threads, row by row.
pub fn apply_rects_op(img: &mut PageImage, rects: &Vec<PixelRect>, op: OverlayOp)
    requires
        old(img).wf(),
        old(img).kind == PixelKind::Rgb,
    ensures
        final(img).wf(),
        final(img)@ == painted(old(img)@, strokes_with(rects@, Brush::Tint { op })),
{
    let ghost before = img@;
    let ghost brush = Brush::Tint { op };
    let width: u32 = img.width;
    let height: u32 = img.height;
    let mut clamped: Vec<PixelRect> = Vec::new();
    let mut total_pixels: u64 = 0;
    let mut i: usize = 0;
    while i < rects.len()
        invariant
            i <= rects@.len(),
            brush == (Brush::Tint { op }),
            forall|j: int|
                0 <= j < clamped@.len() ==> (#[trigger] clamped@[j]).x0 < clamped@[j].x1 <= width
                    && clamped@[j].y0 < clamped@[j].y1 <= height,
            forall|x: int, y: int, p: Px|
                0 <= x < width && 0 <= y < height ==> #[trigger] overlaid(
                    strokes_with(clamped@, brush),
                    x,
                    y,
                    p,
                ) == overlaid(strokes_with(rects@.take(i as int), brush), x, y, p),
        decreases rects.len() - i,
    {
        let ghost kept = clamped@;
        let ghost head = rects@.take(i as int);
        proof {
            assert(strokes_with(rects@.take(i + 1), brush).drop_last() =~= strokes_with(
                head,
                brush,
            ));
        }
        if let Some(rect) = rects[i].clamp_to(width, height) {
            let across: u64 = (rect.x1 - rect.x0) as u64;
            let down: u64 = (rect.y1 - rect.y0) as u64;
            assert(across * down <= 0xffff_ffff * 0xffff_ffff) by (nonlinear_arith)
                requires
                    0 <= across <= 0xffff_ffff,
                    0 <= down <= 0xffff_ffff,
            ;
            let rect_pixels: u64 = across * down;
            total_pixels = total_pixels.saturating_add(rect_pixels);
            clamped.push(rect);
            proof {
                assert(strokes_with(clamped@, brush).drop_last() =~= strokes_with(kept, brush));
                assert forall|x: int, y: int, p: Px|
                    0 <= x < width && 0 <= y < height implies #[trigger] overlaid(
                    strokes_with(clamped@, brush),
                    x,
                    y,
                    p,
                ) == overlaid(strokes_with(rects@.take(i + 1), brush), x, y, p) by {
                    assert(overlaid(strokes_with(kept, brush), x, y, p) == overlaid(
                        strokes_with(head, brush),
                        x,
                        y,
                        p,
                    ));
                    assert(rect.covers(x, y) == rects@[i as int].covers(x, y));
                }
            }
        } else {
            proof {
                assert forall|x: int, y: int, p: Px|
                    0 <= x < width && 0 <= y < height implies #[trigger] overlaid(
                    strokes_with(clamped@, brush),
                    x,
                    y,
                    p,
                ) == overlaid(strokes_with(rects@.take(i + 1), brush), x, y, p) by {
                    assert(!rects@[i as int].covers(x, y));
                }
            }
        }
        i += 1;
    }
    assert(rects@.take(i as int) =~= rects@);
    let ghost old_data = img.data@;
    let ghost w = width as int;
    let ghost h = height as int;
    if clamped.len() > 0 {
        proof {
            assert(clamped@[0].x0 < clamped@[0].x1 <= width);
            assert(3 * w <= w * h * 3) by (nonlinear_arith)
                requires
                    w > 0,
                    h >= 1,
            ;
        }
        let len: usize = img.data.len();
        let stride: usize = width as usize * 3;
        let use_parallel = total_pixels >= 200_000 && height >= 4;
        proof {
            assert(w * h * 3 == h * (3 * w)) by (nonlinear_arith);
            assert((h * (3 * w)) / (3 * w) == h && (h * (3 * w)) % (3 * w) == 0)
                by (nonlinear_arith)
                requires
                    w > 0,
                    h >= 0,
            ;
        }
        if use_parallel {
            tint_rows_in_parallel(&mut img.data, stride, &clamped, op);
        } else {
            tint_rows(&mut img.data, stride, height, &clamped, op);
        }
    }
    proof {
        img.lemma_view_wf();
        let strokes = strokes_with(rects@, brush);
        old(img).lemma_view_wf();
        lemma_painted_wf(before, strokes);
        assert forall|x: int, y: int| 0 <= x < w && 0 <= y < h implies #[trigger] img@.at(x, y)
            == painted(before, strokes).at(x, y) by {
            let p = before.at(x, y);
            assert(overlaid(strokes_with(clamped@, brush), x, y, p) == overlaid(strokes, x, y, p));
            if clamped@.len() > 0 {
                lemma_row_px(old_data, w, h, x, y);
                lemma_row_px(img.data@, w, h, x, y);
                assert(row_of(img.data@, 3 * w, y) == row_tinted(
                    row_of(old_data, 3 * w, y),
                    y,
                    clamped@,
                    op,
                ));
                lemma_row_tinted_px(row_of(old_data, 3 * w, y), w, x, y, clamped@, op);
            } else {
                assert(strokes_with(clamped@, brush) =~= Seq::<Stroke>::empty());
            }
        }
        lemma_same_raster(img@, painted(before, strokes));
    }
}

// Whole overlay sets.

proof fn lemma_layers(r: Raster, o: OverlaySet)
    ensures
        ({
            let sel = Brush::Tint { op: OverlayOp::Selection };
            let cur = Brush::Tint { op: OverlayOp::Cursor };
            let a = painted(r, highlight_strokes(o.highlights@));
            let b = painted(a, strokes_with(o.comment_lines(), solid(COMMENT_UNDERLINE_RGB)));
            let c = painted(b, strokes_with(o.link_strokes@, solid(LINK_STROKE_RGB)));
            let d = painted(c, strokes_with(o.selection@, sel));
            let e = painted(d, strokes_with(o.visual@, sel));
            let f = painted(e, strokes_with(listed(o.cursor), cur));
            f == painted(r, o.strokes())
        }),
{
    let sel = Brush::Tint { op: OverlayOp::Selection };
    let cur = Brush::Tint { op: OverlayOp::Cursor };
    let a = highlight_strokes(o.highlights@);
    let b = strokes_with(o.comment_lines(), solid(COMMENT_UNDERLINE_RGB));
    let c = strokes_with(o.link_strokes@, solid(LINK_STROKE_RGB));
    let d = strokes_with(o.selection@, sel);
    let e = strokes_with(o.visual@, sel);
    let f = strokes_with(listed(o.cursor), cur);
    law_painting_composes(r, a, b);
    law_painting_composes(r, a + b, c);
    law_painting_composes(r, a + b + c, d);
    law_painting_composes(r, a + b + c + d, e);
    law_painting_composes(r, a + b + c + d + e, f);
}

proof fn lemma_no_rects(r: Raster, brush: Brush)
    requires
        r.wf(),
    ensures
        painted(r, strokes_with(Seq::empty(), brush)) == r,
{
    assert(strokes_with(Seq::empty(), brush) =~= Seq::<Stroke>::empty());
    law_painting_nothing(r);
}

/// Draws all overlays into an image without transparency.
pub fn apply_overlays(img: &mut PageImage, overlays: &OverlaySet)
    requires
        old(img).wf(),
        old(img).kind == PixelKind::Rgb,
    ensures
        final(img).wf(),
        final(img)@ == painted(old(img)@, overlays.strokes()),
{
    apply_highlight_rects(img, &overlays.highlights);
    if overlays.comments_are_underlines {
        draw_underline_rects_direct(img, &overlays.comments, COMMENT_UNDERLINE_RGB);
    } else {
        apply_underline_rects(img, &overlays.comments, COMMENT_UNDERLINE_RGB);
    }
    draw_underline_rects_direct(img, &overlays.link_strokes, LINK_STROKE_RGB);
    apply_rects_op(img, &overlays.selection, OverlayOp::Selection);
    apply_rects_op(img, &overlays.visual, OverlayOp::Selection);
    let ghost e = img@;
    proof {
        img.lemma_view_wf();
    }
    if let Some(cursor) = overlays.cursor {
        let mut one: Vec<PixelRect> = Vec::new();
        one.push(cursor);
        assert(one@ =~= listed(overlays.cursor));
        apply_rects_op(img, &one, OverlayOp::Cursor);
    } else {
        proof {
            lemma_no_rects(e, Brush::Tint { op: OverlayOp::Cursor });
        }
    }
    proof {
        lemma_layers(old(img)@, *overlays);
    }
}

/// Draws all overlays into an image with transparency. What is drawn becomes
/// opaque, so that overlays show over transparent parts of a page.
pub fn apply_overlays_rgba(img: &mut PageImage, overlays: &OverlaySet)
    requires
        old(img).wf(),
        old(img).kind == PixelKind::Rgba,
    ensures
        final(img).wf(),
        final(img)@ == painted(old(img)@, overlays.strokes()),
{
    let selection = Brush::Tint { op: OverlayOp::Selection };
    apply_highlight_rects(img, &overlays.highlights);
    if overlays.comments_are_underlines {
        draw_underline_rects_direct(img, &overlays.comments, COMMENT_UNDERLINE_RGB);
    } else {
        apply_underline_rects(img, &overlays.comments, COMMENT_UNDERLINE_RGB);
    }
    draw_underline_rects_direct(img, &overlays.link_strokes, LINK_STROKE_RGB);
    paint_rects(img, &overlays.selection, selection);
    paint_rects(img, &overlays.visual, selection);
    let ghost e = img@;
    proof {
        img.lemma_view_wf();
    }
    if let Some(cursor) = overlays.cursor {
        paint_rect(img, cursor, Brush::Tint { op: OverlayOp::Cursor });
        assert(strokes_with(listed(overlays.cursor), Brush::Tint { op: OverlayOp::Cursor })
            =~= seq![Stroke { rect: cursor, brush: Brush::Tint { op: OverlayOp::Cursor } }]);
    } else {
        proof {
            lemma_no_rects(e, Brush::Tint { op: OverlayOp::Cursor });
        }
    }
    proof {
        lemma_layers(old(img)@, *overlays);
    }
}

/// Draws all overlays into an image.
pub fn apply_overlays_dynamic(img: &mut PageImage, overlays: &OverlaySet)
    requires
        old(img).wf(),
    ensures
        final(img).wf(),
        final(img)@ == painted(old(img)@, overlays.strokes()),
{
    match img.kind {
        PixelKind::Rgb => apply_overlays(img, overlays),
        PixelKind::Rgba => apply_overlays_rgba(img, overlays),
    }
}

} // verus!
