//! The overlays of a page and what they do to its pixels.

use vstd::prelude::*;

use crate::geometry::{lesser, PixelRect};
use crate::simd_overlay::OverlayOp;
#[allow(unused_imports)]
use crate::geometry::{
    comment_underline_rect, held_difference, held_sum, least, listed, underline_of,
};

verus! {

/// A colour without transparency.
#[derive(Clone, Copy, Debug, PartialEq, Eq, Structural)]
pub struct RgbColor {
    pub r: u8,
    pub g: u8,
    pub b: u8,
}

/// Purple of comment underlines.
pub const COMMENT_UNDERLINE_RGB: (u8, u8, u8) = (0xC5, 0x94, 0xC5);

/// Orange of the outlines around links.
pub const LINK_STROKE_RGB: (u8, u8, u8) = (0xF9, 0x91, 0x57);

/// One pixel. Images without transparency have `a == 255` throughout.
#[derive(Clone, Copy, Debug, PartialEq, Eq, Structural)]
pub struct Px {
    pub r: u8,
    pub g: u8,
    pub b: u8,
    pub a: u8,
}

/// What an overlay does to the pixels under it.
#[derive(Clone, Copy, Debug, PartialEq, Eq, Structural)]
pub enum Brush {
    /// Lays a colour over the pixel, as opaque as `alpha` says.
    Blend { rgb: RgbColor, alpha: u8 },
    /// Replaces the pixel.
    Solid { rgb: RgbColor },
    /// Tints the pixel.
    Tint { op: OverlayOp },
}

/// `overlay` laid over `base` with an opacity of `alpha` out of 255.
pub open spec fn blended(base: u8, overlay: u8, alpha: u8) -> u8 {
    ((base as int * (255 - alpha) + overlay as int * alpha as int) / 255) as u8
}

impl Brush {
    /// The pixel after the brush has passed. Painted pixels are opaque.
    pub open spec fn stroked(self, p: Px) -> Px {
        match self {
            Brush::Blend { rgb, alpha } => Px {
                r: blended(p.r, rgb.r, alpha),
                g: blended(p.g, rgb.g, alpha),
                b: blended(p.b, rgb.b, alpha),
                a: 255,
            },
            Brush::Solid { rgb } => Px { r: rgb.r, g: rgb.g, b: rgb.b, a: 255 },
            Brush::Tint { op } => Px {
                r: op.tint(0, p.r),
                g: op.tint(1, p.g),
                b: op.tint(2, p.b),
                a: 255,
            },
        }
    }
}

/// Overlay colour over base colour, with `inv_alpha` what `alpha` leaves of 255.
pub fn blend_channel(base: u8, overlay: u8, alpha: u16, inv_alpha: u16) -> (r: u8)
    requires
        alpha <= 255,
        inv_alpha == 255 - alpha,
    ensures
        r == blended(base, overlay, alpha as u8),
{
    assert(0 <= base as int * inv_alpha as int <= 255 * inv_alpha) by (nonlinear_arith)
        requires
            0 <= base <= 255,
            0 <= inv_alpha,
    ;
    assert(0 <= overlay as int * alpha as int <= 255 * alpha) by (nonlinear_arith)
        requires
            0 <= overlay <= 255,
            0 <= alpha,
    ;
    ((base as u16 * inv_alpha + overlay as u16 * alpha) / 255) as u8
}

/// A fully transparent highlight leaves a channel as it is, a fully opaque one
/// replaces it.
pub proof fn law_blend_extremes(base: u8, overlay: u8)
    ensures
        blended(base, overlay, 0) == base,
        blended(base, overlay, 255) == overlay,
{
}

/// The pixel after a brush has passed.
pub fn stroke_pixel(brush: Brush, p: Px) -> (q: Px)
    ensures
        q == brush.stroked(p),
{
    match brush {
        Brush::Blend { rgb, alpha } => {
            let weight: u16 = alpha as u16;
            let rest: u16 = 255 - weight;
            Px {
                r: blend_channel(p.r, rgb.r, weight, rest),
                g: blend_channel(p.g, rgb.g, weight, rest),
                b: blend_channel(p.b, rgb.b, weight, rest),
                a: 255,
            }
        },
        Brush::Solid { rgb } => Px { r: rgb.r, g: rgb.g, b: rgb.b, a: 255 },
        Brush::Tint { op } => Px {
            r: crate::simd_overlay::tint_channel(p.r, 0, op),
            g: crate::simd_overlay::tint_channel(p.g, 1, op),
            b: crate::simd_overlay::tint_channel(p.b, 2, op),
            a: 255,
        },
    }
}

/// One pass of a brush over a rectangle.
pub struct Stroke {
    pub rect: PixelRect,
    pub brush: Brush,
}

/// The pixel at `(x, y)`, first `p`, after all strokes in their order.
pub open spec fn overlaid(strokes: Seq<Stroke>, x: int, y: int, p: Px) -> Px
    decreases strokes.len(),
{
    if strokes.len() == 0 {
        p
    } else {
        let q = overlaid(strokes.drop_last(), x, y, p);
        if strokes.last().rect.covers(x, y) {
            strokes.last().brush.stroked(q)
        } else {
            q
        }
    }
}

/// The same brush over each rectangle.
pub open spec fn strokes_with(rects: Seq<PixelRect>, brush: Brush) -> Seq<Stroke> {
    Seq::new(rects.len(), |i: int| Stroke { rect: rects[i], brush })
}

/// The brush that replaces pixels by a colour.
pub open spec fn solid(rgb: (u8, u8, u8)) -> Brush {
    Brush::Solid { rgb: RgbColor { r: rgb.0, g: rgb.1, b: rgb.2 } }
}

/// A coloured highlight.
#[derive(Clone, Copy, Debug, PartialEq, Eq, Structural)]
pub struct HighlightPixelRect {
    pub rect: PixelRect,
    pub rgb: RgbColor,
    pub alpha: u8,
}

impl HighlightPixelRect {
    pub open spec fn stroke(self) -> Stroke {
        Stroke { rect: self.rect, brush: Brush::Blend { rgb: self.rgb, alpha: self.alpha } }
    }
}

/// The strokes of highlights.
pub open spec fn highlight_strokes(highlights: Seq<HighlightPixelRect>) -> Seq<Stroke> {
    Seq::new(highlights.len(), |i: int| highlights[i].stroke())
}

/// Everything drawn over a page.
pub struct OverlaySet {
    pub highlights: Vec<HighlightPixelRect>,
    pub comments: Vec<PixelRect>,
    /// Whether `comments` holds underlines; if not, it holds the commented
    /// texts and each underline is still to be placed.
    pub comments_are_underlines: bool,
    /// The border strips of the boxes around links.
    pub link_strokes: Vec<PixelRect>,
    pub selection: Vec<PixelRect>,
    pub visual: Vec<PixelRect>,
    pub cursor: Option<PixelRect>,
}

/// The underlines of commented texts.
pub open spec fn underlines(rects: Seq<PixelRect>) -> Seq<PixelRect> {
    Seq::new(rects.len(), |i: int| underline_of(rects[i]))
}

impl OverlaySet {
    /// Where comment underlines are drawn.
    pub open spec fn comment_lines(self) -> Seq<PixelRect> {
        if self.comments_are_underlines {
            self.comments@
        } else {
            underlines(self.comments@)
        }
    }

    /// The strokes that draw the overlays, from the lowest layer up.
    pub open spec fn strokes(self) -> Seq<Stroke> {
        self.strokes_around(self.comment_lines())
    }

    /// The strokes that tiles are cut from. Here `comments` is always taken to
    /// hold commented texts.
    pub open spec fn strokes_for_tiles(self) -> Seq<Stroke> {
        self.strokes_around(underlines(self.comments@))
    }

    /// The strokes that draw the overlays, with the given comment underlines.
    pub open spec fn strokes_around(self, comment_lines: Seq<PixelRect>) -> Seq<Stroke> {
        highlight_strokes(self.highlights@) + strokes_with(
            comment_lines,
            solid(COMMENT_UNDERLINE_RGB),
        ) + strokes_with(self.link_strokes@, solid(LINK_STROKE_RGB)) + strokes_with(
            self.selection@,
            Brush::Tint { op: OverlayOp::Selection },
        ) + strokes_with(self.visual@, Brush::Tint { op: OverlayOp::Selection }) + strokes_with(
            listed(self.cursor),
            Brush::Tint { op: OverlayOp::Cursor },
        )
    }

    /// No overlays.
    pub fn empty() -> (r: Self)
        ensures
            r.highlights@.len() == 0,
            r.comments@.len() == 0,
            !r.comments_are_underlines,
            r.link_strokes@.len() == 0,
            r.selection@.len() == 0,
            r.visual@.len() == 0,
            r.cursor is None,
    {
        OverlaySet {
            highlights: Vec::new(),
            comments: Vec::new(),
            comments_are_underlines: false,
            link_strokes: Vec::new(),
            selection: Vec::new(),
            visual: Vec::new(),
            cursor: None,
        }
    }

    /// Whether nothing is drawn at all.
    pub fn is_empty(&self) -> (r: bool)
        ensures
            r == (self.strokes().len() == 0),
    {
        self.comments.len() == 0 && self.link_strokes.len() == 0 && self.highlights.len() == 0
            && self.selection.len() == 0 && self.visual.len() == 0 && self.cursor.is_none()
    }
}

/// A part of a page, in page pixels.
#[derive(Clone, Copy, Debug, PartialEq, Eq, Structural)]
pub struct TileSpan {
    pub x: u32,
    pub width: u32,
    pub y: u32,
    pub height: u32,
}

/// The part of a rectangle that lies in a tile, in the tile's own pixels.
pub open spec fn clipped(rect: PixelRect, tile: TileSpan) -> Option<PixelRect> {
    if rect.x1 <= tile.x || rect.x0 >= held_sum(tile.x as int, tile.width as int)
        || !rect.reaches_rows(tile.y as int, held_sum(tile.y as int, tile.height as int)) {
        None
    } else {
        PixelRect::with_corners(
            held_difference(rect.x0 as int, tile.x as int),
            held_difference(rect.y0 as int, tile.y as int),
            least(held_difference(rect.x1 as int, tile.x as int), tile.width as int),
            least(held_difference(rect.y1 as int, tile.y as int), tile.height as int),
        )
    }
}

/// The parts of rectangles that lie in a tile, in their order.
pub open spec fn clip_all(rects: Seq<PixelRect>, tile: TileSpan) -> Seq<PixelRect>
    decreases rects.len(),
{
    if rects.len() == 0 {
        Seq::empty()
    } else {
        clip_all(rects.drop_last(), tile) + listed(clipped(rects.last(), tile))
    }
}

/// The part of a highlight that lies in a tile, as a list.
pub open spec fn clipped_highlight(h: HighlightPixelRect, tile: TileSpan) -> Seq<
    HighlightPixelRect,
> {
    match clipped(h.rect, tile) {
        Some(rect) => seq![HighlightPixelRect { rect, rgb: h.rgb, alpha: h.alpha }],
        None => Seq::empty(),
    }
}

/// The parts of highlights that lie in a tile, in their order.
pub open spec fn clip_highlights(
    highlights: Seq<HighlightPixelRect>,
    tile: TileSpan,
) -> Seq<HighlightPixelRect>
    decreases highlights.len(),
{
    if highlights.len() == 0 {
        Seq::empty()
    } else {
        clip_highlights(highlights.drop_last(), tile) + clipped_highlight(highlights.last(), tile)
    }
}

/// The part of a rectangle that lies in a tile, in the tile's own pixels.
fn clip_rect(rect: &PixelRect, tile: TileSpan) -> (r: Option<PixelRect>)
    ensures
        r == clipped(*rect, tile),
{
    let tile_x_end: u32 = tile.x.saturating_add(tile.width);
    let tile_end: u32 = tile.y.saturating_add(tile.height);
    if rect.x1 <= tile.x || rect.x0 >= tile_x_end {
        return None;
    }
    if !rect.intersects_y(tile.y, tile_end) {
        return None;
    }
    let local_x0: u32 = rect.x0.saturating_sub(tile.x);
    let local_x1: u32 = lesser(rect.x1.saturating_sub(tile.x), tile.width);
    let local = rect.offset_y(tile.y);
    PixelRect::new(local_x0, local.y0, local_x1, lesser(local.y1, tile.height))
}

fn clip_rects(rects: &Vec<PixelRect>, tile: TileSpan) -> (out: Vec<PixelRect>)
    ensures
        out@ == clip_all(rects@, tile),
{
    let mut out: Vec<PixelRect> = Vec::new();
    let mut i: usize = 0;
    while i < rects.len()
        invariant
            i <= rects@.len(),
            out@ == clip_all(rects@.take(i as int), tile),
        decreases rects.len() - i,
    {
        proof {
            assert(rects@.take(i + 1).drop_last() =~= rects@.take(i as int));
        }
        let ghost before = out@;
        if let Some(c) = clip_rect(&rects[i], tile) {
            out.push(c);
        }
        assert(out@ =~= before + listed(clipped(rects@[i as int], tile)));
        i += 1;
    }
    assert(rects@.take(i as int) =~= rects@);
    out
}

fn clip_comment_lines(rects: &Vec<PixelRect>, tile: TileSpan) -> (out: Vec<PixelRect>)
    ensures
        out@ == clip_all(underlines(rects@), tile),
{
    let mut out: Vec<PixelRect> = Vec::new();
    let ghost lines = underlines(rects@);
    let mut i: usize = 0;
    while i < rects.len()
        invariant
            i <= rects@.len(),
            lines == underlines(rects@),
            out@ == clip_all(lines.take(i as int), tile),
        decreases rects.len() - i,
    {
        proof {
            assert(lines.take(i + 1).drop_last() =~= lines.take(i as int));
        }
        let ghost before = out@;
        let line = comment_underline_rect(rects[i]);
        if let Some(c) = clip_rect(&line, tile) {
            out.push(c);
        }
        assert(out@ =~= before + listed(clipped(lines[i as int], tile)));
        i += 1;
    }
    assert(lines.take(i as int) =~= lines);
    out
}

fn clip_highlight_rects(rects: &Vec<HighlightPixelRect>, tile: TileSpan) -> (out: Vec<
    HighlightPixelRect,
>)
    ensures
        out@ == clip_highlights(rects@, tile),
{
    let mut out: Vec<HighlightPixelRect> = Vec::new();
    let mut i: usize = 0;
    while i < rects.len()
        invariant
            i <= rects@.len(),
            out@ == clip_highlights(rects@.take(i as int), tile),
        decreases rects.len() - i,
    {
        proof {
            assert(rects@.take(i + 1).drop_last() =~= rects@.take(i as int));
        }
        let ghost before = out@;
        let highlight = rects[i];
        if let Some(rect) = clip_rect(&highlight.rect, tile) {
            out.push(HighlightPixelRect { rect, rgb: highlight.rgb, alpha: highlight.alpha });
        }
        assert(out@ =~= before + clipped_highlight(rects@[i as int], tile));
        i += 1;
    }
    assert(rects@.take(i as int) =~= rects@);
    out
}

impl OverlaySet {
    /// The overlays of one tile, in the tile's own pixels. Comments become
    /// underlines before they are clipped, because an underline may lie in
    /// another tile than its text.
    pub fn for_tile(&self, tile_x: u32, tile_width: u32, tile_y: u32, tile_height: u32) -> (r: Self)
        ensures
            ({
                let tile = TileSpan { x: tile_x, width: tile_width, y: tile_y, height: tile_height };
                &&& r.highlights@ == clip_highlights(self.highlights@, tile)
                &&& r.comments@ == clip_all(underlines(self.comments@), tile)
                &&& r.comments_are_underlines
                &&& r.link_strokes@ == clip_all(self.link_strokes@, tile)
                &&& r.selection@ == clip_all(self.selection@, tile)
                &&& r.visual@ == clip_all(self.visual@, tile)
                &&& r.cursor == (match self.cursor {
                    Some(c) => clipped(c, tile),
                    None => None::<PixelRect>,
                })
            }),
    {
        let tile = TileSpan { x: tile_x, width: tile_width, y: tile_y, height: tile_height };
        let cursor: Option<PixelRect> = match self.cursor {
            Some(rect) => clip_rect(&rect, tile),
            None => None,
        };
        OverlaySet {
            highlights: clip_highlight_rects(&self.highlights, tile),
            comments: clip_comment_lines(&self.comments, tile),
            comments_are_underlines: true,
            link_strokes: clip_rects(&self.link_strokes, tile),
            selection: clip_rects(&self.selection, tile),
            visual: clip_rects(&self.visual, tile),
            cursor,
        }
    }
}

// Strokes and tiles.

/// The part of a stroke that lies in a tile, as a list.
pub open spec fn clipped_stroke(s: Stroke, tile: TileSpan) -> Seq<Stroke> {
    match clipped(s.rect, tile) {
        Some(rect) => seq![Stroke { rect, brush: s.brush }],
        None => Seq::empty(),
    }
}

/// The parts of strokes that lie in a tile, in their order.
pub open spec fn clip_strokes(strokes: Seq<Stroke>, tile: TileSpan) -> Seq<Stroke>
    decreases strokes.len(),
{
    if strokes.len() == 0 {
        Seq::empty()
    } else {
        clip_strokes(strokes.drop_last(), tile) + clipped_stroke(strokes.last(), tile)
    }
}

/// Clipping keeps exactly the pixels of the tile: a pixel of the tile is
/// covered by the clipped rectangle where the page pixel it shows is covered
/// by the rectangle.
pub proof fn law_clipping_keeps_coverage(rect: PixelRect, tile: TileSpan, x: int, y: int)
    requires
        0 <= x < tile.width,
        0 <= y < tile.height,
    ensures
        rect.covers(tile.x + x, tile.y + y) == (clipped(rect, tile) is Some && clipped(
            rect,
            tile,
        )->0.covers(x, y)),
{
}

/// What is left of a rectangle lies in the tile and holds a pixel.
pub proof fn law_clipped_part_lies_in_the_tile(rect: PixelRect, tile: TileSpan)
    requires
        clipped(rect, tile) is Some,
    ensures
        clipped(rect, tile)->0.x0 < clipped(rect, tile)->0.x1 <= tile.width,
        clipped(rect, tile)->0.y0 < clipped(rect, tile)->0.y1 <= tile.height,
{
}

proof fn lemma_overlaid_push(strokes: Seq<Stroke>, s: Stroke, x: int, y: int, p: Px)
    ensures
        overlaid(strokes.push(s), x, y, p) == (if s.rect.covers(x, y) {
            s.brush.stroked(overlaid(strokes, x, y, p))
        } else {
            overlaid(strokes, x, y, p)
        }),
{
    assert(strokes.push(s).drop_last() =~= strokes);
}

pub proof fn lemma_overlaid_joined(a: Seq<Stroke>, b: Seq<Stroke>, x: int, y: int, p: Px)
    ensures
        overlaid(a + b, x, y, p) == overlaid(b, x, y, overlaid(a, x, y, p)),
    decreases b.len(),
{
    if b.len() == 0 {
        assert(a + b =~= a);
    } else {
        lemma_overlaid_joined(a, b.drop_last(), x, y, p);
        assert((a + b).drop_last() =~= a + b.drop_last());
    }
}

/// The clipped strokes do to a pixel of the tile what the strokes do to the
/// page pixel that it shows.
pub proof fn lemma_overlaid_clipped(
    strokes: Seq<Stroke>,
    tile: TileSpan,
    x: int,
    y: int,
    p: Px,
)
    requires
        0 <= x < tile.width,
        0 <= y < tile.height,
    ensures
        overlaid(clip_strokes(strokes, tile), x, y, p) == overlaid(
            strokes,
            tile.x + x,
            tile.y + y,
            p,
        ),
    decreases strokes.len(),
{
    if strokes.len() > 0 {
        let s = strokes.last();
        let init = clip_strokes(strokes.drop_last(), tile);
        lemma_overlaid_clipped(strokes.drop_last(), tile, x, y, p);
        law_clipping_keeps_coverage(s.rect, tile, x, y);
        match clipped(s.rect, tile) {
            Some(rect) => {
                let c = Stroke { rect, brush: s.brush };
                lemma_overlaid_push(init, c, x, y, p);
                assert(init + clipped_stroke(s, tile) =~= init.push(c));
            },
            None => {
                assert(init + clipped_stroke(s, tile) =~= init);
            },
        }
    }
}

proof fn lemma_clip_strokes_joined(a: Seq<Stroke>, b: Seq<Stroke>, tile: TileSpan)
    ensures
        clip_strokes(a + b, tile) == clip_strokes(a, tile) + clip_strokes(b, tile),
    decreases b.len(),
{
    if b.len() == 0 {
        assert(a + b =~= a);
        assert(clip_strokes(a, tile) + clip_strokes(b, tile) =~= clip_strokes(a, tile));
    } else {
        lemma_clip_strokes_joined(a, b.drop_last(), tile);
        assert((a + b).drop_last() =~= a + b.drop_last());
        assert(clip_strokes(a, tile) + (clip_strokes(b.drop_last(), tile) + clipped_stroke(
            b.last(),
            tile,
        )) =~= (clip_strokes(a, tile) + clip_strokes(b.drop_last(), tile)) + clipped_stroke(
            b.last(),
            tile,
        ));
    }
}

proof fn lemma_clip_strokes_with(rects: Seq<PixelRect>, brush: Brush, tile: TileSpan)
    ensures
        clip_strokes(strokes_with(rects, brush), tile) == strokes_with(
            clip_all(rects, tile),
            brush,
        ),
    decreases rects.len(),
{
    if rects.len() == 0 {
        assert(strokes_with(clip_all(rects, tile), brush) =~= Seq::<Stroke>::empty());
    } else {
        lemma_clip_strokes_with(rects.drop_last(), brush, tile);
        assert(strokes_with(rects, brush).drop_last() =~= strokes_with(rects.drop_last(), brush));
        assert(strokes_with(clip_all(rects, tile), brush) =~= strokes_with(
            clip_all(rects.drop_last(), tile),
            brush,
        ) + clipped_stroke(strokes_with(rects, brush).last(), tile));
    }
}

proof fn lemma_clip_strokes_of_highlights(highlights: Seq<HighlightPixelRect>, tile: TileSpan)
    ensures
        clip_strokes(highlight_strokes(highlights), tile) == highlight_strokes(
            clip_highlights(highlights, tile),
        ),
    decreases highlights.len(),
{
    if highlights.len() == 0 {
        assert(highlight_strokes(clip_highlights(highlights, tile)) =~= Seq::<Stroke>::empty());
    } else {
        lemma_clip_strokes_of_highlights(highlights.drop_last(), tile);
        assert(highlight_strokes(highlights).drop_last() =~= highlight_strokes(
            highlights.drop_last(),
        ));
        assert(highlight_strokes(clip_highlights(highlights, tile)) =~= highlight_strokes(
            clip_highlights(highlights.drop_last(), tile),
        ) + clipped_stroke(highlight_strokes(highlights).last(), tile));
    }
}

/// What `for_tile` promises of its result.
pub open spec fn is_tile_of(local: OverlaySet, whole: OverlaySet, tile: TileSpan) -> bool {
    &&& local.highlights@ == clip_highlights(whole.highlights@, tile)
    &&& local.comments@ == clip_all(underlines(whole.comments@), tile)
    &&& local.comments_are_underlines
    &&& local.link_strokes@ == clip_all(whole.link_strokes@, tile)
    &&& local.selection@ == clip_all(whole.selection@, tile)
    &&& local.visual@ == clip_all(whole.visual@, tile)
    &&& local.cursor == (match whole.cursor {
        Some(c) => clipped(c, tile),
        None => None::<PixelRect>,
    })
}

/// The strokes of a tile's overlays are the page's strokes, clipped.
pub proof fn lemma_tile_strokes(local: OverlaySet, whole: OverlaySet, tile: TileSpan)
    requires
        is_tile_of(local, whole, tile),
    ensures
        local.strokes() == clip_strokes(whole.strokes_for_tiles(), tile),
{
    let lines = underlines(whole.comments@);
    let sel = Brush::Tint { op: OverlayOp::Selection };
    let cur = Brush::Tint { op: OverlayOp::Cursor };
    let a = highlight_strokes(whole.highlights@);
    let b = strokes_with(lines, solid(COMMENT_UNDERLINE_RGB));
    let c = strokes_with(whole.link_strokes@, solid(LINK_STROKE_RGB));
    let d = strokes_with(whole.selection@, sel);
    let e = strokes_with(whole.visual@, sel);
    let f = strokes_with(listed(whole.cursor), cur);
    lemma_clip_strokes_of_highlights(whole.highlights@, tile);
    lemma_clip_strokes_with(lines, solid(COMMENT_UNDERLINE_RGB), tile);
    lemma_clip_strokes_with(whole.link_strokes@, solid(LINK_STROKE_RGB), tile);
    lemma_clip_strokes_with(whole.selection@, sel, tile);
    lemma_clip_strokes_with(whole.visual@, sel, tile);
    lemma_clip_strokes_with(listed(whole.cursor), cur, tile);
    lemma_clip_strokes_joined(a, b, tile);
    lemma_clip_strokes_joined(a + b, c, tile);
    lemma_clip_strokes_joined(a + b + c, d, tile);
    lemma_clip_strokes_joined(a + b + c + d, e, tile);
    lemma_clip_strokes_joined(a + b + c + d + e, f, tile);
    assert(clip_all(listed(whole.cursor), tile) =~= listed(local.cursor)) by {
        reveal_with_fuel(clip_all, 2);
        match whole.cursor {
            Some(r) => {
                assert(listed(whole.cursor).drop_last() =~= Seq::<PixelRect>::empty());
            },
            None => {},
        }
    }
}

/// Inverting the pixels under the cursor twice gives the pixels back.
pub proof fn law_cursor_is_its_own_inverse(p: Px)
    requires
        p.a == 255,
    ensures
        (Brush::Tint { op: OverlayOp::Cursor }).stroked(
            (Brush::Tint { op: OverlayOp::Cursor }).stroked(p),
        ) == p,
{
}

} // verus!
