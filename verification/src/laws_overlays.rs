//! What holds of overlays: what is drawn over a page, where and in which order.

use vstd::prelude::*;

#[allow(unused_imports)]
use crate::geometry::{any_covers, listed, CursorRect, Picker, PixelRect};
#[allow(unused_imports)]
use crate::overlay::{
    highlight_strokes, lemma_overlaid_joined, overlaid, solid, strokes_with, underlines, Brush,
    HighlightPixelRect, OverlaySet, Px, RgbColor, Stroke,
};
#[allow(unused_imports)]
use crate::page::{
    all_link_strokes, link_strokes_of, scaled_rect, scaled_rects, strokes_of_boxes, HighlightOverlay,
    LinkBox, SelectionRect, VisualRect,
};
#[allow(unused_imports)]
use crate::rounding::{link_stroke, scaled, ScaleFactor};
#[allow(unused_imports)]
use crate::simd_overlay::OverlayOp;
#[allow(unused_imports)]
use crate::state::{cursor_on, marked_rects, scaled_highlights, selected_rects, EngineState};

verus! {

// Lists of rectangles.

/// Whether a pixel lies between corners.
pub open spec fn between(x0: int, y0: int, x1: int, y1: int, x: int, y: int) -> bool {
    x0 <= x < x1 && y0 <= y < y1
}

/// The selected parts of a page are the rectangles of the selection that lie on
/// it and hold a pixel, each once and in their order.
pub proof fn law_every_selected_part_is_drawn(rects: Seq<SelectionRect>, page: usize)
    ensures
        selected_rects(rects, page) == rects.filter(
            |s: SelectionRect|
                s.page == page && s.topleft_x < s.bottomright_x && s.topleft_y < s.bottomright_y,
        ).map_values(
            |s: SelectionRect|
                PixelRect {
                    x0: s.topleft_x,
                    y0: s.topleft_y,
                    x1: s.bottomright_x,
                    y1: s.bottomright_y,
                },
        ),
    decreases rects.len(),
{
    let f = |s: SelectionRect|
        s.page == page && s.topleft_x < s.bottomright_x && s.topleft_y < s.bottomright_y;
    let g = |s: SelectionRect|
        PixelRect { x0: s.topleft_x, y0: s.topleft_y, x1: s.bottomright_x, y1: s.bottomright_y };
    reveal(Seq::filter);
    if rects.len() > 0 {
        let rest = rects.drop_last();
        law_every_selected_part_is_drawn(rest, page);
        assert(rects.filter(f) =~= if f(rects.last()) {
            rest.filter(f).push(rects.last())
        } else {
            rest.filter(f)
        });
    }
    assert(selected_rects(rects, page) =~= rects.filter(f).map_values(g));
}

/// A pixel is drawn as selected if and only if some rectangle of the selection
/// on this page holds it.
pub proof fn law_selection_covers_what_is_selected(
    rects: Seq<SelectionRect>,
    page: usize,
    x: int,
    y: int,
)
    ensures
        any_covers(selected_rects(rects, page), x, y) <==> exists|i: int|
            0 <= i < rects.len() && (#[trigger] rects[i]).page == page && rects[i].topleft_x <= x
                < rects[i].bottomright_x && rects[i].topleft_y <= y < rects[i].bottomright_y,
    decreases rects.len(),
{
    let out = selected_rects(rects, page);
    if rects.len() > 0 {
        let rest = rects.drop_last();
        law_selection_covers_what_is_selected(rest, page, x, y);
        let s = rects.last();
        let last = PixelRect::with_corners(
            s.topleft_x as int,
            s.topleft_y as int,
            s.bottomright_x as int,
            s.bottomright_y as int,
        );
        lemma_covers_joined(selected_rects(rest, page), listed(last), x, y);
        lemma_covers_listed(last, x, y);
        if exists|i: int|
            0 <= i < rest.len() && (#[trigger] rest[i]).page == page && rest[i].topleft_x <= x
                < rest[i].bottomright_x && rest[i].topleft_y <= y < rest[i].bottomright_y {
            let i = choose|i: int|
                0 <= i < rest.len() && (#[trigger] rest[i]).page == page && rest[i].topleft_x <= x
                    < rest[i].bottomright_x && rest[i].topleft_y <= y < rest[i].bottomright_y;
            assert(rects[i] == rest[i]);
        }
        if exists|i: int|
            0 <= i < rects.len() && (#[trigger] rects[i]).page == page && rects[i].topleft_x <= x
                < rects[i].bottomright_x && rects[i].topleft_y <= y < rects[i].bottomright_y {
            let i = choose|i: int|
                0 <= i < rects.len() && (#[trigger] rects[i]).page == page && rects[i].topleft_x <= x
                    < rects[i].bottomright_x && rects[i].topleft_y <= y < rects[i].bottomright_y;
            if i < rest.len() {
                assert(rest[i] == rects[i]);
            }
        }
        assert(rects[rects.len() - 1] == s);
    }
}

proof fn lemma_covers_joined(a: Seq<PixelRect>, b: Seq<PixelRect>, x: int, y: int)
    ensures
        any_covers(a + b, x, y) == (any_covers(a, x, y) || any_covers(b, x, y)),
{
    if any_covers(a, x, y) {
        let i = choose|i: int| 0 <= i < a.len() && (#[trigger] a[i]).covers(x, y);
        assert((a + b)[i].covers(x, y));
    }
    if any_covers(b, x, y) {
        let i = choose|i: int| 0 <= i < b.len() && (#[trigger] b[i]).covers(x, y);
        assert((a + b)[a.len() + i].covers(x, y));
    }
    if any_covers(a + b, x, y) {
        let i = choose|i: int| 0 <= i < (a + b).len() && (#[trigger] (a + b)[i]).covers(x, y);
        if i < a.len() {
            assert(a[i].covers(x, y));
        } else {
            assert(b[i - a.len()].covers(x, y));
        }
    }
}

proof fn lemma_covers_listed(r: Option<PixelRect>, x: int, y: int)
    ensures
        any_covers(listed(r), x, y) == (r is Some && r->0.covers(x, y)),
{
    if let Some(c) = r {
        assert(listed(r)[0] == c);
    }
}

/// `a + b`, or the largest coordinate where there is no such one.
pub open spec fn ending(a: u32, b: u32) -> u32 {
    if a + b <= u32::MAX {
        (a + b) as u32
    } else {
        u32::MAX
    }
}

/// The marked parts of a page are the rectangles of visual mode that lie on it
/// and hold a pixel, each once and in their order.
pub proof fn law_every_marked_part_is_drawn(rects: Seq<VisualRect>, page: usize)
    ensures
        marked_rects(rects, page) == rects.filter(
            |v: VisualRect|
                v.page == page && v.x < ending(v.x, v.width) && v.y < ending(v.y, v.height),
        ).map_values(
            |v: VisualRect|
                PixelRect {
                    x0: v.x,
                    y0: v.y,
                    x1: ending(v.x, v.width),
                    y1: ending(v.y, v.height),
                },
        ),
    decreases rects.len(),
{
    let f = |v: VisualRect|
        v.page == page && v.x < ending(v.x, v.width) && v.y < ending(v.y, v.height);
    let g = |v: VisualRect|
        PixelRect { x0: v.x, y0: v.y, x1: ending(v.x, v.width), y1: ending(v.y, v.height) };
    reveal(Seq::filter);
    if rects.len() > 0 {
        let rest = rects.drop_last();
        law_every_marked_part_is_drawn(rest, page);
        assert(rects.filter(f) =~= if f(rects.last()) {
            rest.filter(f).push(rects.last())
        } else {
            rest.filter(f)
        });
    }
    assert(marked_rects(rects, page) =~= rects.filter(f).map_values(g));
}

/// A pixel is drawn as marked if and only if some rectangle of visual mode on
/// this page holds it.
pub proof fn law_marks_cover_what_is_marked(rects: Seq<VisualRect>, page: usize, x: int, y: int)
    requires
        x < u32::MAX,
        y < u32::MAX,
    ensures
        any_covers(marked_rects(rects, page), x, y) <==> exists|i: int|
            0 <= i < rects.len() && (#[trigger] rects[i]).page == page && rects[i].x <= x < rects[i].x
                + rects[i].width && rects[i].y <= y < rects[i].y + rects[i].height,
    decreases rects.len(),
{
    if rects.len() > 0 {
        let rest = rects.drop_last();
        law_marks_cover_what_is_marked(rest, page, x, y);
        let v = rects.last();
        let last = crate::state::extent_rect(v.x, v.y, v.width, v.height);
        lemma_covers_joined(marked_rects(rest, page), listed(last), x, y);
        lemma_covers_listed(last, x, y);
        if exists|i: int|
            0 <= i < rest.len() && (#[trigger] rest[i]).page == page && rest[i].x <= x < rest[i].x
                + rest[i].width && rest[i].y <= y < rest[i].y + rest[i].height {
            let i = choose|i: int|
                0 <= i < rest.len() && (#[trigger] rest[i]).page == page && rest[i].x <= x < rest[i].x
                    + rest[i].width && rest[i].y <= y < rest[i].y + rest[i].height;
            assert(rects[i] == rest[i]);
        }
        if exists|i: int|
            0 <= i < rects.len() && (#[trigger] rects[i]).page == page && rects[i].x <= x < rects[i].x
                + rects[i].width && rects[i].y <= y < rects[i].y + rects[i].height {
            let i = choose|i: int|
                0 <= i < rects.len() && (#[trigger] rects[i]).page == page && rects[i].x <= x
                    < rects[i].x + rects[i].width && rects[i].y <= y < rects[i].y + rects[i].height;
            if i < rest.len() {
                assert(rest[i] == rects[i]);
            }
        }
        assert(rects[rects.len() - 1] == v);
    }
}

/// The comments of a page are the commented rectangles that lie on it and, at
/// its scale, hold a pixel; each once and in their order.
pub proof fn law_every_comment_is_drawn(rects: Seq<SelectionRect>, page: usize, scale: ScaleFactor)
    ensures
        scaled_rects(rects, page, scale) == rects.filter(
            |s: SelectionRect|
                s.page == page && scaled(s.topleft_x, scale) < scaled(s.bottomright_x, scale)
                    && scaled(s.topleft_y, scale) < scaled(s.bottomright_y, scale),
        ).map_values(
            |s: SelectionRect|
                PixelRect {
                    x0: scaled(s.topleft_x, scale),
                    y0: scaled(s.topleft_y, scale),
                    x1: scaled(s.bottomright_x, scale),
                    y1: scaled(s.bottomright_y, scale),
                },
        ),
    decreases rects.len(),
{
    let f = |s: SelectionRect|
        s.page == page && scaled(s.topleft_x, scale) < scaled(s.bottomright_x, scale) && scaled(
            s.topleft_y,
            scale,
        ) < scaled(s.bottomright_y, scale);
    let g = |s: SelectionRect|
        PixelRect {
            x0: scaled(s.topleft_x, scale),
            y0: scaled(s.topleft_y, scale),
            x1: scaled(s.bottomright_x, scale),
            y1: scaled(s.bottomright_y, scale),
        };
    reveal(Seq::filter);
    if rects.len() > 0 {
        let rest = rects.drop_last();
        law_every_comment_is_drawn(rest, page, scale);
        assert(rects.filter(f) =~= if f(rects.last()) {
            rest.filter(f).push(rects.last())
        } else {
            rest.filter(f)
        });
    }
    assert(scaled_rects(rects, page, scale) =~= rects.filter(f).map_values(g));
}

/// The highlights of a page are those that lie on it and, at its scale, hold a
/// pixel; each once, in their order, with its own colour and opacity.
pub proof fn law_every_highlight_is_drawn(
    list: Seq<HighlightOverlay>,
    page: usize,
    scale: ScaleFactor,
)
    ensures
        scaled_highlights(list, page, scale) == list.filter(
            |h: HighlightOverlay|
                h.rect.page == page && scaled(h.rect.topleft_x, scale) < scaled(
                    h.rect.bottomright_x,
                    scale,
                ) && scaled(h.rect.topleft_y, scale) < scaled(h.rect.bottomright_y, scale),
        ).map_values(
            |h: HighlightOverlay|
                HighlightPixelRect {
                    rect: PixelRect {
                        x0: scaled(h.rect.topleft_x, scale),
                        y0: scaled(h.rect.topleft_y, scale),
                        x1: scaled(h.rect.bottomright_x, scale),
                        y1: scaled(h.rect.bottomright_y, scale),
                    },
                    rgb: h.rgb,
                    alpha: h.alpha,
                },
        ),
    decreases list.len(),
{
    let f = |h: HighlightOverlay|
        h.rect.page == page && scaled(h.rect.topleft_x, scale) < scaled(h.rect.bottomright_x, scale)
            && scaled(h.rect.topleft_y, scale) < scaled(h.rect.bottomright_y, scale);
    let g = |h: HighlightOverlay|
        HighlightPixelRect {
            rect: PixelRect {
                x0: scaled(h.rect.topleft_x, scale),
                y0: scaled(h.rect.topleft_y, scale),
                x1: scaled(h.rect.bottomright_x, scale),
                y1: scaled(h.rect.bottomright_y, scale),
            },
            rgb: h.rgb,
            alpha: h.alpha,
        };
    reveal(Seq::filter);
    if list.len() > 0 {
        let rest = list.drop_last();
        law_every_highlight_is_drawn(rest, page, scale);
        assert(list.filter(f) =~= if f(list.last()) {
            rest.filter(f).push(list.last())
        } else {
            rest.filter(f)
        });
    }
    assert(scaled_highlights(list, page, scale) =~= list.filter(f).map_values(g));
}

/// The cursor is drawn on its own page only. It begins at its corner, and covers
/// what it is large and a character at least.
pub proof fn law_cursor_is_drawn_on_its_page(
    cursor: Option<CursorRect>,
    page: usize,
    picker: Picker,
    x: int,
    y: int,
)
    requires
        x < u32::MAX,
        y < u32::MAX,
    ensures
        (cursor_on(cursor, page, picker) is Some && cursor_on(cursor, page, picker)->0.covers(x, y))
            <==> cursor is Some && cursor->0.page == page && cursor->0.x <= x && cursor->0.y <= y && (x
            < cursor->0.x + cursor->0.width || x < cursor->0.x + picker.font_width) && (y < cursor->0.y
            + cursor->0.height || y < cursor->0.y + picker.font_height),
{
}

// Links.

/// The outlines of a page's links cover the border of every box of every link
/// and nothing else. The border is as thick as the height of the box asks for.
pub proof fn law_outlines_cover_the_borders(links: Seq<Vec<LinkBox>>, x: int, y: int)
    ensures
        any_covers(all_link_strokes(links), x, y) <==> exists|i: int, j: int|
            0 <= i < links.len() && 0 <= j < links[i]@.len() && on_border(
                #[trigger] links[i]@[j],
                x,
                y,
            ),
    decreases links.len(),
{
    if links.len() > 0 {
        let rest = links.drop_last();
        let last = links.last()@;
        law_outlines_cover_the_borders(rest, x, y);
        lemma_boxes_cover(last, x, y);
        lemma_covers_joined(all_link_strokes(rest), strokes_of_boxes(last), x, y);
        if any_covers(all_link_strokes(rest), x, y) {
            let (i, j) = choose|i: int, j: int|
                0 <= i < rest.len() && 0 <= j < rest[i]@.len() && on_border(
                    #[trigger] rest[i]@[j],
                    x,
                    y,
                );
            assert(on_border(links[i]@[j], x, y));
        }
        if any_covers(strokes_of_boxes(last), x, y) {
            let j = choose|j: int| 0 <= j < last.len() && on_border(#[trigger] last[j], x, y);
            assert(on_border(links[links.len() - 1]@[j], x, y));
        }
        if exists|i: int, j: int|
            0 <= i < links.len() && 0 <= j < links[i]@.len() && on_border(
                #[trigger] links[i]@[j],
                x,
                y,
            ) {
            let (i, j) = choose|i: int, j: int|
                0 <= i < links.len() && 0 <= j < links[i]@.len() && on_border(
                    #[trigger] links[i]@[j],
                    x,
                    y,
                );
            if i < rest.len() {
                assert(on_border(rest[i]@[j], x, y));
            } else {
                assert(on_border(last[j], x, y));
            }
        }
    }
}

/// Whether a pixel lies in a box, less than a border away from one of its edges.
pub open spec fn on_border(b: LinkBox, x: int, y: int) -> bool {
    let t = link_stroke((if b.y0 <= b.y1 { b.y1 - b.y0 } else { 0 }) as u32);
    &&& b.x0 <= x < b.x1
    &&& b.y0 <= y < b.y1
    &&& (y < b.y0 + t || y >= b.y1 - t || x < b.x0 + t || x >= b.x1 - t)
}

proof fn lemma_boxes_cover(boxes: Seq<LinkBox>, x: int, y: int)
    ensures
        any_covers(strokes_of_boxes(boxes), x, y) <==> exists|j: int|
            0 <= j < boxes.len() && on_border(#[trigger] boxes[j], x, y),
    decreases boxes.len(),
{
    if boxes.len() > 0 {
        let rest = boxes.drop_last();
        let b = boxes.last();
        let t = link_stroke((if b.y0 <= b.y1 { b.y1 - b.y0 } else { 0 }) as u32);
        lemma_boxes_cover(rest, x, y);
        lemma_covers_joined(strokes_of_boxes(rest), link_strokes_of(b), x, y);
        crate::geometry::law_box_strokes_cover_the_border(b.x0, b.y0, b.x1, b.y1, t, x, y);
        crate::rounding::law_outline_is_a_twentieth(
            (if b.y0 <= b.y1 { b.y1 - b.y0 } else { 0 }) as u32,
        );
        assert(any_covers(link_strokes_of(b), x, y) == on_border(b, x, y));
        if any_covers(strokes_of_boxes(rest), x, y) {
            let j = choose|j: int| 0 <= j < rest.len() && on_border(#[trigger] rest[j], x, y);
            assert(boxes[j] == rest[j]);
        }
        if exists|j: int| 0 <= j < boxes.len() && on_border(#[trigger] boxes[j], x, y) {
            let j = choose|j: int| 0 <= j < boxes.len() && on_border(#[trigger] boxes[j], x, y);
            if j < rest.len() {
                assert(rest[j] == boxes[j]);
            }
        }
        assert(boxes[boxes.len() - 1] == b);
    }
}

// Layers.

/// A pixel after highlights were laid over it, one after the other.
pub open spec fn highlighted(list: Seq<HighlightPixelRect>, x: int, y: int, p: Px) -> Px
    decreases list.len(),
{
    if list.len() == 0 {
        p
    } else {
        let q = highlighted(list.drop_last(), x, y, p);
        let h = list.last();
        if between(h.rect.x0 as int, h.rect.y0 as int, h.rect.x1 as int, h.rect.y1 as int, x, y) {
            Px {
                r: ((q.r * (255 - h.alpha) + h.rgb.r * h.alpha) / 255) as u8,
                g: ((q.g * (255 - h.alpha) + h.rgb.g * h.alpha) / 255) as u8,
                b: ((q.b * (255 - h.alpha) + h.rgb.b * h.alpha) / 255) as u8,
                a: 255,
            }
        } else {
            q
        }
    }
}

/// How many of the rectangles hold a pixel.
pub open spec fn times_covered(rects: Seq<PixelRect>, x: int, y: int) -> nat
    decreases rects.len(),
{
    if rects.len() == 0 {
        0
    } else {
        let r = rects.last();
        times_covered(rects.drop_last(), x, y) + if between(
            r.x0 as int,
            r.y0 as int,
            r.x1 as int,
            r.y1 as int,
            x,
            y,
        ) {
            1nat
        } else {
            0
        }
    }
}

/// A pixel that was warmed up `n` times.
pub open spec fn warmed(p: Px, n: nat) -> Px
    decreases n,
{
    if n == 0 {
        p
    } else {
        let q = warmed(p, (n - 1) as nat);
        Px {
            r: if q.r <= 215 { (q.r + 40) as u8 } else { 255 },
            g: if q.g >= 20 { (q.g - 20) as u8 } else { 0 },
            b: if q.b >= 60 { (q.b - 60) as u8 } else { 0 },
            a: 255,
        }
    }
}

/// A pixel under all layers: highlights are lowest and mix in order; then come
/// the purple lines of comments and the orange outlines of links, which hide
/// what is below; then every selected and every marked rectangle warms the pixel
/// up once; and at last the cursor inverts it.
pub open spec fn layered(
    highlights: Seq<HighlightPixelRect>,
    lines: Seq<PixelRect>,
    outlines: Seq<PixelRect>,
    selection: Seq<PixelRect>,
    visual: Seq<PixelRect>,
    cursor: Option<PixelRect>,
    x: int,
    y: int,
    p: Px,
) -> Px {
    let a = highlighted(highlights, x, y, p);
    let b = if times_covered(outlines, x, y) > 0 {
        Px { r: 0xF9, g: 0x91, b: 0x57, a: 255 }
    } else if times_covered(lines, x, y) > 0 {
        Px { r: 0xC5, g: 0x94, b: 0xC5, a: 255 }
    } else {
        a
    };
    let c = warmed(b, times_covered(selection, x, y) + times_covered(visual, x, y));
    if cursor is Some && between(
        cursor->0.x0 as int,
        cursor->0.y0 as int,
        cursor->0.x1 as int,
        cursor->0.y1 as int,
        x,
        y,
    ) {
        Px { r: (255 - c.r) as u8, g: (255 - c.g) as u8, b: (255 - c.b) as u8, a: 255 }
    } else {
        c
    }
}

proof fn lemma_highlighted(list: Seq<HighlightPixelRect>, x: int, y: int, p: Px)
    ensures
        overlaid(highlight_strokes(list), x, y, p) == highlighted(list, x, y, p),
    decreases list.len(),
{
    if list.len() > 0 {
        lemma_highlighted(list.drop_last(), x, y, p);
        assert(highlight_strokes(list).drop_last() =~= highlight_strokes(list.drop_last()));
    }
}

proof fn lemma_solid(rects: Seq<PixelRect>, rgb: (u8, u8, u8), x: int, y: int, p: Px)
    ensures
        overlaid(strokes_with(rects, solid(rgb)), x, y, p) == (if times_covered(rects, x, y) > 0 {
            Px { r: rgb.0, g: rgb.1, b: rgb.2, a: 255 }
        } else {
            p
        }),
    decreases rects.len(),
{
    if rects.len() > 0 {
        lemma_solid(rects.drop_last(), rgb, x, y, p);
        assert(strokes_with(rects, solid(rgb)).drop_last() =~= strokes_with(
            rects.drop_last(),
            solid(rgb),
        ));
    }
}

proof fn lemma_warmed(rects: Seq<PixelRect>, x: int, y: int, p: Px)
    ensures
        overlaid(strokes_with(rects, Brush::Tint { op: OverlayOp::Selection }), x, y, p) == warmed(
            p,
            times_covered(rects, x, y),
        ),
    decreases rects.len(),
{
    if rects.len() > 0 {
        let brush = Brush::Tint { op: OverlayOp::Selection };
        lemma_warmed(rects.drop_last(), x, y, p);
        assert(strokes_with(rects, brush).drop_last() =~= strokes_with(rects.drop_last(), brush));
    }
}

proof fn lemma_warmed_twice(p: Px, m: nat, n: nat)
    ensures
        warmed(warmed(p, m), n) == warmed(p, m + n),
    decreases n,
{
    if n > 0 {
        lemma_warmed_twice(p, m, (n - 1) as nat);
    }
}

proof fn lemma_layered(
    highlights: Seq<HighlightPixelRect>,
    lines: Seq<PixelRect>,
    outlines: Seq<PixelRect>,
    selection: Seq<PixelRect>,
    visual: Seq<PixelRect>,
    cursor: Option<PixelRect>,
    x: int,
    y: int,
    p: Px,
)
    ensures
        overlaid(
            highlight_strokes(highlights) + strokes_with(
                lines,
                solid(crate::overlay::COMMENT_UNDERLINE_RGB),
            ) + strokes_with(outlines, solid(crate::overlay::LINK_STROKE_RGB)) + strokes_with(
                selection,
                Brush::Tint { op: OverlayOp::Selection },
            ) + strokes_with(visual, Brush::Tint { op: OverlayOp::Selection }) + strokes_with(
                listed(cursor),
                Brush::Tint { op: OverlayOp::Cursor },
            ),
            x,
            y,
            p,
        ) == layered(highlights, lines, outlines, selection, visual, cursor, x, y, p),
{
    let tint = Brush::Tint { op: OverlayOp::Selection };
    let flip = Brush::Tint { op: OverlayOp::Cursor };
    let purple = solid(crate::overlay::COMMENT_UNDERLINE_RGB);
    let orange = solid(crate::overlay::LINK_STROKE_RGB);
    let a = highlight_strokes(highlights);
    let b = strokes_with(lines, purple);
    let c = strokes_with(outlines, orange);
    let d = strokes_with(selection, tint);
    let e = strokes_with(visual, tint);
    let f = strokes_with(listed(cursor), flip);
    lemma_overlaid_joined(a + b + c + d + e, f, x, y, p);
    lemma_overlaid_joined(a + b + c + d, e, x, y, p);
    lemma_overlaid_joined(a + b + c, d, x, y, p);
    lemma_overlaid_joined(a + b, c, x, y, p);
    lemma_overlaid_joined(a, b, x, y, p);
    lemma_highlighted(highlights, x, y, p);
    let p1 = overlaid(a, x, y, p);
    lemma_solid(lines, crate::overlay::COMMENT_UNDERLINE_RGB, x, y, p1);
    let p2 = overlaid(b, x, y, p1);
    lemma_solid(outlines, crate::overlay::LINK_STROKE_RGB, x, y, p2);
    let p3 = overlaid(c, x, y, p2);
    lemma_warmed(selection, x, y, p3);
    let p4 = overlaid(d, x, y, p3);
    lemma_warmed(visual, x, y, p4);
    lemma_warmed_twice(p3, times_covered(selection, x, y), times_covered(visual, x, y));
    let p5 = overlaid(e, x, y, p4);
    reveal_with_fuel(overlaid, 2);
    match cursor {
        Some(r) => {
            assert(f.drop_last() =~= Seq::<Stroke>::empty());
            assert(f.last() == (Stroke { rect: r, brush: flip }));
        },
        None => {
            assert(f =~= Seq::<Stroke>::empty());
        },
    }
}

/// What a set of overlays does to a pixel: the layers in their order. Comments
/// that are underlines already are drawn where they are, others are underlined.
pub proof fn law_overlays_are_drawn_in_layers(set: OverlaySet, x: int, y: int, p: Px)
    ensures
        overlaid(set.strokes(), x, y, p) == layered(
            set.highlights@,
            if set.comments_are_underlines {
                set.comments@
            } else {
                underlines(set.comments@)
            },
            set.link_strokes@,
            set.selection@,
            set.visual@,
            set.cursor,
            x,
            y,
            p,
        ),
        overlaid(set.strokes_for_tiles(), x, y, p) == layered(
            set.highlights@,
            underlines(set.comments@),
            set.link_strokes@,
            set.selection@,
            set.visual@,
            set.cursor,
            x,
            y,
            p,
        ),
{
    lemma_layered(
        set.highlights@,
        set.comment_lines(),
        set.link_strokes@,
        set.selection@,
        set.visual@,
        set.cursor,
        x,
        y,
        p,
    );
    lemma_layered(
        set.highlights@,
        underlines(set.comments@),
        set.link_strokes@,
        set.selection@,
        set.visual@,
        set.cursor,
        x,
        y,
        p,
    );
}

/// What is drawn over a page: its highlights and comments at the scale of the
/// page, the outlines of its links if they are switched on, what is selected and
/// marked on it, and the cursor; in layers. Of a page that is not at hand, there
/// are no comments and no links, and the scale is one.
pub proof fn law_page_is_drawn_in_layers<P>(s: EngineState<P>, page: usize, x: int, y: int, p: Px)
    ensures
        overlaid(s.strokes(page), x, y, p) == (match s.cached(page) {
            Some(c) => layered(
                scaled_highlights(s.highlights, page, c.data.scale_factor),
                underlines(scaled_rects(s.comments, page, c.data.scale_factor)),
                if s.show_links {
                    all_link_strokes(c.data.links@)
                } else {
                    Seq::empty()
                },
                selected_rects(s.selection, page),
                marked_rects(s.visual, page),
                cursor_on(s.cursor, page, s.picker),
                x,
                y,
                p,
            ),
            None => layered(
                scaled_highlights(s.highlights, page, ScaleFactor { bits: 0x3f80_0000 }),
                Seq::empty(),
                Seq::empty(),
                selected_rects(s.selection, page),
                marked_rects(s.visual, page),
                cursor_on(s.cursor, page, s.picker),
                x,
                y,
                p,
            ),
        }),
{
    assert(underlines(Seq::<PixelRect>::empty()) =~= Seq::empty());
    lemma_layered(
        scaled_highlights(s.highlights, page, s.scale(page)),
        underlines(s.comment_rects(page)),
        s.link_strokes(page),
        selected_rects(s.selection, page),
        marked_rects(s.visual, page),
        cursor_on(s.cursor, page, s.picker),
        x,
        y,
        p,
    );
}

/// Every comment has its underline: as wide as the text, two rows below it and
/// three rows thick.
pub proof fn law_comments_are_underlined(rects: Seq<PixelRect>, i: int)
    requires
        0 <= i < rects.len(),
        rects[i].y1 <= u32::MAX - 5,
    ensures
        underlines(rects).len() == rects.len(),
        underlines(rects)[i] == (PixelRect {
            x0: rects[i].x0,
            y0: (rects[i].y1 + 2) as u32,
            x1: rects[i].x1,
            y1: (rects[i].y1 + 5) as u32,
        }),
{
}

/// A list of rectangles covers a pixel at least once if one of them does.
pub proof fn law_covered_once_or_more(rects: Seq<PixelRect>, x: int, y: int)
    ensures
        any_covers(rects, x, y) <==> times_covered(rects, x, y) > 0,
        times_covered(rects, x, y) <= rects.len(),
    decreases rects.len(),
{
    if rects.len() > 0 {
        let rest = rects.drop_last();
        law_covered_once_or_more(rest, x, y);
        if any_covers(rest, x, y) {
            let i = choose|i: int| 0 <= i < rest.len() && (#[trigger] rest[i]).covers(x, y);
            assert(rects[i].covers(x, y));
        }
        if any_covers(rects, x, y) {
            let i = choose|i: int| 0 <= i < rects.len() && (#[trigger] rects[i]).covers(x, y);
            if i < rest.len() {
                assert(rest[i].covers(x, y));
            }
        }
        if rects.last().covers(x, y) {
            assert(rects[rects.len() - 1].covers(x, y));
        }
    }
}

} // verus!
