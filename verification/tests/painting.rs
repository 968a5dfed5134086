use page_converter::geometry::{
    comment_underline_rect, expand_cursor_rect, pixel_density_for_dims, CellSize, CursorRect, Picker,
    PixelRect, ProtocolType,
};
use page_converter::overlay::{
    blend_channel, stroke_pixel, Brush, HighlightPixelRect, OverlaySet, Px, RgbColor,
    COMMENT_UNDERLINE_RGB, LINK_STROKE_RGB,
};
use page_converter::paint::{
    apply_highlight_rects, apply_overlays_dynamic, apply_rects_op, apply_underline_rects,
    draw_underline_rects_direct, paint_rect,
};
use page_converter::pixmap::{PageImage, PixelKind};
use page_converter::simd_overlay::OverlayOp;

fn rect(x0: u32, y0: u32, x1: u32, y1: u32) -> PixelRect {
    PixelRect { x0, y0, x1, y1 }
}

fn noise(kind: PixelKind, width: u32, height: u32) -> PageImage {
    let n = width as usize * height as usize * kind.bytes_per_pixel() as usize;
    let data = (0..n).map(|i| (i * 31 + i / 7) as u8).collect();
    PageImage { kind, width, height, data }
}

fn copy(img: &PageImage) -> PageImage {
    PageImage { kind: img.kind, width: img.width, height: img.height, data: img.data.clone() }
}

fn rgba(p: Px) -> (u8, u8, u8, u8) {
    (p.r, p.g, p.b, p.a)
}

fn some_overlays() -> OverlaySet {
    OverlaySet {
        highlights: vec![HighlightPixelRect {
            rect: rect(3, 2, 30, 12),
            rgb: RgbColor { r: 255, g: 230, b: 0 },
            alpha: 96,
        }],
        comments: vec![rect(5, 3, 25, 9), rect(20, 30, 60, 38)],
        comments_are_underlines: false,
        link_strokes: vec![rect(10, 10, 40, 12), rect(10, 20, 40, 22)],
        selection: vec![rect(0, 8, 20, 18)],
        visual: vec![rect(15, 15, 48, 25)],
        cursor: Some(rect(18, 16, 26, 28)),
    }
}

#[test]
fn rectangles_without_pixels_are_none() {
    assert_eq!(PixelRect::new(1, 1, 2, 2), Some(rect(1, 1, 2, 2)));
    assert_eq!(PixelRect::new(2, 1, 2, 2), None);
    assert_eq!(PixelRect::new(1, 3, 2, 2), None);
    assert_eq!(rect(5, 5, 50, 50).clamp_to(10, 20), Some(rect(5, 5, 10, 20)));
    assert_eq!(rect(15, 5, 50, 50).clamp_to(10, 20), None);
    assert!(rect(0, 5, 1, 9).intersects_y(8, 20));
    assert!(!rect(0, 5, 1, 9).intersects_y(9, 20));
    assert_eq!(rect(1, 5, 2, 9).offset_y(7), rect(1, 0, 2, 2));
}

#[test]
fn underlines_lie_below_the_text() {
    assert_eq!(comment_underline_rect(rect(5, 3, 25, 9)), rect(5, 11, 25, 14));
    let low = comment_underline_rect(rect(5, 3, 25, u32::MAX - 1));
    assert_eq!((low.y0, low.y1), (u32::MAX, u32::MAX));
}

#[test]
fn cursor_is_at_least_a_character() {
    let picker = Picker { protocol: ProtocolType::Kitty, font_width: 8, font_height: 16 };
    let cursor = CursorRect { page: 2, x: 10, y: 20, width: 3, height: 40 };
    let once = expand_cursor_rect(&cursor, &picker);
    assert_eq!((once.page, once.x, once.y, once.width, once.height), (2, 10, 20, 8, 40));
    let twice = expand_cursor_rect(&once, &picker);
    assert_eq!((twice.width, twice.height), (8, 40));
}

#[test]
fn density_is_at_least_one() {
    let picker = Picker { protocol: ProtocolType::Kitty, font_width: 8, font_height: 0 };
    let d = pixel_density_for_dims(800, 330, CellSize::new(100, 20), &picker);
    assert_eq!((d.x, d.y), (8, 16));
    let d = pixel_density_for_dims(50, 10, CellSize::new(100, 20), &picker);
    assert_eq!((d.x, d.y), (1, 1));
    let d = pixel_density_for_dims(800, 330, CellSize::new(0, 0), &picker);
    assert_eq!((d.x, d.y), (8, 1));
}

#[test]
fn blending_mixes_by_alpha() {
    assert_eq!(blend_channel(10, 200, 0, 255), 10);
    assert_eq!(blend_channel(10, 200, 255, 0), 200);
    assert_eq!(blend_channel(100, 200, 96, 159), 137);
}

#[test]
fn brushes_make_pixels_opaque() {
    let p = Px { r: 100, g: 100, b: 100, a: 7 };
    let solid = stroke_pixel(Brush::Solid { rgb: RgbColor { r: 1, g: 2, b: 3 } }, p);
    assert_eq!(rgba(solid), (1, 2, 3, 255));
    let tint = stroke_pixel(Brush::Tint { op: OverlayOp::Selection }, p);
    assert_eq!(rgba(tint), (140, 80, 40, 255));
    let cursor = stroke_pixel(Brush::Tint { op: OverlayOp::Cursor }, p);
    assert_eq!(rgba(cursor), (155, 155, 155, 255));
}

#[test]
fn rectangles_are_cut_off_at_the_edges() {
    let mut img = noise(PixelKind::Rgba, 6, 4);
    let before = copy(&img);
    let brush = Brush::Solid { rgb: RgbColor { r: 9, g: 8, b: 7 } };
    paint_rect(&mut img, rect(4, 2, 100, 100), brush);
    for y in 0..4 {
        for x in 0..6 {
            let want = if x >= 4 && y >= 2 { (9, 8, 7, 255) } else { rgba(before.get(x, y)) };
            assert_eq!(rgba(img.get(x, y)), want);
        }
    }
}

#[test]
fn layers_are_drawn_in_order() {
    let mut img = noise(PixelKind::Rgb, 50, 40);
    let before = copy(&img);
    apply_overlays_dynamic(&mut img, &some_overlays());
    // A link's border under the selection.
    let p = img.get(12, 10);
    let (r, g, b) = LINK_STROKE_RGB;
    assert_eq!(
        (p.r, p.g, p.b),
        (r.saturating_add(40), g.saturating_sub(20), b.saturating_sub(60))
    );
    // A comment's underline over the highlight.
    let p = img.get(24, 11);
    assert_eq!((p.r, p.g, p.b), LINK_STROKE_RGB);
    let p = img.get(24, 12);
    assert_eq!((p.r, p.g, p.b), COMMENT_UNDERLINE_RGB);
    // Nothing is drawn here.
    assert_eq!(rgba(img.get(49, 39)), rgba(before.get(49, 39)));
}

#[test]
fn both_kinds_of_image_are_painted_alike() {
    let mut rgba_img = noise(PixelKind::Rgba, 50, 40);
    let mut rgb_img = rgba_img.to_rgb8();
    apply_overlays_dynamic(&mut rgba_img, &some_overlays());
    apply_overlays_dynamic(&mut rgb_img, &some_overlays());
    for y in 0..40 {
        for x in 0..50 {
            let (a, b) = (rgba_img.get(x, y), rgb_img.get(x, y));
            assert_eq!((a.r, a.g, a.b), (b.r, b.g, b.b));
        }
    }
}

#[test]
fn tiles_show_their_part_of_the_painted_page() {
    for kind in [PixelKind::Rgb, PixelKind::Rgba] {
        let page = noise(kind, 50, 40);
        let whole = some_overlays();
        let mut painted = copy(&page);
        apply_overlays_dynamic(&mut painted, &whole);
        for (x, w, y, h) in [(0, 50, 8, 8), (7, 30, 16, 8), (20, 10, 32, 8), (0, 1, 39, 1)] {
            let mut tile = page.crop_imm(x, y, w, h);
            let local = whole.for_tile(x, w, y, h);
            apply_overlays_dynamic(&mut tile, &local);
            assert_eq!(tile.data, painted.crop_imm(x, y, w, h).data);
        }
    }
}

#[test]
fn tiles_away_from_overlays_are_plain() {
    let whole = some_overlays();
    assert!(!whole.is_empty());
    assert!(OverlaySet::empty().is_empty());
    assert!(whole.for_tile(45, 5, 0, 4).is_empty());
    // The comment's text ends above this tile; its underline reaches into it.
    let tile = whole.for_tile(20, 40, 39, 6);
    assert_eq!(tile.comments, vec![rect(0, 1, 40, 4)]);
    assert!(tile.comments_are_underlines);
}

#[test]
fn parallel_tinting_equals_sequential_tinting() {
    let mut img = noise(PixelKind::Rgb, 700, 400);
    let before = copy(&img);
    // Large enough to be shared among threads.
    apply_rects_op(&mut img, &vec![rect(10, 20, 690, 390), rect(5, 5, 60, 60)], OverlayOp::Selection);
    let mut small = copy(&before);
    let brush = Brush::Tint { op: OverlayOp::Selection };
    paint_rect(&mut small, rect(10, 20, 690, 390), brush);
    paint_rect(&mut small, rect(5, 5, 60, 60), brush);
    assert_ne!(img.data, before.data);
    assert_eq!(img.data, small.data);
}

#[test]
fn cursor_drawn_twice_vanishes() {
    let before = noise(PixelKind::Rgb, 33, 9);
    let mut img = copy(&before);
    apply_rects_op(&mut img, &vec![rect(3, 2, 30, 7)], OverlayOp::Cursor);
    assert_ne!(img.data, before.data);
    apply_rects_op(&mut img, &vec![rect(3, 2, 30, 7)], OverlayOp::Cursor);
    assert_eq!(img.data, before.data);
}

#[test]
fn underlines_and_strips_are_solid() {
    let mut img = noise(PixelKind::Rgb, 20, 20);
    apply_underline_rects(&mut img, &vec![rect(2, 2, 10, 5)], (1, 2, 3));
    assert_eq!(rgba(img.get(2, 7)), (1, 2, 3, 255));
    assert_eq!(rgba(img.get(9, 9)), (1, 2, 3, 255));
    draw_underline_rects_direct(&mut img, &vec![rect(0, 0, 4, 1)], (4, 5, 6));
    assert_eq!(rgba(img.get(3, 0)), (4, 5, 6, 255));
}

#[test]
fn opaque_highlights_hide_the_page() {
    let mut img = noise(PixelKind::Rgb, 8, 8);
    let before = copy(&img);
    let highlight = |alpha| HighlightPixelRect {
        rect: rect(1, 1, 5, 5),
        rgb: RgbColor { r: 10, g: 20, b: 30 },
        alpha,
    };
    apply_highlight_rects(&mut img, &vec![highlight(0)]);
    assert_eq!(img.data, before.data);
    apply_highlight_rects(&mut img, &vec![highlight(255)]);
    assert_eq!(rgba(img.get(4, 4)), (10, 20, 30, 255));
    assert_eq!(rgba(img.get(5, 4)), rgba(before.get(5, 4)));
}

#[test]
fn cutting_stays_inside_the_image() {
    let img = noise(PixelKind::Rgb, 10, 6);
    let part = img.crop_imm(7, 4, 100, 100);
    assert_eq!((part.width, part.height), (3, 2));
    assert_eq!(rgba(part.get(0, 0)), rgba(img.get(7, 4)));
    let none = img.crop_imm(20, 0, 5, 5);
    assert_eq!((none.width, none.height, none.data.len()), (0, 5, 0));
}
