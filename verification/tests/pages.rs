use page_converter::overlay::RgbColor;
use page_converter::page::{
    comment_rects_for_page, decode_pixels, link_box_stroke_rects, HighlightOverlay, LinkBox,
    PageScoped, SelectionRect, VisualRect,
};
use page_converter::geometry::{push_box_strokes, PixelRect};
use page_converter::pixmap::PixelKind;
use page_converter::rounding::ScaleFactor;
use page_converter::text::PipelineError;

fn factor(f: f32) -> ScaleFactor {
    ScaleFactor { bits: f.to_bits() }
}

fn corners(r: &PixelRect) -> (u32, u32, u32, u32) {
    (r.x0, r.y0, r.x1, r.y1)
}

#[test]
fn decode_pixels_builds_rgba_when_channels_is_four() {
    let pixels = vec![10, 20, 30, 40, 50, 60, 70, 80]; // 2 RGBA pixels
    let img = decode_pixels(&pixels, 2, 1, 4).ok().expect("rgba decode");
    assert!(matches!(img.kind, PixelKind::Rgba));
    assert_eq!(img.width(), 2);

    let rgb = vec![1, 2, 3, 4, 5, 6]; // 2 RGB pixels
    let img = decode_pixels(&rgb, 2, 1, 3).ok().expect("rgb decode");
    assert!(matches!(img.kind, PixelKind::Rgb));
}

#[test]
fn decode_pixels_rejects_size_mismatch() {
    // 4-channel decode needs width*height*4 bytes; give it RGB-sized data.
    assert!(decode_pixels(&[0; 6], 2, 1, 4).is_err());
}

#[test]
fn decoding_keeps_every_byte() {
    let pixels: Vec<u8> = (0..24).collect();
    let img = decode_pixels(&pixels, 3, 2, 4).ok().unwrap();
    assert_eq!(img.data, pixels);
    let p = img.get(2, 1);
    assert_eq!((p.r, p.g, p.b, p.a), (20, 21, 22, 23));
    let img = decode_pixels(&pixels, 4, 2, 3).ok().unwrap();
    let p = img.get(1, 1);
    assert_eq!((p.r, p.g, p.b, p.a), (15, 16, 17, 255));
}

#[test]
fn decode_faults_name_the_sizes() {
    let e = decode_pixels(&[0; 6], 2, 1, 4).err().unwrap();
    assert_eq!(e, PipelineError::PixelBufferMismatch { expected: 8, got: 6 });
    assert_eq!(e.message(), "pixel buffer size mismatch: expected 8, got 6");
    let e = decode_pixels(&[], 70_000, 70_000, 3).err().unwrap();
    assert_eq!(e, PipelineError::PixelSizeOverflow);
    assert_eq!(e.message(), "pixel size overflow");
    let e = decode_pixels(&[], 40_000, 40_000, 3).err().unwrap();
    assert_eq!(e, PipelineError::PixelSizeOverflow);
}

#[test]
fn other_faults_have_words() {
    assert_eq!(PipelineError::MissingCachedPage.message(), "Missing cached page");
    assert_eq!(PipelineError::InvalidSourceWidth.message(), "Invalid source width");
    assert_eq!(PipelineError::InvalidSourceHeight.message(), "Invalid source height");
    assert_eq!(PipelineError::InvalidTargetWidth.message(), "Invalid target width");
    assert_eq!(PipelineError::InvalidTargetHeight.message(), "Invalid target height");
    let e = PipelineError::Iterm2Encoding { detail: "x".to_string() };
    assert_eq!(e.message(), "Couldn't encode iTerm2 image: x");
    let e = PipelineError::ProtocolEncoding { detail: "y".to_string() };
    assert_eq!(
        e.message(),
        "Image conversion failed; unable to render DynamicImage into a ratatui buffer: y"
    );
}

#[test]
fn box_strokes_form_four_edges() {
    let mut out = Vec::new();
    push_box_strokes(&mut out, 10, 20, 110, 50, 2);
    assert_eq!(out.len(), 4);
    // top, bottom, left, right
    assert_eq!(corners(&out[0]), (10, 20, 110, 22));
    assert_eq!(corners(&out[1]), (10, 48, 110, 50));
    assert_eq!(corners(&out[2]), (10, 20, 12, 50));
    assert_eq!(corners(&out[3]), (108, 20, 110, 50));
}

#[test]
fn link_box_strokes_clip_overhang_to_text() {
    // A wrapped link: the annotation (66, 297, 285, 310) overhangs into the left
    // margin of its line (102, 300.9, 474.1, 310.4), and its visible box is the
    // part over the text.
    let links = vec![vec![LinkBox { x0: 102, y0: 300, x1: 285, y1: 311 }]];

    let rects = link_box_stroke_rects(&links);
    // One box, four border strips.
    assert_eq!(rects.len(), 4);
    let min_x = rects.iter().map(|r| r.x0).min().unwrap();
    assert!(min_x >= 100 && min_x < 105, "min_x={min_x}");
    let min_y = rects.iter().map(|r| r.y0).min().unwrap();
    let max_y = rects.iter().map(|r| r.y1).max().unwrap();
    assert!(min_y >= 298 && min_y <= 301, "min_y={min_y}");
    assert!(max_y >= 310 && max_y <= 313, "max_y={max_y}");
}

#[test]
fn link_box_falls_back_when_no_text_line() {
    // A link over a figure (no overlapping text line) gets a box around the
    // raw clickbox.
    let links = vec![vec![LinkBox { x0: 10, y0: 10, x1: 50, y1: 30 }]];
    let rects = link_box_stroke_rects(&links);
    assert_eq!(rects.len(), 4);
    let min_x = rects.iter().map(|r| r.x0).min().unwrap();
    let max_x = rects.iter().map(|r| r.x1).max().unwrap();
    assert_eq!((min_x, max_x), (10, 50));
}

#[test]
fn link_borders_grow_with_the_box() {
    let rects = link_box_stroke_rects(&vec![vec![LinkBox { x0: 0, y0: 0, x1: 100, y1: 50 }]]);
    // A twentieth of 50, rounded.
    assert_eq!(corners(&rects[0]), (0, 0, 100, 3));
    let rects = link_box_stroke_rects(&vec![vec![LinkBox { x0: 0, y0: 0, x1: 100, y1: 12 }]]);
    assert_eq!(corners(&rects[0]), (0, 0, 100, 1));
}

#[test]
fn upside_down_link_box_has_no_border() {
    assert!(link_box_stroke_rects(&vec![vec![LinkBox { x0: 0, y0: 30, x1: 100, y1: 10 }]]).is_empty());
}

#[test]
fn box_strokes_cover_the_border_and_nothing_else() {
    let mut out = Vec::new();
    push_box_strokes(&mut out, 3, 4, 20, 15, 3);
    for x in 0..25 {
        for y in 0..20 {
            let covered = out.iter().any(|r| r.x0 <= x && x < r.x1 && r.y0 <= y && y < r.y1);
            let inside = (3..20).contains(&x) && (4..15).contains(&y);
            let hollow = (6..17).contains(&x) && (7..12).contains(&y);
            assert_eq!(covered, inside && !hollow, "({x}, {y})");
        }
    }
}

#[test]
fn comments_are_scaled_to_their_page() {
    let rects = vec![
        SelectionRect { page: 1, topleft_x: 10, topleft_y: 20, bottomright_x: 30, bottomright_y: 40 },
        SelectionRect { page: 2, topleft_x: 1, topleft_y: 1, bottomright_x: 9, bottomright_y: 9 },
        SelectionRect { page: 1, topleft_x: 5, topleft_y: 5, bottomright_x: 5, bottomright_y: 9 },
        SelectionRect { page: 1, topleft_x: 1, topleft_y: 2, bottomright_x: 3, bottomright_y: 4 },
    ];
    let out = comment_rects_for_page(&rects, 1, factor(1.5));
    let out: Vec<_> = out.iter().map(corners).collect();
    assert_eq!(out, vec![(15, 30, 45, 60), (2, 3, 5, 6)]);
}

#[test]
fn overlays_know_their_page() {
    let rect = SelectionRect { page: 4, topleft_x: 0, topleft_y: 0, bottomright_x: 1, bottomright_y: 1 };
    assert_eq!(rect.page(), 4);
    let rgb = RgbColor { r: 1, g: 2, b: 3 };
    assert_eq!(HighlightOverlay { rect, rgb, alpha: 9 }.page(), 4);
    assert_eq!(VisualRect { page: 7, x: 0, y: 0, width: 1, height: 1 }.page(), 7);
}
