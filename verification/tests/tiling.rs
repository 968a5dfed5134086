use std::collections::HashMap;
use std::sync::Arc;

use page_converter::cache::CachedPage;
use page_converter::geometry::{CellSize, Picker, PixelRect, ProtocolType};
use page_converter::overlay::OverlaySet;
use page_converter::page::{PageData, ViewportUpdate};
use page_converter::paint::apply_overlays_dynamic;
use page_converter::render::Prepared;
use page_converter::rounding::ScaleFactor;
use page_converter::text::PipelineError;
use page_converter::tiles::{touched_tiles, RowSpan, TileSlot, TileSource};

fn picker(protocol: ProtocolType) -> Picker {
    Picker { protocol, font_width: 8, font_height: 16 }
}

fn view(y: u32, x: u32, h: u16, w: u16) -> ViewportUpdate {
    ViewportUpdate {
        page: 0,
        y_offset_cells: y,
        x_offset_cells: x,
        viewport_height_cells: h,
        viewport_width_cells: w,
    }
}

/// A page of 10 by 10 cells, 8 by 16 pixels each, and one more row of 5 pixels.
fn cached() -> CachedPage<&'static str> {
    let scale = ScaleFactor { bits: 1.0f32.to_bits() };
    let pixels = (0..80 * 165 * 3).map(|i| (i % 251) as u8).collect();
    let data = PageData {
        page_num: 0,
        pixels,
        width_px: 80,
        height_px: 165,
        channels: 3,
        width_cell: 10,
        height_cell: 10,
        scale_factor: scale,
        requested_scale: scale,
        links: vec![],
    };
    CachedPage { data: Arc::new(data), decoded: None, tile_cache: HashMap::new() }
}

fn ready(p: Prepared<Vec<TileSlot<&'static str>>>) -> Vec<TileSlot<&'static str>> {
    match p {
        Prepared::Ready(slots) => slots,
        Prepared::Fault(e) => panic!("{}", e.message()),
        Prepared::Stuck => panic!("stuck"),
    }
}

fn with_selection(y0: u32, y1: u32) -> OverlaySet {
    let mut overlays = OverlaySet::empty();
    overlays.selection.push(PixelRect { x0: 4, y0, x1: 60, y1 });
    overlays
}

#[test]
fn tiles_in_view_are_stacked() {
    let mut page = cached();
    let p = picker(ProtocolType::Iterm2);
    let slots = ready(page.render_viewport_tiles(&view(7, 0, 20, 30), &OverlaySet::empty(), &p));
    let places: Vec<_> =
        slots.iter().map(|s| (s.index, s.y_offset_cells, s.height_cells)).collect();
    assert_eq!(places, vec![(7, 0, 1), (8, 1, 1), (9, 2, 1), (10, 3, 1)]);
    assert!(page.decoded.is_some());
    let slots = ready(page.render_viewport_tiles(&view(2, 0, 3, 30), &OverlaySet::empty(), &p));
    assert_eq!(slots.iter().map(|s| s.index).collect::<Vec<_>>(), vec![2, 3, 4]);
    assert!(ready(page.render_viewport_tiles(&view(11, 0, 3, 30), &OverlaySet::empty(), &p)).is_empty());
    assert!(ready(page.render_viewport_tiles(&view(u32::MAX, 0, 3, 30), &OverlaySet::empty(), &p)).is_empty());
    assert!(ready(page.render_viewport_tiles(&view(0, 0, 0, 30), &OverlaySet::empty(), &p)).is_empty());
}

#[test]
fn tiles_are_cut_to_the_columns_in_view() {
    let mut page = cached();
    let p = picker(ProtocolType::Iterm2);
    let whole = page.data.decode().ok().unwrap();
    let slots = ready(page.render_viewport_tiles(&view(1, 4, 2, 3), &OverlaySet::empty(), &p));
    match &slots[0].source {
        TileSource::Fresh { request, keep } => {
            assert!(keep);
            assert_eq!(request.image.data, whole.crop_imm(32, 16, 24, 16).data);
            assert_eq!(request.area, CellSize::new(3, 1).at_origin());
        }
        TileSource::Kept { .. } => panic!("not encoded yet"),
    }
    // Too far to the right: the last column is shown, padded.
    let slots = ready(page.render_viewport_tiles(&view(1, 40, 1, 3), &OverlaySet::empty(), &p));
    match &slots[0].source {
        TileSource::Fresh { request, .. } => {
            assert_eq!((request.image.width, request.image.height), (24, 16));
            let (a, b) = (request.image.get(0, 0), whole.get(79, 16));
            assert_eq!((a.r, a.g, a.b), (b.r, b.g, b.b));
        }
        TileSource::Kept { .. } => panic!("not encoded yet"),
    }
}

#[test]
fn kept_tiles_are_used_where_nothing_is_drawn() {
    let mut page = cached();
    page.tile_cache.insert(0, Arc::new("zero"));
    page.tile_cache.insert(1, Arc::new("one"));
    page.tile_cache.insert(3, Arc::new("three"));
    let p = picker(ProtocolType::Iterm2);
    // Rows 20 to 30 lie in the second tile.
    let slots = ready(page.render_viewport_tiles(&view(0, 0, 4, 30), &with_selection(20, 30), &p));
    let kinds: Vec<_> = slots
        .iter()
        .map(|s| match &s.source {
            TileSource::Kept { protocol } => (Some(**protocol), false),
            TileSource::Fresh { keep, .. } => (None, *keep),
        })
        .collect();
    assert_eq!(
        kinds,
        vec![(Some("zero"), false), (None, false), (None, true), (Some("three"), false)]
    );
}

#[test]
fn drawn_over_tiles_show_the_painted_page() {
    let mut page = cached();
    let p = picker(ProtocolType::Iterm2);
    let overlays = with_selection(20, 50);
    let mut painted = page.data.decode().ok().unwrap();
    apply_overlays_dynamic(&mut painted, &overlays);
    let slots = ready(page.render_viewport_tiles(&view(0, 0, 4, 30), &overlays, &p));
    for slot in &slots {
        match &slot.source {
            TileSource::Fresh { request, .. } => {
                assert_eq!(request.image.data, painted.crop_imm(0, slot.index * 16, 80, 16).data);
            }
            TileSource::Kept { .. } => panic!("nothing was kept"),
        }
    }
}

#[test]
fn the_last_tile_is_padded() {
    let mut page = cached();
    let p = picker(ProtocolType::Iterm2);
    let slots = ready(page.render_viewport_tiles(&view(10, 0, 1, 30), &OverlaySet::empty(), &p));
    match &slots[0].source {
        TileSource::Fresh { request, .. } => {
            assert_eq!((request.image.width, request.image.height), (80, 16));
            let (a, b) = (request.image.get(50, 10), request.image.get(0, 0));
            assert_eq!((a.r, a.g, a.b), (b.r, b.g, b.b));
        }
        TileSource::Kept { .. } => panic!("not encoded yet"),
    }
}

#[test]
fn other_protocols_get_tiles_in_their_font() {
    let mut page = cached();
    let p = Picker { protocol: ProtocolType::Sixel, font_width: 10, font_height: 20 };
    let slots = ready(page.render_viewport_tiles(&view(0, 0, 1, 30), &OverlaySet::empty(), &p));
    match &slots[0].source {
        TileSource::Fresh { request, .. } => {
            assert_eq!((request.image.width, request.image.height), (100, 20));
        }
        TileSource::Kept { .. } => panic!("not encoded yet"),
    }
}

#[test]
fn tiles_without_columns_are_stuck() {
    let mut page = cached();
    let p = picker(ProtocolType::Sixel);
    // The font's height is the tile's: nothing has to be padded.
    assert_eq!(ready(page.render_viewport_tiles(&view(0, 0, 1, 0), &OverlaySet::empty(), &p)).len(), 1);
    let p = Picker { protocol: ProtocolType::Sixel, font_width: 8, font_height: 20 };
    let r = page.render_viewport_tiles(&view(0, 0, 1, 0), &OverlaySet::empty(), &p);
    assert!(matches!(r, Prepared::Stuck));
}

#[test]
fn rows_touch_the_tiles_they_reach_into() {
    let spans = vec![
        RowSpan { y: 20, height: 20 },
        RowSpan { y: 0, height: 17 },
        RowSpan { y: 33, height: 0 },
        RowSpan { y: 32, height: 0 },
    ];
    assert_eq!(touched_tiles(&spans, 16), Some(vec![1, 2, 0]));
    assert_eq!(touched_tiles(&vec![RowSpan { y: 10, height: 1 }], 1), Some(vec![10]));
    assert_eq!(touched_tiles(&vec![RowSpan { y: u32::MAX, height: 1 }], 16), None);
    assert_eq!(touched_tiles(&vec![], 16), Some(vec![]));
}

#[test]
fn updates_are_limited_to_the_view() {
    let mut page = cached();
    let p = picker(ProtocolType::Iterm2);
    // Tiles 1 to 20, of which 3 to 5 are in view.
    let spans = vec![RowSpan { y: 16, height: 320 }];
    let slots = ready(page.render_touched_tiles(&view(3, 0, 3, 30), &spans, &with_selection(40, 60), &p));
    let places: Vec<_> = slots.iter().map(|s| (s.index, s.y_offset_cells)).collect();
    assert_eq!(places, vec![(3, 0), (4, 1), (5, 2)]);
    assert!(slots.iter().all(|s| matches!(s.source, TileSource::Fresh { keep: false, .. })));
    let spans = vec![RowSpan { y: 1, height: u32::MAX }];
    let r = page.render_touched_tiles(&view(3, 0, 3, 30), &spans, &OverlaySet::empty(), &p);
    assert!(matches!(r, Prepared::Stuck));
}

#[test]
fn comments_of_tiles_are_always_commented_texts() {
    let p = picker(ProtocolType::Iterm2);
    let spans = vec![RowSpan { y: 0, height: 64 }];
    let images = |marked: bool| {
        let mut page = cached();
        let mut overlays = OverlaySet::empty();
        overlays.comments.push(PixelRect { x0: 4, y0: 20, x1: 60, y1: 36 });
        overlays.comments_are_underlines = marked;
        let v = view(0, 0, 4, 30);
        let mut slots = ready(page.render_viewport_tiles(&v, &overlays, &p));
        slots.extend(ready(page.render_touched_tiles(&v, &spans, &overlays, &p)));
        let images: Vec<_> = slots
            .iter()
            .map(|slot| match &slot.source {
                TileSource::Fresh { request, .. } => request.image.data.clone(),
                TileSource::Kept { .. } => panic!("nothing was kept"),
            })
            .collect();
        images
    };
    let texts = images(false);
    assert_eq!(texts.len(), 8);
    assert_eq!(images(true), texts);
    // The line runs from row 38 to row 40, in the third tile.
    let plain = cached().data.decode().ok().unwrap();
    assert_eq!(texts[1], plain.crop_imm(0, 16, 80, 16).data);
    assert_ne!(texts[2], plain.crop_imm(0, 32, 80, 16).data);
    assert_eq!(texts[6], texts[2]);
}

#[test]
fn broken_pages_have_no_tiles() {
    let mut page = cached();
    let data = PageData { pixels: vec![0; 5], ..copy_of(&page.data) };
    page.data = Arc::new(data);
    let p = picker(ProtocolType::Iterm2);
    match page.render_viewport_tiles(&view(0, 0, 1, 30), &OverlaySet::empty(), &p) {
        Prepared::Fault(e) => {
            assert_eq!(e, PipelineError::PixelBufferMismatch { expected: 39600, got: 5 });
        }
        _ => panic!("no fault"),
    }
    assert!(page.decoded.is_none());
    assert!(page.take_decoded().is_err());
}

fn copy_of(data: &PageData) -> PageData {
    PageData {
        page_num: data.page_num,
        pixels: data.pixels.clone(),
        width_px: data.width_px,
        height_px: data.height_px,
        channels: data.channels,
        width_cell: data.width_cell,
        height_cell: data.height_cell,
        scale_factor: data.scale_factor,
        requested_scale: data.requested_scale,
        links: data.links.clone(),
    }
}
