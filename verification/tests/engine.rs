use std::sync::Arc;

use page_converter::delivery::{Encoded, Reply};
use page_converter::engine::ConverterEngine;
use page_converter::frame::{ConvertedImage, RenderedFrame};
use page_converter::geometry::{CellSize, CursorRect, Picker, PixelRect, ProtocolType};
use page_converter::overlay::RgbColor;
use page_converter::page::{
    HighlightOverlay, LinkBox, PageData, SelectionRect, ViewportUpdate, VisualRect,
};
use page_converter::pump::{ConversionLoop, Turn};
use page_converter::render::PageWork;
use page_converter::rounding::ScaleFactor;
use page_converter::state::{ConversionCommand, Task};
use page_converter::text::PipelineError;
use page_converter::tiles::{RowSpan, TileSource};
use page_converter::work::{Begun, Job, Marks, Work};

/// An encoded image: where its first pixel came from, and its extent.
#[derive(Debug, PartialEq, Eq)]
struct Enc {
    first: (u8, u8, u8),
    width: u32,
    height: u32,
}

type Engine = ConverterEngine<Enc>;
type Frame = RenderedFrame<Enc, Vec<u8>>;
type Outcome = Option<Result<Frame, PipelineError>>;

fn scale(f: f32) -> ScaleFactor {
    ScaleFactor { bits: f.to_bits() }
}

/// A page of 4 by 6 cells, 2 by 3 pixels each, in one colour.
fn page(n: usize) -> Arc<PageData> {
    page_with(n, 1.0, false)
}

fn page_with(n: usize, factor: f32, links: bool) -> Arc<PageData> {
    Arc::new(PageData {
        page_num: n,
        pixels: vec![100 + n as u8; 8 * 18 * 3],
        width_px: 8,
        height_px: 18,
        channels: 3,
        width_cell: 4,
        height_cell: 6,
        scale_factor: scale(factor),
        requested_scale: scale(factor + 1.0),
        links: if links { vec![vec![LinkBox { x0: 1, y0: 1, x1: 7, y1: 9 }]] } else { vec![] },
    })
}

fn engine(protocol: ProtocolType, pages: usize) -> Engine {
    let picker = Picker { protocol, font_width: 2, font_height: 3 };
    let mut e = Engine::new(picker, 6, true, 42, true);
    assert!(e.handle_msg(ConversionCommand::SetPageCount(pages)).is_empty());
    e
}

fn view(page: usize, y: u32) -> ViewportUpdate {
    ViewportUpdate {
        page,
        y_offset_cells: y,
        x_offset_cells: 0,
        viewport_height_cells: 3,
        viewport_width_cells: 4,
    }
}

fn encode(request: &page_converter::render::EncodeRequest) -> Enc {
    let p = request.image.get(0, 0);
    Enc { first: (p.r, p.g, p.b), width: request.image.width, height: request.image.height }
}

/// What a host answers that encodes everything; or fails at the tile `fail`.
fn answer(work: &Work<Enc>, fail: Option<usize>) -> Reply<Enc, Vec<u8>> {
    match work {
        Work::Page { work: PageWork::Kitty { upload, .. } } => {
            Reply::Kitty { img: upload.image.data.clone() }
        }
        Work::Page { work: PageWork::Encode { request } } => {
            if fail.is_some() {
                return Reply::Page { outcome: Err("broken".to_string()) };
            }
            Reply::Page { outcome: Ok(Encoded { protocol: encode(request), area: request.area }) }
        }
        Work::Tiles { slots, .. } | Work::Update { slots, .. } => {
            let mut encoded = Vec::new();
            let mut failure = None;
            for slot in slots {
                if let TileSource::Fresh { request, .. } = &slot.source {
                    if fail == Some(encoded.len()) {
                        failure = Some("broken".to_string());
                        break;
                    }
                    encoded.push(Arc::new(encode(request)));
                }
            }
            Reply::Tiles { encoded, failure }
        }
    }
}

fn settle(e: &mut Engine, begun: Begun<Enc>, fail: Option<usize>) -> Outcome {
    match begun {
        Begun::Nothing => None,
        Begun::Fault { fault } => Some(Err(fault)),
        Begun::Stuck => panic!("stuck"),
        Begun::Encode { job } => {
            let reply = answer(&job.work, fail);
            assert!(reply.answers(&job.work));
            e.finish(job, reply)
        }
    }
}

/// Handles a command and gives the frames that come of it.
fn tell(e: &mut Engine, msg: ConversionCommand) -> Vec<Frame> {
    let mut frames = Vec::new();
    for task in e.handle_msg(msg) {
        let begun = e.begin(task, None);
        if let Some(out) = settle(e, begun, None) {
            frames.push(out.ok().expect("a frame"));
        }
    }
    frames
}

fn ahead(e: &mut Engine, iteration: &mut usize) -> Option<Outcome> {
    let begun = e.next_page(iteration, None)?;
    let place = match &begun {
        Begun::Encode { job } => job.marks.ahead,
        _ => None,
    };
    let out = settle(e, begun, None);
    if let (Some(Ok(_)), Some(place)) = (&out, place) {
        *iteration = place;
    }
    Some(out)
}

fn cached(e: &Engine, n: usize) -> bool {
    e.page_cache[n].is_some()
}

fn selection(page: usize) -> SelectionRect {
    SelectionRect { page, topleft_x: 0, topleft_y: 0, bottomright_x: 4, bottomright_y: 4 }
}

fn brings_to_hand(e: &mut Engine, n: usize) {
    e.update_cache_for_page(n, &page(n));
}

#[test]
fn pages_are_rendered_ahead_nearest_first() {
    let mut e = engine(ProtocolType::Kitty, 10);
    tell(&mut e, ConversionCommand::NavigateTo(4));
    for n in [1, 2, 3, 4, 5, 6, 7] {
        tell(&mut e, ConversionCommand::EnqueuePage(page(n)));
    }
    let mut iteration = 0;
    let mut order = Vec::new();
    while let Some(Some(Ok(frame))) = ahead(&mut e, &mut iteration) {
        assert!(matches!(frame.image, ConvertedImage::Kitty { .. }));
        assert_eq!(frame.requested_scale, scale(2.0));
        order.push(frame.index);
    }
    // The window of six starts three pages before the current one.
    assert_eq!(order, vec![4, 5, 3, 6, 2, 1]);
    assert_eq!(e.queued_pages(), vec![7]);
}

#[test]
fn the_current_page_comes_first() {
    let mut e = engine(ProtocolType::Kitty, 10);
    tell(&mut e, ConversionCommand::EnqueuePage(page(1)));
    tell(&mut e, ConversionCommand::EnqueuePage(page(0)));
    let mut iteration = 0;
    match ahead(&mut e, &mut iteration) {
        Some(Some(Ok(frame))) => assert_eq!(frame.index, 0),
        _ => panic!("no frame"),
    }
    assert!(e.sent_for_viewport.contains(&0));
}

#[test]
fn nothing_is_rendered_ahead_without_pages() {
    let mut e = engine(ProtocolType::Kitty, 0);
    let mut iteration = 0;
    assert!(e.next_page(&mut iteration, None).is_none());
    let mut e = engine(ProtocolType::Kitty, 3);
    assert!(e.next_page(&mut iteration, None).is_none());
    tell(&mut e, ConversionCommand::EnqueuePage(page(0)));
    let mut iteration = 6;
    assert!(e.next_page(&mut iteration, None).is_none());
}

#[test]
fn pages_never_in_view_are_only_taken_to_hand() {
    let mut e = engine(ProtocolType::Sixel, 5);
    for n in 0..3 {
        tell(&mut e, ConversionCommand::EnqueuePage(page(n)));
    }
    let mut iteration = 0;
    assert!(ahead(&mut e, &mut iteration).is_none());
    assert!(cached(&e, 0) && cached(&e, 1) && cached(&e, 2));
    assert!(e.queued_pages().is_empty());
    assert!(e.should_skip_render(1));
    // Once in view, they are rendered from the ones at hand.
    let frames = tell(&mut e, ConversionCommand::UpdateViewport(view(1, 0)));
    assert_eq!(frames.len(), 1);
    assert_eq!(frames[0].index, 1);
}

#[test]
fn late_pages_are_rendered_as_last_asked_for() {
    let mut e = engine(ProtocolType::Iterm2, 5);
    let both = vec![view(1, 2), view(2, 0)];
    assert!(tell(&mut e, ConversionCommand::UpdateDualViewport(both)).is_empty());
    assert_eq!(e.viewport, Some(view(2, 0)));
    assert_eq!(e.last_viewport_by_page.get(&1), Some(&view(1, 2)));
    tell(&mut e, ConversionCommand::EnqueuePage(page(1)));
    let mut iteration = 0;
    match ahead(&mut e, &mut iteration) {
        Some(Some(Ok(Frame { index: 1, image: ConvertedImage::Tiled { tiles, cell_size }, .. }))) => {
            assert_eq!(tiles.len(), 3);
            assert_eq!(cell_size, CellSize::new(4, 3));
        }
        _ => panic!("no tiles"),
    }
}

#[test]
fn the_same_view_is_rendered_once() {
    let mut e = engine(ProtocolType::Iterm2, 5);
    brings_to_hand(&mut e, 1);
    assert_eq!(tell(&mut e, ConversionCommand::UpdateViewport(view(1, 0))).len(), 1);
    assert_eq!(tell(&mut e, ConversionCommand::UpdateViewport(view(1, 0))).len(), 0);
    assert_eq!(tell(&mut e, ConversionCommand::UpdateViewport(view(1, 1))).len(), 1);
    assert!(e.tiled_pages.contains(&1) && e.sent_for_viewport.contains(&1));
}

#[test]
fn kitty_moves_pages_by_itself() {
    let mut e = engine(ProtocolType::Kitty, 5);
    brings_to_hand(&mut e, 1);
    e.tiled_pages.insert(1);
    assert_eq!(tell(&mut e, ConversionCommand::UpdateViewport(view(1, 0))).len(), 1);
    assert!(!e.tiled_pages.contains(&1));
    assert_eq!(tell(&mut e, ConversionCommand::UpdateViewport(view(1, 2))).len(), 0);
    assert_eq!(e.viewport, Some(view(1, 2)));
    // And it takes no page in again that it holds.
    tell(&mut e, ConversionCommand::EnqueuePage(page(1)));
    assert!(e.queued_pages().is_empty());
}

#[test]
fn failed_displays_can_be_retried() {
    let mut e = engine(ProtocolType::Kitty, 5);
    brings_to_hand(&mut e, 1);
    tell(&mut e, ConversionCommand::UpdateViewport(view(1, 0)));
    tell(&mut e, ConversionCommand::DisplayFailed(vec![1, 4]));
    assert!(!e.last_viewport_by_page.contains_key(&1));
    tell(&mut e, ConversionCommand::EnqueuePage(page(1)));
    assert_eq!(e.queued_pages(), vec![1]);
    assert_eq!(tell(&mut e, ConversionCommand::UpdateViewport(view(1, 0))).len(), 1);
}

#[test]
fn scrolling_encodes_only_new_tiles() {
    let mut e = engine(ProtocolType::Iterm2, 5);
    brings_to_hand(&mut e, 1);
    let fresh = |e: &mut Engine, vp| {
        let begun = e.handle_single_viewport_update(vp, None);
        match begun {
            Begun::Encode { job: Job { work: Work::Tiles { slots, cell_size }, page, requested_scale, marks } } => {
                let n = slots.iter().filter(|s| matches!(s.source, TileSource::Fresh { .. })).count();
                let job = Job { work: Work::Tiles { slots, cell_size }, page, requested_scale, marks };
                let reply = answer(&job.work, None);
                assert!(matches!(e.finish(job, reply), Some(Ok(_))));
                n
            }
            _ => panic!("no tiles"),
        }
    };
    assert_eq!(fresh(&mut e, view(1, 0)), 3);
    assert_eq!(fresh(&mut e, view(1, 1)), 1);
    assert_eq!(fresh(&mut e, view(1, 0)), 0);
    // Other columns in view: the tiles are of no use.
    let narrow = ViewportUpdate { viewport_width_cells: 2, ..view(1, 0) };
    assert_eq!(fresh(&mut e, narrow), 3);
}

#[test]
fn encoding_failures_mark_nothing() {
    let mut e = engine(ProtocolType::Iterm2, 5);
    brings_to_hand(&mut e, 1);
    let begun = e.begin(Task::ShowViewport { viewport: view(1, 0) }, None);
    assert!(e.page_cache[1].as_ref().unwrap().decoded.is_some());
    match settle(&mut e, begun, Some(2)) {
        Some(Err(fault)) => assert_eq!(fault.message(), "Couldn't encode iTerm2 image: broken"),
        _ => panic!("no fault"),
    }
    assert!(!e.sent_for_viewport.contains(&1) && !e.tiled_pages.contains(&1));
    // The first two tiles were encoded and are kept; the image is not.
    let page = e.page_cache[1].as_ref().unwrap();
    assert_eq!(page.tile_cache.len(), 2);
    assert!(page.decoded.is_none());
    let mut e = engine(ProtocolType::Sixel, 5);
    brings_to_hand(&mut e, 1);
    let marks = Marks { tiled: None, sent: true, ahead: None };
    let begun = e.render_page_from_cache(1, None, marks);
    match settle(&mut e, begun, Some(0)) {
        Some(Err(PipelineError::ProtocolEncoding { detail })) => assert_eq!(detail, "broken"),
        _ => panic!("no fault"),
    }
}

#[test]
fn missing_pages_are_faults() {
    let mut e = engine(ProtocolType::Kitty, 2);
    let marks = Marks { tiled: None, sent: true, ahead: None };
    let begun = e.render_page_from_cache(1, None, marks);
    match settle(&mut e, begun, None) {
        Some(Err(fault)) => assert_eq!(fault, PipelineError::MissingCachedPage),
        _ => panic!("no fault"),
    }
}

#[test]
fn broken_pages_are_reported_and_passed_over() {
    let mut e = engine(ProtocolType::Kitty, 3);
    let mut broken = Arc::try_unwrap(page(0)).ok().unwrap();
    broken.pixels.pop();
    tell(&mut e, ConversionCommand::EnqueuePage(Arc::new(broken)));
    tell(&mut e, ConversionCommand::EnqueuePage(page(1)));
    let mut iteration = 0;
    match ahead(&mut e, &mut iteration) {
        Some(Some(Err(PipelineError::PixelBufferMismatch { expected: 432, got: 431 }))) => {}
        _ => panic!("no fault"),
    }
    assert_eq!(iteration, 0);
    match ahead(&mut e, &mut iteration) {
        Some(Some(Ok(frame))) => assert_eq!(frame.index, 1),
        _ => panic!("no frame"),
    }
}

#[test]
fn changed_selections_are_rendered_again() {
    for protocol in [ProtocolType::Kitty, ProtocolType::Sixel] {
        let mut e = engine(protocol, 5);
        for n in [0, 1, 2] {
            brings_to_hand(&mut e, n);
        }
        tell(&mut e, ConversionCommand::UpdateViewport(view(1, 0)));
        let frames = tell(&mut e, ConversionCommand::UpdateSelection(vec![
            selection(1),
            selection(2),
            selection(1),
            selection(4),
        ]));
        assert_eq!(frames.iter().map(|f| f.index).collect::<Vec<_>>(), vec![1, 2]);
        assert!(e.sent_for_viewport.contains(&2) && !e.sent_for_viewport.contains(&4));
        // The pages of the old selection are affected too.
        let frames = tell(&mut e, ConversionCommand::UpdateSelection(vec![selection(0)]));
        assert_eq!(frames.iter().map(|f| f.index).collect::<Vec<_>>(), vec![1, 2, 0]);
    }
}

#[test]
fn a_page_in_view_is_reconverted_as_tiles() {
    let mut e = engine(ProtocolType::Sixel, 5);
    brings_to_hand(&mut e, 1);
    brings_to_hand(&mut e, 2);
    tell(&mut e, ConversionCommand::UpdateViewport(view(1, 0)));
    let frames = tell(&mut e, ConversionCommand::UpdateSelection(vec![selection(1), selection(2)]));
    match &frames[0].image {
        ConvertedImage::Tiled { tiles, .. } => {
            assert_eq!(tiles[0].protocol.first, (141, 81, 41));
            // The selection reaches into the second tile, not into the third.
            assert_eq!(tiles[1].protocol.first, (141, 81, 41));
            assert_eq!(tiles[2].protocol.first, (101, 101, 101));
        }
        _ => panic!("no tiles"),
    }
    assert!(matches!(frames[1].image, ConvertedImage::Generic { .. }));
    assert!(e.tiled_pages.contains(&1) && !e.tiled_pages.contains(&2));
    // Only the plain tile was kept.
    assert_eq!(e.page_cache[1].as_ref().unwrap().tile_cache.len(), 1);
}

#[test]
fn comments_follow_the_scale_of_their_page() {
    let mut e = engine(ProtocolType::Kitty, 5);
    tell(&mut e, ConversionCommand::UpdateComments(vec![selection(1)]));
    assert!(e.build_overlay_set(1).comments.is_empty());
    e.update_cache_for_page(1, &page_with(1, 2.0, false));
    assert_eq!(e.build_overlay_set(1).comments, vec![PixelRect { x0: 0, y0: 0, x1: 8, y1: 8 }]);
    e.update_cache_for_page(1, &page_with(1, 0.5, false));
    assert_eq!(e.build_overlay_set(1).comments, vec![PixelRect { x0: 0, y0: 0, x1: 2, y1: 2 }]);
    let frames = tell(&mut e, ConversionCommand::UpdateComments(vec![]));
    assert_eq!(frames.len(), 1);
    assert!(e.build_overlay_set(1).comments.is_empty());
}

#[test]
fn scaled_comments_stay_until_their_page_changes() {
    let mut e = engine(ProtocolType::Sixel, 3);
    e.update_cache_for_page(1, &page_with(1, 2.0, false));
    e.handle_msg(ConversionCommand::UpdateComments(vec![selection(1), selection(2)]));
    let entry = |e: &Engine| {
        let entry = e.comment_cache.get(&1).unwrap();
        (entry.scale_factor.bits, entry.rects.len())
    };
    // Page 2 is not at hand, so that its comments have no scale yet.
    assert_eq!(e.comment_cache.len(), 1);
    assert_eq!(entry(&e), (2.0f32.to_bits(), 1));

    e.handle_msg(ConversionCommand::EnqueuePage(page(2)));
    e.handle_msg(ConversionCommand::SetShowLinkUnderlines(true));
    e.handle_msg(ConversionCommand::NavigateTo(2));
    e.update_cache_for_page(3, &page(3));
    assert_eq!(e.comment_cache.len(), 1);
    assert_eq!(entry(&e), (2.0f32.to_bits(), 1));

    e.update_cache_for_page(1, &page_with(1, 0.5, false));
    assert_eq!(entry(&e).0, 0.5f32.to_bits());
    e.handle_msg(ConversionCommand::UpdateComments(vec![]));
    assert!(e.comment_cache.is_empty());
}

#[test]
fn everything_is_drawn_over_its_page() {
    let mut e = engine(ProtocolType::Kitty, 5);
    e.update_cache_for_page(1, &page_with(1, 2.0, true));
    let highlight = HighlightOverlay {
        rect: selection(1),
        rgb: RgbColor { r: 1, g: 2, b: 3 },
        alpha: 4,
    };
    tell(&mut e, ConversionCommand::UpdateHighlights(vec![highlight]));
    tell(&mut e, ConversionCommand::UpdateSelection(vec![selection(1), selection(2)]));
    let visual = VisualRect { page: 1, x: 3, y: 4, width: 5, height: u32::MAX };
    tell(&mut e, ConversionCommand::UpdateVisual(vec![visual]));
    let cursor = CursorRect { page: 1, x: 1, y: 1, width: 1, height: 9 };
    tell(&mut e, ConversionCommand::UpdateCursor(Some(cursor)));
    let o = e.build_overlay_set(1);
    assert_eq!(o.highlights.len(), 1);
    assert_eq!(o.highlights[0].rect, PixelRect { x0: 0, y0: 0, x1: 8, y1: 8 });
    assert_eq!(o.highlights[0].alpha, 4);
    assert_eq!(o.selection, vec![PixelRect { x0: 0, y0: 0, x1: 4, y1: 4 }]);
    assert_eq!(o.visual, vec![PixelRect { x0: 3, y0: 4, x1: 8, y1: u32::MAX }]);
    assert_eq!(o.cursor, Some(PixelRect { x0: 1, y0: 1, x1: 3, y1: 10 }));
    assert_eq!(o.link_strokes.len(), 4);
    let o = e.build_overlay_set(2);
    assert_eq!(o.selection.len(), 1);
    assert!(o.highlights.is_empty() && o.visual.is_empty() && o.cursor.is_none());
    let elsewhere = e.build_overlay_set_with_cursor(1, None);
    assert!(elsewhere.cursor.is_none());
}

#[test]
fn links_can_be_switched_off() {
    let mut e = engine(ProtocolType::Kitty, 5);
    e.update_cache_for_page(1, &page_with(1, 1.0, true));
    brings_to_hand(&mut e, 2);
    assert!(tell(&mut e, ConversionCommand::SetShowLinkUnderlines(true)).is_empty());
    let frames = tell(&mut e, ConversionCommand::SetShowLinkUnderlines(false));
    assert_eq!(frames.iter().map(|f| f.index).collect::<Vec<_>>(), vec![1]);
    assert!(e.build_overlay_set(1).link_strokes.is_empty());
}

#[test]
fn visual_changes_update_tiles_on_iterm2() {
    let mut e = engine(ProtocolType::Iterm2, 5);
    brings_to_hand(&mut e, 1);
    tell(&mut e, ConversionCommand::UpdateViewport(view(1, 1)));
    // Rows 4 to 7 lie in the second and third of the tiles, the first two in view.
    let visual = VisualRect { page: 1, x: 0, y: 4, width: 8, height: 4 };
    let frames = tell(&mut e, ConversionCommand::UpdateVisual(vec![visual]));
    assert_eq!(frames.len(), 1);
    match &frames[0].image {
        ConvertedImage::TileUpdate { tiles, cell_size } => {
            assert_eq!(tiles.iter().map(|t| t.y_offset_cells).collect::<Vec<_>>(), vec![0, 1]);
            assert_eq!(tiles[0].protocol.first, (101, 101, 101));
            assert_eq!(tiles[1].protocol.first, (141, 81, 41));
            assert_eq!(*cell_size, CellSize::new(4, 6));
        }
        _ => panic!("no update"),
    }
    // Out of view: no frame.
    let visual = VisualRect { page: 1, x: 0, y: 0, width: 8, height: 2 };
    tell(&mut e, ConversionCommand::UpdateVisual(vec![]));
    assert!(tell(&mut e, ConversionCommand::UpdateVisual(vec![visual])).is_empty());
}

#[test]
fn updates_merge_into_the_tiled_image() {
    let mut e = engine(ProtocolType::Iterm2, 5);
    brings_to_hand(&mut e, 1);
    let mut frames = tell(&mut e, ConversionCommand::UpdateViewport(view(1, 1)));
    let mut image = frames.remove(0).image;
    let visual = VisualRect { page: 1, x: 0, y: 6, width: 8, height: 3 };
    let mut frames = tell(&mut e, ConversionCommand::UpdateVisual(vec![visual]));
    assert!(image.merge_tile_update(frames.remove(0).image));
    match &image {
        ConvertedImage::Tiled { tiles, .. } => {
            assert_eq!(tiles.len(), 3);
            assert_eq!(tiles[0].protocol.first, (101, 101, 101));
            assert_eq!(tiles[1].protocol.first, (141, 81, 41));
        }
        _ => panic!("not tiled"),
    }
}

#[test]
fn visual_changes_redraw_pages_elsewhere() {
    let mut e = engine(ProtocolType::Sixel, 5);
    brings_to_hand(&mut e, 1);
    let visual = VisualRect { page: 1, x: 0, y: 4, width: 8, height: 4 };
    let frames = tell(&mut e, ConversionCommand::UpdateVisual(vec![visual]));
    assert!(matches!(frames[0].image, ConvertedImage::Generic { .. }));
    assert!(e.sent_for_viewport.contains(&1));
}

#[test]
fn cursor_moves_update_tiles_on_iterm2() {
    let mut e = engine(ProtocolType::Iterm2, 5);
    brings_to_hand(&mut e, 1);
    let at = |y| Some(CursorRect { page: 1, x: 0, y, width: 1, height: 1 });
    // Nothing in view yet.
    assert!(tell(&mut e, ConversionCommand::UpdateCursor(at(0))).is_empty());
    tell(&mut e, ConversionCommand::UpdateViewport(view(1, 0)));
    let frames = tell(&mut e, ConversionCommand::UpdateCursor(at(6)));
    match &frames[0].image {
        ConvertedImage::TileUpdate { tiles, .. } => {
            assert_eq!(tiles.iter().map(|t| t.y_offset_cells).collect::<Vec<_>>(), vec![0, 2]);
            assert_eq!(tiles[0].protocol.first, (101, 101, 101));
            assert_eq!(tiles[1].protocol.first, (154, 154, 154));
        }
        _ => panic!("no update"),
    }
    // A page that is not held as tiles is shown as tiles first.
    e.tiled_pages.remove(&1);
    let frames = tell(&mut e, ConversionCommand::UpdateCursor(at(3)));
    assert!(matches!(frames[0].image, ConvertedImage::Tiled { .. }));
    assert!(e.tiled_pages.contains(&1));
}

#[test]
fn cursor_moves_redraw_pages_elsewhere() {
    let mut e = engine(ProtocolType::Kitty, 40);
    brings_to_hand(&mut e, 1);
    brings_to_hand(&mut e, 2);
    let on = |page| Some(CursorRect { page, x: 0, y: 0, width: 1, height: 1 });
    let frames = tell(&mut e, ConversionCommand::UpdateCursor(on(1)));
    assert_eq!(frames.iter().map(|f| f.index).collect::<Vec<_>>(), vec![1]);
    let frames = tell(&mut e, ConversionCommand::UpdateCursor(on(2)));
    assert_eq!(frames.iter().map(|f| f.index).collect::<Vec<_>>(), vec![1, 2]);
    match (&frames[0].image, &frames[1].image) {
        (ConvertedImage::Kitty { img: a, .. }, ConvertedImage::Kitty { img: b, .. }) => {
            assert_eq!((a[0], b[0]), (101, 255 - 102));
        }
        _ => panic!("not for Kitty"),
    }
    // A page without pixels is waited for, and kept from then on.
    assert_eq!(tell(&mut e, ConversionCommand::UpdateCursor(on(30))).len(), 1);
    assert!(e.pending_cursor_pages.contains(&30));
    tell(&mut e, ConversionCommand::EnqueuePage(page(30)));
    tell(&mut e, ConversionCommand::UpdateCursor(None));
    tell(&mut e, ConversionCommand::NavigateTo(0));
    assert_eq!(e.queued_pages(), vec![30]);
    brings_to_hand(&mut e, 30);
    tell(&mut e, ConversionCommand::UpdateCursor(on(30)));
    assert!(!e.pending_cursor_pages.contains(&30));
}

#[test]
fn distant_pages_are_dropped() {
    let mut e = engine(ProtocolType::Kitty, 60);
    for n in 0..60 {
        brings_to_hand(&mut e, n);
        tell(&mut e, ConversionCommand::EnqueuePage(page(n)));
        e.sent_for_viewport.insert(n);
    }
    e.cursor_rect = Some(CursorRect { page: 50, x: 0, y: 0, width: 1, height: 1 });
    e.pending_cursor_pages.insert(55);
    tell(&mut e, ConversionCommand::NavigateTo(20));
    let kept: Vec<usize> = (0..60).filter(|&n| cached(&e, n)).collect();
    let want: Vec<usize> = (15..=25).chain([50, 55]).collect();
    assert_eq!(kept, want);
    assert_eq!(e.queued_pages(), want);
    let mut sent: Vec<usize> = e.sent_for_viewport.iter().copied().collect();
    sent.sort();
    assert_eq!(sent, want);
}

#[test]
fn distant_images_are_dropped() {
    let mut e = engine(ProtocolType::Kitty, 60);
    for n in 0..60 {
        brings_to_hand(&mut e, n);
        let cached = e.page_cache[n].as_mut().unwrap();
        cached.decoded = cached.data.decode().ok();
    }
    e.clear_distant_decoded(30, 20);
    for n in 0..60 {
        let has = e.page_cache[n].as_ref().unwrap().decoded.is_some();
        assert_eq!(has, (10..=50).contains(&n));
    }
    e.clear_distant_decoded(usize::MAX, usize::MAX);
    assert!(e.page_cache[10].as_ref().unwrap().decoded.is_some());
}

#[test]
fn tiles_survive_a_page_of_the_same_extent_and_scale() {
    let mut e = engine(ProtocolType::Iterm2, 5);
    brings_to_hand(&mut e, 1);
    tell(&mut e, ConversionCommand::UpdateViewport(view(1, 0)));
    e.update_cache_for_page(1, &page_with(1, 1.0005, false));
    assert_eq!(e.page_cache[1].as_ref().unwrap().tile_cache.len(), 3);
    assert!(e.sent_for_viewport.contains(&1));
    e.update_cache_for_page(1, &page_with(1, 1.5, false));
    assert!(e.page_cache[1].as_ref().unwrap().tile_cache.is_empty());
    assert!(!e.sent_for_viewport.contains(&1));
}

#[test]
fn everything_can_be_forgotten() {
    let mut e = engine(ProtocolType::Iterm2, 5);
    brings_to_hand(&mut e, 1);
    tell(&mut e, ConversionCommand::UpdateViewport(view(1, 0)));
    tell(&mut e, ConversionCommand::EnqueuePage(page(2)));
    tell(&mut e, ConversionCommand::UpdateSelection(vec![selection(1)]));
    tell(&mut e, ConversionCommand::UpdateComments(vec![selection(1)]));
    tell(&mut e, ConversionCommand::InvalidatePageCache);
    assert!((0..5).all(|n| !cached(&e, n)));
    assert!(e.queued_pages().is_empty());
    assert!(e.sent_for_viewport.is_empty() && e.tiled_pages.is_empty());
    assert!(e.viewport.is_none() && e.last_viewport_by_page.is_empty());
    assert!(e.selection_rects.is_empty());
    assert_eq!(e.comment_rects.len(), 1);
    assert!(e.comment_cache.is_empty());
    let mut iteration = 0;
    assert!(e.next_page(&mut iteration, None).is_none());
}

#[test]
fn a_new_page_count_starts_over() {
    let mut e = engine(ProtocolType::Kitty, 50);
    tell(&mut e, ConversionCommand::NavigateTo(40));
    brings_to_hand(&mut e, 40);
    tell(&mut e, ConversionCommand::UpdateViewport(view(40, 0)));
    tell(&mut e, ConversionCommand::SetPageCount(10));
    assert_eq!((e.images.len(), e.page_cache.len(), e.page), (10, 10, 9));
    assert!(e.sent_for_viewport.is_empty() && e.last_viewport_by_page.is_empty());
    assert_eq!(e.viewport, Some(view(40, 0)));
    tell(&mut e, ConversionCommand::SetPageCount(0));
    assert_eq!(e.page, 0);
    // A page beyond the last is not taken in.
    tell(&mut e, ConversionCommand::EnqueuePage(page(3)));
    assert!(e.images.is_empty());
}

#[test]
fn pages_whose_overlays_did_not_change_stay_as_they_are() {
    let mut e = engine(ProtocolType::Iterm2, 5);
    brings_to_hand(&mut e, 1);
    brings_to_hand(&mut e, 2);
    tell(&mut e, ConversionCommand::UpdateViewport(view(2, 0)));
    tell(&mut e, ConversionCommand::UpdateViewport(view(1, 0)));
    let tasks = e.handle_msg(ConversionCommand::UpdateSelection(vec![selection(1)]));
    assert_eq!(tasks.len(), 1);
    assert!(matches!(tasks[0], Task::Reconvert { page: 1 }));
    assert_eq!(e.page_cache[2].as_ref().unwrap().tile_cache.len(), 3);
    assert!(e.page_cache[1].as_ref().unwrap().tile_cache.is_empty());
    assert!(e.tiled_pages.contains(&2) && !e.tiled_pages.contains(&1));
}

#[test]
fn tasks_name_the_rows_that_changed() {
    let mut e = engine(ProtocolType::Iterm2, 5);
    e.viewport = Some(view(1, 0));
    let rect = |page, y| VisualRect { page, x: 0, y, width: 1, height: 2 };
    e.visual_rects = vec![rect(1, 0), rect(2, 5)];
    let tasks = e.handle_msg(ConversionCommand::UpdateVisual(vec![rect(1, 9)]));
    let found: Vec<(usize, Vec<RowSpan>)> = tasks
        .into_iter()
        .map(|t| match t {
            Task::UpdateTiles { page, spans } => (page, spans),
            _ => panic!("not an update"),
        })
        .collect();
    let row = |y| RowSpan { y, height: 2 };
    assert_eq!(found, vec![(1, vec![row(0), row(9)]), (2, vec![row(5)])]);
}

#[test]
fn figures_for_the_log() {
    let mut e = engine(ProtocolType::Iterm2, 20);
    brings_to_hand(&mut e, 1);
    brings_to_hand(&mut e, 4);
    tell(&mut e, ConversionCommand::UpdateViewport(view(1, 0)));
    let stats = e.memory_stats();
    assert_eq!((stats.cached_pages, stats.pixel_bytes), (2, 864));
    assert_eq!((stats.decoded_count, stats.tile_cache_count, stats.sent_count), (1, 3, 1));
    tell(&mut e, ConversionCommand::NavigateTo(3));
    let near = e.nearby_pages();
    assert_eq!(near.len(), 8);
    assert_eq!(e.nearby_range(), (0, 8));
    assert!(near[1].cached && near[1].has_pixels && near[1].has_decoded && near[1].sent);
    assert!(near[4].cached && !near[4].has_decoded && !near[4].sent);
    assert!(!near[0].cached);
    tell(&mut e, ConversionCommand::DumpState);
    tell(&mut e, ConversionCommand::NavigateTo(30));
    assert_eq!(e.nearby_range(), (25, 20));
    assert!(e.nearby_pages().is_empty());
}

#[test]
fn affected_pages_are_listed_once() {
    let a = vec![selection(3), selection(1), selection(3)];
    let b = vec![selection(2), selection(1)];
    assert_eq!(Engine::collect_affected_pages(&a, &b), vec![3, 1, 2]);
}

#[test]
fn commands_come_before_rendering_ahead() {
    let picker = Picker { protocol: ProtocolType::Kitty, font_width: 2, font_height: 3 };
    let mut l: ConversionLoop<Enc> = ConversionLoop::new(picker, 4, false, 1, false);
    assert!(matches!(l.turn(None), Turn::Wait));
    assert!(l.receive(ConversionCommand::SetPageCount(3)).is_empty());
    assert!(matches!(l.turn(None), Turn::Idle));
    assert!(matches!(l.turn(None), Turn::Wait));
    l.receive(ConversionCommand::EnqueuePage(page(1)));
    let job = match l.turn(None) {
        Turn::Ahead { begun: Begun::Encode { job } } => job,
        _ => panic!("nothing to render"),
    };
    assert_eq!((job.page, job.marks.ahead), (1, Some(1)));
    let reply = answer(&job.work, None);
    match l.finish(job, reply) {
        Some(Ok(frame)) => {
            let _: &Frame = &frame;
            assert_eq!(frame.index, 1);
        }
        _ => panic!("no frame"),
    }
    assert_eq!((l.iteration, l.has_work), (1, true));
    assert!(matches!(l.turn(None), Turn::Idle));
    l.engine.page_cache[1].as_mut().unwrap().clear_tiles();
    let tasks = l.receive(ConversionCommand::UpdateViewport(view(1, 0)));
    assert_eq!((l.iteration, tasks.len()), (0, 1));
    for task in tasks {
        assert!(matches!(l.begin(task, None), Begun::Nothing));
    }
}

#[test]
fn displayed_pages_are_at_hand() {
    let mut e = engine(ProtocolType::Kitty, 60);
    let mut iteration = 0;
    for step in 0..40usize {
        let n = (step * 7) % 60;
        tell(&mut e, ConversionCommand::NavigateTo(n));
        for p in n.saturating_sub(2)..(n + 3).min(60) {
            tell(&mut e, ConversionCommand::EnqueuePage(page(p)));
        }
        tell(&mut e, ConversionCommand::UpdateSelection(vec![selection(n)]));
        iteration = 0;
        while ahead(&mut e, &mut iteration).is_some() {}
        tell(&mut e, ConversionCommand::UpdateViewport(view(n, 1)));
        assert!(e.sent_for_viewport.contains(&n));
        assert!(e.sent_for_viewport.iter().all(|&p| cached(&e, p)));
        assert!((0..60).filter(|&p| cached(&e, p)).count() <= 11);
    }
    assert!(iteration < 6);
}

#[test]
fn overlays_are_opaque_on_transparent_pages() {
    let mut e = engine(ProtocolType::Kitty, 3);
    let mut clear = Arc::try_unwrap(page(1)).ok().unwrap();
    clear.channels = 4;
    clear.pixels = vec![0; 8 * 18 * 4];
    e.update_cache_for_page(1, &Arc::new(clear));
    let frames = tell(&mut e, ConversionCommand::UpdateSelection(vec![selection(1)]));
    match &frames[0].image {
        ConvertedImage::Kitty { img, .. } => {
            assert_eq!(&img[..4], &[40, 0, 0, 255]);
            assert_eq!(&img[4 * 4..4 * 4 + 4], &[0, 0, 0, 0]);
        }
        _ => panic!("not for Kitty"),
    }
}
