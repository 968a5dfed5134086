//! What holds of the work between commands and frames: pages that come to hand,
//! views that are shown, and what becomes of an answer.

#[allow(unused_imports)]
use std::sync::Arc;

use vstd::prelude::*;

#[allow(unused_imports)]
use crate::cache::CachedView;
#[allow(unused_imports)]
use crate::delivery::{
    answers, delivers, fresh_before, placed, protocol_at, slots_of, with_kept, Reply,
};
#[allow(unused_imports)]
use crate::focus::{candidate, focus_order, law_walk_meets_every_page_once, met};
#[allow(unused_imports)]
use crate::frame::{ConvertedImage, RenderedFrame, TiledProtocol};
#[allow(unused_imports)]
use crate::geometry::{density_of, most, CellSize, CursorRect, Picker, ProtocolType};
#[allow(unused_imports)]
use crate::laws_flow::stays;
#[allow(unused_imports)]
use crate::laws_pixels::{
    law_other_views_cut_nothing, law_rendering, law_tile_shows_its_cells,
    law_view_shows_its_part_of_the_page,
};
#[allow(unused_imports)]
use crate::overlay::Stroke;
#[allow(unused_imports)]
use crate::page::{scaled_rects, PageData, ViewportUpdate};
#[allow(unused_imports)]
use crate::paint::{lemma_painted_wf, painted};
#[allow(unused_imports)]
use crate::pixmap::{PixelKind, Raster};
#[allow(unused_imports)]
use crate::render::{encoder_of, page_cells, page_in_view, Encoder, PageWork, Transport};
#[allow(unused_imports)]
use crate::resize::{
    capped_extent, law_capped_image_keeps_to_the_limit, law_countable_images_can_be_resampled,
    pixel_budget,
};
#[allow(unused_imports)]
use crate::rounding::{law_shrunk_side_is_no_longer, same_scale, ScaleFactor};
#[allow(unused_imports)]
use crate::state::{
    first_waiting, lemma_first_waiting, lemma_waiting_taken, waiting, CommentView, EngineState,
    TaskView,
};
#[allow(unused_imports)]
use crate::text::PipelineError;
#[allow(unused_imports)]
use crate::tiles::{
    are_update_slots, are_view_slots, in_view_tile, is_view_slot, law_touched_tiles, rows_in_range,
    those_in_view, touched, Grid, RowSpan, TileSlot, TileSource,
};
#[allow(unused_imports)]
use crate::work::{Begun, Job, Marks, Work};

verus! {

// Pages that come to hand.

/// A page that comes to hand replaces what was there of it; its image is made
/// anew when it is needed. Its tiles are kept, and it still counts as displayed,
/// if and only if the page that was there had the same extent in cells and the
/// same scale. Its comments are scaled to it. No other page changes.
pub proof fn law_page_comes_to_hand<P>(
    s: EngineState<P>,
    page: usize,
    data: Arc<PageData>,
    other: usize,
)
    requires
        page < s.cache.len(),
        other != page,
    ensures
        ({
            let t = s.with_page(page, data);
            let fits = s.cached(page) is Some && s.cached(page)->0.data.width_cell
                == data.width_cell && s.cached(page)->0.data.height_cell == data.height_cell
                && same_scale(s.cached(page)->0.data.scale_factor, data.scale_factor);
            let rects = scaled_rects(s.comments, page, data.scale_factor);
            &&& t.cache.len() == s.cache.len()
            &&& t.cached(page) is Some
            &&& t.cached(page)->0.data == data
            &&& t.cached(page)->0.decoded is None
            &&& fits ==> t.cached(page)->0.tiles == s.cached(page)->0.tiles
            &&& !fits ==> t.cached(page)->0.tiles == Map::<u32, Arc<P>>::empty()
            &&& t.sent.contains(page) <==> s.sent.contains(page) && fits
            &&& t.cached(other) == s.cached(other)
            &&& t.sent.contains(other) == s.sent.contains(other)
            &&& t.comment_cache.contains_key(page) <==> rects.len() > 0
            &&& rects.len() > 0 ==> t.comment_cache[page].rects == rects
                && t.comment_cache[page].scale == data.scale_factor
            &&& t.comment_cache.contains_key(other) == s.comment_cache.contains_key(other)
            &&& s.comment_cache.contains_key(other) ==> t.comment_cache[other]
                == s.comment_cache[other]
            &&& t == (EngineState {
                cache: t.cache,
                sent: t.sent,
                comment_cache: t.comment_cache,
                ..s
            })
        }),
{
}

/// A page out of range does not come to hand.
pub proof fn law_page_out_of_range_does_not_come_to_hand<P>(
    s: EngineState<P>,
    page: usize,
    data: Arc<PageData>,
)
    requires
        page >= s.cache.len(),
    ensures
        s.with_page(page, data) == s,
{
}

// Rendering ahead.

/// The pages that are rendered ahead begin half the number to render before the
/// current page, are as many as that number, and end at the last page. All of
/// them are gone through, each once.
pub proof fn law_pages_to_render_ahead<P>(s: EngineState<P>, page: usize)
    requires
        s.images.len() <= usize::MAX,
        s.prerender > 0,
        s.page < s.images.len(),
    ensures
        ({
            let first = if s.page >= s.prerender / 2 {
                s.page - s.prerender / 2
            } else {
                0
            };
            s.ahead().contains(page) <==> first <= page < first + s.prerender && page
                < s.images.len()
        }),
        s.ahead().no_duplicates(),
        s.ahead().len() <= s.prerender,
{
    let (start, end) = s.window();
    assert(s.prerender / 2 <= s.prerender);
    assert(start <= s.page < end) by {
        assert(s.page - s.prerender / 2 + s.prerender > s.page);
    }
    let order = focus_order(s.focus(), start, end);
    law_walk_meets_every_page_once(s.focus(), start, end);
    lemma_bounded_len(order, start, end);
    assert(s.ahead() == order);
}

proof fn lemma_bounded_len(order: Seq<usize>, low: int, high: int)
    requires
        order.no_duplicates(),
        low <= high,
        forall|page: usize| #[trigger] order.contains(page) ==> low <= page < high,
    ensures
        order.len() <= high - low,
    decreases order.len(),
{
    let numbers = Seq::new(order.len(), |i: int| order[i] as int);
    assert(numbers.no_duplicates());
    numbers.unique_seq_to_set();
    assert forall|n: int| #[trigger] numbers.to_set().contains(n) implies low <= n < high by {
        let i = choose|i: int| 0 <= i < numbers.len() && numbers[i] == n;
        assert(order.contains(order[i]));
    }
    let all = vstd::set_lib::set_int_range(low, high);
    vstd::set_lib::lemma_int_range(low, high);
    assert(numbers.to_set().subset_of(all));
    vstd::set_lib::lemma_len_subset(numbers.to_set(), all);
}

/// Of two pages at the same distance from the one in focus, the later one comes
/// first.
pub proof fn law_later_page_comes_first(start: int, low: int, high: int, steps: int, i: int, j: int)
    requires
        0 <= low,
        high <= usize::MAX,
        steps >= 0,
        0 <= i < j < met(start, low, high, steps).len(),
        start - met(start, low, high, steps)[i] == met(start, low, high, steps)[j] - start
            || met(start, low, high, steps)[i] - start == start - met(start, low, high, steps)[j],
    ensures
        met(start, low, high, steps)[i] > met(start, low, high, steps)[j],
    decreases steps,
{
    let all = met(start, low, high, steps);
    let rest = met(start, low, high, steps - 1);
    let page = candidate(start, steps - 1);
    if j < rest.len() {
        law_later_page_comes_first(start, low, high, steps - 1, i, j);
    } else {
        assert(all[j] == page);
        lemma_met_before(start, low, high, steps - 1, i);
        let step = choose|step: int|
            0 <= step < steps - 1 && all[i] as int == #[trigger] candidate(start, step);
        assert(all[i] as int == candidate(start, step));
    }
}

proof fn lemma_met_before(start: int, low: int, high: int, steps: int, i: int)
    requires
        0 <= low,
        high <= usize::MAX,
        steps >= 0,
        0 <= i < met(start, low, high, steps).len(),
    ensures
        exists|step: int|
            0 <= step < steps && met(start, low, high, steps)[i] as int == #[trigger] candidate(
                start,
                step,
            ),
    decreases steps,
{
    let rest = met(start, low, high, steps - 1);
    if i < rest.len() {
        lemma_met_before(start, low, high, steps - 1, i);
        let step = choose|step: int|
            0 <= step < steps - 1 && rest[i] as int == #[trigger] candidate(start, step);
        assert(met(start, low, high, steps)[i] as int == candidate(start, step));
    } else {
        assert(met(start, low, high, steps)[i] as int == candidate(start, steps - 1));
    }
}

/// Looking ahead loses no page: one that waited still waits or is at hand now,
/// and others stay as they were. It stops at a page that has to be rendered: one
/// that the display does not hold and that, except on Kitty, was in view. It
/// passes over no such page. If it finds none, no page that is rendered ahead
/// waits any more.
pub proof fn law_looking_ahead_finds_what_to_render<P>(s: EngineState<P>, iteration: int, q: usize)
    requires
        s.images.len() == s.cache.len(),
        s.images.len() <= usize::MAX,
        s.page < s.images.len(),
        0 <= iteration < s.prerender,
        q < s.images.len(),
    ensures
        ({
            let (t, places, pick) = s.looked_ahead(iteration);
            &&& t.images.len() == s.images.len() && t.cache.len() == s.cache.len()
            &&& t.page == s.page && t.prerender == s.prerender && t.picker == s.picker
            &&& t.viewport == s.viewport && t.viewports == s.viewports
            &&& s.images[q as int] is None ==> t.images[q as int] is None && t.cached(q) == s.cached(
                q,
            ) && t.sent.contains(q) == s.sent.contains(q)
            &&& s.images[q as int] is Some && t.images[q as int] is None && !(pick is Some
                && (pick->0).1 == q) ==> t.sent.contains(q) || (s.picker.protocol
                != ProtocolType::Kitty && !s.viewports.contains_key(q) && !(s.viewport is Some
                && s.viewport->0.page == q))
            &&& s.images[q as int] is Some ==> t.images[q as int] == s.images[q as int] || (
            t.images[q as int] is None && t.cached(q) is Some && t.cached(q)->0.data
                == s.images[q as int]->0)
            &&& pick is None && s.ahead().contains(q) ==> t.images[q as int] is None
            &&& pick matches Some((i, page)) ==> {
                &&& 0 <= i < s.ahead().len()
                &&& s.ahead()[i] == page
                &&& page < s.images.len()
                &&& s.images[page as int] is Some
                &&& t.cached(page) is Some
                &&& t.cached(page)->0.data == s.images[page as int]->0
                &&& !t.sent.contains(page)
                &&& s.picker.protocol == ProtocolType::Kitty || s.viewports.contains_key(page) || (
                s.viewport is Some && s.viewport->0.page == page)
            }
        }),
    decreases waiting(s.images),
{
    law_pages_to_render_ahead(s, q);
    lemma_first_waiting(s.images, s.ahead(), 0);
    let (start, end) = s.window();
    assert(start <= s.page < end) by {
        assert(s.page - s.prerender / 2 + s.prerender > s.page);
    }
    match s.next_waiting() {
        None => {
            if s.ahead().contains(q) {
                let k = choose|k: int| 0 <= k < s.ahead().len() && s.ahead()[k] == q;
                assert(s.images[s.ahead()[k] as int] is None);
            }
        },
        Some((i, page)) => {
            assert(s.ahead().contains(page));
            law_pages_to_render_ahead(s, page);
            let next = s.take_waiting(page);
            lemma_waiting_taken(s.images, page as int);
            assert(next.images == s.images.update(page as int, None));
            assert(next.ahead() == s.ahead());
            if next.skips(page) {
                law_looking_ahead_finds_what_to_render(next, i, q);
                let pick = next.looked_ahead(i).2;
                if let Some((k, p)) = pick {
                    assert(p != page);
                    assert(s.images[p as int] == next.images[p as int]);
                }
            }
        },
    }
}

/// Looking ahead goes on from where it stood, or from the place of a page that
/// it passed over.
pub proof fn law_places_gone_through<P>(s: EngineState<P>, iteration: int)
    requires
        s.images.len() == s.cache.len(),
        s.images.len() <= usize::MAX,
        s.page < s.images.len(),
        0 <= iteration < s.prerender,
    ensures
        ({
            let (t, places, pick) = s.looked_ahead(iteration);
            let page = s.ahead()[places];
            places == iteration || (0 <= places < s.ahead().len() && s.images[page as int] is Some
                && t.images[page as int] is None && (pick is Some ==> (pick->0).1 != page))
        }),
    decreases waiting(s.images),
{
    lemma_first_waiting(s.images, s.ahead(), 0);
    if let Some((i, page)) = s.next_waiting() {
        assert(s.ahead().contains(page));
        law_pages_to_render_ahead(s, page);
        let next = s.take_waiting(page);
        lemma_waiting_taken(s.images, page as int);
        assert(next.images == s.images.update(page as int, None));
        assert(next.ahead() == s.ahead());
        if next.skips(page) {
            law_places_gone_through(next, i);
            law_looking_ahead_finds_what_to_render(next, i, page);
            let (t, places, pick) = next.looked_ahead(i);
            if places != i {
                let q = s.ahead()[places];
                assert(s.ahead().contains(q));
                law_pages_to_render_ahead(s, q);
            }
        }
    }
}

/// Once all places were gone through, nothing is looked for.
pub proof fn law_looking_ahead_ends<P>(s: EngineState<P>, iteration: int)
    requires
        iteration >= s.prerender,
    ensures
        s.looked_ahead(iteration) == (s, iteration, None::<(int, usize)>),
{
}

// Views.

/// A view that differs in anything from the one last noted of its page is
/// rendered as tiles, except on Kitty; also if it is only moved sideways. So is
/// any view of a page that the display does not hold.
pub proof fn law_changed_view_is_rendered<P>(
    s: EngineState<P>,
    vp: ViewportUpdate,
    b: Begun<P>,
    raw_limit: Option<u64>,
)
    requires
        s.begins(TaskView::ShowViewport { viewport: vp }, b, raw_limit),
        s.picker.protocol != ProtocolType::Kitty,
        s.cached(vp.page) is Some,
        !s.sent.contains(vp.page) || !s.viewports.contains_key(vp.page) || ({
            let old_vp = s.viewports[vp.page];
            ||| old_vp.y_offset_cells != vp.y_offset_cells
            ||| old_vp.x_offset_cells != vp.x_offset_cells
            ||| old_vp.viewport_height_cells != vp.viewport_height_cells
            ||| old_vp.viewport_width_cells != vp.viewport_width_cells
        }),
    ensures
        b !is Nothing,
        b matches Begun::Encode { job } ==> {
            &&& job.page == vp.page
            &&& job.requested_scale == s.cached(vp.page)->0.data.requested_scale
            &&& job.work is Tiles
            &&& job.work->Tiles_cell_size.height == vp.viewport_height_cells
            &&& job.work->Tiles_cell_size.width <= vp.viewport_width_cells
            &&& job.work->Tiles_cell_size.width <= s.cached(vp.page)->0.data.width_cell
            &&& job.work->Tiles_cell_size.width == vp.viewport_width_cells
                || job.work->Tiles_cell_size.width == s.cached(vp.page)->0.data.width_cell
            &&& job.marks == (Marks { tiled: Some(true), sent: true, ahead: None })
        },
        b matches Begun::Fault { fault } ==> s.cached(vp.page)->0.data.raster() == Err::<
            Raster,
            PipelineError,
        >(fault),
{
    assert(s.with_viewport(vp).cached(vp.page)->0.data == s.cached(vp.page)->0.data);
}

/// Kitty is sent the whole page when it does not hold it, and only then.
pub proof fn law_kitty_is_sent_what_it_lacks<P>(
    s: EngineState<P>,
    vp: ViewportUpdate,
    b: Begun<P>,
    raw_limit: Option<u64>,
)
    requires
        s.begins(TaskView::ShowViewport { viewport: vp }, b, raw_limit),
        s.picker.protocol == ProtocolType::Kitty,
    ensures
        b is Nothing <==> s.cached(vp.page) is None || s.sent.contains(vp.page),
        b matches Begun::Encode { job } ==> {
            &&& job.page == vp.page
            &&& job.requested_scale == s.cached(vp.page)->0.data.requested_scale
            &&& job.work is Page
            &&& job.marks == (Marks { tiled: Some(false), sent: true, ahead: None })
        },
{
}

/// A page that is not at hand is not rendered, and a view that is displayed
/// already is not rendered again.
pub proof fn law_nothing_to_show<P>(
    s: EngineState<P>,
    vp: ViewportUpdate,
    b: Begun<P>,
    raw_limit: Option<u64>,
)
    requires
        s.begins(TaskView::ShowViewport { viewport: vp }, b, raw_limit),
        s.cached(vp.page) is None || (s.sent.contains(vp.page) && s.viewports.contains_key(vp.page)
            && s.viewports[vp.page] == vp),
    ensures
        b is Nothing,
{
}

/// Showing a view notes it, of its page and as the last one. Pages at most five
/// away from it, and those that the cursor needs, stay as they are; but the
/// tiles of the page itself are dropped if other columns are in view than
/// before. Other pages are dropped. What is drawn over pages stays.
pub proof fn law_showing_a_view_notes_it<P>(s: EngineState<P>, vp: ViewportUpdate, page: usize)
    ensures
        ({
            let t = s.with_viewport(vp);
            let moved = s.viewports.contains_key(vp.page) && (s.viewports[vp.page].x_offset_cells
                != vp.x_offset_cells || s.viewports[vp.page].viewport_width_cells
                != vp.viewport_width_cells);
            &&& t.viewport == Some(vp)
            &&& t.viewports == s.viewports.insert(vp.page, vp)
            &&& t.images.len() == s.images.len() && t.cache.len() == s.cache.len()
            &&& stays(s, vp.page, page) ==> {
                &&& page < s.images.len() ==> t.images[page as int] == s.images[page as int]
                &&& t.sent.contains(page) == s.sent.contains(page)
                &&& page != vp.page || !moved ==> t.cached(page) == s.cached(page)
                &&& page == vp.page && moved && s.cached(page) is Some ==> t.cached(page) == Some(
                    CachedView { tiles: Map::empty(), ..s.cached(page)->0 },
                )
            }
            &&& !stays(s, vp.page, page) ==> {
                &&& page < s.images.len() ==> t.images[page as int] is None
                &&& t.cached(page) is None
                &&& s.cached(page) is Some ==> !t.sent.contains(page)
            }
            &&& t == (EngineState {
                viewport: t.viewport,
                viewports: t.viewports,
                images: t.images,
                cache: t.cache,
                sent: t.sent,
                ..s
            })
        }),
{
}

// Tasks about overlays.

/// A page with pixels whose overlays changed is rendered: as tiles of the view if
/// it is in view and the terminal is not Kitty, else as a whole. A page without
/// pixels is not.
pub proof fn law_changed_page_is_rendered<P>(
    s: EngineState<P>,
    page: usize,
    b: Begun<P>,
    raw_limit: Option<u64>,
)
    requires
        s.begins(TaskView::Reconvert { page }, b, raw_limit),
    ensures
        b is Nothing <==> s.cached(page) is None || s.cached(page)->0.data.pixels@.len() == 0,
        b matches Begun::Encode { job } ==> {
            let tiles = s.picker.protocol != ProtocolType::Kitty && s.viewport is Some
                && s.viewport->0.page == page;
            &&& job.page == page
            &&& job.requested_scale == s.cached(page)->0.data.requested_scale
            &&& job.work is Tiles <==> tiles
            &&& job.work is Page <==> !tiles
            &&& job.marks.sent
            &&& job.marks.tiled == if tiles { Some(true) } else { None }
            &&& job.marks.ahead is None
        },
{
}

/// A page with pixels that the visual selection or the cursor changed on is
/// rendered as a whole; a page without pixels is not.
pub proof fn law_redrawn_page_is_rendered<P>(
    s: EngineState<P>,
    page: usize,
    task: TaskView,
    b: Begun<P>,
    raw_limit: Option<u64>,
)
    requires
        task == (TaskView::RedrawVisual { page }) || task == (TaskView::RedrawCursor { page }),
        s.begins(task, b, raw_limit),
    ensures
        b is Nothing <==> s.cached(page) is None || s.cached(page)->0.data.pixels@.len() == 0,
        b matches Begun::Encode { job } ==> {
            &&& job.page == page
            &&& job.requested_scale == s.cached(page)->0.data.requested_scale
            &&& job.work is Page
            &&& job.marks == (Marks { tiled: None, sent: true, ahead: None })
        },
{
}

/// Tiles at the view are rendered of a page at hand, and count as displayed; an
/// update of tiles does not.
pub proof fn law_tiles_at_the_view<P>(
    s: EngineState<P>,
    page: usize,
    task: TaskView,
    b: Begun<P>,
    raw_limit: Option<u64>,
)
    requires
        task == (TaskView::TileAtViewport { page }) || (task is UpdateTiles && task->UpdateTiles_page
            == page),
        s.begins(task, b, raw_limit),
    ensures
        b is Nothing <==> s.cached(page) is None || s.viewport is None,
        b matches Begun::Encode { job } ==> {
            &&& job.page == page
            &&& job.requested_scale == s.cached(page)->0.data.requested_scale
            &&& task is TileAtViewport ==> job.work is Tiles && job.marks == (Marks {
                tiled: Some(true),
                sent: true,
                ahead: None,
            })
            &&& task is UpdateTiles ==> job.work is Update && job.marks == (Marks {
                tiled: None,
                sent: false,
                ahead: None,
            }) && job.work->Update_cell_size == page_cells(*s.cached(page)->0.data)
        },
{
}

/// Beginning to render a page whose overlays changed forgets that it is
/// displayed, and no other. A page that the cursor is on waits for its pixels if
/// it has none; once it has them it no longer waits.
pub proof fn law_beginning_forgets_the_display<P>(
    s: EngineState<P>,
    page: usize,
    other: usize,
    task: TaskView,
)
    requires
        task == (TaskView::Reconvert { page }) || task == (TaskView::RedrawVisual { page }) || task
            == (TaskView::RedrawCursor { page }),
        other != page,
    ensures
        ({
            let t = s.after_begin(task);
            let pixels = s.cached(page) is Some && s.cached(page)->0.data.pixels@.len() > 0;
            &&& !t.sent.contains(page)
            &&& t.sent.contains(other) == s.sent.contains(other)
            &&& t.cached(other) == s.cached(other)
            &&& t.pending.contains(other) == s.pending.contains(other)
            &&& task !is RedrawCursor ==> t.pending == s.pending
            &&& task is RedrawCursor ==> (t.pending.contains(page) <==> !pixels && (
            s.pending.contains(page) || (s.cursor is Some && s.cursor->0.page == page)))
            &&& t.cached(page) is Some <==> s.cached(page) is Some
            &&& s.cached(page) is Some ==> t.cached(page)->0.data == s.cached(page)->0.data
                && t.cached(page)->0.tiles == s.cached(page)->0.tiles
            &&& t == (EngineState { sent: t.sent, pending: t.pending, cache: t.cache, ..s })
        }),
{
}

/// A page that is rendered ahead is rendered as it was last in view: as tiles,
/// except on Kitty; one that never was, as a whole.
pub proof fn law_page_ahead_is_rendered_as_last_seen<P>(
    s: EngineState<P>,
    page: usize,
    b: Begun<P>,
    raw_limit: Option<u64>,
    marks: Marks,
)
    requires
        s.renders(page, b, raw_limit, marks),
    ensures
        s.cached(page) is None ==> b == (Begun::<P>::Fault {
            fault: PipelineError::MissingCachedPage,
        }),
        s.cached(page) is Some ==> b !is Nothing,
        b matches Begun::Encode { job } ==> {
            let seen = s.viewports.contains_key(page) || (s.viewport is Some && s.viewport->0.page
                == page);
            &&& s.viewports.contains_key(page) ==> s.view_of(page) == Some(s.viewports[page])
            &&& !s.viewports.contains_key(page) && seen ==> s.view_of(page) == s.viewport
            &&& job.page == page
            &&& job.requested_scale == s.cached(page)->0.data.requested_scale
            &&& job.marks == marks
            &&& job.work is Tiles <==> seen && s.picker.protocol != ProtocolType::Kitty
            &&& job.work is Page <==> !seen || s.picker.protocol == ProtocolType::Kitty
        },
{
}

/// Where tiles are rendered, the image of the page stays at hand afterwards, if
/// the page has one. Nothing else is changed but what is displayed.
pub proof fn law_image_stays_at_hand<P>(s: EngineState<P>, task: TaskView, page: usize, other: usize)
    requires
        s.viewport is Some,
        s.cached(page) is Some,
        task is TileAtViewport || task is UpdateTiles || (task is Reconvert && s.picker.protocol
            != ProtocolType::Kitty && s.viewport->0.page == page
            && s.cached(page)->0.data.pixels@.len() > 0),
        task is TileAtViewport ==> task->TileAtViewport_page == page,
        task is UpdateTiles ==> task->UpdateTiles_page == page,
        task is Reconvert ==> task->Reconvert_page == page,
        other != page,
    ensures
        ({
            let t = s.after_begin(task);
            let (c, d) = (s.cached(page)->0, t.cached(page)->0);
            &&& t.cached(page) is Some
            &&& d.data == c.data && d.tiles == c.tiles
            &&& c.data.raster() matches Ok(r) ==> d.decoded == Some(r)
            &&& c.data.raster() is Err ==> d.decoded is None
            &&& t.cached(other) == s.cached(other)
            &&& t == (EngineState { cache: t.cache, sent: t.sent, ..s })
            &&& task !is Reconvert ==> t.sent == s.sent
        }),
{
}

/// So it does where the page was rendered ahead.
pub proof fn law_image_rendered_ahead_stays_at_hand<P>(s: EngineState<P>, page: usize, other: usize)
    requires
        s.cached(page) is Some,
        other != page,
    ensures
        ({
            let t = s.after_rendering(page);
            let as_tiles = s.picker.protocol != ProtocolType::Kitty && (s.viewports.contains_key(page)
                || (s.viewport is Some && s.viewport->0.page == page));
            let (c, d) = (s.cached(page)->0, t.cached(page)->0);
            &&& t.cached(page) is Some
            &&& d.data == c.data && d.tiles == c.tiles
            &&& as_tiles && c.data.raster() is Ok ==> d.decoded == Some(c.data.raster()->Ok_0)
            &&& as_tiles && c.data.raster() is Err ==> d.decoded is None
            &&& !as_tiles ==> t == s
            &&& t.cached(other) == s.cached(other)
            &&& t == (EngineState { cache: t.cache, ..s })
        }),
{
}

/// And where a view is shown that has to be rendered as tiles; a view that has
/// not leaves the image as it was.
pub proof fn law_image_of_a_view_stays_at_hand<P>(s: EngineState<P>, vp: ViewportUpdate)
    requires
        s.cached(vp.page) is Some,
    ensures
        ({
            let t = s.after_begin(TaskView::ShowViewport { viewport: vp });
            let rendered = s.picker.protocol != ProtocolType::Kitty && !(s.viewports.contains_key(
                vp.page,
            ) && s.viewports[vp.page] == vp && s.sent.contains(vp.page));
            let (c, d) = (s.cached(vp.page)->0, t.cached(vp.page)->0);
            &&& t.cached(vp.page) is Some
            &&& d.data == c.data
            &&& rendered && c.data.raster() is Ok ==> d.decoded == Some(c.data.raster()->Ok_0)
            &&& rendered && c.data.raster() is Err ==> d.decoded is None
            &&& !rendered ==> d.decoded == c.decoded
        }),
{
}

// What is shown.

/// What is handed over for a view: the tile in the `k`-th row of the view shows
/// the page with everything drawn over it, from that row of cells on and from the
/// column of cells on that the view begins at.
pub proof fn law_tiles_of_a_view_show_the_page<P>(
    s: EngineState<P>,
    vp: ViewportUpdate,
    job: Job<P>,
    raw_limit: Option<u64>,
    page: Raster,
    k: int,
    x: int,
    y: int,
)
    requires
        s.picker.protocol != ProtocolType::Kitty,
        s.begins(TaskView::ShowViewport { viewport: vp }, Begun::Encode { job }, raw_limit),
        job.work is Tiles,
        s.cached(vp.page) is Some,
        s.cached(vp.page)->0.data.raster() == Ok::<Raster, PipelineError>(page),
        0 <= k < job.work->Tiles_slots@.len(),
        job.work->Tiles_slots@[k].source is Fresh,
        0 <= x,
        0 <= y,
    ensures
        ({
            let cells = CellSize {
                width: s.cached(vp.page)->0.data.width_cell,
                height: s.cached(vp.page)->0.data.height_cell,
            };
            let d = density_of(page.width, page.height, cells, s.picker);
            let slot = job.work->Tiles_slots@[k];
            let image = slot.source->request.image@;
            let shown = painted(page, s.strokes(vp.page));
            let left = vp.x_offset_cells * d.x;
            let top = (vp.y_offset_cells + k) * d.y;
            &&& slot.y_offset_cells == k
            &&& slot.height_cells == 1
            &&& slot.index == vp.y_offset_cells + k
            &&& x < image.width && y < image.height && y < d.y && x < vp.viewport_width_cells * d.x
                && x < cells.width * d.x && left + x < page.width && top + y < page.height ==> {
                let (p, q) = (image.at(x, y), shown.at(left + x, top + y));
                p.r == q.r && p.g == q.g && p.b == q.b
            }
        }),
{
    let noted = s.with_viewport(vp);
    let data = s.cached(vp.page)->0.data;
    assert(noted.cached(vp.page)->0.data == data);
    assert(noted.strokes(vp.page) == s.strokes(vp.page));
    let cells = CellSize { width: data.width_cell, height: data.height_cell };
    let grid = Grid { page, cells, vp, picker: s.picker };
    let strokes = s.strokes(vp.page);
    let slots = job.work->Tiles_slots@;
    assert(are_view_slots(slots, grid, strokes, noted.cached(vp.page)->0.tiles));
    let index = vp.y_offset_cells + k;
    assert(is_view_slot(slots[k], grid, index, strokes, noted.cached(vp.page)->0.tiles));
    let image = slots[k].source->request.image@;
    assert(image == grid.picture(index, strokes));
    let d = grid.density();
    grid.lemma_step();
    assert(0 <= index < grid.tile_count());
    assert(index * grid.step() < page.height);
    if x < image.width && y < image.height && y < d.y && x < vp.viewport_width_cells * d.x && x
        < cells.width * d.x && vp.x_offset_cells * d.x + x < page.width {
        lemma_decoded_wf(data, page);
        crate::laws_pixels::law_tile_extent(grid);
        lemma_picture_extent(grid, index, strokes);
        assert(grid.columns() > 0) by {
            if grid.columns() == 0 {
                assert(0 * d.x == 0);
            }
        }
        law_tile_shows_its_cells(grid, index, strokes, x, y);
    }
}

proof fn lemma_picture_extent(grid: Grid, index: int, strokes: Seq<Stroke>)
    ensures
        grid.picture(index, strokes).width == grid.tile_extent().0,
        grid.picture(index, strokes).height == grid.tile_extent().1,
        0 <= grid.tile_extent().0 <= u32::MAX,
        0 <= grid.tile_extent().1 <= u32::MAX,
{
    let d = grid.density();
    let (c, f) = (grid.columns() as int, grid.picker.font_width as int);
    assert(0 <= c * f <= 0xffff * 0xffff) by (nonlinear_arith)
        requires
            0 <= c <= 0xffff,
            0 <= f <= 0xffff,
    ;
    assert(0 <= c * (d.x as int)) by (nonlinear_arith)
        requires
            0 <= c,
            0 <= d.x,
    ;
    crate::laws_pixels::law_tile_extent(grid);
    assert(1 * (d.y as int) == d.y);
    assert(1 * (grid.picker.font_height as int) == grid.picker.font_height);
}

proof fn lemma_decoded_wf(data: Arc<PageData>, page: Raster)
    requires
        data.raster() == Ok::<Raster, PipelineError>(page),
    ensures
        page.wf(),
{
    assert forall|y: int| 0 <= y < page.height implies (#[trigger] page.rows[y]).len()
        == page.width by {}
    assert(page.kind == PixelKind::Rgb ==> forall|x: int, y: int|
        0 <= x < page.width && 0 <= y < page.height ==> (#[trigger] page.at(x, y)).a == 255);
}

/// What Kitty is sent for a view, if there is no limit on it: the page with
/// everything drawn over it, from the row of cells on that the view begins at.
pub proof fn law_kitty_is_sent_the_view<P>(
    s: EngineState<P>,
    vp: ViewportUpdate,
    job: Job<P>,
    page: Raster,
    x: int,
    y: int,
)
    requires
        s.picker.protocol == ProtocolType::Kitty,
        s.begins(TaskView::ShowViewport { viewport: vp }, Begun::Encode { job }, None),
        s.cached(vp.page) is Some,
        s.cached(vp.page)->0.data.raster() == Ok::<Raster, PipelineError>(page),
        0 <= x < page.width,
        0 <= y,
    ensures
        ({
            let cells = CellSize {
                width: s.cached(vp.page)->0.data.width_cell,
                height: s.cached(vp.page)->0.data.height_cell,
            };
            let d = density_of(page.width, page.height, cells, s.picker);
            let top = vp.y_offset_cells * d.y;
            let shown = painted(page, s.strokes(vp.page));
            &&& job.work matches Work::Page { work: PageWork::Kitty { upload, cell_size } }
            &&& top + y < page.height && y < vp.viewport_height_cells * d.y ==> upload.image@.at(x, y)
                == shown.at(x, top + y)
            &&& top < page.height ==> cell_size == (CellSize {
                width: cells.width,
                height: vp.viewport_height_cells,
            })
            &&& upload.page_num == vp.page
        }),
{
    let noted = s.with_viewport(vp);
    let data = s.cached(vp.page)->0.data;
    assert(noted.cached(vp.page)->0.data == data);
    assert(noted.strokes(vp.page) == s.strokes(vp.page));
    let shown = painted(page, s.strokes(vp.page));
    lemma_decoded_wf(data, page);
    lemma_painted_wf(page, s.strokes(vp.page));
    let cells = CellSize { width: data.width_cell, height: data.height_cell };
    let d = density_of(page.width, page.height, cells, s.picker);
    if vp.y_offset_cells * d.y < page.height {
        law_view_shows_its_part_of_the_page(shown, cells, vp, s.picker, x, y);
    }
    assert(0 <= vp.viewport_height_cells * d.y) by (nonlinear_arith)
        requires
            0 <= vp.viewport_height_cells,
            0 <= d.y,
    ;
}

/// What Kitty is sent of a page whose overlays changed, if there is no limit on
/// it: the page with everything drawn over it; if the page is in view, from the
/// row of cells on that the view begins at.
pub proof fn law_kitty_is_sent_the_changed_page<P>(
    s: EngineState<P>,
    page_num: usize,
    task: TaskView,
    job: Job<P>,
    page: Raster,
    x: int,
    y: int,
)
    requires
        s.picker.protocol == ProtocolType::Kitty,
        task == (TaskView::Reconvert { page: page_num }) || task == (TaskView::RedrawVisual {
            page: page_num,
        }) || task == (TaskView::RedrawCursor { page: page_num }),
        s.begins(task, Begun::Encode { job }, None),
        s.cached(page_num) is Some,
        s.cached(page_num)->0.data.raster() == Ok::<Raster, PipelineError>(page),
        0 <= x < page.width,
        0 <= y,
    ensures
        ({
            let cells = CellSize {
                width: s.cached(page_num)->0.data.width_cell,
                height: s.cached(page_num)->0.data.height_cell,
            };
            let d = density_of(page.width, page.height, cells, s.picker);
            let shown = painted(page, s.strokes(page_num));
            let in_sight = s.viewport is Some && s.viewport->0.page == page_num;
            let top = s.viewport->0.y_offset_cells * d.y;
            &&& job.work matches Work::Page { work: PageWork::Kitty { upload, cell_size } }
            &&& upload.page_num == page_num
            &&& !in_sight ==> upload.image@ == shown && cell_size == cells
            &&& in_sight && top + y < page.height && y < s.viewport->0.viewport_height_cells * d.y
                ==> upload.image@.at(x, y) == shown.at(x, top + y)
        }),
{
    let data = s.cached(page_num)->0.data;
    let shown = painted(page, s.strokes(page_num));
    lemma_decoded_wf(data, page);
    lemma_painted_wf(page, s.strokes(page_num));
    let cells = CellSize { width: data.width_cell, height: data.height_cell };
    let d = density_of(page.width, page.height, cells, s.picker);
    if s.viewport is Some && s.viewport->0.page == page_num {
        let vp = s.viewport->0;
        if vp.y_offset_cells * d.y < page.height {
            law_view_shows_its_part_of_the_page(shown, cells, vp, s.picker, x, y);
        }
        assert(0 <= vp.viewport_height_cells * d.y) by (nonlinear_arith)
            requires
                0 <= vp.viewport_height_cells,
                0 <= d.y,
        ;
    }
}

/// What goes with a page that Kitty is sent: the process and the way that pages
/// are sent, the page, and a number that is one more. The image keeps to the
/// limit, if there is one that has room for a pixel.
pub proof fn law_kitty_is_told_the_page<P>(
    s: EngineState<P>,
    page_num: usize,
    viewport: Option<ViewportUpdate>,
    raw_limit: Option<u64>,
    marks: Marks,
    job: Job<P>,
    page: Raster,
)
    requires
        s.picker.protocol == ProtocolType::Kitty,
        (Begun::Encode { job }).renders_page(s, page_num, viewport, raw_limit, marks),
        s.cached(page_num) is Some,
        s.cached(page_num)->0.data.raster() == Ok::<Raster, PipelineError>(page),
        page.width >= 1,
        page.height >= 1,
    ensures
        ({
            &&& job.work matches Work::Page { work: PageWork::Kitty { upload, .. } }
            &&& upload.pid == s.pid
            &&& upload.shared_memory == s.kitty_shm_support
            &&& upload.page_num == page_num
            &&& page_num < u32::MAX ==> upload.image_id == page_num + 1
            &&& upload.image.kind == page.kind
            &&& raw_limit is Some && raw_limit->0 >= 4 ==> upload.image.width * upload.image.height * (
            if upload.image.kind == PixelKind::Rgba {
                4int
            } else {
                3
            }) <= raw_limit->0
        }),
{
    let data = s.cached(page_num)->0.data;
    let cells = CellSize { width: data.width_cell, height: data.height_cell };
    let r = painted(page, s.strokes(page_num));
    let (part, area) = page_in_view(r, cells, page_num, viewport, s.picker);
    let transport = Transport { pid: s.pid, kitty_shm_support: s.kitty_shm_support, raw_limit };
    law_rendering(job.work->Page_work, r, cells, page_num, viewport, s.picker, transport);
    assert(part.kind == page.kind && part.width == page.width && part.height >= 1);
    if raw_limit is Some && raw_limit->0 >= 4 {
        law_capped_image_keeps_to_the_limit(
            job.work->Page_work->upload.image@,
            part,
            raw_limit->0,
        );
    }
}

/// What is handed over for an update of tiles: the tile of a row of cells shows
/// the page with everything drawn over it, from that row on and from the column
/// of cells on that the view begins at. It takes the place of that row in the
/// view.
pub proof fn law_updated_tiles_show_the_page<P>(
    s: EngineState<P>,
    page_num: usize,
    spans: Seq<RowSpan>,
    job: Job<P>,
    raw_limit: Option<u64>,
    page: Raster,
    k: int,
    x: int,
    y: int,
)
    requires
        s.begins(
            TaskView::UpdateTiles { page: page_num, spans },
            Begun::Encode { job },
            raw_limit,
        ),
        s.viewport is Some,
        s.cached(page_num) is Some,
        s.cached(page_num)->0.data.raster() == Ok::<Raster, PipelineError>(page),
        job.work is Update,
        0 <= k < job.work->Update_slots@.len(),
        0 <= x,
        0 <= y,
    ensures
        ({
            let vp = s.viewport->0;
            let cells = CellSize {
                width: s.cached(page_num)->0.data.width_cell,
                height: s.cached(page_num)->0.data.height_cell,
            };
            let d = density_of(page.width, page.height, cells, s.picker);
            let slot = job.work->Update_slots@[k];
            let image = slot.source->request.image@;
            let shown = painted(page, s.strokes(page_num));
            let left = vp.x_offset_cells * d.x;
            let top = slot.index * d.y;
            &&& slot.source is Fresh && !slot.source->keep
            &&& slot.y_offset_cells == slot.index - vp.y_offset_cells
            &&& 0 <= slot.index - vp.y_offset_cells < vp.viewport_height_cells
            &&& slot.height_cells == 1
            &&& top < page.height
            &&& x < image.width && y < image.height && y < d.y && x < vp.viewport_width_cells * d.x
                && x < cells.width * d.x && left + x < page.width && top + y < page.height ==> {
                let (p, q) = (image.at(x, y), shown.at(left + x, top + y));
                p.r == q.r && p.g == q.g && p.b == q.b
            }
        }),
{
    let vp = s.viewport->0;
    let data = s.cached(page_num)->0.data;
    let cells = CellSize { width: data.width_cell, height: data.height_cell };
    let grid = Grid { page, cells, vp, picker: s.picker };
    let strokes = s.strokes(page_num);
    let slots = job.work->Update_slots@;
    let indices = touched(spans, grid.step());
    assert(are_update_slots(slots, grid, indices, strokes));
    let list = those_in_view(grid, indices);
    let index = list[k] as int;
    assert(in_view_tile(grid, index)) by {
        broadcast use vstd::seq_lib::group_filter_ensures;

        assert(list.contains(list[k]));
    }
    assert(slots[k].places(grid, index));
    assert(slots[k].asks(grid, index, strokes, false));
    let image = slots[k].source->request.image@;
    assert(image == grid.picture(index, strokes));
    let d = grid.density();
    grid.lemma_step();
    assert(index * grid.step() < page.height);
    if x < image.width && y < image.height && y < d.y && x < vp.viewport_width_cells * d.x && x
        < cells.width * d.x && vp.x_offset_cells * d.x + x < page.width {
        lemma_decoded_wf(data, page);
        crate::laws_pixels::law_tile_extent(grid);
        lemma_picture_extent(grid, index, strokes);
        assert(grid.columns() > 0) by {
            if grid.columns() == 0 {
                assert(0 * d.x == 0);
            }
        }
        law_tile_shows_its_cells(grid, index, strokes, x, y);
    }
}

/// Every tile in view that a changed row lies in is updated, once.
pub proof fn law_changed_rows_are_updated<P>(
    s: EngineState<P>,
    page_num: usize,
    spans: Seq<RowSpan>,
    job: Job<P>,
    raw_limit: Option<u64>,
    page: Raster,
    i: int,
    y: int,
)
    requires
        s.begins(
            TaskView::UpdateTiles { page: page_num, spans },
            Begun::Encode { job },
            raw_limit,
        ),
        s.viewport is Some,
        s.cached(page_num) is Some,
        s.cached(page_num)->0.data.raster() == Ok::<Raster, PipelineError>(page),
        0 <= i < spans.len(),
        spans[i].y <= y < spans[i].y + spans[i].height,
        y < page.height,
    ensures
        ({
            let vp = s.viewport->0;
            let cells = CellSize {
                width: s.cached(page_num)->0.data.width_cell,
                height: s.cached(page_num)->0.data.height_cell,
            };
            let d = density_of(page.width, page.height, cells, s.picker);
            let slots = job.work->Update_slots@;
            vp.y_offset_cells * d.y <= y < (vp.y_offset_cells + vp.viewport_height_cells) * d.y
                ==> exists|k: int|
                0 <= k < slots.len() && (#[trigger] slots[k]).index * d.y <= y < (slots[k].index + 1)
                    * d.y
        }),
{
    let vp = s.viewport->0;
    let data = s.cached(page_num)->0.data;
    let cells = CellSize { width: data.width_cell, height: data.height_cell };
    let grid = Grid { page, cells, vp, picker: s.picker };
    let strokes = s.strokes(page_num);
    let slots = job.work->Update_slots@;
    let d = grid.step();
    grid.lemma_step();
    if vp.y_offset_cells * d <= y < (vp.y_offset_cells + vp.viewport_height_cells) * d {
        let indices = touched(spans, d);
        assert(are_update_slots(slots, grid, indices, strokes));
        let n = y / d;
        vstd::arithmetic::div_mod::lemma_fundamental_div_mod(y, d);
        assert(n * d <= y < (n + 1) * d && 0 <= n <= y) by (nonlinear_arith)
            requires
                y == d * n + y % d,
                0 <= y % d < d,
                y >= 0,
        ;
        law_touched_tiles_are_those_reached(spans, d, n as u32);
        assert(indices.contains(n as u32));
        assert(vp.y_offset_cells <= n < vp.y_offset_cells + vp.viewport_height_cells)
            by (nonlinear_arith)
            requires
                vp.y_offset_cells * d <= y < (vp.y_offset_cells + vp.viewport_height_cells) * d,
                n * d <= y < (n + 1) * d,
                d >= 1,
        ;
        assert(n * d < page.height);
        assert(in_view_tile(grid, n));
        let list = those_in_view(grid, indices);
        assert(list.contains(n as u32)) by {
            broadcast use vstd::seq_lib::group_filter_ensures;

        }
        let k = choose|k: int| 0 <= k < list.len() && list[k] == n as u32;
        assert(slots[k].places(grid, list[k] as int));
    }
}

/// A tile is touched if and only if some changed rows reach into its own.
pub proof fn law_touched_tiles_are_those_reached(spans: Seq<RowSpan>, step: int, n: u32)
    requires
        step >= 1,
        rows_in_range(spans),
    ensures
        touched(spans, step).contains(n) <==> exists|i: int|
            0 <= i < spans.len() && (#[trigger] spans[i]).y < (n + 1) * step && n * step < spans[i].y
                + spans[i].height,
        touched(spans, step).no_duplicates(),
{
    law_touched_tiles(spans, step);
    assert forall|i: int| 0 <= i < spans.len() implies ((#[trigger] spans[i]).y as int / step <= n < (
    spans[i].y + spans[i].height + step - 1) / step <==> spans[i].y < (n + 1) * step && n * step
        < spans[i].y + spans[i].height) by {
        let (a, b) = (spans[i].y as int, spans[i].y + spans[i].height);
        let top = b + step - 1;
        vstd::arithmetic::div_mod::lemma_fundamental_div_mod(a, step);
        vstd::arithmetic::div_mod::lemma_fundamental_div_mod(top, step);
        let (q, r, m) = (a / step, top / step, n as int);
        assert(q <= m <==> a < (m + 1) * step) by (nonlinear_arith)
            requires
                a == step * q + a % step,
                0 <= a % step < step,
        ;
        assert(m < r <==> m * step < b) by (nonlinear_arith)
            requires
                top == step * r + top % step,
                0 <= top % step < step,
                top == b + step - 1,
        ;
    }
    if touched(spans, step).contains(n) {
        let i = choose|i: int|
            0 <= i < spans.len() && (#[trigger] spans[i]).y as int / step <= n < (spans[i].y
                + spans[i].height + step - 1) / step;
        assert(spans[i].y < (n + 1) * step);
    }
    if exists|i: int|
        0 <= i < spans.len() && (#[trigger] spans[i]).y < (n + 1) * step && n * step < spans[i].y
            + spans[i].height {
        let i = choose|i: int|
            0 <= i < spans.len() && (#[trigger] spans[i]).y < (n + 1) * step && n * step < spans[i].y
                + spans[i].height;
        assert(spans[i].y as int / step <= n);
    }
}

/// Every tile in view has its slot, from the top of the view on and without a
/// gap: as many as the view is high, unless the page ends before.
pub proof fn law_every_tile_in_view_has_a_slot<P>(
    slots: Seq<TileSlot<P>>,
    grid: Grid,
    strokes: Seq<Stroke>,
    kept: Map<u32, Arc<P>>,
    k: int,
)
    requires
        are_view_slots(slots, grid, strokes, kept),
        0 <= k,
    ensures
        k < slots.len() <==> k < grid.vp.viewport_height_cells && (grid.vp.y_offset_cells + k)
            * grid.density().y < grid.page.height,
        k < slots.len() ==> slots[k].index == grid.vp.y_offset_cells + k && slots[k].y_offset_cells
            == k && slots[k].height_cells == 1,
{
    grid.lemma_step();
    let index = grid.vp.y_offset_cells + k;
    assert(0 <= index < grid.tile_count() <==> 0 <= index && index * grid.step()
        < grid.page.height);
    if k < slots.len() {
        assert(is_view_slot(slots[k], grid, grid.vp.y_offset_cells + k, strokes, kept));
    }
}

/// A tile that nothing is drawn over is taken from the kept ones if it is among
/// them, and kept from now on if it is not. A tile with something drawn over it
/// is always encoded, and never kept.
pub proof fn law_plain_tiles_are_kept<P>(
    slots: Seq<TileSlot<P>>,
    grid: Grid,
    strokes: Seq<Stroke>,
    kept: Map<u32, Arc<P>>,
    k: int,
)
    requires
        are_view_slots(slots, grid, strokes, kept),
        0 <= k < slots.len(),
    ensures
        ({
            let index = grid.vp.y_offset_cells + k;
            let plain = crate::overlay::clip_strokes(strokes, grid.span(index)).len() == 0;
            &&& slots[k].source is Kept <==> plain && kept.contains_key(index as u32)
            &&& slots[k].source matches TileSource::Kept { protocol } ==> protocol
                == kept[index as u32]
            &&& slots[k].source matches TileSource::Fresh { keep, .. } ==> keep == plain
        }),
{
    assert(is_view_slot(slots[k], grid, grid.vp.y_offset_cells + k, strokes, kept));
}

// Answers.

/// A job that succeeded gives a frame of its page, at the scale that was asked
/// for, with what the host made: the uploaded image, the encoded page, or the
/// tiles in their places.
pub proof fn law_success_gives_a_frame<P, K>(
    out: Option<Result<RenderedFrame<P, K>, PipelineError>>,
    job: Job<P>,
    reply: Reply<P, K>,
    encoder: Encoder,
)
    requires
        delivers(out, job, reply, encoder),
        reply.fits(job.work),
        reply matches Reply::Page { outcome } ==> outcome is Ok,
        reply matches Reply::Tiles { failure, .. } ==> failure is None,
        job.work matches Work::Update { slots, .. } ==> slots@.len() > 0,
    ensures
        out matches Some(Ok(frame)) && frame.index == job.page && frame.requested_scale
            == job.requested_scale && (match job.work {
            Work::Page { work: PageWork::Kitty { cell_size, .. } } => frame.image == (
            ConvertedImage::<P, K>::Kitty { img: reply->img, cell_size }),
            Work::Page { work: PageWork::Encode { .. } } => frame.image is Generic
                && frame.image->Generic_protocol == reply->outcome->Ok_0.protocol
                && frame.image->area == reply->outcome->Ok_0.area,
            Work::Tiles { slots, cell_size } => frame.image is Tiled
                && frame.image->Tiled_cell_size == cell_size && frame.image->Tiled_tiles@.len()
                == slots@.len(),
            Work::Update { slots, cell_size } => frame.image is TileUpdate
                && frame.image->TileUpdate_cell_size == cell_size
                && frame.image->TileUpdate_tiles@.len() == slots@.len(),
        }),
{
}

/// A job that failed gives the fault of the terminal's encoder, with the host's
/// reason. An update without tiles gives nothing.
pub proof fn law_failure_gives_a_fault<P, K>(
    out: Option<Result<RenderedFrame<P, K>, PipelineError>>,
    job: Job<P>,
    reply: Reply<P, K>,
    picker: Picker,
    detail: String,
)
    requires
        delivers(out, job, reply, encoder_of(picker)),
    ensures
        reply == (Reply::<P, K>::Page { outcome: Err(detail) }) || (reply is Tiles && reply->failure
            == Some(detail)) ==> out == Some(
            Err::<RenderedFrame<P, K>, PipelineError>(
                if picker.protocol == ProtocolType::Iterm2 {
                    PipelineError::Iterm2Encoding { detail }
                } else {
                    PipelineError::ProtocolEncoding { detail }
                },
            ),
        ),
        reply is Tiles && reply->failure is None && job.work is Update
            && job.work->Update_slots@.len() == 0 ==> out is None,
{
}

/// Each tile of a frame stands where its slot says, and is the kept one, or the
/// one that was encoded for it: the encoded ones come in the order of the slots
/// that asked for them.
pub proof fn law_tiles_stand_in_their_places<P>(
    slots: Seq<TileSlot<P>>,
    encoded: Seq<Arc<P>>,
    j: int,
    k: int,
)
    requires
        0 <= j < k < slots.len(),
    ensures
        placed(slots, encoded).len() == slots.len(),
        placed(slots, encoded)[k].y_offset_cells == slots[k].y_offset_cells,
        placed(slots, encoded)[k].height_cells == slots[k].height_cells,
        slots[k].source matches TileSource::Kept { protocol } ==> placed(slots, encoded)[k].protocol
            == protocol,
        slots[k].source is Fresh ==> placed(slots, encoded)[k].protocol == encoded[fresh_before(
            slots,
            k,
        )],
        fresh_before(slots, 0) == 0,
        fresh_before(slots, k) == fresh_before(slots, k - 1) + if slots[k - 1].source is Fresh {
            1int
        } else {
            0
        },
        slots[j].source is Fresh ==> fresh_before(slots, j) < fresh_before(slots, k),
{
    lemma_fresh_grows(slots, j + 1, k);
}

proof fn lemma_fresh_grows<P>(slots: Seq<TileSlot<P>>, a: int, b: int)
    requires
        0 <= a <= b,
    ensures
        0 <= fresh_before(slots, a) <= fresh_before(slots, b),
    decreases b,
{
    if a < b {
        lemma_fresh_grows(slots, a, b - 1);
    } else if a > 0 {
        lemma_fresh_grows(slots, a - 1, a - 1);
    }
}

/// After a success the page counts as displayed if the job says so, and as tiled
/// or not as the job says; no other page is noted. A page that was rendered ahead
/// drops the ones that are distant from the current page.
pub proof fn law_success_is_noted<P, K>(s: EngineState<P>, job: Job<P>, reply: Reply<P, K>, page: usize)
    requires
        reply matches Reply::Page { outcome } ==> outcome is Ok,
        reply matches Reply::Tiles { failure, .. } ==> failure is None,
    ensures
        ({
            let t = s.after_reply(job, reply);
            let stays_here = job.marks.ahead is None || stays(s, s.page, page);
            &&& stays_here ==> (t.sent.contains(page) <==> s.sent.contains(page) || (page == job.page
                && job.marks.sent))
            &&& t.tiled.contains(page) <==> if page == job.page && job.marks.tiled is Some {
                job.marks.tiled->0
            } else {
                s.tiled.contains(page)
            }
            &&& stays_here ==> (t.cached(page) is Some <==> s.cached(page) is Some)
            &&& stays_here && s.cached(page) is Some ==> t.cached(page)->0.data == s.cached(
                page,
            )->0.data && t.cached(page)->0.decoded == s.cached(page)->0.decoded
            &&& stays_here && page < s.images.len() ==> t.images[page as int]
                == s.images[page as int]
            &&& !stays_here ==> t.cached(page) is None && (page < s.images.len()
                ==> t.images[page as int] is None)
            &&& t == (EngineState {
                sent: t.sent,
                tiled: t.tiled,
                cache: t.cache,
                images: t.images,
                ..s
            })
        }),
{
    let encoded = match reply {
        Reply::Tiles { encoded, failure } => s.with_encoded(
            job.page,
            slots_of(job.work),
            encoded@,
            failure is Some,
        ),
        _ => s,
    };
    assert(encoded.sent == s.sent && encoded.tiled == s.tiled && encoded.images == s.images);
    assert(encoded.cached(page) is Some <==> s.cached(page) is Some);
}

/// After a failure of the tiles' encoder, the page's image is dropped and made
/// anew when it is needed; the pages themselves and the notes about them stay.
pub proof fn law_failure_drops_the_image<P, K>(
    s: EngineState<P>,
    job: Job<P>,
    reply: Reply<P, K>,
    page: usize,
)
    requires
        reply matches Reply::Tiles { failure, .. } && failure is Some,
    ensures
        ({
            let t = s.after_reply(job, reply);
            &&& t.cached(page) is Some <==> s.cached(page) is Some
            &&& s.cached(page) is Some ==> t.cached(page)->0.data == s.cached(page)->0.data
            &&& s.cached(page) is Some ==> t.cached(page)->0.decoded == if page == job.page {
                None
            } else {
                s.cached(page)->0.decoded
            }
            &&& page != job.page ==> t.cached(page) == s.cached(page)
            &&& t == (EngineState { cache: t.cache, ..s })
        }),
{
}

/// A kept tile is one that was kept before, or one that was encoded for a slot
/// that may be kept; and every such one is kept, the last for its place.
pub proof fn law_kept_tiles<P>(
    kept: Map<u32, Arc<P>>,
    slots: Seq<TileSlot<P>>,
    encoded: Seq<Arc<P>>,
    n: int,
    index: u32,
)
    requires
        0 <= n <= slots.len(),
    ensures
        ({
            let after = with_kept(kept, slots, encoded, n);
            let keeps = |k: int|
                0 <= k < n && slots[k].index == index && slots[k].source is Fresh
                    && slots[k].source->keep && fresh_before(slots, k) < encoded.len();
            &&& (forall|k: int| !#[trigger] keeps(k)) ==> (after.contains_key(index)
                == kept.contains_key(index) && (kept.contains_key(index) ==> after[index]
                == kept[index]))
            &&& forall|k: int|
                #[trigger] keeps(k) && (forall|j: int| j > k ==> !#[trigger] keeps(j))
                    ==> after.contains_key(index) && after[index] == encoded[fresh_before(slots, k)]
        }),
    decreases n,
{
    let after = with_kept(kept, slots, encoded, n);
    let keeps = |k: int|
        0 <= k < n && slots[k].index == index && slots[k].source is Fresh && slots[k].source->keep
            && fresh_before(slots, k) < encoded.len();
    if n > 0 {
        let before = |k: int|
            0 <= k < n - 1 && slots[k].index == index && slots[k].source is Fresh
                && slots[k].source->keep && fresh_before(slots, k) < encoded.len();
        law_kept_tiles(kept, slots, encoded, n - 1, index);
        let rest = with_kept(kept, slots, encoded, n - 1);
        if keeps(n - 1) {
            assert(after[index] == encoded[fresh_before(slots, n - 1)]);
            assert forall|k: int|
                #[trigger] keeps(k) && (forall|j: int| j > k ==> !#[trigger] keeps(j)) implies after.contains_key(
            index) && after[index] == encoded[fresh_before(slots, k)] by {
                if k < n - 1 {
                    assert(keeps(n - 1));
                }
            }
        } else {
            assert(after.contains_key(index) == rest.contains_key(index));
            assert(rest.contains_key(index) ==> after[index] == rest[index]);
            assert(forall|k: int| #[trigger] keeps(k) == before(k));
            if forall|k: int| !#[trigger] keeps(k) {
                assert forall|k: int| !#[trigger] before(k) by {
                    assert(keeps(k) == before(k));
                }
            }
            assert forall|k: int|
                #[trigger] keeps(k) && (forall|j: int| j > k ==> !#[trigger] keeps(j)) implies after.contains_key(
            index) && after[index] == encoded[fresh_before(slots, k)] by {
                assert(before(k));
                assert forall|j: int| j > k implies !#[trigger] before(j) by {
                    assert(!keeps(j));
                }
            }
        }
    }
}

// Pages that can be rendered.

/// A page that has columns is always rendered for Kitty, if there is no limit.
pub proof fn law_kitty_renders_every_page<P>(
    s: EngineState<P>,
    b: Begun<P>,
    page_num: usize,
    viewport: Option<ViewportUpdate>,
    marks: Marks,
    page: Raster,
)
    requires
        s.picker.protocol == ProtocolType::Kitty,
        b.renders_page(s, page_num, viewport, None, marks),
        s.cached(page_num)->0.data.raster() == Ok::<Raster, PipelineError>(page),
        page.width >= 1,
    ensures
        b matches Begun::Encode { job } && job.page == page_num && job.marks == marks,
{
}

/// A page of ordinary extent is rendered within any limit.
pub proof fn law_kitty_renders_within_a_limit<P>(
    s: EngineState<P>,
    b: Begun<P>,
    page_num: usize,
    viewport: Option<ViewportUpdate>,
    raw_limit: Option<u64>,
    marks: Marks,
    page: Raster,
)
    requires
        s.picker.protocol == ProtocolType::Kitty,
        b.renders_page(s, page_num, viewport, raw_limit, marks),
        s.cached(page_num)->0.data.raster() == Ok::<Raster, PipelineError>(page),
        1 <= page.width <= 0x2000,
        1 <= page.height <= 0x2000,
        viewport is Some ==> viewport->0.viewport_height_cells * density_of(
            page.width,
            page.height,
            page_cells(*s.cached(page_num)->0.data),
            s.picker,
        ).y <= 0x2000,
    ensures
        b matches Begun::Encode { job } && job.page == page_num && job.marks == marks,
{
    let data = s.cached(page_num)->0.data;
    let cells = CellSize { width: data.width_cell, height: data.height_cell };
    let r = painted(page, s.strokes(page_num));
    let (part, area) = page_in_view(r, cells, page_num, viewport, s.picker);
    assert(part.width == page.width && 1 <= part.height <= 0x2000) by {
        if viewport is Some && viewport->0.page == page_num {
            let d = density_of(page.width, page.height, cells, s.picker);
            let vp = viewport->0;
            assert(0 <= vp.viewport_height_cells * d.y) by (nonlinear_arith)
                requires
                    0 <= vp.viewport_height_cells,
                    0 <= d.y,
            ;
            assert(0 <= vp.y_offset_cells * d.y) by (nonlinear_arith)
                requires
                    0 <= vp.y_offset_cells,
                    0 <= d.y,
            ;
        }
    }
    if let Some(limit) = raw_limit {
        let pixels = part.width * part.height;
        let budget = pixel_budget(part.kind, limit);
        if pixels > budget {
            law_shrunk_side_is_no_longer(part.width, budget, pixels);
            law_shrunk_side_is_no_longer(part.height, budget, pixels);
            let (w, h) = capped_extent(part, limit);
            assert(budget / (w as int) <= budget) by (nonlinear_arith)
                requires
                    w >= 1,
                    budget >= 1,
            ;
            assert(w <= part.width && h <= part.height);
            assert(w * h <= 0x400_0000) by (nonlinear_arith)
                requires
                    0 <= w <= 0x2000,
                    0 <= h <= 0x2000,
            ;
            assert(part.width * h <= 0x400_0000) by (nonlinear_arith)
                requires
                    0 <= part.width <= 0x2000,
                    0 <= h <= 0x2000,
            ;
            law_countable_images_can_be_resampled(part.width, part.height, w, h);
        }
    }
}

/// A whole page of ordinary extent is rendered on every terminal.
pub proof fn law_whole_pages_are_rendered<P>(
    s: EngineState<P>,
    b: Begun<P>,
    page_num: usize,
    viewport: Option<ViewportUpdate>,
    marks: Marks,
    page: Raster,
)
    requires
        b.renders_page(s, page_num, viewport, None, marks),
        s.cached(page_num)->0.data.raster() == Ok::<Raster, PipelineError>(page),
        1 <= page.width <= 0x2000,
        1 <= page.height <= 0x2000,
        s.cached(page_num)->0.data.width_cell * s.picker.font_width <= 0x2000,
        s.cached(page_num)->0.data.height_cell * s.picker.font_height <= 0x2000,
        !(viewport is Some && viewport->0.page == page_num),
    ensures
        b matches Begun::Encode { job } && job.page == page_num && job.marks == marks,
{
    let data = s.cached(page_num)->0.data;
    let (w, h) = (data.width_cell * s.picker.font_width, data.height_cell * s.picker.font_height);
    assert(0 <= w && 0 <= h) by (nonlinear_arith)
        requires
            w == data.width_cell * s.picker.font_width,
            h == data.height_cell * s.picker.font_height,
    ;
    let (nw, nh) = (most(w, 1), most(h, 1));
    assert(page.width * page.height <= 0x400_0000 && nw * nh <= 0x400_0000 && nw * page.height
        <= 0x400_0000) by (nonlinear_arith)
        requires
            0 <= page.width <= 0x2000,
            0 <= page.height <= 0x2000,
            0 <= nw <= 0x2000,
            0 <= nh <= 0x2000,
    ;
    law_countable_images_can_be_resampled(page.width, page.height, nw as u32, nh as u32);
}

/// The tiles of a page are rendered wherever there are columns of cells.
pub proof fn law_tiles_are_rendered<P>(
    s: EngineState<P>,
    b: Begun<P>,
    page_num: usize,
    vp: ViewportUpdate,
    marks: Marks,
    page: Raster,
)
    requires
        b.renders_tiles(s, page_num, vp, marks),
        s.cached(page_num)->0.data.raster() == Ok::<Raster, PipelineError>(page),
        page.width >= 1,
        s.cached(page_num)->0.data.width_cell >= 1,
        vp.viewport_width_cells >= 1,
    ensures
        b matches Begun::Encode { job } && job.page == page_num && job.marks == marks
            && job.work is Tiles,
{
    let data = s.cached(page_num)->0.data;
    let cells = CellSize { width: data.width_cell, height: data.height_cell };
    let grid = Grid { page, cells, vp, picker: s.picker };
    assert forall|index: int|
        vp.y_offset_cells <= index < vp.y_offset_cells
            + grid.shown() implies #[trigger] grid.can_picture(index) by {
        lemma_tile_has_pixels(grid, index);
    }
}

/// Tiles are updated wherever there are columns of cells, if the changed rows
/// have coordinates.
pub proof fn law_updates_are_rendered<P>(
    s: EngineState<P>,
    b: Begun<P>,
    page_num: usize,
    spans: Seq<RowSpan>,
    vp: ViewportUpdate,
    marks: Marks,
    page: Raster,
)
    requires
        b.updates_tiles(s, page_num, spans, vp, marks),
        s.cached(page_num)->0.data.raster() == Ok::<Raster, PipelineError>(page),
        page.width >= 1,
        s.cached(page_num)->0.data.width_cell >= 1,
        vp.viewport_width_cells >= 1,
        forall|i: int|
            0 <= i < spans.len() ==> (#[trigger] spans[i]).y + spans[i].height <= 0xffff_ffff,
    ensures
        b matches Begun::Encode { job } && job.page == page_num && job.marks == marks
            && job.work is Update,
{
    let data = s.cached(page_num)->0.data;
    let cells = CellSize { width: data.width_cell, height: data.height_cell };
    let grid = Grid { page, cells, vp, picker: s.picker };
    let indices = touched(spans, grid.step());
    assert forall|i: int|
        #![trigger indices[i]]
        0 <= i < indices.len() && in_view_tile(grid, indices[i] as int) implies grid.can_picture(
        indices[i] as int,
    ) by {
        lemma_tile_has_pixels(grid, indices[i] as int);
    }
}

proof fn lemma_tile_has_pixels(grid: Grid, index: int)
    requires
        0 <= index < grid.tile_count(),
        grid.page.width >= 1,
        grid.columns() >= 1,
    ensures
        grid.can_picture(index),
{
    grid.lemma_step();
    grid.lemma_span(index);
    let (c, dx) = (grid.columns() as int, grid.density().x as int);
    assert(c * dx >= 1) by (nonlinear_arith)
        requires
            c >= 1,
            dx >= 1,
    ;
    let o = grid.vp.x_offset_cells as int;
    assert(o * dx >= 0) by (nonlinear_arith)
        requires
            o >= 0,
            dx >= 1,
    ;
}

} // verus!
