//! What holds of the converter as a whole.

#[allow(unused_imports)]
use std::sync::Arc;

use vstd::prelude::*;

#[allow(unused_imports)]
use crate::cache::CachedView;
#[allow(unused_imports)]
use crate::delivery::{answers, fresh_before, placed, slots_of, with_kept, Reply};
#[allow(unused_imports)]
use crate::focus::{distance, focus_order, law_walk_goes_outwards, law_walk_meets_every_page_once};
#[allow(unused_imports)]
use crate::frame::{first_at, TiledProtocol};
#[allow(unused_imports)]
use crate::geometry::{Picker, PixelRect, ProtocolType};
#[allow(unused_imports)]
use crate::overlay::{clip_strokes, Stroke};
#[allow(unused_imports)]
use crate::page::{
    scaled_rects, HighlightOverlay, PageData, PageScoped, SelectionRect,
    ViewportUpdate, VisualRect,
};
#[allow(unused_imports)]
use crate::paint::{law_painting_nothing, painted};
#[allow(unused_imports)]
use crate::pixmap::{PageImage, Raster};
#[allow(unused_imports)]
use crate::render::{is_rendering, page_cells, PageWork, Transport};
#[allow(unused_imports)]
use crate::rounding::ScaleFactor;
#[allow(unused_imports)]
use crate::state::{
    affected, cursor_pages, distinct, first_waiting, lemma_first_waiting, linked_pages,
    marked_rects, pages_of, scaled_highlights, selected_rects, ConversionCommand, waiting,
    EngineState, TaskView, DECODED_RADIUS, PIXEL_RADIUS,
};
#[allow(unused_imports)]
use crate::text::PipelineError;
#[allow(unused_imports)]
use crate::tiles::{
    are_update_slots, are_view_slots, in_view_tile, is_view_slot, those_in_view, Grid, TileSlot,
};
#[allow(unused_imports)]
use crate::work::{sent_as_tiles, Begun, Job};

verus! {

// Affected pages.

/// A list without its repetitions has the same members, each once.
pub proof fn law_distinct(list: Seq<usize>)
    ensures
        distinct(list).no_duplicates(),
        forall|p: usize| #[trigger] distinct(list).contains(p) <==> list.contains(p),
    decreases list.len(),
{
    if list.len() > 0 {
        let rest = list.drop_last();
        let last = list.last();
        law_distinct(rest);
        let out = distinct(list);
        assert forall|p: usize| #[trigger] out.contains(p) <==> list.contains(p) by {
            if list.contains(p) {
                let i = choose|i: int| 0 <= i < list.len() && list[i] == p;
                if i < rest.len() {
                    assert(rest[i] == p);
                    assert(distinct(rest).contains(p));
                    let k = choose|k: int| 0 <= k < distinct(rest).len() && distinct(rest)[k] == p;
                    assert(out[k] == p);
                } else if !distinct(rest).contains(last) {
                    assert(out[out.len() - 1] == p);
                }
            }
            if out.contains(p) {
                let k = choose|k: int| 0 <= k < out.len() && out[k] == p;
                if k < distinct(rest).len() {
                    assert(distinct(rest)[k] == p);
                    assert(distinct(rest).contains(p));
                    let i = choose|i: int| 0 <= i < rest.len() && rest[i] == p;
                    assert(list[i] == p);
                } else {
                    assert(list[list.len() - 1] == p);
                }
            }
        }
    }
}

/// A change of items affects the pages that an item lies on, before or after,
/// each once.
pub proof fn law_affected_pages<T: PageScoped>(old_items: Seq<T>, new_items: Seq<T>, p: usize)
    ensures
        affected(old_items, new_items).no_duplicates(),
        affected(old_items, new_items).contains(p) <==> (exists|i: int|
            0 <= i < old_items.len() && (#[trigger] old_items[i]).on_page() == p) || (exists|i: int|
            0 <= i < new_items.len() && (#[trigger] new_items[i]).on_page() == p),
{
    let (a, b) = (pages_of(old_items), pages_of(new_items));
    law_distinct(a + b);
    if (a + b).contains(p) {
        let k = choose|k: int| 0 <= k < (a + b).len() && (a + b)[k] == p;
        if k < a.len() {
            assert(old_items[k].on_page() == p);
        } else {
            assert(new_items[k - a.len()].on_page() == p);
        }
    }
    if exists|i: int| 0 <= i < old_items.len() && (#[trigger] old_items[i]).on_page() == p {
        let i = choose|i: int| 0 <= i < old_items.len() && (#[trigger] old_items[i]).on_page() == p;
        assert((a + b)[i] == p);
    }
    if exists|i: int| 0 <= i < new_items.len() && (#[trigger] new_items[i]).on_page() == p {
        let i = choose|i: int| 0 <= i < new_items.len() && (#[trigger] new_items[i]).on_page() == p;
        assert((a + b)[a.len() + i] == p);
    }
}

proof fn lemma_nothing_selected(rects: Seq<SelectionRect>, page: usize)
    requires
        forall|i: int| 0 <= i < rects.len() ==> (#[trigger] rects[i]).page != page,
    ensures
        selected_rects(rects, page) == Seq::<PixelRect>::empty(),
        forall|scale: ScaleFactor| #[trigger]
            scaled_rects(rects, page, scale) == Seq::<PixelRect>::empty(),
    decreases rects.len(),
{
    if rects.len() > 0 {
        let rest = rects.drop_last();
        assert forall|i: int| 0 <= i < rest.len() implies (#[trigger] rest[i]).page != page by {
            assert(rest[i] == rects[i]);
        }
        lemma_nothing_selected(rest, page);
        assert(rects[rects.len() - 1].page != page);
        assert forall|scale: ScaleFactor| #[trigger]
            scaled_rects(rects, page, scale) == Seq::<PixelRect>::empty() by {
            assert(scaled_rects(rest, page, scale) == Seq::<PixelRect>::empty());
        }
    }
}

proof fn lemma_nothing_highlighted(list: Seq<HighlightOverlay>, page: usize, scale: ScaleFactor)
    requires
        forall|i: int| 0 <= i < list.len() ==> (#[trigger] list[i]).rect.page != page,
    ensures
        scaled_highlights(list, page, scale).len() == 0,
    decreases list.len(),
{
    if list.len() > 0 {
        let rest = list.drop_last();
        assert forall|i: int| 0 <= i < rest.len() implies (#[trigger] rest[i]).rect.page != page by {
            assert(rest[i] == list[i]);
        }
        lemma_nothing_highlighted(rest, page, scale);
        assert(list[list.len() - 1].rect.page != page);
    }
}

proof fn lemma_nothing_marked(list: Seq<VisualRect>, page: usize)
    requires
        forall|i: int| 0 <= i < list.len() ==> (#[trigger] list[i]).page != page,
    ensures
        marked_rects(list, page).len() == 0,
    decreases list.len(),
{
    if list.len() > 0 {
        let rest = list.drop_last();
        assert forall|i: int| 0 <= i < rest.len() implies (#[trigger] rest[i]).page != page by {
            assert(rest[i] == list[i]);
        }
        lemma_nothing_marked(rest, page);
        assert(list[list.len() - 1].page != page);
    }
}

/// The pages that a command about overlays affects.
pub open spec fn pages_affected<P>(s: EngineState<P>, command: ConversionCommand) -> Seq<usize> {
    match command {
        ConversionCommand::UpdateSelection(rects) => affected(s.selection, rects@),
        ConversionCommand::UpdateComments(rects) => affected(s.comments, rects@),
        ConversionCommand::UpdateHighlights(overlays) => affected(s.highlights, overlays@),
        ConversionCommand::UpdateCursor(cursor) => cursor_pages(s.cursor, cursor),
        ConversionCommand::UpdateVisual(rects) => affected(s.visual, rects@),
        ConversionCommand::SetShowLinkUnderlines(show) => if s.show_links == show {
            Seq::empty()
        } else {
            linked_pages(s.cache)
        },
        _ => Seq::empty(),
    }
}

/// Whether a command is about overlays.
pub open spec fn is_about_overlays(command: ConversionCommand) -> bool {
    command is UpdateSelection || command is UpdateComments || command is UpdateHighlights
        || command is UpdateCursor || command is UpdateVisual || command is SetShowLinkUnderlines
}

proof fn lemma_linked<P>(cache: Seq<Option<CachedView<P>>>, i: int)
    requires
        0 <= i < cache.len() <= usize::MAX,
        cache[i] is Some,
        cache[i]->0.data.links@.len() > 0,
    ensures
        linked_pages(cache).contains(i as usize),
    decreases cache.len(),
{
    let rest = cache.drop_last();
    if i == cache.len() - 1 {
        let out = linked_pages(cache);
        assert(out[out.len() - 1] == i as usize);
    } else {
        lemma_linked(rest, i);
        let r = linked_pages(rest);
        let k = choose|k: int| 0 <= k < r.len() && r[k] == i as usize;
        assert(linked_pages(cache)[k] == i as usize);
    }
}

/// A command about overlays changes the look of no page but those that it
/// affects. So what is kept or displayed of other pages stays right.
pub proof fn law_unaffected_pages_look_the_same<P>(
    s: EngineState<P>,
    command: ConversionCommand,
    page: usize,
)
    requires
        is_about_overlays(command),
        !pages_affected(s, command).contains(page),
        s.cache.len() <= usize::MAX,
    ensures
        s.after(command).strokes(page) == s.strokes(page),
        s.after(command).cached(page) == s.cached(page),
        s.after(command).tiled.contains(page) == s.tiled.contains(page),
{
    let t = s.after(command);
    assert(t.cached(page) == s.cached(page));
    match command {
        ConversionCommand::UpdateSelection(rects) => {
            law_affected_pages(s.selection, rects@, page);
            assert forall|i: int| 0 <= i < s.selection.len() implies (
            #[trigger] s.selection[i]).page != page by {
                assert(s.selection[i].on_page() != page);
            }
            assert forall|i: int| 0 <= i < rects@.len() implies (#[trigger] rects@[i]).page
                != page by {
                assert(rects@[i].on_page() != page);
            }
            lemma_nothing_selected(s.selection, page);
            lemma_nothing_selected(rects@, page);
        },
        ConversionCommand::UpdateComments(rects) => {
            law_affected_pages(s.comments, rects@, page);
            assert forall|i: int| 0 <= i < s.comments.len() implies (
            #[trigger] s.comments[i]).page != page by {
                assert(s.comments[i].on_page() != page);
            }
            assert forall|i: int| 0 <= i < rects@.len() implies (#[trigger] rects@[i]).page
                != page by {
                assert(rects@[i].on_page() != page);
            }
            lemma_nothing_selected(s.comments, page);
            lemma_nothing_selected(rects@, page);
        },
        ConversionCommand::UpdateHighlights(list) => {
            law_affected_pages(s.highlights, list@, page);
            assert forall|i: int| 0 <= i < s.highlights.len() implies (
            #[trigger] s.highlights[i]).rect.page != page by {
                assert(s.highlights[i].on_page() != page);
            }
            assert forall|i: int| 0 <= i < list@.len() implies (#[trigger] list@[i]).rect.page
                != page by {
                assert(list@[i].on_page() != page);
            }
            lemma_nothing_highlighted(s.highlights, page, s.scale(page));
            lemma_nothing_highlighted(list@, page, s.scale(page));
            assert(scaled_highlights(s.highlights, page, s.scale(page)) =~= scaled_highlights(
                list@,
                page,
                s.scale(page),
            ));
        },
        ConversionCommand::UpdateVisual(list) => {
            law_affected_pages(s.visual, list@, page);
            assert forall|i: int| 0 <= i < s.visual.len() implies (#[trigger] s.visual[i]).page
                != page by {
                assert(s.visual[i].on_page() != page);
            }
            assert forall|i: int| 0 <= i < list@.len() implies (#[trigger] list@[i]).page
                != page by {
                assert(list@[i].on_page() != page);
            }
            lemma_nothing_marked(s.visual, page);
            lemma_nothing_marked(list@, page);
            assert(marked_rects(s.visual, page) =~= marked_rects(list@, page));
        },
        ConversionCommand::UpdateCursor(cursor) => {
            let all = (if s.cursor is Some {
                seq![s.cursor->0.page]
            } else {
                Seq::empty()
            }) + (if cursor is Some {
                seq![cursor->0.page]
            } else {
                Seq::empty()
            });
            law_distinct(all);
            if s.cursor is Some {
                assert(all[0] == s.cursor->0.page);
            }
            if cursor is Some {
                assert(all[all.len() - 1] == cursor->0.page);
            }
        },
        ConversionCommand::SetShowLinkUnderlines(show) => {
            if s.cached(page) is Some && s.show_links != show {
                if s.cached(page)->0.data.links@.len() > 0 {
                    lemma_linked(s.cache, page as int);
                }
                assert(s.link_strokes(page) =~= t.link_strokes(page));
            }
        },
        _ => {},
    }
}

/// The page that a task is about.
pub open spec fn page_of(task: TaskView) -> usize {
    match task {
        TaskView::ShowViewport { viewport } => viewport.page,
        TaskView::Reconvert { page } => page,
        TaskView::RedrawVisual { page } => page,
        TaskView::RedrawCursor { page } => page,
        TaskView::TileAtViewport { page } => page,
        TaskView::UpdateTiles { page, .. } => page,
    }
}

/// A command about overlays other than the cursor asks for every page that it
/// affects to be rendered again, once.
pub proof fn law_affected_pages_are_rendered<P>(s: EngineState<P>, command: ConversionCommand, k: int)
    requires
        is_about_overlays(command),
        command !is UpdateCursor,
        0 <= k < pages_affected(s, command).len(),
    ensures
        s.tasks_of(command).len() == pages_affected(s, command).len(),
        page_of(s.tasks_of(command)[k]) == pages_affected(s, command)[k],
{
}

/// A page whose overlays changed no longer counts as displayed once it is taken
/// up, unless it is rendered anew.
pub proof fn law_changed_page_is_not_displayed<P>(s: EngineState<P>, page: usize)
    ensures
        !s.after_begin(TaskView::Reconvert { page }).sent.contains(page),
        !s.after_begin(TaskView::RedrawVisual { page }).sent.contains(page),
        !s.after_begin(TaskView::RedrawCursor { page }).sent.contains(page),
{
}

// Views.

/// Whatever becomes of it, a view is noted.
pub proof fn law_view_is_always_noted<P>(s: EngineState<P>, vp: ViewportUpdate)
    ensures
        ({
            let t = s.after_begin(TaskView::ShowViewport { viewport: vp });
            &&& t.viewport == Some(vp)
            &&& t.viewports.contains_key(vp.page)
            &&& t.viewports[vp.page] == vp
        }),
{
}

/// Showing another part of a page leaves the page itself at hand.
pub proof fn law_viewed_page_stays_at_hand<P>(s: EngineState<P>, vp: ViewportUpdate)
    ensures
        s.with_viewport(vp).cached(vp.page) is Some <==> s.cached(vp.page) is Some,
        s.with_viewport(vp).sent.contains(vp.page) == s.sent.contains(vp.page),
{
}

/// Kitty holds whole pages: moving over a page that it holds renders nothing.
pub proof fn law_kitty_moves_pages_by_itself<P>(
    s: EngineState<P>,
    vp: ViewportUpdate,
    b: Begun<P>,
    raw_limit: Option<u64>,
)
    requires
        s.picker.protocol == ProtocolType::Kitty,
        s.sent.contains(vp.page),
        s.begins(TaskView::ShowViewport { viewport: vp }, b, raw_limit),
    ensures
        b is Nothing,
{
    law_viewed_page_stays_at_hand(s, vp);
}

/// Nor does Kitty take a page in again that it holds.
pub proof fn law_kitty_takes_no_page_twice<P>(s: EngineState<P>, data: Arc<PageData>)
    requires
        s.picker.protocol == ProtocolType::Kitty,
        s.sent.contains(data.page_num),
    ensures
        s.after(ConversionCommand::EnqueuePage(data)) == s,
{
}

/// A view that was rendered is not rendered again.
pub proof fn law_same_view_is_rendered_once<P, K>(
    s: EngineState<P>,
    vp: ViewportUpdate,
    job: Job<P>,
    reply: Reply<P, K>,
    b: Begun<P>,
    raw_limit: Option<u64>,
)
    requires
        job.page == vp.page,
        job.marks == sent_as_tiles(),
        reply.failure() is None,
        ({
            let begun = s.after_begin(TaskView::ShowViewport { viewport: vp });
            begun.after_reply(job, reply).begins(
                TaskView::ShowViewport { viewport: vp },
                b,
                raw_limit,
            )
        }),
    ensures
        b is Nothing,
{
    let begun = s.after_begin(TaskView::ShowViewport { viewport: vp });
    let t = begun.after_reply(job, reply);
    assert(t.sent.contains(vp.page));
    law_viewed_page_stays_at_hand(t, vp);
}

// Failures.

/// A failed encoding leaves what is displayed as it was.
pub proof fn law_failure_marks_nothing<P, K>(s: EngineState<P>, job: Job<P>, reply: Reply<P, K>)
    requires
        reply.failure() is Some,
    ensures
        s.after_reply(job, reply).sent == s.sent,
        s.after_reply(job, reply).tiled == s.tiled,
        s.after_reply(job, reply).images == s.images,
{
}

/// After a failed display a page can be sent again: it is taken in anew, and if
/// it is still at hand, showing it renders it.
pub proof fn law_failed_display_can_be_retried<P>(
    s: EngineState<P>,
    pages: Vec<usize>,
    data: Arc<PageData>,
    vp: ViewportUpdate,
)
    requires
        pages@.contains(data.page_num),
        vp.page == data.page_num,
        data.page_num < s.images.len(),
    ensures
        ({
            let t = s.after(ConversionCommand::DisplayFailed(pages));
            &&& t.after(ConversionCommand::EnqueuePage(data)).images[data.page_num as int] == Some(data)
            &&& t.viewport_needs_rendering(vp) == (s.cached(vp.page) is Some)
        }),
{
    let t = s.after(ConversionCommand::DisplayFailed(pages));
    assert(!t.sent.contains(data.page_num));
    law_viewed_page_stays_at_hand(t, vp);
    assert(t.cached(vp.page) == s.cached(vp.page));
}

// Memory.

/// Dropping distant pages keeps those near the current one, and those that the
/// cursor needs, as they are.
pub proof fn law_near_pages_are_kept<P>(s: EngineState<P>, current: usize, radius: usize, page: usize)
    requires
        s.keeps(current, radius, page as int),
    ensures
        s.without_distant_pages(current, radius).cached(page) == s.cached(page),
        s.without_distant_pages(current, radius).sent.contains(page) == s.sent.contains(page),
        page < s.images.len() ==> s.without_distant_pages(current, radius).images[page as int]
            == s.images[page as int],
{
}

/// All other pages are dropped, and those that were at hand can be sent again.
pub proof fn law_distant_pages_are_dropped<P>(
    s: EngineState<P>,
    current: usize,
    radius: usize,
    page: usize,
)
    requires
        !s.keeps(current, radius, page as int),
    ensures
        s.without_distant_pages(current, radius).cached(page) is None,
        page < s.images.len() ==> s.without_distant_pages(current, radius).images[page as int] is None,
        s.cached(page) is Some ==> !s.without_distant_pages(current, radius).sent.contains(page),
{
}

/// After a move the pages at hand are close to the current one, or the cursor
/// needs them.
pub proof fn law_memory_is_bounded<P>(s: EngineState<P>, page: usize, i: usize)
    requires
        s.after(ConversionCommand::NavigateTo(page)).cached(i) is Some,
    ensures
        page - PIXEL_RADIUS <= i <= page + PIXEL_RADIUS || (s.cursor is Some && s.cursor->0.page
            == i) || s.pending.contains(i),
{
}

/// After everything was forgotten, nothing is at hand, waiting, displayed or in
/// view, and nothing is rendered ahead.
pub proof fn law_nothing_is_left<P>(s: EngineState<P>, page: usize, iteration: int)
    requires
        s.images.len() <= usize::MAX,
    ensures
        ({
            let t = s.after(ConversionCommand::InvalidatePageCache);
            &&& t.cached(page) is None
            &&& !t.sent.contains(page)
            &&& !t.tiled.contains(page)
            &&& t.view_of(page) is None
            &&& !t.comment_cache.contains_key(page)
            &&& t.cursor is None
            &&& t.selection.len() == 0
            &&& t.visual.len() == 0
            &&& t.images.len() == s.images.len()
            &&& t.looked_ahead(iteration).2 is None
        }),
{
    let t = s.after(ConversionCommand::InvalidatePageCache);
    lemma_first_waiting(t.images, t.ahead(), 0);
    assert(t.next_waiting() is None) by {
        if t.next_waiting() is Some {
            let i = first_waiting(t.images, t.ahead(), 0)->0;
            let (start, end) = t.window();
            assert(end <= t.images.len());
            lemma_ahead(t, i);
        }
    }
}

// Rendering ahead.

proof fn lemma_ahead<P>(s: EngineState<P>, i: int)
    requires
        0 <= i < s.ahead().len(),
        s.window().0 < s.window().1,
        s.images.len() <= usize::MAX,
    ensures
        s.window().0 <= s.ahead()[i] < s.window().1,
        s.ahead()[i] < s.images.len(),
{
    let (start, end) = s.window();
    lemma_window(s);
    law_walk_meets_every_page_once(s.focus(), start, end);
    let order = focus_order(s.focus(), start, end);
    assert(order.contains(order[i]));
}

proof fn lemma_window<P>(s: EngineState<P>)
    requires
        s.window().0 < s.window().1,
        s.images.len() <= usize::MAX,
    ensures
        0 <= s.window().0 <= s.focus() < s.window().1 <= usize::MAX,
        s.window().1 <= s.images.len(),
{
}

/// Of the waiting pages that are to be rendered ahead, a nearest one comes
/// first.
pub proof fn law_nearest_waiting_page_comes_first<P>(s: EngineState<P>, j: int)
    requires
        s.images.len() <= usize::MAX,
        s.next_waiting() is Some,
        0 <= j < s.ahead().len(),
        s.images[s.ahead()[j] as int] is Some,
    ensures
        ({
            let (i, page) = s.next_waiting()->0;
            &&& 0 <= i < s.ahead().len()
            &&& page == s.ahead()[i]
            &&& s.window().0 <= page < s.window().1
            &&& s.images[page as int] is Some
            &&& distance(s.focus(), page as int) <= distance(s.focus(), s.ahead()[j] as int)
        }),
{
    let (start, end) = s.window();
    let (i, page) = s.next_waiting()->0;
    lemma_first_waiting(s.images, s.ahead(), 0);
    lemma_window(s);
    lemma_ahead(s, i);
    if j < i {
        assert(s.images[s.ahead()[j] as int] is None);
    }
    law_walk_goes_outwards(s.focus(), start, end, i, j);
}

/// The page in focus is rendered before all others.
pub proof fn law_focused_page_comes_first<P>(s: EngineState<P>)
    requires
        s.images.len() <= usize::MAX,
        s.page < s.images.len(),
        s.prerender > 0,
        s.images[s.page as int] is Some,
    ensures
        s.next_waiting() == Some((0int, s.page)),
{
    let (start, end) = s.window();
    assert(start <= s.page < end) by {
        assert(s.page - s.prerender / 2 + s.prerender > s.page);
    }
    lemma_window(s);
    let order = focus_order(s.focus(), start, end);
    law_walk_meets_every_page_once(s.focus(), start, end);
    assert(order.contains(s.page));
    law_walk_goes_outwards(s.focus(), start, end, 0, 0);
    assert(s.ahead()[0] == s.page);
}

/// A page in focus that comes to hand and is not yet displayed is rendered in
/// the next turn; except on Kitty, if a part of it was in view.
pub proof fn law_current_page_is_rendered<P>(s: EngineState<P>, data: Arc<PageData>)
    requires
        s.picker.protocol == ProtocolType::Kitty || s.view_of(s.page) is Some,
        s.images.len() == s.cache.len(),
        s.images.len() <= usize::MAX,
        s.prerender > 0,
        data.page_num == s.page,
        s.page < s.images.len(),
        !s.sent.contains(s.page),
    ensures
        s.after(ConversionCommand::EnqueuePage(data)).looked_ahead(0).2 == Some((0int, s.page)),
{
    let t = s.after(ConversionCommand::EnqueuePage(data));
    law_focused_page_comes_first(t);
}

/// A page that comes to hand late is rendered as it was last asked for, even if
/// other pages came into view in between.
pub proof fn law_view_of_a_page_is_remembered<P>(
    s: EngineState<P>,
    vp: ViewportUpdate,
    other: ViewportUpdate,
)
    requires
        other.page != vp.page,
    ensures
        s.with_viewport(vp).view_of(vp.page) == Some(vp),
        s.with_viewport(vp).with_viewport(other).view_of(vp.page) == Some(vp),
{
}

// The cursor.

/// The cursor's page, and a page that the cursor waits for, keep their pixels
/// wherever the current page is.
pub proof fn law_cursor_page_keeps_its_pixels<P>(
    s: EngineState<P>,
    current: usize,
    radius: usize,
    page: usize,
)
    requires
        (s.cursor is Some && s.cursor->0.page == page) || s.pending.contains(page),
    ensures
        s.without_distant_pages(current, radius).cached(page) == s.cached(page),
{
}

/// A cursor on a page without pixels waits for them.
pub proof fn law_cursor_waits_for_its_page<P>(s: EngineState<P>, page: usize)
    requires
        s.cursor is Some,
        s.cursor->0.page == page,
    ensures
        s.after_begin(TaskView::RedrawCursor { page }).pending.contains(page) == !s.has_pixels(page),
{
}

// What is displayed.

/// Without overlays and limits, Kitty is sent a page's own pixels.
pub proof fn law_kitty_is_sent_the_page(
    work: PageWork,
    data: PageData,
    page: Raster,
    page_num: usize,
    picker: Picker,
    transport: Transport,
)
    requires
        data.raster() == Ok::<Raster, PipelineError>(page),
        picker.protocol == ProtocolType::Kitty,
        transport.raw_limit is None,
        is_rendering(
            work,
            painted(page, Seq::<Stroke>::empty()),
            page_cells(data),
            page_num,
            None,
            picker,
            transport,
        ),
    ensures
        work matches PageWork::Kitty { upload, cell_size } && upload.image@ == page && cell_size
            == page_cells(data),
{
    lemma_raster_wf(data, page);
    law_painting_nothing(page);
}

proof fn lemma_raster_wf(data: PageData, page: Raster)
    requires
        data.raster() == Ok::<Raster, PipelineError>(page),
    ensures
        page.wf(),
{
    let img = PageImage {
        kind: page.kind,
        width: data.width_px,
        height: data.height_px,
        data: data.pixels,
    };
    img.lemma_view_wf();
}

/// A tile is in view if its first row lies on the page and its place is among
/// the rows of cells that are shown.
pub proof fn law_tiles_in_view(grid: Grid, index: int)
    ensures
        in_view_tile(grid, index) <==> index * grid.step() < grid.page.height
            && grid.vp.y_offset_cells <= index < grid.vp.y_offset_cells
            + grid.vp.viewport_height_cells,
{
    grid.lemma_step();
    if grid.vp.y_offset_cells <= index {
        assert(0 <= index < grid.tile_count() <==> 0 <= index && index * grid.step()
            < grid.page.height);
    }
}

/// An update holds the listed tiles that are in view, in the order of the list,
/// each one cell high and at its place in the view. Each finds the tile that it
/// replaces in an image of all tiles of the same view, whatever is drawn over
/// either.
pub proof fn law_updates_find_their_tiles<P>(
    slots: Seq<TileSlot<P>>,
    encoded: Seq<Arc<P>>,
    grid: Grid,
    strokes: Seq<Stroke>,
    kept: Map<u32, Arc<P>>,
    updates: Seq<TileSlot<P>>,
    indices: Seq<u32>,
    others: Seq<Stroke>,
)
    requires
        are_view_slots(slots, grid, strokes, kept),
        are_update_slots(updates, grid, indices, others),
    ensures
        updates.len() == those_in_view(grid, indices).len(),
        forall|i: int|
            0 <= i < updates.len() ==> {
                let place = those_in_view(grid, indices)[i] - grid.vp.y_offset_cells;
                &&& (#[trigger] updates[i]).y_offset_cells == place
                &&& updates[i].height_cells == 1
                &&& first_at(placed(slots, encoded), updates[i].y_offset_cells) == Some(place)
            },
{
    let list = those_in_view(grid, indices);
    assert forall|i: int| 0 <= i < updates.len() implies ({
        let place = list[i] - grid.vp.y_offset_cells;
        &&& (#[trigger] updates[i]).y_offset_cells == place
        &&& updates[i].height_cells == 1
        &&& first_at(placed(slots, encoded), updates[i].y_offset_cells) == Some(place)
    }) by {
        assert(in_view_tile(grid, list[i] as int)) by {
            broadcast use vstd::seq_lib::group_filter_ensures;

            assert(list.contains(list[i]));
        }
        assert(updates[i].places(grid, list[i] as int));
        lemma_update_finds_its_tile(slots, encoded, grid, strokes, kept, updates[i], list[i] as int);
    }
}

proof fn lemma_update_finds_its_tile<P>(
    slots: Seq<TileSlot<P>>,
    encoded: Seq<Arc<P>>,
    grid: Grid,
    strokes: Seq<Stroke>,
    kept: Map<u32, Arc<P>>,
    update: TileSlot<P>,
    index: int,
)
    requires
        are_view_slots(slots, grid, strokes, kept),
        in_view_tile(grid, index),
        update.places(grid, index),
    ensures
        first_at(placed(slots, encoded), update.y_offset_cells) == Some(
            index - grid.vp.y_offset_cells,
        ),
{
    let k = index - grid.vp.y_offset_cells;
    let tiles = placed(slots, encoded);
    assert forall|j: int| 0 <= j < tiles.len() implies (#[trigger] tiles[j]).y_offset_cells == j by {
        assert(slots[j].places(grid, grid.vp.y_offset_cells + j));
    }
    lemma_first_at_stacked(tiles, k, tiles.len() as int);
    assert(tiles.take(tiles.len() as int) =~= tiles);
}

proof fn lemma_first_at_stacked<P>(tiles: Seq<TiledProtocol<P>>, k: int, n: int)
    requires
        0 <= n <= tiles.len(),
        0 <= k <= u16::MAX,
        forall|j: int| 0 <= j < tiles.len() ==> (#[trigger] tiles[j]).y_offset_cells == j,
    ensures
        first_at(tiles.take(n), k as u16) == (if k < n {
            Some(k)
        } else {
            None
        }),
    decreases n,
{
    if n > 0 {
        lemma_first_at_stacked(tiles, k, n - 1);
        assert(tiles.take(n).drop_last() =~= tiles.take(n - 1));
        assert(tiles.take(n).last() == tiles[n - 1]);
        assert(tiles[n - 1].y_offset_cells == n - 1);
    }
}

// Kept tiles.

/// Every kept tile was made of the picture of its plain tile. `made` says of an
/// encoding which pictures it was made of.
pub open spec fn kept_is_right<P>(
    kept: Map<u32, Arc<P>>,
    grid: Grid,
    made: spec_fn(Arc<P>, Raster) -> bool,
) -> bool {
    forall|i: u32| #[trigger]
        kept.contains_key(i) ==> made(kept[i], grid.picture(i as int, Seq::empty()))
}

/// Kept tiles stay right while the same columns are in view, however far the
/// view is scrolled and however high it is.
pub proof fn law_kept_tiles_stay_right<P>(
    kept: Map<u32, Arc<P>>,
    grid: Grid,
    other: Grid,
    made: spec_fn(Arc<P>, Raster) -> bool,
)
    requires
        kept_is_right(kept, grid, made),
        other.page == grid.page,
        other.cells == grid.cells,
        other.picker == grid.picker,
        other.vp.x_offset_cells == grid.vp.x_offset_cells,
        other.vp.viewport_width_cells == grid.vp.viewport_width_cells,
    ensures
        kept_is_right(kept, other, made),
{
    assert forall|i: u32| #[trigger] kept.contains_key(i) implies made(
        kept[i],
        other.picture(i as int, Seq::empty()),
    ) by {
        assert(other.span(i as int) == grid.span(i as int));
        assert(other.picture(i as int, Seq::empty()) == grid.picture(i as int, Seq::empty()));
    }
}

/// If other columns come into view, no tile is kept.
pub proof fn law_other_columns_drop_the_tiles<P>(s: EngineState<P>, vp: ViewportUpdate)
    requires
        s.viewports.contains_key(vp.page),
        s.viewports[vp.page].x_offset_cells != vp.x_offset_cells
            || s.viewports[vp.page].viewport_width_cells != vp.viewport_width_cells,
        s.cached(vp.page) is Some,
    ensures
        s.with_viewport(vp).cached(vp.page) is Some,
        s.with_viewport(vp).cached(vp.page)->0.tiles == Map::<u32, Arc<P>>::empty(),
{
}

/// What is delivered is the page with everything drawn over it: if the kept
/// tiles were right and the host encoded what it was handed, every tile of the
/// frame was made of its picture with all overlays, and the tiles that are kept
/// from now on are right again.
pub proof fn law_delivered_tiles_show_the_page<P>(
    slots: Seq<TileSlot<P>>,
    encoded: Seq<Arc<P>>,
    grid: Grid,
    strokes: Seq<Stroke>,
    kept: Map<u32, Arc<P>>,
    made: spec_fn(Arc<P>, Raster) -> bool,
)
    requires
        are_view_slots(slots, grid, strokes, kept),
        answers(slots, encoded, None),
        kept_is_right(kept, grid, made),
        forall|k: int|
            0 <= k < slots.len() && (#[trigger] slots[k]).source is Fresh ==> made(
                encoded[fresh_before(slots, k)],
                slots[k].source->request.image@,
            ),
    ensures
        forall|k: int|
            0 <= k < slots.len() ==> made(
                (#[trigger] placed(slots, encoded)[k]).protocol,
                grid.picture(grid.vp.y_offset_cells + k, strokes),
            ),
        kept_is_right(with_kept(kept, slots, encoded, slots.len() as int), grid, made),
{
    assert forall|k: int| 0 <= k < slots.len() implies made(
        (#[trigger] placed(slots, encoded)[k]).protocol,
        grid.picture(grid.vp.y_offset_cells + k, strokes),
    ) by {
        let index = grid.vp.y_offset_cells + k;
        assert(is_view_slot(slots[k], grid, index, strokes, kept));
        if !(slots[k].source is Fresh) {
            assert(kept.contains_key(index as u32));
            lemma_plain_picture(grid, index, strokes);
        }
    }
    lemma_kept_right(slots, encoded, grid, strokes, kept, made, slots.len() as int);
}

proof fn lemma_plain_picture(grid: Grid, index: int, strokes: Seq<Stroke>)
    requires
        grid.is_plain(index, strokes),
    ensures
        grid.picture(index, strokes) == grid.picture(index, Seq::empty()),
{
    let s = grid.span(index);
    assert(clip_strokes(strokes, s) =~= Seq::<Stroke>::empty());
    assert(clip_strokes(Seq::<Stroke>::empty(), s) =~= Seq::<Stroke>::empty());
}

proof fn lemma_kept_right<P>(
    slots: Seq<TileSlot<P>>,
    encoded: Seq<Arc<P>>,
    grid: Grid,
    strokes: Seq<Stroke>,
    kept: Map<u32, Arc<P>>,
    made: spec_fn(Arc<P>, Raster) -> bool,
    n: int,
)
    requires
        0 <= n <= slots.len(),
        are_view_slots(slots, grid, strokes, kept),
        kept_is_right(kept, grid, made),
        forall|k: int|
            0 <= k < slots.len() && (#[trigger] slots[k]).source is Fresh ==> made(
                encoded[fresh_before(slots, k)],
                slots[k].source->request.image@,
            ),
    ensures
        kept_is_right(with_kept(kept, slots, encoded, n), grid, made),
    decreases n,
{
    if n > 0 {
        lemma_kept_right(slots, encoded, grid, strokes, kept, made, n - 1);
        let index = grid.vp.y_offset_cells + n - 1;
        let slot = slots[n - 1];
        let before = with_kept(kept, slots, encoded, n - 1);
        let after = with_kept(kept, slots, encoded, n);
        assert(is_view_slot(slot, grid, grid.vp.y_offset_cells + (n - 1), strokes, kept));
        assert forall|i: u32| #[trigger] after.contains_key(i) implies made(
            after[i],
            grid.picture(i as int, Seq::empty()),
        ) by {
            if slot.source is Fresh && slot.source->keep && i == slot.index {
                lemma_plain_picture(grid, index, strokes);
                if fresh_before(slots, n - 1) >= encoded.len() {
                    assert(before.contains_key(i));
                }
            } else {
                assert(before.contains_key(i));
            }
        }
    }
}

// Pages that are displayed.

impl<P> EngineState<P> {
    /// Every page that the display holds is at hand.
    pub open spec fn displayed_is_at_hand(self) -> bool {
        forall|p: usize| #[trigger] self.sent.contains(p) ==> self.cached(p) is Some
    }
}

/// Commands keep the displayed pages at hand, or forget that they are displayed.
pub proof fn law_commands_keep_displayed_pages<P>(s: EngineState<P>, command: ConversionCommand)
    requires
        s.displayed_is_at_hand(),
    ensures
        s.after(command).displayed_is_at_hand(),
{
    let t = s.after(command);
    assert forall|p: usize| #[trigger] t.sent.contains(p) implies t.cached(p) is Some by {
        if t.sent.contains(p) {
            assert(s.sent.contains(p));
        }
        match command {
            ConversionCommand::NavigateTo(page) => {
                let moved = (EngineState { page, ..s }).without_distant_decoded(
                    page,
                    DECODED_RADIUS,
                );
                assert(moved.cached(p) is Some);
                assert(moved.sent.contains(p));
            },
            _ => {},
        }
    }
}

proof fn lemma_dropping_keeps_displayed<P>(s: EngineState<P>, current: usize, radius: usize)
    requires
        s.displayed_is_at_hand(),
    ensures
        s.without_distant_pages(current, radius).displayed_is_at_hand(),
{
    let t = s.without_distant_pages(current, radius);
    assert forall|p: usize| #[trigger] t.sent.contains(p) implies t.cached(p) is Some by {
        assert(s.sent.contains(p));
    }
}

/// So does beginning a task.
pub proof fn law_tasks_keep_displayed_pages<P>(s: EngineState<P>, task: TaskView)
    requires
        s.displayed_is_at_hand(),
    ensures
        s.after_begin(task).displayed_is_at_hand(),
{
    let t = s.after_begin(task);
    if task is ShowViewport {
        let vp = task->viewport;
        let noted = EngineState {
            viewport: Some(vp),
            viewports: s.viewports.insert(vp.page, vp),
            ..s
        };
        assert(noted.displayed_is_at_hand()) by {
            assert forall|p: usize| #[trigger] noted.sent.contains(p) implies noted.cached(
                p,
            ) is Some by {
                assert(s.sent.contains(p));
            }
        }
        lemma_dropping_keeps_displayed(noted, vp.page, PIXEL_RADIUS);
        let dropped = noted.without_distant_pages(vp.page, PIXEL_RADIUS);
        assert forall|p: usize| #[trigger] t.sent.contains(p) implies t.cached(p) is Some by {
            assert(dropped.sent.contains(p));
        }
    } else {
        assert forall|p: usize| #[trigger] t.sent.contains(p) implies t.cached(p) is Some by {
            assert(s.sent.contains(p));
        }
    }
}

/// So does looking for a page to render ahead.
pub proof fn law_looking_ahead_keeps_displayed_pages<P>(s: EngineState<P>, iteration: int)
    requires
        s.displayed_is_at_hand(),
    ensures
        s.looked_ahead(iteration).0.displayed_is_at_hand(),
    decreases waiting(s.images),
{
    if iteration < s.prerender && s.next_waiting() is Some {
        let (i, page) = s.next_waiting()->0;
        let next = s.take_waiting(page);
        assert forall|p: usize| #[trigger] next.sent.contains(p) implies next.cached(p) is Some by {
            assert(s.sent.contains(p));
        }
        if next.skips(page) && waiting(next.images) < waiting(s.images) {
            law_looking_ahead_keeps_displayed_pages(next, i);
        }
    }
}

/// And so does a frame of a page that is at hand.
pub proof fn law_frames_keep_displayed_pages<P, K>(s: EngineState<P>, job: Job<P>, reply: Reply<P, K>)
    requires
        s.displayed_is_at_hand(),
        s.cached(job.page) is Some,
    ensures
        s.after_reply(job, reply).displayed_is_at_hand(),
{
    let encoded = match reply {
        Reply::Tiles { encoded, failure } => s.with_encoded(
            job.page,
            slots_of(job.work),
            encoded@,
            failure is Some,
        ),
        _ => s,
    };
    assert forall|p: usize| #[trigger] encoded.sent.contains(p) implies encoded.cached(p) is Some by {
        assert(s.sent.contains(p));
    }
    if reply.failure() is None {
        let noted = EngineState {
            sent: if job.marks.sent {
                encoded.sent.insert(job.page)
            } else {
                encoded.sent
            },
            tiled: match job.marks.tiled {
                Some(true) => encoded.tiled.insert(job.page),
                Some(false) => encoded.tiled.remove(job.page),
                None => encoded.tiled,
            },
            ..encoded
        };
        assert forall|p: usize| #[trigger] noted.sent.contains(p) implies noted.cached(p) is Some by {
            if p != job.page {
                assert(encoded.sent.contains(p));
            }
        }
        if job.marks.ahead is Some {
            lemma_dropping_keeps_displayed(noted, encoded.page, PIXEL_RADIUS);
        }
    }
}

/// A page that is passed over when rendering ahead is at hand from then on.
pub proof fn law_passed_over_pages_are_at_hand<P>(s: EngineState<P>, page: usize)
    requires
        page < s.cache.len(),
        page < s.images.len(),
        s.images[page as int] is Some,
    ensures
        s.take_waiting(page).cached(page) is Some,
        s.take_waiting(page).cached(page)->0.data == s.images[page as int]->0,
        s.take_waiting(page).images[page as int] is None,
{
}

/// Showing a page drops the distant ones, whether or not anything is rendered.
pub proof fn law_showing_a_page_drops_distant_ones<P>(s: EngineState<P>, vp: ViewportUpdate, i: usize)
    requires
        !s.keeps(vp.page, PIXEL_RADIUS, i as int),
    ensures
        s.after_begin(TaskView::ShowViewport { viewport: vp }).cached(i) is None,
{
    assert(i != vp.page);
}

/// Images are kept of the pages near the current one only.
pub proof fn law_distant_images_are_dropped<P>(s: EngineState<P>, page: usize, i: usize)
    requires
        s.after(ConversionCommand::NavigateTo(page)).cached(i) is Some,
        s.after(ConversionCommand::NavigateTo(page)).cached(i)->0.decoded is Some,
    ensures
        page - DECODED_RADIUS <= i <= page + DECODED_RADIUS,
{
}

/// Tiles are no wider than the view, so that they do not run over its edge.
pub proof fn law_tiles_fit_the_view(grid: Grid)
    ensures
        grid.columns() <= grid.vp.viewport_width_cells,
        grid.columns() <= grid.cells.width,
        grid.shown() <= grid.vp.viewport_height_cells,
{
}

} // verus!
