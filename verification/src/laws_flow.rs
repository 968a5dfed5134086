//! What holds of commands, tasks and frames: what each changes, what it leaves
//! alone and what it asks for.

#[allow(unused_imports)]
use std::sync::Arc;

use vstd::prelude::*;

#[allow(unused_imports)]
use crate::cache::CachedView;
#[allow(unused_imports)]
use crate::delivery::{
    answers, delivers, fresh_before, placed, protocol_at, slots_of, with_kept, Reply,
};
#[allow(unused_imports)]
use crate::frame::{ConvertedImage, RenderedFrame};
#[allow(unused_imports)]
use crate::geometry::{density_of, CellSize, CursorRect, Picker, ProtocolType};
#[allow(unused_imports)]
use crate::laws::{law_affected_pages, law_distinct};
#[allow(unused_imports)]
use crate::overlay::Stroke;
#[allow(unused_imports)]
use crate::page::{
    scaled_rects, HighlightOverlay, PageData, PageScoped, SelectionRect, ViewportUpdate, VisualRect,
};
#[allow(unused_imports)]
use crate::paint::painted;
#[allow(unused_imports)]
use crate::pixmap::Raster;
#[allow(unused_imports)]
use crate::render::{encoder_of, page_cells, PageWork};
#[allow(unused_imports)]
use crate::rounding::{same_scale, ScaleFactor};
#[allow(unused_imports)]
use crate::state::{
    affected, cursor_pages, linked_pages, marked_rows, CommentView, ConversionCommand, EngineState,
    TaskView,
};
#[allow(unused_imports)]
use crate::text::PipelineError;
#[allow(unused_imports)]
use crate::tiles::{Grid, RowSpan, TileSlot, TileSource};
#[allow(unused_imports)]
use crate::work::{Begun, Job, Marks, Work};

verus! {

// What commands ask for.

/// A change of the selection asks for every page to be converted again that
/// holds a selected part before or after, once, and for nothing else.
pub proof fn law_selected_pages_are_converted<P>(
    s: EngineState<P>,
    rects: Vec<SelectionRect>,
    page: usize,
)
    ensures
        ({
            let tasks = s.tasks_of(ConversionCommand::UpdateSelection(rects));
            &&& tasks.contains(TaskView::Reconvert { page }) <==> (exists|i: int|
                0 <= i < s.selection.len() && (#[trigger] s.selection[i]).page == page) || (exists|
                i: int,
            |
                0 <= i < rects@.len() && (#[trigger] rects@[i]).page == page)
            &&& tasks.no_duplicates()
            &&& forall|k: int| 0 <= k < tasks.len() ==> (#[trigger] tasks[k]) is Reconvert
        }),
{
    law_affected_pages(s.selection, rects@, page);
    lemma_reconverts(affected(s.selection, rects@), page);
    lemma_on_page(s.selection, page);
    lemma_on_page(rects@, page);
}

proof fn lemma_on_page(rects: Seq<SelectionRect>, page: usize)
    ensures
        (exists|i: int| 0 <= i < rects.len() && (#[trigger] rects[i]).on_page() == page) <==> (
        exists|i: int| 0 <= i < rects.len() && (#[trigger] rects[i]).page == page),
{
    if exists|i: int| 0 <= i < rects.len() && (#[trigger] rects[i]).on_page() == page {
        let i = choose|i: int| 0 <= i < rects.len() && (#[trigger] rects[i]).on_page() == page;
        assert(rects[i].page == page);
    }
    if exists|i: int| 0 <= i < rects.len() && (#[trigger] rects[i]).page == page {
        let i = choose|i: int| 0 <= i < rects.len() && (#[trigger] rects[i]).page == page;
        assert(rects[i].on_page() == page);
    }
}

proof fn lemma_reconverts(pages: Seq<usize>, page: usize)
    requires
        pages.no_duplicates(),
    ensures
        ({
            let tasks = crate::state::reconvert_all(pages);
            &&& tasks.contains(TaskView::Reconvert { page }) <==> pages.contains(page)
            &&& tasks.no_duplicates()
            &&& forall|k: int| 0 <= k < tasks.len() ==> (#[trigger] tasks[k]) is Reconvert
        }),
{
    let tasks = crate::state::reconvert_all(pages);
    if pages.contains(page) {
        let k = choose|k: int| 0 <= k < pages.len() && pages[k] == page;
        assert(tasks[k] == (TaskView::Reconvert { page }));
    }
    if tasks.contains(TaskView::Reconvert { page }) {
        let k = choose|k: int| 0 <= k < tasks.len() && tasks[k] == (TaskView::Reconvert { page });
        assert(pages[k] == page);
    }
}

/// So does a change of the comments.
pub proof fn law_commented_pages_are_converted<P>(
    s: EngineState<P>,
    rects: Vec<SelectionRect>,
    page: usize,
)
    ensures
        ({
            let tasks = s.tasks_of(ConversionCommand::UpdateComments(rects));
            &&& tasks.contains(TaskView::Reconvert { page }) <==> (exists|i: int|
                0 <= i < s.comments.len() && (#[trigger] s.comments[i]).page == page) || (exists|
                i: int,
            |
                0 <= i < rects@.len() && (#[trigger] rects@[i]).page == page)
            &&& tasks.no_duplicates()
            &&& forall|k: int| 0 <= k < tasks.len() ==> (#[trigger] tasks[k]) is Reconvert
        }),
{
    law_affected_pages(s.comments, rects@, page);
    lemma_reconverts(affected(s.comments, rects@), page);
    lemma_on_page(s.comments, page);
    lemma_on_page(rects@, page);
}

/// So does a change of the highlights.
pub proof fn law_highlighted_pages_are_converted<P>(
    s: EngineState<P>,
    list: Vec<HighlightOverlay>,
    page: usize,
)
    ensures
        ({
            let tasks = s.tasks_of(ConversionCommand::UpdateHighlights(list));
            &&& tasks.contains(TaskView::Reconvert { page }) <==> (exists|i: int|
                0 <= i < s.highlights.len() && (#[trigger] s.highlights[i]).rect.page == page) || (
            exists|i: int| 0 <= i < list@.len() && (#[trigger] list@[i]).rect.page == page)
            &&& tasks.no_duplicates()
            &&& forall|k: int| 0 <= k < tasks.len() ==> (#[trigger] tasks[k]) is Reconvert
        }),
{
    law_affected_pages(s.highlights, list@, page);
    lemma_reconverts(affected(s.highlights, list@), page);
    lemma_highlights_on_page(s.highlights, page);
    lemma_highlights_on_page(list@, page);
}

proof fn lemma_highlights_on_page(list: Seq<HighlightOverlay>, page: usize)
    ensures
        (exists|i: int| 0 <= i < list.len() && (#[trigger] list[i]).on_page() == page) <==> (exists|
            i: int,
        |
            0 <= i < list.len() && (#[trigger] list[i]).rect.page == page),
{
    if exists|i: int| 0 <= i < list.len() && (#[trigger] list[i]).on_page() == page {
        let i = choose|i: int| 0 <= i < list.len() && (#[trigger] list[i]).on_page() == page;
        assert(list[i].rect.page == page);
    }
    if exists|i: int| 0 <= i < list.len() && (#[trigger] list[i]).rect.page == page {
        let i = choose|i: int| 0 <= i < list.len() && (#[trigger] list[i]).rect.page == page;
        assert(list[i].on_page() == page);
    }
}

/// Switching the outlines of links asks for every page at hand that has links to
/// be converted again, once; if the switch stays as it is, for nothing.
pub proof fn law_linked_pages_are_converted<P>(s: EngineState<P>, show: bool, page: usize)
    requires
        s.cache.len() <= usize::MAX,
    ensures
        ({
            let tasks = s.tasks_of(ConversionCommand::SetShowLinkUnderlines(show));
            &&& tasks.contains(TaskView::Reconvert { page }) <==> s.show_links != show && page
                < s.cache.len() && s.cache[page as int] is Some
                && s.cache[page as int]->0.data.links@.len() > 0
            &&& tasks.no_duplicates()
            &&& forall|k: int| 0 <= k < tasks.len() ==> (#[trigger] tasks[k]) is Reconvert
        }),
{
    lemma_linked_pages(s.cache);
    lemma_reconverts(linked_pages(s.cache), page);
}

proof fn lemma_linked_pages<P>(cache: Seq<Option<CachedView<P>>>)
    requires
        cache.len() <= usize::MAX,
    ensures
        linked_pages(cache).no_duplicates(),
        forall|p: usize| #[trigger]
            linked_pages(cache).contains(p) <==> p < cache.len() && cache[p as int] is Some
                && cache[p as int]->0.data.links@.len() > 0,
    decreases cache.len(),
{
    if cache.len() > 0 {
        let rest = cache.drop_last();
        lemma_linked_pages(rest);
        let (old, new) = (linked_pages(rest), linked_pages(cache));
        let last = (cache.len() - 1) as usize;
        assert(!old.contains(last));
        assert forall|p: usize| #[trigger] new.contains(p) <==> p < cache.len()
            && cache[p as int] is Some && cache[p as int]->0.data.links@.len() > 0 by {
            if old.contains(p) {
                let k = choose|k: int| 0 <= k < old.len() && old[k] == p;
                assert(new[k] == p);
            }
            if new.contains(p) && p != last {
                let k = choose|k: int| 0 <= k < new.len() && new[k] == p;
                assert(old[k] == p);
            }
            if p == last && new.len() > old.len() {
                assert(new[new.len() - 1] == p);
            }
            if p < rest.len() {
                assert(rest[p as int] == cache[p as int]);
            }
        }
        if new.len() > old.len() {
            assert forall|i: int, j: int| 0 <= i < new.len() && 0 <= j < new.len() && i != j implies new[i]
                != new[j] by {
                if i < old.len() {
                    assert(old.contains(old[i]));
                }
                if j < old.len() {
                    assert(old.contains(old[j]));
                }
            }
        }
    }
}

/// A move of the cursor, except on iTerm2, asks for every page to be drawn again
/// that the cursor was or is on, once; also if it is on no page any more.
pub proof fn law_cursor_pages_are_redrawn<P>(s: EngineState<P>, cursor: Option<CursorRect>, page: usize)
    requires
        s.picker.protocol != ProtocolType::Iterm2,
    ensures
        ({
            let tasks = s.tasks_of(ConversionCommand::UpdateCursor(cursor));
            &&& tasks.contains(TaskView::RedrawCursor { page }) <==> (s.cursor is Some
                && s.cursor->0.page == page) || (cursor is Some && cursor->0.page == page)
            &&& tasks.no_duplicates()
            &&& forall|k: int| 0 <= k < tasks.len() ==> (#[trigger] tasks[k]) is RedrawCursor
        }),
{
    let pages = cursor_pages(s.cursor, cursor);
    let tasks = s.tasks_of(ConversionCommand::UpdateCursor(cursor));
    lemma_cursor_pages(s.cursor, cursor);
    if pages.contains(page) {
        let k = choose|k: int| 0 <= k < pages.len() && pages[k] == page;
        assert(tasks[k] == (TaskView::RedrawCursor { page }));
    }
    if tasks.contains(TaskView::RedrawCursor { page }) {
        let k = choose|k: int| 0 <= k < tasks.len() && tasks[k] == (TaskView::RedrawCursor { page });
        assert(pages[k] == page);
    }
}

proof fn lemma_cursor_pages(old_cursor: Option<CursorRect>, new_cursor: Option<CursorRect>)
    ensures
        cursor_pages(old_cursor, new_cursor).no_duplicates(),
        forall|p: usize| #[trigger]
            cursor_pages(old_cursor, new_cursor).contains(p) <==> (old_cursor is Some
                && old_cursor->0.page == p) || (new_cursor is Some && new_cursor->0.page == p),
{
    let a = if old_cursor is Some {
        seq![old_cursor->0.page]
    } else {
        Seq::empty()
    };
    let b = if new_cursor is Some {
        seq![new_cursor->0.page]
    } else {
        Seq::empty()
    };
    law_distinct(a + b);
    assert forall|p: usize| #[trigger] cursor_pages(old_cursor, new_cursor).contains(p) <==> (
    old_cursor is Some && old_cursor->0.page == p) || (new_cursor is Some && new_cursor->0.page
        == p) by {
        assert((a + b).contains(p) <==> cursor_pages(old_cursor, new_cursor).contains(p));
        if old_cursor is Some {
            assert((a + b)[0] == old_cursor->0.page);
        }
        if new_cursor is Some {
            assert((a + b)[a.len() as int] == new_cursor->0.page);
        }
    }
}

/// The rows that the cursor takes up on a page, at least a character high.
pub open spec fn rows_of_cursor(cursor: Option<CursorRect>, page: usize, picker: Picker) -> Seq<RowSpan> {
    if cursor is Some && cursor->0.page == page {
        seq![
            RowSpan {
                y: cursor->0.y,
                height: if cursor->0.height >= picker.font_height {
                    cursor->0.height
                } else {
                    picker.font_height as u32
                },
            },
        ]
    } else {
        Seq::empty()
    }
}

/// On iTerm2, as long as nothing is in view, a move of the cursor asks for
/// nothing. Otherwise what counts is the page that the cursor is on, or was on if
/// it is on none any more. If that page is held as tiles, the tiles are updated
/// of every page that the cursor was or is on, once, at the rows that it left and
/// the rows that it takes up. If not, the page is tiled as a whole.
pub proof fn law_cursor_on_iterm2<P>(s: EngineState<P>, cursor: Option<CursorRect>, page: usize)
    requires
        s.picker.protocol == ProtocolType::Iterm2,
    ensures
        ({
            let tasks = s.tasks_of(ConversionCommand::UpdateCursor(cursor));
            let here = if cursor is Some {
                cursor
            } else {
                s.cursor
            };
            let update = TaskView::UpdateTiles {
                page,
                spans: rows_of_cursor(s.cursor, page, s.picker) + rows_of_cursor(
                    cursor,
                    page,
                    s.picker,
                ),
            };
            &&& s.viewport is None || here is None ==> tasks.len() == 0
            &&& s.viewport is Some && here is Some && !s.tiled.contains(here->0.page) ==> tasks
                == seq![TaskView::TileAtViewport { page: here->0.page }]
            &&& s.viewport is Some && here is Some && s.tiled.contains(here->0.page) ==> {
                &&& tasks.contains(update) <==> (s.cursor is Some && s.cursor->0.page == page) || (
                cursor is Some && cursor->0.page == page)
                &&& forall|k: int| 0 <= k < tasks.len() ==> (#[trigger] tasks[k]) is UpdateTiles
                &&& forall|i: int, j: int|
                    0 <= i < j < tasks.len() ==> (#[trigger] tasks[i])->UpdateTiles_page != (
                    #[trigger] tasks[j])->UpdateTiles_page
            }
        }),
{
    let pages = cursor_pages(s.cursor, cursor);
    let tasks = s.tasks_of(ConversionCommand::UpdateCursor(cursor));
    lemma_cursor_pages(s.cursor, cursor);
    let update = TaskView::UpdateTiles {
        page,
        spans: rows_of_cursor(s.cursor, page, s.picker) + rows_of_cursor(cursor, page, s.picker),
    };
    assert(crate::state::cursor_rows(s.cursor, page, s.picker) =~= rows_of_cursor(
        s.cursor,
        page,
        s.picker,
    ));
    assert(crate::state::cursor_rows(cursor, page, s.picker) =~= rows_of_cursor(
        cursor,
        page,
        s.picker,
    ));
    let here = if cursor is Some {
        cursor
    } else {
        s.cursor
    };
    if s.viewport is Some && here is Some && s.tiled.contains(here->0.page) {
        if pages.contains(page) {
            let k = choose|k: int| 0 <= k < pages.len() && pages[k] == page;
            assert(tasks[k] == update);
        }
        if tasks.contains(update) {
            let k = choose|k: int| 0 <= k < tasks.len() && tasks[k] == update;
            assert(pages[k] == page);
        }
    } else if s.viewport is Some && here is Some {
        assert(tasks =~= seq![TaskView::TileAtViewport { page: here->0.page }]);
    }
}

proof fn lemma_marked_rows(rects: Seq<VisualRect>, page: usize)
    ensures
        marked_rows(rects, page) == rects.filter(|v: VisualRect| v.page == page).map_values(
            |v: VisualRect| RowSpan { y: v.y, height: v.height },
        ),
    decreases rects.len(),
{
    let f = |v: VisualRect| v.page == page;
    let g = |v: VisualRect| RowSpan { y: v.y, height: v.height };
    reveal(Seq::filter);
    if rects.len() > 0 {
        let rest = rects.drop_last();
        lemma_marked_rows(rest, page);
        assert(rects.filter(f) =~= if f(rects.last()) {
            rest.filter(f).push(rects.last())
        } else {
            rest.filter(f)
        });
    }
    assert(marked_rows(rects, page) =~= rects.filter(f).map_values(g));
}

/// A change of the visual selection asks for every page that holds a marked part
/// before or after, once. On iTerm2, with something in view, the tiles are
/// updated at the rows of all these parts; otherwise the page is drawn again.
pub proof fn law_marked_pages_are_redrawn<P>(s: EngineState<P>, rects: Vec<VisualRect>, page: usize)
    ensures
        ({
            let tasks = s.tasks_of(ConversionCommand::UpdateVisual(rects));
            let marked = (exists|i: int|
                0 <= i < s.visual.len() && (#[trigger] s.visual[i]).page == page) || (exists|i: int|
                0 <= i < rects@.len() && (#[trigger] rects@[i]).page == page);
            let rows = (s.visual + rects@).filter(|v: VisualRect| v.page == page).map_values(
                |v: VisualRect| RowSpan { y: v.y, height: v.height },
            );
            if s.picker.protocol == ProtocolType::Iterm2 && s.viewport is Some {
                &&& tasks.contains(TaskView::UpdateTiles { page, spans: rows }) <==> marked
                &&& forall|k: int| 0 <= k < tasks.len() ==> (#[trigger] tasks[k]) is UpdateTiles
                &&& forall|i: int, j: int|
                    0 <= i < j < tasks.len() ==> (#[trigger] tasks[i])->UpdateTiles_page != (
                    #[trigger] tasks[j])->UpdateTiles_page
            } else {
                &&& tasks.contains(TaskView::RedrawVisual { page }) <==> marked
                &&& forall|k: int| 0 <= k < tasks.len() ==> (#[trigger] tasks[k]) is RedrawVisual
                &&& tasks.no_duplicates()
            }
        }),
{
    let tasks = s.tasks_of(ConversionCommand::UpdateVisual(rects));
    let pages = affected(s.visual, rects@);
    law_affected_pages(s.visual, rects@, page);
    lemma_marked_rows(s.visual + rects@, page);
    lemma_marks_on_page(s.visual, page);
    lemma_marks_on_page(rects@, page);
    let spans = marked_rows(s.visual + rects@, page);
    let tiles = s.picker.protocol == ProtocolType::Iterm2 && s.viewport is Some;
    let want = if tiles {
        TaskView::UpdateTiles { page, spans }
    } else {
        TaskView::RedrawVisual { page }
    };
    if pages.contains(page) {
        let k = choose|k: int| 0 <= k < pages.len() && pages[k] == page;
        assert(tasks[k] == want);
    }
    if tasks.contains(want) {
        let k = choose|k: int| 0 <= k < tasks.len() && tasks[k] == want;
        assert(pages[k] == page);
    }
}

proof fn lemma_marks_on_page(rects: Seq<VisualRect>, page: usize)
    ensures
        (exists|i: int| 0 <= i < rects.len() && (#[trigger] rects[i]).on_page() == page) <==> (
        exists|i: int| 0 <= i < rects.len() && (#[trigger] rects[i]).page == page),
{
    if exists|i: int| 0 <= i < rects.len() && (#[trigger] rects[i]).on_page() == page {
        let i = choose|i: int| 0 <= i < rects.len() && (#[trigger] rects[i]).on_page() == page;
        assert(rects[i].page == page);
    }
    if exists|i: int| 0 <= i < rects.len() && (#[trigger] rects[i]).page == page {
        let i = choose|i: int| 0 <= i < rects.len() && (#[trigger] rects[i]).page == page;
        assert(rects[i].on_page() == page);
    }
}

/// A view asks to be shown, two views one after the other; commands that are
/// about neither views nor overlays ask for nothing.
pub proof fn law_views_ask_to_be_shown<P>(s: EngineState<P>, command: ConversionCommand)
    ensures
        command matches ConversionCommand::UpdateViewport(vp) ==> s.tasks_of(command)
            == seq![TaskView::ShowViewport { viewport: vp }],
        command matches ConversionCommand::UpdateDualViewport(vps) ==> s.tasks_of(command)
            == vps@.map_values(|vp: ViewportUpdate| TaskView::ShowViewport { viewport: vp }),
        command is SetPageCount || command is NavigateTo || command is EnqueuePage
            || command is InvalidatePageCache || command is DisplayFailed || command is DumpState
            ==> s.tasks_of(command).len() == 0,
{
    if let ConversionCommand::UpdateDualViewport(vps) = command {
        assert(s.tasks_of(command) =~= vps@.map_values(
            |vp: ViewportUpdate| TaskView::ShowViewport { viewport: vp },
        ));
    }
}

// What commands change.

impl<P> EngineState<P> {
    /// Nothing but what is drawn over pages, and their tiles, differs.
    pub open spec fn same_but_for_overlays(self, t: Self) -> bool {
        &&& self.picker == t.picker
        &&& self.prerender == t.prerender
        &&& self.kitty_shm_support == t.kitty_shm_support
        &&& self.pid == t.pid
        &&& self.page == t.page
        &&& self.images == t.images
        &&& self.viewport == t.viewport
        &&& self.viewports == t.viewports
        &&& self.sent == t.sent
        &&& self.pending == t.pending
        &&& self.cache.len() == t.cache.len()
    }
}

/// A change of overlays replaces what it is about, and leaves the other overlays
/// alone. It changes no page: of those that it affects only the tiles are
/// dropped, of the others nothing.
pub proof fn law_overlays_are_replaced<P>(s: EngineState<P>, command: ConversionCommand, page: usize)
    requires
        crate::laws::is_about_overlays(command),
    ensures
        ({
            let t = s.after(command);
            &&& s.same_but_for_overlays(t)
            &&& t.selection == if command is UpdateSelection {
                command->UpdateSelection_0@
            } else {
                s.selection
            }
            &&& t.comments == if command is UpdateComments {
                command->UpdateComments_0@
            } else {
                s.comments
            }
            &&& t.highlights == if command is UpdateHighlights {
                command->UpdateHighlights_0@
            } else {
                s.highlights
            }
            &&& t.visual == if command is UpdateVisual {
                command->UpdateVisual_0@
            } else {
                s.visual
            }
            &&& t.cursor == if command is UpdateCursor {
                command->UpdateCursor_0
            } else {
                s.cursor
            }
            &&& t.show_links == if command is SetShowLinkUnderlines {
                command->SetShowLinkUnderlines_0
            } else {
                s.show_links
            }
            &&& command !is UpdateComments ==> t.comment_cache == s.comment_cache
            &&& t.cached(page) is Some <==> s.cached(page) is Some
            &&& s.cached(page) is Some ==> t.cached(page)->0.data == s.cached(page)->0.data
                && t.cached(page)->0.decoded == s.cached(page)->0.decoded
        }),
{
}

/// The tiles of a page whose overlays changed are dropped, and the page no longer
/// counts as tiled. For the cursor that is not needed: a tile that it is on is
/// never kept.
pub proof fn law_stale_tiles_are_dropped<P>(s: EngineState<P>, command: ConversionCommand, page: usize)
    requires
        s.cache.len() <= usize::MAX,
        match command {
            ConversionCommand::UpdateSelection(rects) => (exists|i: int|
                0 <= i < s.selection.len() && (#[trigger] s.selection[i]).page == page) || (exists|
                i: int,
            |
                0 <= i < rects@.len() && (#[trigger] rects@[i]).page == page),
            ConversionCommand::UpdateComments(rects) => (exists|i: int|
                0 <= i < s.comments.len() && (#[trigger] s.comments[i]).page == page) || (exists|
                i: int,
            |
                0 <= i < rects@.len() && (#[trigger] rects@[i]).page == page),
            ConversionCommand::UpdateHighlights(list) => (exists|i: int|
                0 <= i < s.highlights.len() && (#[trigger] s.highlights[i]).rect.page == page) || (
            exists|i: int| 0 <= i < list@.len() && (#[trigger] list@[i]).rect.page == page),
            ConversionCommand::UpdateVisual(rects) => (exists|i: int|
                0 <= i < s.visual.len() && (#[trigger] s.visual[i]).page == page) || (exists|i: int|
                0 <= i < rects@.len() && (#[trigger] rects@[i]).page == page),
            ConversionCommand::SetShowLinkUnderlines(show) => s.show_links != show && s.cached(
                page,
            ) is Some && s.cached(page)->0.data.links@.len() > 0,
            _ => false,
        },
    ensures
        !s.after(command).tiled.contains(page),
        s.cached(page) is Some ==> s.after(command).cached(page)->0.tiles == Map::<
            u32,
            Arc<P>,
        >::empty(),
{
    match command {
        ConversionCommand::UpdateSelection(rects) => {
            law_affected_pages(s.selection, rects@, page);
            lemma_on_page(s.selection, page);
            lemma_on_page(rects@, page);
        },
        ConversionCommand::UpdateComments(rects) => {
            law_affected_pages(s.comments, rects@, page);
            lemma_on_page(s.comments, page);
            lemma_on_page(rects@, page);
        },
        ConversionCommand::UpdateHighlights(list) => {
            law_affected_pages(s.highlights, list@, page);
            lemma_highlights_on_page(s.highlights, page);
            lemma_highlights_on_page(list@, page);
        },
        ConversionCommand::UpdateVisual(rects) => {
            law_affected_pages(s.visual, rects@, page);
            lemma_marks_on_page(s.visual, page);
            lemma_marks_on_page(rects@, page);
        },
        ConversionCommand::SetShowLinkUnderlines(show) => {
            lemma_linked_pages(s.cache);
            assert(linked_pages(s.cache).contains(page));
        },
        _ => {},
    }
}

/// After a change of the comments, the comments at hand of a page are those of
/// the page at its scale; a page that has none, or that is not at hand, has no
/// entry.
pub proof fn law_comments_are_scaled<P>(s: EngineState<P>, rects: Vec<SelectionRect>, page: usize)
    ensures
        ({
            let t = s.after(ConversionCommand::UpdateComments(rects));
            if s.cached(page) is Some && scaled_rects(
                rects@,
                page,
                s.cached(page)->0.data.scale_factor,
            ).len() > 0 {
                &&& t.comment_cache.contains_key(page)
                &&& t.comment_cache[page].scale == s.cached(page)->0.data.scale_factor
                &&& t.comment_cache[page].rects == scaled_rects(
                    rects@,
                    page,
                    s.cached(page)->0.data.scale_factor,
                )
            } else {
                !t.comment_cache.contains_key(page)
            }
        }),
{
}

/// A page is taken in to wait in its own place, and changes nothing else. It is
/// not taken in if there is no such place, or if Kitty holds the page already.
pub proof fn law_page_is_taken_in<P>(s: EngineState<P>, data: Arc<PageData>, i: int)
    requires
        0 <= i < s.images.len(),
    ensures
        ({
            let t = s.after(ConversionCommand::EnqueuePage(data));
            let held = s.picker.protocol == ProtocolType::Kitty && s.sent.contains(data.page_num);
            &&& t.images.len() == s.images.len()
            &&& t.images[i] == if i == data.page_num && !held {
                Some(data)
            } else {
                s.images[i]
            }
            &&& t == (EngineState { images: t.images, ..s })
        }),
{
}

/// A page out of range is not taken in.
pub proof fn law_page_out_of_range_is_not_taken_in<P>(s: EngineState<P>, data: Arc<PageData>)
    requires
        data.page_num >= s.images.len(),
    ensures
        s.after(ConversionCommand::EnqueuePage(data)) == s,
{
}

/// A new number of pages starts over: nothing waits, is at hand, displayed or
/// noted as viewed. The current page stays, or becomes the last one.
pub proof fn law_new_page_count_starts_over<P>(s: EngineState<P>, n: usize, page: usize)
    ensures
        ({
            let t = s.after(ConversionCommand::SetPageCount(n));
            &&& t.images.len() == n && t.cache.len() == n
            &&& page < n ==> t.images[page as int] is None
            &&& t.cached(page) is None
            &&& !t.sent.contains(page) && !t.tiled.contains(page)
            &&& !t.viewports.contains_key(page)
            &&& s.page < n ==> t.page == s.page
            &&& s.page >= n && n > 0 ==> t.page == n - 1
            &&& n == 0 ==> t.page == 0
            &&& t == (EngineState {
                images: t.images,
                cache: t.cache,
                page: t.page,
                sent: t.sent,
                viewports: t.viewports,
                tiled: t.tiled,
                ..s
            })
        }),
{
}

/// Forgetting everything keeps the number of pages, the current page, and the
/// comments, highlights and switches that are set.
pub proof fn law_forgetting_keeps_settings<P>(s: EngineState<P>, i: int)
    ensures
        ({
            let t = s.after(ConversionCommand::InvalidatePageCache);
            &&& t.images.len() == s.images.len() && t.cache.len() == s.cache.len()
            &&& 0 <= i < t.images.len() ==> t.images[i] is None
            &&& t.page == s.page
            &&& t.comments == s.comments
            &&& t.highlights == s.highlights
            &&& t.show_links == s.show_links
            &&& t.pending == s.pending
            &&& t.picker == s.picker
            &&& t.prerender == s.prerender
        }),
{
}

/// A failed display is forgotten of the pages that it names and of no other.
pub proof fn law_failed_display_is_forgotten<P>(s: EngineState<P>, pages: Vec<usize>, page: usize)
    ensures
        ({
            let t = s.after(ConversionCommand::DisplayFailed(pages));
            &&& t.sent.contains(page) <==> s.sent.contains(page) && !pages@.contains(page)
            &&& t.viewports.contains_key(page) <==> s.viewports.contains_key(page)
                && !pages@.contains(page)
            &&& t.viewports.contains_key(page) ==> t.viewports[page] == s.viewports[page]
            &&& t == (EngineState { sent: t.sent, viewports: t.viewports, ..s })
        }),
{
    assert(pages@.to_set().contains(page) <==> pages@.contains(page));
}

/// Whether a page keeps its pixels when another one is current: it is at most
/// five pages away, or the cursor is on it or waits for it.
pub open spec fn stays<P>(s: EngineState<P>, current: usize, page: usize) -> bool {
    ||| current - 5 <= page <= current + 5
    ||| s.cursor is Some && s.cursor->0.page == page
    ||| s.pending.contains(page)
}

/// Moving to a page makes it the current one. Pages that are at most five away,
/// and those that the cursor needs, stay at hand with their pixels and tiles, and
/// those at most twenty away with their image. All others are dropped, and can be
/// sent again.
pub proof fn law_moving_keeps_near_pages<P>(s: EngineState<P>, current: usize, page: usize)
    ensures
        ({
            let t = s.after(ConversionCommand::NavigateTo(current));
            &&& t.page == current
            &&& t.images.len() == s.images.len() && t.cache.len() == s.cache.len()
            &&& stays(s, current, page) ==> {
                &&& page < s.images.len() ==> t.images[page as int] == s.images[page as int]
                &&& t.sent.contains(page) == s.sent.contains(page)
                &&& t.cached(page) is Some <==> s.cached(page) is Some
                &&& s.cached(page) is Some ==> t.cached(page)->0.data == s.cached(page)->0.data
                    && t.cached(page)->0.tiles == s.cached(page)->0.tiles
                &&& s.cached(page) is Some ==> t.cached(page)->0.decoded == if current - 20 <= page
                    <= current + 20 {
                    s.cached(page)->0.decoded
                } else {
                    None
                }
            }
            &&& !stays(s, current, page) ==> {
                &&& page < s.images.len() ==> t.images[page as int] is None
                &&& t.cached(page) is None
                &&& t.sent.contains(page) <==> s.sent.contains(page) && s.cached(page) is None
            }
            &&& t == (EngineState {
                page: current,
                images: t.images,
                cache: t.cache,
                sent: t.sent,
                ..s
            })
        }),
{
    let a = EngineState { page: current, ..s };
    let b = a.without_distant_decoded(current, 20);
    assert(b.cached(page) is Some <==> s.cached(page) is Some);
}

} // verus!
