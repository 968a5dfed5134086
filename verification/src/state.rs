//! What the converter knows, and how commands change it.

use std::sync::Arc;

use vstd::prelude::*;

use crate::cache::CachedView;
#[allow(unused_imports)]
use crate::focus::focus_order;
use crate::geometry::{CursorRect, Picker, PixelRect, ProtocolType};
#[allow(unused_imports)]
use crate::geometry::{expanded, held_sum, least, listed, most};
use crate::overlay::{HighlightPixelRect, OverlaySet, Stroke};
#[allow(unused_imports)]
use crate::overlay::{
    highlight_strokes, solid, strokes_with, underlines, Brush, COMMENT_UNDERLINE_RGB,
    LINK_STROKE_RGB,
};
use crate::page::{
    HighlightOverlay, PageData, PageScoped, SelectionRect, ViewportUpdate, VisualRect,
};
#[allow(unused_imports)]
use crate::page::{all_link_strokes, scaled_rect, scaled_rects};
use crate::rounding::ScaleFactor;
#[allow(unused_imports)]
use crate::rounding::same_scale;
use crate::simd_overlay::OverlayOp;
use crate::tiles::RowSpan;

verus! {

/// How many pages on each side of the current one keep their pixels.
pub const PIXEL_RADIUS: usize = 5;

/// How many pages on each side of the current one keep their images.
pub const DECODED_RADIUS: usize = 20;

/// What the converter is told.
pub enum ConversionCommand {
    SetPageCount(usize),
    NavigateTo(usize),
    EnqueuePage(Arc<PageData>),
    UpdateViewport(ViewportUpdate),
    UpdateDualViewport(Vec<ViewportUpdate>),
    UpdateSelection(Vec<SelectionRect>),
    UpdateComments(Vec<SelectionRect>),
    UpdateHighlights(Vec<HighlightOverlay>),
    UpdateCursor(Option<CursorRect>),
    UpdateVisual(Vec<VisualRect>),
    /// Whether boxes are drawn around links.
    SetShowLinkUnderlines(bool),
    InvalidatePageCache,
    /// These pages could not be displayed and may be sent again.
    DisplayFailed(Vec<usize>),
    DumpState,
}

/// Something to render. A command asks for several, to be done in order.
pub enum Task {
    /// The part of a page that came into view.
    ShowViewport { viewport: ViewportUpdate },
    /// A page whose overlays changed.
    Reconvert { page: usize },
    /// A page whose visual selection changed.
    RedrawVisual { page: usize },
    /// A page that the cursor entered, left or moved on.
    RedrawCursor { page: usize },
    /// A page that the cursor is on, as tiles of the current view.
    TileAtViewport { page: usize },
    /// The tiles of a page that these rows reach into.
    UpdateTiles { page: usize, spans: Vec<RowSpan> },
}

/// What a task asks for.
pub enum TaskView {
    ShowViewport { viewport: ViewportUpdate },
    Reconvert { page: usize },
    RedrawVisual { page: usize },
    RedrawCursor { page: usize },
    TileAtViewport { page: usize },
    UpdateTiles { page: usize, spans: Seq<RowSpan> },
}

impl View for Task {
    type V = TaskView;

    open spec fn view(&self) -> TaskView {
        match self {
            Task::ShowViewport { viewport } => TaskView::ShowViewport { viewport: *viewport },
            Task::Reconvert { page } => TaskView::Reconvert { page: *page },
            Task::RedrawVisual { page } => TaskView::RedrawVisual { page: *page },
            Task::RedrawCursor { page } => TaskView::RedrawCursor { page: *page },
            Task::TileAtViewport { page } => TaskView::TileAtViewport { page: *page },
            Task::UpdateTiles { page, spans } => TaskView::UpdateTiles {
                page: *page,
                spans: spans@,
            },
        }
    }
}

/// What tasks ask for, in order.
pub open spec fn asked(tasks: Seq<Task>) -> Seq<TaskView> {
    Seq::new(tasks.len(), |i: int| tasks[i]@)
}

/// The comments of a page in page pixels, and the scale that they are for.
#[verifier::ext_equal]
pub struct CommentView {
    pub scale: ScaleFactor,
    pub rects: Seq<PixelRect>,
}

/// What the converter knows.
#[verifier::ext_equal]
pub struct EngineState<P> {
    pub picker: Picker,
    pub prerender: usize,
    pub kitty_shm_support: bool,
    pub pid: u32,
    /// The current page.
    pub page: usize,
    /// Pages that wait to be rendered.
    pub images: Seq<Option<Arc<PageData>>>,
    /// Pages at hand.
    pub cache: Seq<Option<CachedView<P>>>,
    pub selection: Seq<SelectionRect>,
    pub comments: Seq<SelectionRect>,
    pub highlights: Seq<HighlightOverlay>,
    /// The comments of pages, as they were last scaled.
    pub comment_cache: Map<usize, CommentView>,
    pub visual: Seq<VisualRect>,
    pub cursor: Option<CursorRect>,
    pub show_links: bool,
    /// What was last in view.
    pub viewport: Option<ViewportUpdate>,
    /// What was last in view of each page.
    pub viewports: Map<usize, ViewportUpdate>,
    /// Pages that the display holds as tiles.
    pub tiled: Set<usize>,
    /// Pages that the display holds as they are now.
    pub sent: Set<usize>,
    /// Pages that the cursor is on, but whose pixels are not at hand.
    pub pending: Set<usize>,
}

// Overlays.

/// The scale factor one.
pub open spec fn unit_scale() -> ScaleFactor {
    ScaleFactor { bits: 0x3f80_0000 }
}

/// The highlights of a page in page pixels, in order.
pub open spec fn scaled_highlights(
    highlights: Seq<HighlightOverlay>,
    page: usize,
    scale: ScaleFactor,
) -> Seq<HighlightPixelRect>
    decreases highlights.len(),
{
    if highlights.len() == 0 {
        Seq::empty()
    } else {
        let rest = scaled_highlights(highlights.drop_last(), page, scale);
        let h = highlights.last();
        if h.rect.page == page {
            let rects = scaled_rect(h.rect, scale);
            rest + Seq::new(
                rects.len(),
                |i: int| HighlightPixelRect { rect: rects[i], rgb: h.rgb, alpha: h.alpha },
            )
        } else {
            rest
        }
    }
}

/// The selected parts of a page, in order.
pub open spec fn selected_rects(rects: Seq<SelectionRect>, page: usize) -> Seq<PixelRect>
    decreases rects.len(),
{
    if rects.len() == 0 {
        Seq::empty()
    } else {
        let rest = selected_rects(rects.drop_last(), page);
        let s = rects.last();
        if s.page == page {
            rest + listed(
                PixelRect::with_corners(
                    s.topleft_x as int,
                    s.topleft_y as int,
                    s.bottomright_x as int,
                    s.bottomright_y as int,
                ),
            )
        } else {
            rest
        }
    }
}

/// The rectangle of an extent, held inside the coordinates.
pub open spec fn extent_rect(x: u32, y: u32, width: u32, height: u32) -> Option<PixelRect> {
    PixelRect::with_corners(
        x as int,
        y as int,
        held_sum(x as int, width as int),
        held_sum(y as int, height as int),
    )
}

/// The parts of a page that are marked in visual mode, in order.
pub open spec fn marked_rects(rects: Seq<VisualRect>, page: usize) -> Seq<PixelRect>
    decreases rects.len(),
{
    if rects.len() == 0 {
        Seq::empty()
    } else {
        let rest = marked_rects(rects.drop_last(), page);
        let v = rects.last();
        if v.page == page {
            rest + listed(extent_rect(v.x, v.y, v.width, v.height))
        } else {
            rest
        }
    }
}

/// The cursor on a page, at least one character large.
pub open spec fn cursor_on(cursor: Option<CursorRect>, page: usize, picker: Picker) -> Option<PixelRect> {
    match cursor {
        Some(c) => if c.page == page {
            let e = expanded(c, picker);
            extent_rect(e.x, e.y, e.width, e.height)
        } else {
            None
        },
        None => None,
    }
}

impl<P> EngineState<P> {
    /// The page at hand.
    pub open spec fn cached(self, page: usize) -> Option<CachedView<P>> {
        if page < self.cache.len() {
            self.cache[page as int]
        } else {
            None
        }
    }

    /// The comments of a page in page pixels, if the page is at hand.
    pub open spec fn comment_rects(self, page: usize) -> Seq<PixelRect> {
        match self.cached(page) {
            Some(c) => scaled_rects(self.comments, page, c.data.scale_factor),
            None => Seq::empty(),
        }
    }

    /// The given comments, scaled to the pages at hand. A page without any has no
    /// entry.
    pub open spec fn scaled_comments(self, comments: Seq<SelectionRect>) -> Map<usize, CommentView> {
        Map::new(
            |p: usize|
                self.cached(p) is Some && scaled_rects(
                    comments,
                    p,
                    self.cached(p)->0.data.scale_factor,
                ).len() > 0,
            |p: usize|
                CommentView {
                    scale: self.cached(p)->0.data.scale_factor,
                    rects: scaled_rects(comments, p, self.cached(p)->0.data.scale_factor),
                },
        )
    }

    /// After the comments of a page were scaled to it.
    pub open spec fn with_comments_scaled(self, page: usize, scale: ScaleFactor) -> Self {
        let rects = scaled_rects(self.comments, page, scale);
        EngineState {
            comment_cache: if rects.len() == 0 {
                self.comment_cache.remove(page)
            } else {
                self.comment_cache.insert(page, CommentView { scale, rects })
            },
            ..self
        }
    }

    /// The borders of the links of a page, if they are to be drawn.
    pub open spec fn link_strokes(self, page: usize) -> Seq<PixelRect> {
        match self.cached(page) {
            Some(c) => if self.show_links {
                all_link_strokes(c.data.links@)
            } else {
                Seq::empty()
            },
            None => Seq::empty(),
        }
    }

    /// The scale of a page; one, if the page is not at hand.
    pub open spec fn scale(self, page: usize) -> ScaleFactor {
        match self.cached(page) {
            Some(c) => c.data.scale_factor,
            None => unit_scale(),
        }
    }

    /// `overlays` is what is drawn over a page.
    pub open spec fn overlaid_by(self, overlays: OverlaySet, page: usize) -> bool {
        &&& overlays.highlights@ == scaled_highlights(self.highlights, page, self.scale(page))
        &&& overlays.comments@ == self.comment_rects(page)
        &&& !overlays.comments_are_underlines
        &&& overlays.link_strokes@ == self.link_strokes(page)
        &&& overlays.selection@ == selected_rects(self.selection, page)
        &&& overlays.visual@ == marked_rects(self.visual, page)
        &&& overlays.cursor == cursor_on(self.cursor, page, self.picker)
    }

    /// The strokes that draw everything over a page, from the lowest layer up.
    pub open spec fn strokes(self, page: usize) -> Seq<Stroke> {
        highlight_strokes(scaled_highlights(self.highlights, page, self.scale(page)))
            + strokes_with(underlines(self.comment_rects(page)), solid(COMMENT_UNDERLINE_RGB))
            + strokes_with(self.link_strokes(page), solid(LINK_STROKE_RGB)) + strokes_with(
            selected_rects(self.selection, page),
            Brush::Tint { op: OverlayOp::Selection },
        ) + strokes_with(
            marked_rects(self.visual, page),
            Brush::Tint { op: OverlayOp::Selection },
        ) + strokes_with(
            listed(cursor_on(self.cursor, page, self.picker)),
            Brush::Tint { op: OverlayOp::Cursor },
        )
    }

    // Clearing.

    /// Whether a page is within a distance of another.
    pub open spec fn near(current: usize, radius: usize, i: int) -> bool {
        current - radius <= i <= current + radius
    }

    /// Whether a page keeps its pixels when the current page is elsewhere: the
    /// cursor's page does, and so does a page that the cursor waits for.
    pub open spec fn keeps(self, current: usize, radius: usize, i: int) -> bool {
        ||| Self::near(current, radius, i)
        ||| self.cursor is Some && self.cursor->0.page == i
        ||| self.pending.contains(i as usize)
    }

    /// After the images of distant pages were dropped.
    pub open spec fn without_distant_decoded(self, current: usize, radius: usize) -> Self {
        EngineState {
            cache: Seq::new(
                self.cache.len(),
                |i: int|
                    match self.cache[i] {
                        Some(c) => Some(
                            if Self::near(current, radius, i) {
                                c
                            } else {
                                c.without_image()
                            },
                        ),
                        None => None,
                    },
            ),
            ..self
        }
    }

    /// After distant pages were dropped. They can be sent again later.
    pub open spec fn without_distant_pages(self, current: usize, radius: usize) -> Self {
        EngineState {
            images: Seq::new(
                self.images.len(),
                |i: int|
                    if self.keeps(current, radius, i) {
                        self.images[i]
                    } else {
                        None
                    },
            ),
            cache: Seq::new(
                self.cache.len(),
                |i: int|
                    if self.keeps(current, radius, i) {
                        self.cache[i]
                    } else {
                        None
                    },
            ),
            sent: self.sent.filter(
                |p: usize| self.cached(p) is None || self.keeps(current, radius, p as int),
            ),
            ..self
        }
    }

    /// After the tiles of some pages were dropped.
    pub open spec fn without_tiles(self, pages: Seq<usize>) -> Self {
        EngineState {
            tiled: self.tiled.filter(|p: usize| !pages.contains(p)),
            cache: Seq::new(
                self.cache.len(),
                |i: int|
                    match self.cache[i] {
                        Some(c) => Some(
                            if pages.contains(i as usize) {
                                c.without_tiles()
                            } else {
                                c
                            },
                        ),
                        None => None,
                    },
            ),
            ..self
        }
    }

    /// With another view of a page at hand.
    pub open spec fn with_cached(self, page: usize, c: CachedView<P>) -> Self {
        EngineState { cache: self.cache.update(page as int, Some(c)), ..self }
    }
}

// Affected pages.

/// The pages of some items, in order.
pub open spec fn pages_of<T: PageScoped>(items: Seq<T>) -> Seq<usize> {
    Seq::new(items.len(), |i: int| items[i].on_page())
}

/// A list without its repetitions, in order of first appearance.
pub open spec fn distinct(list: Seq<usize>) -> Seq<usize>
    decreases list.len(),
{
    if list.len() == 0 {
        Seq::empty()
    } else {
        let rest = distinct(list.drop_last());
        if rest.contains(list.last()) {
            rest
        } else {
            rest.push(list.last())
        }
    }
}

/// The pages that a change of items affects, each once.
pub open spec fn affected<T: PageScoped>(old_items: Seq<T>, new_items: Seq<T>) -> Seq<usize> {
    distinct(pages_of(old_items) + pages_of(new_items))
}

/// The pages that a move of the cursor affects.
pub open spec fn cursor_pages(old_cursor: Option<CursorRect>, new_cursor: Option<CursorRect>) -> Seq<
    usize,
> {
    distinct(
        (if old_cursor is Some {
            seq![old_cursor->0.page]
        } else {
            Seq::empty()
        }) + (if new_cursor is Some {
            seq![new_cursor->0.page]
        } else {
            Seq::empty()
        }),
    )
}

/// The rows of a page that some marked parts take up, in order.
pub open spec fn marked_rows(rects: Seq<VisualRect>, page: usize) -> Seq<RowSpan>
    decreases rects.len(),
{
    if rects.len() == 0 {
        Seq::empty()
    } else {
        let rest = marked_rows(rects.drop_last(), page);
        if rects.last().page == page {
            rest.push(RowSpan { y: rects.last().y, height: rects.last().height })
        } else {
            rest
        }
    }
}

/// The rows of a page that the cursor takes up.
pub open spec fn cursor_rows(cursor: Option<CursorRect>, page: usize, picker: Picker) -> Seq<RowSpan> {
    if cursor is Some && cursor->0.page == page {
        let e = expanded(cursor->0, picker);
        seq![RowSpan { y: e.y, height: e.height }]
    } else {
        Seq::empty()
    }
}

/// The pages at hand that have links, in order.
pub open spec fn linked_pages<P>(cache: Seq<Option<CachedView<P>>>) -> Seq<usize>
    decreases cache.len(),
{
    if cache.len() == 0 {
        Seq::empty()
    } else {
        let rest = linked_pages(cache.drop_last());
        match cache.last() {
            Some(c) => if c.data.links@.len() > 0 {
                rest.push((cache.len() - 1) as usize)
            } else {
                rest
            },
            None => rest,
        }
    }
}

// Commands.

pub open spec fn reconvert_all(pages: Seq<usize>) -> Seq<TaskView> {
    Seq::new(pages.len(), |i: int| TaskView::Reconvert { page: pages[i] })
}

impl<P> EngineState<P> {
    /// What a change of the visual selection asks for: tiles can be updated one
    /// by one on iTerm2, otherwise pages are drawn anew.
    pub open spec fn visual_tasks(self, old_rects: Seq<VisualRect>, new_rects: Seq<VisualRect>) -> Seq<
        TaskView,
    > {
        let pages = affected(old_rects, new_rects);
        if self.picker.protocol == ProtocolType::Iterm2 && self.viewport is Some {
            Seq::new(
                pages.len(),
                |i: int|
                    TaskView::UpdateTiles {
                        page: pages[i],
                        spans: marked_rows(old_rects + new_rects, pages[i]),
                    },
            )
        } else {
            Seq::new(pages.len(), |i: int| TaskView::RedrawVisual { page: pages[i] })
        }
    }

    /// What a move of the cursor asks for: on iTerm2 the touched tiles of a page
    /// that is held as tiles, or all tiles of one that is not; otherwise pages
    /// are drawn anew.
    pub open spec fn cursor_tasks(
        self,
        old_cursor: Option<CursorRect>,
        new_cursor: Option<CursorRect>,
    ) -> Seq<TaskView> {
        let page: Option<usize> = if new_cursor is Some {
            Some(new_cursor->0.page)
        } else if old_cursor is Some {
            Some(old_cursor->0.page)
        } else {
            None
        };
        let pages = cursor_pages(old_cursor, new_cursor);
        if self.picker.protocol != ProtocolType::Iterm2 {
            Seq::new(pages.len(), |i: int| TaskView::RedrawCursor { page: pages[i] })
        } else if page is Some && self.tiled.contains(page->0) {
            if self.viewport is Some {
                Seq::new(
                    pages.len(),
                    |i: int|
                        TaskView::UpdateTiles {
                            page: pages[i],
                            spans: cursor_rows(old_cursor, pages[i], self.picker) + cursor_rows(
                                new_cursor,
                                pages[i],
                                self.picker,
                            ),
                        },
                )
            } else {
                Seq::empty()
            }
        } else if self.viewport is Some && page is Some {
            seq![TaskView::TileAtViewport { page: page->0 }]
        } else {
            Seq::empty()
        }
    }

    /// After a command.
    pub open spec fn after(self, command: ConversionCommand) -> Self {
        match command {
            ConversionCommand::EnqueuePage(img) => if (self.picker.protocol == ProtocolType::Kitty
                && self.sent.contains(img.page_num)) || img.page_num >= self.images.len() {
                self
            } else {
                EngineState { images: self.images.update(img.page_num as int, Some(img)), ..self }
            },
            ConversionCommand::SetPageCount(n) => EngineState {
                images: Seq::new(n as nat, |i: int| None),
                cache: Seq::new(n as nat, |i: int| None),
                page: least(self.page as int, most(n - 1, 0)) as usize,
                sent: Set::empty(),
                viewports: Map::empty(),
                tiled: Set::empty(),
                ..self
            },
            ConversionCommand::NavigateTo(page) => (EngineState {
                page,
                ..self
            }).without_distant_decoded(page, DECODED_RADIUS).without_distant_pages(
                page,
                PIXEL_RADIUS,
            ),
            ConversionCommand::UpdateSelection(rects) => (EngineState {
                selection: rects@,
                ..self
            }).without_tiles(affected(self.selection, rects@)),
            ConversionCommand::UpdateComments(rects) => (EngineState {
                comments: rects@,
                comment_cache: self.scaled_comments(rects@),
                ..self
            }).without_tiles(affected(self.comments, rects@)),
            ConversionCommand::UpdateHighlights(overlays) => (EngineState {
                highlights: overlays@,
                ..self
            }).without_tiles(affected(self.highlights, overlays@)),
            ConversionCommand::UpdateCursor(cursor) => EngineState { cursor, ..self },
            ConversionCommand::UpdateVisual(rects) => (EngineState {
                visual: rects@,
                ..self
            }).without_tiles(affected(self.visual, rects@)),
            ConversionCommand::SetShowLinkUnderlines(show) => if self.show_links == show {
                self
            } else {
                (EngineState { show_links: show, ..self }).without_tiles(linked_pages(self.cache))
            },
            ConversionCommand::InvalidatePageCache => EngineState {
                images: Seq::new(self.images.len(), |i: int| None),
                cache: Seq::new(self.cache.len(), |i: int| None),
                tiled: Set::empty(),
                comment_cache: Map::empty(),
                sent: Set::empty(),
                viewports: Map::empty(),
                viewport: None,
                cursor: None,
                visual: Seq::empty(),
                selection: Seq::empty(),
                ..self
            },
            ConversionCommand::DisplayFailed(pages) => EngineState {
                sent: self.sent.filter(|p: usize| !pages@.contains(p)),
                viewports: self.viewports.remove_keys(pages@.to_set()),
                ..self
            },
            ConversionCommand::UpdateViewport(_) => self,
            ConversionCommand::UpdateDualViewport(_) => self,
            ConversionCommand::DumpState => self,
        }
    }

    /// What a command asks to be rendered.
    pub open spec fn tasks_of(self, command: ConversionCommand) -> Seq<TaskView> {
        match command {
            ConversionCommand::UpdateViewport(viewport) => seq![TaskView::ShowViewport { viewport }],
            ConversionCommand::UpdateDualViewport(viewports) => Seq::new(
                viewports@.len(),
                |i: int| TaskView::ShowViewport { viewport: viewports@[i] },
            ),
            ConversionCommand::UpdateSelection(rects) => reconvert_all(
                affected(self.selection, rects@),
            ),
            ConversionCommand::UpdateComments(rects) => reconvert_all(
                affected(self.comments, rects@),
            ),
            ConversionCommand::UpdateHighlights(overlays) => reconvert_all(
                affected(self.highlights, overlays@),
            ),
            ConversionCommand::UpdateCursor(cursor) => self.cursor_tasks(self.cursor, cursor),
            ConversionCommand::UpdateVisual(rects) => self.visual_tasks(self.visual, rects@),
            ConversionCommand::SetShowLinkUnderlines(show) => if self.show_links == show {
                Seq::empty()
            } else {
                reconvert_all(linked_pages(self.cache))
            },
            _ => Seq::empty(),
        }
    }
}

// Rendering ahead.

/// How many pages wait to be rendered.
pub open spec fn waiting(images: Seq<Option<Arc<PageData>>>) -> nat
    decreases images.len(),
{
    if images.len() == 0 {
        0
    } else {
        waiting(images.drop_last()) + if images.last() is Some {
            1nat
        } else {
            0
        }
    }
}

/// The first place in a list, from `from` on, whose page waits to be rendered.
pub open spec fn first_waiting(
    images: Seq<Option<Arc<PageData>>>,
    order: Seq<usize>,
    from: int,
) -> Option<int>
    decreases order.len() - from,
{
    if from < 0 || from >= order.len() {
        None
    } else if images[order[from] as int] is Some {
        Some(from)
    } else {
        first_waiting(images, order, from + 1)
    }
}

impl<P> EngineState<P> {
    /// After a page came to hand. Its tiles stay if the page kept its extent and
    /// its scale; otherwise it can be sent again.
    pub open spec fn with_page(self, page: usize, data: Arc<PageData>) -> Self {
        if page >= self.cache.len() {
            self
        } else {
            let fits = match self.cached(page) {
                Some(c) => c.data.width_cell == data.width_cell && c.data.height_cell
                    == data.height_cell && same_scale(c.data.scale_factor, data.scale_factor),
                None => false,
            };
            (EngineState {
                cache: self.cache.update(
                    page as int,
                    Some(
                        CachedView {
                            data,
                            decoded: None,
                            tiles: if fits {
                                self.cache[page as int]->0.tiles
                            } else {
                                Map::empty()
                            },
                        },
                    ),
                ),
                sent: if fits {
                    self.sent
                } else {
                    self.sent.remove(page)
                },
                ..self
            }).with_comments_scaled(page, data.scale_factor)
        }
    }

    /// Whether a page at hand need not be rendered ahead: the display holds it,
    /// or (except on Kitty) no part of it was ever in view.
    pub open spec fn skips(self, page: usize) -> bool {
        self.sent.contains(page) || (self.picker.protocol != ProtocolType::Kitty
            && !self.viewports.contains_key(page) && !(self.viewport is Some
            && self.viewport->0.page == page))
    }

    /// The pages that are rendered ahead.
    pub open spec fn window(self) -> (int, int) {
        let start = most(self.page - self.prerender / 2, 0);
        (start, least(start + self.prerender, self.images.len() as int))
    }

    /// The page that rendering ahead starts from.
    pub open spec fn focus(self) -> int {
        let (start, end) = self.window();
        most(least(self.page as int, end - 1), start)
    }

    /// The pages that are rendered ahead, nearest first.
    pub open spec fn ahead(self) -> Seq<usize> {
        let (start, end) = self.window();
        let order = focus_order(self.focus(), start, end);
        if order.len() <= self.prerender {
            order
        } else {
            order.take(self.prerender as int)
        }
    }

    /// The next page to render ahead, and its place in the order.
    pub open spec fn next_waiting(self) -> Option<(int, usize)> {
        let (start, end) = self.window();
        if end <= start {
            None
        } else {
            match first_waiting(self.images, self.ahead(), 0) {
                Some(i) => Some((i, self.ahead()[i])),
                None => None,
            }
        }
    }

    /// After a waiting page was taken to hand.
    pub open spec fn take_waiting(self, page: usize) -> Self {
        (EngineState { images: self.images.update(page as int, None), ..self }).with_page(
            page,
            self.images[page as int]->0,
        )
    }

    /// After `iteration` places, the waiting pages are taken to hand one by one
    /// until one has to be rendered. Gives the state after that, the number of
    /// places gone through, and the page to render with its place.
    pub open spec fn looked_ahead(self, iteration: int) -> (Self, int, Option<(int, usize)>)
        decreases waiting(self.images),
    {
        if iteration >= self.prerender {
            (self, iteration, None)
        } else {
            match self.next_waiting() {
                None => (self, iteration, None),
                Some((i, page)) => {
                    let next = self.take_waiting(page);
                    if !next.skips(page) {
                        (next, iteration, Some((i, page)))
                    } else if waiting(next.images) < waiting(self.images) {
                        next.looked_ahead(i)
                    } else {
                        (next, i, None)
                    }
                },
            }
        }
    }
}

pub proof fn lemma_waiting_taken(images: Seq<Option<Arc<PageData>>>, i: int)
    requires
        0 <= i < images.len(),
        images[i] is Some,
    ensures
        waiting(images.update(i, None)) + 1 == waiting(images),
    decreases images.len(),
{
    let after = images.update(i, None);
    if i == images.len() - 1 {
        assert(after.drop_last() =~= images.drop_last());
    } else {
        assert(after.drop_last() =~= images.drop_last().update(i, None));
        lemma_waiting_taken(images.drop_last(), i);
    }
}

pub proof fn lemma_first_waiting(images: Seq<Option<Arc<PageData>>>, order: Seq<usize>, from: int)
    requires
        0 <= from,
    ensures
        match first_waiting(images, order, from) {
            Some(i) => from <= i < order.len() && images[order[i] as int] is Some && forall|j: int|
                from <= j < i ==> images[#[trigger] order[j] as int] is None,
            None => forall|j: int|
                from <= j < order.len() ==> images[#[trigger] order[j] as int] is None,
        },
    decreases order.len() - from,
{
    if from < order.len() && images[order[from] as int] is None {
        lemma_first_waiting(images, order, from + 1);
    }
}

} // verus!
