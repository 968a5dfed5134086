//! Rendering: from tasks to work for the encoders.

use std::sync::Arc;

use vstd::prelude::*;

#[allow(unused_imports)]
use crate::cache::{tiles_prepared, update_prepared};
use crate::engine::ConverterEngine;
use crate::focus::FocusPlusMinusOneIterator;
#[allow(unused_imports)]
use crate::focus::{focus_order, law_walk_meets_every_page_once};
use crate::geometry::{CellSize, ProtocolType};
#[allow(unused_imports)]
use crate::geometry::least;
use crate::page::{PageData, ViewportUpdate};
#[allow(unused_imports)]
use crate::render::{page_cells, page_prepared};
use crate::render::{render_page_with_viewport, PageWork, Prepared, Transport};
use crate::rounding::ScaleFactor;
#[allow(unused_imports)]
use crate::state::{
    first_waiting, lemma_first_waiting, lemma_waiting_taken, waiting, EngineState, TaskView,
};
use crate::state::{Task, PIXEL_RADIUS};
use crate::text::PipelineError;
use crate::tiles::{RowSpan, TileSlot};

verus! {

/// What the host has to encode.
pub enum Work<P> {
    Page { work: PageWork },
    /// All tiles in view.
    Tiles { slots: Vec<TileSlot<P>>, cell_size: CellSize },
    /// Some tiles, to replace earlier ones.
    Update { slots: Vec<TileSlot<P>>, cell_size: CellSize },
}

/// What is noted once a frame was made.
#[derive(Clone, Copy, Debug, PartialEq, Eq, Structural)]
pub struct Marks {
    /// Whether the display holds the page as tiles from now on, if that changes.
    pub tiled: Option<bool>,
    /// Whether the display holds the page as it is now.
    pub sent: bool,
    /// For a page that is rendered ahead, its place in the order.
    pub ahead: Option<usize>,
}

/// A page that is being encoded.
pub struct Job<P> {
    pub page: usize,
    pub requested_scale: ScaleFactor,
    pub work: Work<P>,
    pub marks: Marks,
}

/// What came of a task.
pub enum Begun<P> {
    Nothing,
    Fault { fault: PipelineError },
    /// The page cannot be rendered: an image without pixels would have to be
    /// padded, or an image is too large to be resampled or counted.
    Stuck,
    Encode { job: Job<P> },
}

// What work is begun.

/// The extent in cells of the tiles in view.
pub open spec fn view_cells(data: PageData, vp: ViewportUpdate) -> CellSize {
    CellSize {
        width: least(data.width_cell as int, vp.viewport_width_cells as int) as u16,
        height: vp.viewport_height_cells,
    }
}

impl<P> Begun<P> {
    /// The job, if there is one, is for this page.
    pub open spec fn is_for(self, page: usize, data: PageData, marks: Marks) -> bool {
        self matches Begun::Encode { job } ==> job.page == page && job.requested_scale
            == data.requested_scale && job.marks == marks
    }

    /// A whole page is to be encoded, with what is drawn over it.
    pub open spec fn renders_page(
        self,
        state: EngineState<P>,
        page: usize,
        viewport: Option<ViewportUpdate>,
        raw_limit: Option<u64>,
        marks: Marks,
    ) -> bool {
        let data = state.cached(page)->0.data;
        let transport = Transport {
            pid: state.pid,
            kitty_shm_support: state.kitty_shm_support,
            raw_limit,
        };
        &&& self.is_for(page, *data, marks)
        &&& page_prepared(
            match self {
                Begun::Encode { job } => Prepared::Ready(job.work->Page_work),
                Begun::Fault { fault } => Prepared::Fault(fault),
                _ => Prepared::Stuck,
            },
            *data,
            page,
            state.strokes(page),
            state.picker,
            viewport,
            transport,
        )
        &&& self !is Nothing
        &&& self matches Begun::Encode { job } ==> job.work is Page
    }

    /// The tiles of a page in view are to be encoded.
    pub open spec fn renders_tiles(
        self,
        state: EngineState<P>,
        page: usize,
        vp: ViewportUpdate,
        marks: Marks,
    ) -> bool {
        let cached = state.cached(page)->0;
        &&& self.is_for(page, *cached.data, marks)
        &&& tiles_prepared(
            match self {
                Begun::Encode { job } => Prepared::Ready(job.work->Tiles_slots),
                Begun::Fault { fault } => Prepared::Fault(fault),
                _ => Prepared::Stuck,
            },
            cached,
            state.strokes(page),
            state.picker,
            vp,
        )
        &&& self !is Nothing
        &&& self matches Begun::Encode { job } ==> job.work is Tiles && job.work->Tiles_cell_size
            == view_cells(*cached.data, vp)
    }

    /// The tiles of a page that some rows reach into are to be encoded.
    pub open spec fn updates_tiles(
        self,
        state: EngineState<P>,
        page: usize,
        spans: Seq<RowSpan>,
        vp: ViewportUpdate,
        marks: Marks,
    ) -> bool {
        let cached = state.cached(page)->0;
        &&& self.is_for(page, *cached.data, marks)
        &&& update_prepared(
            match self {
                Begun::Encode { job } => Prepared::Ready(job.work->Update_slots),
                Begun::Fault { fault } => Prepared::Fault(fault),
                _ => Prepared::Stuck,
            },
            cached,
            spans,
            state.strokes(page),
            state.picker,
            vp,
        )
        &&& self !is Nothing
        &&& self matches Begun::Encode { job } ==> job.work is Update && job.work->Update_cell_size
            == page_cells(*cached.data)
    }
}

/// Both sent and held as tiles.
pub open spec fn sent_as_tiles() -> Marks {
    Marks { tiled: Some(true), sent: true, ahead: None }
}

/// Sent as a whole.
pub open spec fn sent_whole() -> Marks {
    Marks { tiled: None, sent: true, ahead: None }
}

impl<P> EngineState<P> {
    /// Whether a page is at hand with its pixels.
    pub open spec fn has_pixels(self, page: usize) -> bool {
        self.cached(page) is Some && self.cached(page)->0.data.pixels@.len() > 0
    }

    /// Whether the last view is one of this page.
    pub open spec fn viewport_is_on(self, page: usize) -> bool {
        self.viewport is Some && self.viewport->0.page == page
    }

    /// After the image of a page was needed.
    pub open spec fn after_use(self, page: usize) -> Self {
        match self.cached(page) {
            Some(c) => self.with_cached(page, c.after_use()),
            None => self,
        }
    }

    /// After a page came into view, before anything is rendered: the view is
    /// noted, distant pages are dropped, and so are the page's tiles if other
    /// columns are in view than before.
    pub open spec fn with_viewport(self, vp: ViewportUpdate) -> Self {
        let noted = (EngineState {
            viewport: Some(vp),
            viewports: self.viewports.insert(vp.page, vp),
            ..self
        }).without_distant_pages(vp.page, PIXEL_RADIUS);
        let moved = self.viewports.contains_key(vp.page) && (
        self.viewports[vp.page].x_offset_cells != vp.x_offset_cells
            || self.viewports[vp.page].viewport_width_cells != vp.viewport_width_cells);
        match noted.cached(vp.page) {
            Some(c) => if moved {
                noted.with_cached(vp.page, c.without_tiles())
            } else {
                noted
            },
            None => noted,
        }
    }

    /// Whether a view has to be rendered. Kitty holds whole pages and moves them
    /// by itself; elsewhere every other view is rendered.
    pub open spec fn viewport_needs_rendering(self, vp: ViewportUpdate) -> bool {
        let noted = self.with_viewport(vp);
        let same = self.picker.protocol == ProtocolType::Kitty || (self.viewports.contains_key(
            vp.page,
        ) && self.viewports[vp.page] == vp);
        noted.cached(vp.page) is Some && !(same && noted.sent.contains(vp.page))
    }

    /// Whether an overlay change is rendered as tiles.
    pub open spec fn reconverts_as_tiles(self, page: usize) -> bool {
        self.picker.protocol != ProtocolType::Kitty && self.viewport_is_on(page)
    }

    /// After a task was begun.
    pub open spec fn after_begin(self, task: TaskView) -> Self {
        match task {
            TaskView::ShowViewport { viewport } => if self.viewport_needs_rendering(viewport)
                && self.picker.protocol != ProtocolType::Kitty {
                self.with_viewport(viewport).after_use(viewport.page)
            } else {
                self.with_viewport(viewport)
            },
            TaskView::Reconvert { page } => {
                let unsent = EngineState { sent: self.sent.remove(page), ..self };
                if self.has_pixels(page) && self.reconverts_as_tiles(page) {
                    unsent.after_use(page)
                } else {
                    unsent
                }
            },
            TaskView::RedrawVisual { page } => EngineState { sent: self.sent.remove(page), ..self },
            TaskView::RedrawCursor { page } => EngineState {
                sent: self.sent.remove(page),
                pending: if self.has_pixels(page) {
                    self.pending.remove(page)
                } else if self.cursor is Some && self.cursor->0.page == page {
                    self.pending.insert(page)
                } else {
                    self.pending
                },
                ..self
            },
            TaskView::TileAtViewport { page } => if self.viewport is Some {
                self.after_use(page)
            } else {
                self
            },
            TaskView::UpdateTiles { page, spans } => if self.viewport is Some {
                self.after_use(page)
            } else {
                self
            },
        }
    }

    /// What beginning a task gives.
    pub open spec fn begins(self, task: TaskView, b: Begun<P>, raw_limit: Option<u64>) -> bool {
        match task {
            TaskView::ShowViewport { viewport } => {
                let noted = self.with_viewport(viewport);
                let page = viewport.page;
                if !self.viewport_needs_rendering(viewport) {
                    b is Nothing
                } else if self.picker.protocol == ProtocolType::Kitty {
                    b.renders_page(
                        noted,
                        page,
                        Some(viewport),
                        raw_limit,
                        (Marks { tiled: Some(false), sent: true, ahead: None }),
                    )
                } else {
                    b.renders_tiles(noted, page, viewport, sent_as_tiles())
                }
            },
            TaskView::Reconvert { page } => if !self.has_pixels(page) {
                b is Nothing
            } else if self.reconverts_as_tiles(page) {
                b.renders_tiles(self, page, self.viewport->0, sent_as_tiles())
            } else {
                b.renders_page(self, page, self.viewport, raw_limit, sent_whole())
            },
            TaskView::RedrawVisual { page } => if !self.has_pixels(page) {
                b is Nothing
            } else {
                b.renders_page(self, page, self.viewport, raw_limit, sent_whole())
            },
            TaskView::RedrawCursor { page } => if !self.has_pixels(page) {
                b is Nothing
            } else {
                b.renders_page(self, page, self.viewport, raw_limit, sent_whole())
            },
            TaskView::TileAtViewport { page } => if self.viewport is None || self.cached(
                page,
            ) is None {
                b is Nothing
            } else {
                b.renders_tiles(self, page, self.viewport->0, sent_as_tiles())
            },
            TaskView::UpdateTiles { page, spans } => if self.viewport is None || self.cached(
                page,
            ) is None {
                b is Nothing
            } else {
                b.updates_tiles(
                    self,
                    page,
                    spans,
                    self.viewport->0,
                    (Marks { tiled: None, sent: false, ahead: None }),
                )
            },
        }
    }
}

// Beginning work.

impl<P> ConverterEngine<P> {
    /// Prepares a whole page.
    fn page_job(
        &self,
        page: usize,
        viewport: Option<ViewportUpdate>,
        raw_limit: Option<u64>,
        marks: Marks,
    ) -> (b: Begun<P>)
        requires
            self.wf(),
            self@.cached(page) is Some,
        ensures
            b.renders_page(self@, page, viewport, raw_limit, marks),
    {
        let overlays = self.build_overlay_set(page);
        let transport = Transport {
            pid: self.pid,
            kitty_shm_support: self.kitty_shm_support,
            raw_limit,
        };
        match &self.page_cache[page] {
            Some(cached) => {
                let prepared = render_page_with_viewport(
                    &cached.data,
                    page,
                    &overlays,
                    &self.picker,
                    viewport,
                    &transport,
                );
                match prepared {
                    Prepared::Ready(work) => Begun::Encode {
                        job: Job {
                            page,
                            requested_scale: cached.data.requested_scale,
                            work: Work::Page { work },
                            marks,
                        },
                    },
                    Prepared::Fault(fault) => Begun::Fault { fault },
                    Prepared::Stuck => Begun::Stuck,
                }
            },
            None => Begun::Nothing,
        }
    }

    /// Prepares the tiles of a page in view.
    fn tiles_job(&mut self, page: usize, vp: ViewportUpdate, marks: Marks) -> (b: Begun<P>)
        requires
            old(self).wf(),
            old(self)@.cached(page) is Some,
        ensures
            final(self).wf(),
            final(self)@ == old(self)@.after_use(page),
            b.renders_tiles(old(self)@, page, vp, marks),
    {
        let ghost before = *self;
        let overlays = self.build_overlay_set(page);
        let picker = self.picker;
        let b = match &mut self.page_cache[page] {
            Some(cached) => {
                let requested_scale = cached.data.requested_scale;
                let width: u16 = if cached.data.width_cell <= vp.viewport_width_cells {
                    cached.data.width_cell
                } else {
                    vp.viewport_width_cells
                };
                let cell_size = CellSize::new(width, vp.viewport_height_cells);
                match cached.render_viewport_tiles(&vp, &overlays, &picker) {
                    Prepared::Ready(slots) => Begun::Encode {
                        job: Job {
                            page,
                            requested_scale,
                            work: Work::Tiles { slots, cell_size },
                            marks,
                        },
                    },
                    Prepared::Fault(fault) => Begun::Fault { fault },
                    Prepared::Stuck => Begun::Stuck,
                }
            },
            None => Begun::Nothing,
        };
        assert(self@.cache =~= before@.after_use(page).cache);
        b
    }

    /// Prepares the tiles of a page that some rows reach into.
    fn update_job(
        &mut self,
        page: usize,
        spans: &Vec<RowSpan>,
        vp: ViewportUpdate,
        marks: Marks,
    ) -> (b: Begun<P>)
        requires
            old(self).wf(),
            old(self)@.cached(page) is Some,
        ensures
            final(self).wf(),
            final(self)@ == old(self)@.after_use(page),
            b.updates_tiles(old(self)@, page, spans@, vp, marks),
    {
        let ghost before = *self;
        let overlays = self.build_overlay_set(page);
        let picker = self.picker;
        let b = match &mut self.page_cache[page] {
            Some(cached) => {
                let requested_scale = cached.data.requested_scale;
                let cell_size = CellSize::new(cached.data.width_cell, cached.data.height_cell);
                match cached.render_touched_tiles(&vp, spans, &overlays, &picker) {
                    Prepared::Ready(slots) => Begun::Encode {
                        job: Job {
                            page,
                            requested_scale,
                            work: Work::Update { slots, cell_size },
                            marks,
                        },
                    },
                    Prepared::Fault(fault) => Begun::Fault { fault },
                    Prepared::Stuck => Begun::Stuck,
                }
            },
            None => Begun::Nothing,
        };
        assert(self@.cache =~= before@.after_use(page).cache);
        b
    }

    /// Whether a page is at hand.
    fn is_cached(&self, page: usize) -> (r: bool)
        requires
            self.wf(),
        ensures
            r == (self@.cached(page) is Some),
    {
        page < self.page_cache.len() && self.page_cache[page].is_some()
    }

    /// Whether a page is at hand with its pixels.
    fn has_pixels(&self, page: usize) -> (r: bool)
        requires
            self.wf(),
        ensures
            r == self@.has_pixels(page),
    {
        if page < self.page_cache.len() {
            match &self.page_cache[page] {
                Some(cached) => cached.data.pixels.len() > 0,
                None => false,
            }
        } else {
            false
        }
    }

    fn viewport_on(&self, page: usize) -> (r: Option<ViewportUpdate>)
        ensures
            r == (if self@.viewport_is_on(page) {
                self@.viewport
            } else {
                None
            }),
    {
        match self.viewport {
            Some(vp) => if vp.page == page {
                Some(vp)
            } else {
                None
            },
            None => None,
        }
    }

    /// Notes what came into view.
    fn note_viewport(&mut self, vp: ViewportUpdate) -> (before: Option<ViewportUpdate>)
        requires
            old(self).wf(),
        ensures
            final(self).wf(),
            final(self)@ == old(self)@.with_viewport(vp),
            before == (if old(self)@.viewports.contains_key(vp.page) {
                Some(old(self)@.viewports[vp.page])
            } else {
                None
            }),
    {
        broadcast use vstd::std_specs::hash::group_hash_axioms;

        let ghost start = *self;
        self.viewport = Some(vp);
        let before: Option<ViewportUpdate> = match self.last_viewport_by_page.get(&vp.page) {
            Some(old_vp) => Some(*old_vp),
            None => None,
        };
        self.last_viewport_by_page.insert(vp.page, vp);
        self.clear_distant_pixels(vp.page, PIXEL_RADIUS);
        let ghost noted = *self;
        let moved = match before {
            Some(old_vp) => old_vp.x_offset_cells != vp.x_offset_cells
                || old_vp.viewport_width_cells != vp.viewport_width_cells,
            None => false,
        };
        if moved && vp.page < self.page_cache.len() {
            match &mut self.page_cache[vp.page] {
                Some(cached) => cached.clear_tiles(),
                None => {},
            }
        }
        assert(self@.cache =~= start@.with_viewport(vp).cache);
        before
    }

    /// Renders what came into view, if that is needed.
    pub fn handle_single_viewport_update(&mut self, vp: ViewportUpdate, raw_limit: Option<u64>) -> (b:
        Begun<P>)
        requires
            old(self).wf(),
        ensures
            final(self).wf(),
            final(self)@ == old(self)@.after_begin(TaskView::ShowViewport { viewport: vp }),
            old(self)@.begins(TaskView::ShowViewport { viewport: vp }, b, raw_limit),
    {
        broadcast use vstd::std_specs::hash::group_hash_axioms;

        let before = self.note_viewport(vp);
        let page: usize = vp.page;
        let already_sent = self.sent_for_viewport.contains(&page);
        let kitty = self.picker.protocol == ProtocolType::Kitty;
        let changed = match before {
            Some(old_vp) => old_vp != vp,
            None => true,
        };
        if already_sent && (kitty || !changed) {
            return Begun::Nothing;
        }
        if !self.is_cached(page) {
            return Begun::Nothing;
        }
        if kitty {
            let marks = Marks { tiled: Some(false), sent: true, ahead: None };
            self.page_job(page, Some(vp), raw_limit, marks)
        } else {
            let marks = Marks { tiled: Some(true), sent: true, ahead: None };
            self.tiles_job(page, vp, marks)
        }
    }

    /// Begins a task.
    pub fn begin(&mut self, task: Task, raw_limit: Option<u64>) -> (b: Begun<P>)
        requires
            old(self).wf(),
        ensures
            final(self).wf(),
            final(self)@ == old(self)@.after_begin(task@),
            old(self)@.begins(task@, b, raw_limit),
    {
        broadcast use vstd::std_specs::hash::group_hash_axioms;

        let as_tiles = Marks { tiled: Some(true), sent: true, ahead: None };
        match task {
            Task::ShowViewport { viewport } => {
                self.handle_single_viewport_update(viewport, raw_limit)
            },
            Task::Reconvert { page } => self.reconvert_page(page, raw_limit),
            Task::RedrawVisual { page } => self.render_visual_full_page(page, raw_limit),
            Task::RedrawCursor { page } => self.render_cursor_full_page(page, raw_limit),
            Task::TileAtViewport { page } => {
                if !self.is_cached(page) {
                    return Begun::Nothing;
                }
                match self.viewport {
                    Some(vp) => self.tiles_job(page, vp, as_tiles),
                    None => Begun::Nothing,
                }
            },
            Task::UpdateTiles { page, spans } => {
                if !self.is_cached(page) {
                    return Begun::Nothing;
                }
                match self.viewport {
                    Some(vp) => {
                        let marks = Marks { tiled: None, sent: false, ahead: None };
                        self.update_job(page, &spans, vp, marks)
                    },
                    None => Begun::Nothing,
                }
            },
        }
    }

    /// Renders a page whose overlays changed.
    fn reconvert_page(&mut self, page: usize, raw_limit: Option<u64>) -> (b: Begun<P>)
        requires
            old(self).wf(),
        ensures
            final(self).wf(),
            final(self)@ == old(self)@.after_begin(TaskView::Reconvert { page }),
            old(self)@.begins(TaskView::Reconvert { page }, b, raw_limit),
    {
        broadcast use vstd::std_specs::hash::group_hash_axioms;

        let ghost before = *self;
        self.sent_for_viewport.remove(&page);
        assert(self@.strokes(page) == before@.strokes(page));
        if !self.has_pixels(page) {
            return Begun::Nothing;
        }
        if self.picker.protocol != ProtocolType::Kitty {
            if let Some(vp) = self.viewport_on(page) {
                let marks = Marks { tiled: Some(true), sent: true, ahead: None };
                return self.tiles_job(page, vp, marks);
            }
        }
        let viewport = self.viewport;
        self.page_job(page, viewport, raw_limit, Marks { tiled: None, sent: true, ahead: None })
    }

    /// Renders a page whose visual selection changed.
    fn render_visual_full_page(&mut self, page: usize, raw_limit: Option<u64>) -> (b: Begun<P>)
        requires
            old(self).wf(),
        ensures
            final(self).wf(),
            final(self)@ == old(self)@.after_begin(TaskView::RedrawVisual { page }),
            old(self)@.begins(TaskView::RedrawVisual { page }, b, raw_limit),
    {
        broadcast use vstd::std_specs::hash::group_hash_axioms;

        let ghost before = *self;
        self.sent_for_viewport.remove(&page);
        assert(self@.strokes(page) == before@.strokes(page));
        if !self.has_pixels(page) {
            return Begun::Nothing;
        }
        let viewport = self.viewport;
        self.page_job(page, viewport, raw_limit, Marks { tiled: None, sent: true, ahead: None })
    }

    /// Renders a page that the cursor entered, left or moved on. If its pixels
    /// are not at hand, it waits for them.
    fn render_cursor_full_page(&mut self, page: usize, raw_limit: Option<u64>) -> (b: Begun<P>)
        requires
            old(self).wf(),
        ensures
            final(self).wf(),
            final(self)@ == old(self)@.after_begin(TaskView::RedrawCursor { page }),
            old(self)@.begins(TaskView::RedrawCursor { page }, b, raw_limit),
    {
        broadcast use vstd::std_specs::hash::group_hash_axioms;

        let ghost before = *self;
        self.sent_for_viewport.remove(&page);
        if !self.has_pixels(page) {
            let here = match &self.cursor_rect {
                Some(c) => c.page == page,
                None => false,
            };
            if here {
                self.pending_cursor_pages.insert(page);
            }
            return Begun::Nothing;
        }
        self.pending_cursor_pages.remove(&page);
        assert(self@.strokes(page) == before@.strokes(page));
        let viewport = self.viewport;
        self.page_job(page, viewport, raw_limit, Marks { tiled: None, sent: true, ahead: None })
    }
}

// Rendering ahead.

impl<P> EngineState<P> {
    /// What was last in view of a page.
    pub open spec fn view_of(self, page: usize) -> Option<ViewportUpdate> {
        if self.viewports.contains_key(page) {
            Some(self.viewports[page])
        } else if self.viewport_is_on(page) {
            self.viewport
        } else {
            None
        }
    }

    /// Whether a page at hand is rendered as tiles.
    pub open spec fn renders_as_tiles(self, page: usize) -> bool {
        self.picker.protocol != ProtocolType::Kitty && self.view_of(page) is Some
    }

    /// What rendering a page from the ones at hand gives.
    pub open spec fn renders(self, page: usize, b: Begun<P>, raw_limit: Option<u64>, marks: Marks) -> bool {
        if self.cached(page) is None {
            b == (Begun::<P>::Fault { fault: PipelineError::MissingCachedPage })
        } else if self.renders_as_tiles(page) {
            b.renders_tiles(self, page, self.view_of(page)->0, marks)
        } else {
            b.renders_page(self, page, self.view_of(page), raw_limit, marks)
        }
    }

    /// After a page was rendered from the ones at hand.
    pub open spec fn after_rendering(self, page: usize) -> Self {
        if self.renders_as_tiles(page) {
            self.after_use(page)
        } else {
            self
        }
    }
}

impl<P> ConverterEngine<P> {
    /// Prepares a page from the ones at hand, as it was last in view.
    pub fn render_page_from_cache(&mut self, page: usize, raw_limit: Option<u64>, marks: Marks) -> (b:
        Begun<P>)
        requires
            old(self).wf(),
        ensures
            final(self).wf(),
            final(self)@ == old(self)@.after_rendering(page),
            old(self)@.renders(page, b, raw_limit, marks),
    {
        broadcast use vstd::std_specs::hash::group_hash_axioms;

        if !self.is_cached(page) {
            return Begun::Fault { fault: PipelineError::MissingCachedPage };
        }
        let view: Option<ViewportUpdate> = match self.last_viewport_by_page.get(&page) {
            Some(vp) => Some(*vp),
            None => self.viewport_on(page),
        };
        if self.picker.protocol != ProtocolType::Kitty {
            if let Some(vp) = view {
                return self.tiles_job(page, vp, marks);
            }
        }
        self.page_job(page, view, raw_limit, marks)
    }

    /// Takes the first waiting page out of a range, starting from the one in
    /// focus.
    fn pick_candidate(&mut self, focus: usize, low: usize, high: usize) -> (r: Option<
        (Arc<PageData>, usize, usize),
    >)
        requires
            old(self).wf(),
            low <= focus < high <= old(self).images@.len(),
            (low as int, high as int) == old(self)@.window(),
            focus as int == old(self)@.focus(),
        ensures
            final(self).wf(),
            match r {
                Some((data, i, page)) => old(self)@.next_waiting() == Some((i as int, page)) && page
                    < old(self)@.images.len() && old(self)@.images[page as int] == Some(data)
                    && data.page_num == page && final(self)@ == (EngineState {
                    images: old(self)@.images.update(page as int, None),
                    ..old(self)@
                }),
                None => old(self)@.next_waiting() is None && final(self)@ == old(self)@,
            },
    {
        let ghost order = focus_order(focus as int, low as int, high as int);
        let ghost ahead = self@.ahead();
        proof {
            law_walk_meets_every_page_once(focus as int, low as int, high as int);
            lemma_first_waiting(self@.images, ahead, 0);
        }
        let mut walk = FocusPlusMinusOneIterator::new(focus, low, high);
        let mut i: usize = 0;
        while i < self.prerender
            invariant
                self.wf(),
                *self == *old(self),
                walk.wf(),
                walk.start == focus,
                walk.low == low,
                walk.high == high,
                low <= focus < high <= self.images@.len(),
                (low as int, high as int) == self@.window(),
                focus as int == self@.focus(),
                order == focus_order(focus as int, low as int, high as int),
                forall|page: usize| #[trigger] order.contains(page) <==> low <= page < high,
                ahead == self@.ahead(),
                i <= self.prerender,
                walk.passed() == i,
                i <= order.len(),
                forall|j: int| 0 <= j < i ==> self@.images[#[trigger] ahead[j] as int] is None,
                match first_waiting(self@.images, ahead, 0) {
                    Some(k) => 0 <= k < ahead.len() && self@.images[ahead[k] as int] is Some
                        && forall|j: int|
                        0 <= j < k ==> self@.images[#[trigger] ahead[j] as int] is None,
                    None => forall|j: int|
                        0 <= j < ahead.len() ==> self@.images[#[trigger] ahead[j] as int] is None,
                },
            decreases self.prerender - i,
        {
            match walk.next() {
                Some(page) => {
                    assert(order[i as int] == page);
                    assert(order.contains(page));
                    assert(ahead[i as int] == page);
                    if self.images[page].is_some() {
                        assert(first_waiting(self@.images, ahead, 0) == Some(i as int));
                        let data = self.images[page].take().unwrap();
                        return Some((data, i, page));
                    }
                },
                None => {
                    assert(ahead.len() == i);
                    return None;
                },
            }
            i += 1;
        }
        assert(ahead.len() <= i);
        None
    }

    /// Takes waiting pages to hand until one has to be rendered, and prepares
    /// that one. `iteration` counts the places gone through.
    pub fn next_page(&mut self, iteration: &mut usize, raw_limit: Option<u64>) -> (r: Option<Begun<P>>)
        requires
            old(self).wf(),
        ensures
            final(self).wf(),
            ({
                let (after, places, pick) = old(self)@.looked_ahead(*old(iteration) as int);
                &&& *final(iteration) == places
                &&& match pick {
                    Some((i, page)) => {
                        let marks = Marks { tiled: None, sent: true, ahead: Some(i as usize) };
                        &&& final(self)@ == after.after_rendering(page)
                        &&& r matches Some(b)
                        &&& after.renders(page, b, raw_limit, marks)
                    },
                    None => r is None && final(self)@ == after,
                }
            }),
    {
        let low: usize = self.page.saturating_sub(self.prerender / 2);
        let limit: usize = low.saturating_add(self.prerender);
        let high: usize = if limit <= self.images.len() {
            limit
        } else {
            self.images.len()
        };
        assert((low as int, high as int) == self@.window());
        if high <= low {
            return None;
        }
        let focus: usize = if self.page < low {
            low
        } else if self.page > high - 1 {
            high - 1
        } else {
            self.page
        };
        let ghost start = self@;
        let ghost places = *iteration as int;
        loop
            invariant
                self.wf(),
                low <= focus < high <= self.images@.len(),
                (low as int, high as int) == self@.window(),
                focus as int == self@.focus(),
                start.looked_ahead(places) == self@.looked_ahead(*iteration as int),
                start == old(self)@,
                places == *old(iteration) as int,
            decreases waiting(self@.images),
        {
            if *iteration >= self.prerender {
                return None;
            }
            let ghost now = self@;
            match self.pick_candidate(focus, low, high) {
                None => {
                    return None;
                },
                Some((data, i, page)) => {
                    proof {
                        lemma_waiting_taken(now.images, page as int);
                    }
                    self.update_cache_for_page(page, &data);
                    assert(self@ == now.take_waiting(page));
                    if !self.should_skip_render(page) {
                        let marks = Marks { tiled: None, sent: true, ahead: Some(i) };
                        return Some(self.render_page_from_cache(page, raw_limit, marks));
                    }
                    *iteration = i;
                },
            }
        }
    }
}

} // verus!
