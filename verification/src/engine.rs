//! The converter: pages, overlays and views in, work for the encoders out.

use std::collections::{HashMap, HashSet};
use std::sync::Arc;

use vstd::prelude::*;

use crate::cache::CachedPage;
#[allow(unused_imports)]
use crate::cache::CachedView;
use crate::frame::share;
#[allow(unused_imports)]
use crate::geometry::listed;
use crate::geometry::{expand_cursor_rect, CursorRect, Picker, PixelRect, ProtocolType};
use crate::overlay::{HighlightPixelRect, OverlaySet};
use crate::page::{
    comment_rects_for_page, link_box_stroke_rects, scale_rect, HighlightOverlay, PageData,
    PageScoped, SelectionRect, ViewportUpdate, VisualRect,
};
#[allow(unused_imports)]
use crate::page::{scaled_rect, scaled_rects};
use crate::rounding::{scale_factors_match, ScaleFactor};
use crate::state::{ConversionCommand, Task, DECODED_RADIUS, PIXEL_RADIUS};
#[allow(unused_imports)]
use crate::state::{
    affected, asked, cursor_pages, cursor_rows, distinct, extent_rect, linked_pages, marked_rects,
    marked_rows, pages_of, reconvert_all, scaled_highlights, selected_rects, CommentView,
    EngineState, TaskView,
};
use crate::tiles::RowSpan;

verus! {

/// The comments of a page, scaled to it.
pub struct CommentCacheEntry {
    pub scale_factor: ScaleFactor,
    pub rects: Vec<PixelRect>,
}

/// The converter. `P` is an image in the terminal's protocol.
pub struct ConverterEngine<P> {
    pub picker: Picker,
    /// How many pages are rendered ahead.
    pub prerender: usize,
    pub kitty_shm_support: bool,
    pub pid: u32,
    /// The current page.
    pub page: usize,
    /// Pages that wait to be rendered, by number.
    pub images: Vec<Option<Arc<PageData>>>,
    /// Pages at hand, by number.
    pub page_cache: Vec<Option<CachedPage<P>>>,
    pub selection_rects: Vec<SelectionRect>,
    pub comment_rects: Vec<SelectionRect>,
    pub highlight_overlays: Vec<HighlightOverlay>,
    /// The comments of the pages at hand, in page pixels.
    pub comment_cache: HashMap<usize, CommentCacheEntry>,
    pub visual_rects: Vec<VisualRect>,
    pub cursor_rect: Option<CursorRect>,
    pub show_link_underlines: bool,
    /// What was last in view.
    pub viewport: Option<ViewportUpdate>,
    /// What was last in view of each page, whether or not it could be rendered.
    pub last_viewport_by_page: HashMap<usize, ViewportUpdate>,
    /// Pages that the display holds as tiles.
    pub tiled_pages: HashSet<usize>,
    /// Pages that the display holds as they are now.
    pub sent_for_viewport: HashSet<usize>,
    /// Pages that the cursor is on, but whose pixels are not at hand.
    pub pending_cursor_pages: HashSet<usize>,
}

/// What the pages at hand hold.
pub open spec fn cache_view<P>(cache: Seq<Option<CachedPage<P>>>) -> Seq<Option<CachedView<P>>> {
    Seq::new(
        cache.len(),
        |i: int|
            match cache[i] {
                Some(c) => Some(c@),
                None => None,
            },
    )
}

impl<P> View for ConverterEngine<P> {
    type V = EngineState<P>;

    open spec fn view(&self) -> EngineState<P> {
        EngineState {
            picker: self.picker,
            prerender: self.prerender,
            kitty_shm_support: self.kitty_shm_support,
            pid: self.pid,
            page: self.page,
            images: self.images@,
            cache: cache_view(self.page_cache@),
            selection: self.selection_rects@,
            comments: self.comment_rects@,
            highlights: self.highlight_overlays@,
            comment_cache: comment_view(self.comment_cache@),
            visual: self.visual_rects@,
            cursor: self.cursor_rect,
            show_links: self.show_link_underlines,
            viewport: self.viewport,
            viewports: self.last_viewport_by_page@,
            tiled: self.tiled_pages@,
            sent: self.sent_for_viewport@,
            pending: self.pending_cursor_pages@,
        }
    }
}

/// What the scaled comments hold.
pub open spec fn comment_view(cache: Map<usize, CommentCacheEntry>) -> Map<usize, CommentView> {
    cache.map_values(
        |entry: CommentCacheEntry|
            CommentView { scale: entry.scale_factor, rects: entry.rects@ },
    )
}

/// The scaled comments of a page are its comments at a scale.
pub open spec fn comments_current(
    cache: Map<usize, CommentView>,
    comments: Seq<SelectionRect>,
    page: usize,
    scale: ScaleFactor,
) -> bool {
    let rects = scaled_rects(comments, page, scale);
    if rects.len() == 0 {
        !cache.contains_key(page)
    } else {
        cache.contains_key(page) && cache[page] == (CommentView { scale, rects })
    }
}

impl<P> ConverterEngine<P> {
    /// Pages are filed under their own numbers, images at hand are the pages'
    /// own, and the comments of the pages at hand are scaled to them.
    pub open spec fn wf(self) -> bool {
        &&& self.images@.len() == self.page_cache@.len()
        &&& forall|i: int|
            0 <= i < self.images@.len() && (#[trigger] self.images@[i]) is Some
                ==> self.images@[i]->0.page_num == i
        &&& forall|i: int|
            0 <= i < self.page_cache@.len() && (#[trigger] self.page_cache@[i]) is Some ==> {
                let c = self.page_cache@[i]->0;
                &&& c.wf()
                &&& c.data.page_num == i
                &&& comments_current(
                    self@.comment_cache,
                    self.comment_rects@,
                    i as usize,
                    c.data.scale_factor,
                )
            }
    }

    pub fn new(
        picker: Picker,
        prerender: usize,
        kitty_shm_support: bool,
        pid: u32,
        show_link_underlines: bool,
    ) -> (r: Self)
        ensures
            r.wf(),
            r@ == (EngineState::<P> {
                picker,
                prerender,
                kitty_shm_support,
                pid,
                page: 0,
                images: Seq::empty(),
                cache: Seq::empty(),
                selection: Seq::empty(),
                comments: Seq::empty(),
                highlights: Seq::empty(),
                comment_cache: Map::empty(),
                visual: Seq::empty(),
                cursor: None,
                show_links: show_link_underlines,
                viewport: None,
                viewports: Map::empty(),
                tiled: Set::empty(),
                sent: Set::empty(),
                pending: Set::empty(),
            }),
    {
        ConverterEngine {
            picker,
            prerender,
            kitty_shm_support,
            pid,
            page: 0,
            images: Vec::new(),
            page_cache: Vec::new(),
            selection_rects: Vec::new(),
            comment_rects: Vec::new(),
            highlight_overlays: Vec::new(),
            comment_cache: HashMap::new(),
            visual_rects: Vec::new(),
            cursor_rect: None,
            show_link_underlines,
            viewport: None,
            last_viewport_by_page: HashMap::new(),
            tiled_pages: HashSet::new(),
            sent_for_viewport: HashSet::new(),
            pending_cursor_pages: HashSet::new(),
        }
    }

    /// The page at hand.
    fn cached(&self, page: usize) -> (r: Option<&CachedPage<P>>)
        requires
            self.wf(),
        ensures
            match r {
                Some(c) => self@.cached(page) == Some(c@) && c.wf() && page < self.page_cache@.len()
                    && self.page_cache@[page as int] == Some(*c),
                None => self@.cached(page) is None,
            },
    {
        if page < self.page_cache.len() {
            self.page_cache[page].as_ref()
        } else {
            None
        }
    }

    // Overlays.

    fn highlights_on(&self, page: usize, scale: ScaleFactor) -> (out: Vec<HighlightPixelRect>)
        ensures
            out@ == scaled_highlights(self.highlight_overlays@, page, scale),
    {
        let list = &self.highlight_overlays;
        let mut out: Vec<HighlightPixelRect> = Vec::new();
        let mut i: usize = 0;
        assert(list@.take(0) =~= Seq::empty());
        while i < list.len()
            invariant
                i <= list.len(),
                out@ == scaled_highlights(list@.take(i as int), page, scale),
            decreases list.len() - i,
        {
            proof {
                assert(list@.take(i as int + 1).drop_last() =~= list@.take(i as int));
            }
            let ghost before = out@;
            let h = list[i];
            if h.rect.page == page {
                if let Some(rect) = scale_rect(&h.rect, scale) {
                    out.push(HighlightPixelRect { rect, rgb: h.rgb, alpha: h.alpha });
                }
                assert(out@ =~= before + Seq::new(
                    scaled_rect(h.rect, scale).len(),
                    |i: int|
                        HighlightPixelRect {
                            rect: scaled_rect(h.rect, scale)[i],
                            rgb: h.rgb,
                            alpha: h.alpha,
                        },
                ));
            }
            i += 1;
        }
        assert(list@.take(i as int) =~= list@);
        out
    }

    fn selected_on(&self, page: usize) -> (out: Vec<PixelRect>)
        ensures
            out@ == selected_rects(self.selection_rects@, page),
    {
        let list = &self.selection_rects;
        let mut out: Vec<PixelRect> = Vec::new();
        let mut i: usize = 0;
        assert(list@.take(0) =~= Seq::empty());
        while i < list.len()
            invariant
                i <= list.len(),
                out@ == selected_rects(list@.take(i as int), page),
            decreases list.len() - i,
        {
            proof {
                assert(list@.take(i as int + 1).drop_last() =~= list@.take(i as int));
            }
            let ghost before = out@;
            let s = list[i];
            if s.page == page {
                let rect = PixelRect::new(s.topleft_x, s.topleft_y, s.bottomright_x, s.bottomright_y);
                if let Some(rect) = rect {
                    out.push(rect);
                }
                assert(out@ =~= before + listed(rect));
            }
            i += 1;
        }
        assert(list@.take(i as int) =~= list@);
        out
    }

    fn marked_on(&self, page: usize) -> (out: Vec<PixelRect>)
        ensures
            out@ == marked_rects(self.visual_rects@, page),
    {
        let list = &self.visual_rects;
        let mut out: Vec<PixelRect> = Vec::new();
        let mut i: usize = 0;
        assert(list@.take(0) =~= Seq::empty());
        while i < list.len()
            invariant
                i <= list.len(),
                out@ == marked_rects(list@.take(i as int), page),
            decreases list.len() - i,
        {
            proof {
                assert(list@.take(i as int + 1).drop_last() =~= list@.take(i as int));
            }
            let ghost before = out@;
            let v = list[i];
            if v.page == page {
                let rect = extent_to_rect(v.x, v.y, v.width, v.height);
                if let Some(rect) = rect {
                    out.push(rect);
                }
                assert(out@ =~= before + listed(rect));
            }
            i += 1;
        }
        assert(list@.take(i as int) =~= list@);
        out
    }

    /// Everything that is drawn over a page.
    pub fn build_overlay_set(&self, page: usize) -> (r: OverlaySet)
        requires
            self.wf(),
        ensures
            self@.overlaid_by(r, page),
            r.strokes() == self@.strokes(page),
    {
        self.build_overlay_set_with_cursor(page, self.cursor_rect)
    }

    /// Everything that is drawn over a page while the cursor is elsewhere.
    pub fn build_overlay_set_with_cursor(&self, page: usize, cursor: Option<CursorRect>) -> (r:
        OverlaySet)
        requires
            self.wf(),
        ensures
            (EngineState { cursor, ..self@ }).overlaid_by(r, page),
            r.strokes() == (EngineState { cursor, ..self@ }).strokes(page),
    {
        broadcast use vstd::std_specs::hash::group_hash_axioms;

        let ghost state = EngineState { cursor, ..self@ };
        let mut comments: Vec<PixelRect> = Vec::new();
        let mut link_strokes: Vec<PixelRect> = Vec::new();
        let mut scale = ScaleFactor { bits: 0x3f80_0000 };
        assert(state.cached(page) == self@.cached(page));
        if let Some(cached) = self.cached(page) {
            if let Some(entry) = self.comment_cache.get(&page) {
                comments = copy_rects(&entry.rects);
            }
            if self.show_link_underlines {
                link_strokes = link_box_stroke_rects(&cached.data.links);
            }
            scale = cached.data.scale_factor;
        }
        assert(comments@ =~= state.comment_rects(page));
        assert(link_strokes@ =~= state.link_strokes(page));
        let mut cursor_px: Option<PixelRect> = None;
        if let Some(c) = cursor {
            if c.page == page {
                let e = expand_cursor_rect(&c, &self.picker);
                cursor_px = extent_to_rect(e.x, e.y, e.width, e.height);
            }
        }
        let r = OverlaySet {
            highlights: self.highlights_on(page, scale),
            comments,
            comments_are_underlines: false,
            link_strokes,
            selection: self.selected_on(page),
            visual: self.marked_on(page),
            cursor: cursor_px,
        };
        assert(r.strokes() =~= state.strokes(page));
        r
    }
}

// Keeping memory in bounds.

impl<P> ConverterEngine<P> {
    /// Drops the images of pages that are far from the current one.
    pub fn clear_distant_decoded(&mut self, current_page: usize, radius: usize)
        requires
            old(self).wf(),
        ensures
            final(self).wf(),
            final(self)@ == old(self)@.without_distant_decoded(current_page, radius),
    {
        let start: usize = current_page.saturating_sub(radius);
        let end: usize = current_page.saturating_add(radius);
        let ghost want = self@.without_distant_decoded(current_page, radius);
        let ghost before = *self;
        let mut i: usize = 0;
        while i < self.page_cache.len()
            invariant
                before.wf(),
                self.wf(),
                i <= self.page_cache@.len(),
                self.page_cache@.len() == before.page_cache@.len(),
                start as int == if current_page >= radius { current_page - radius } else { 0 },
                end as int == if current_page + radius <= usize::MAX { current_page + radius } else { usize::MAX as int },
                want == before@.without_distant_decoded(current_page, radius),
                self@ == (EngineState { cache: self@.cache, ..before@ }),
                forall|j: int| 0 <= j < i ==> self@.cache[j] == want.cache[j],
                forall|j: int|
                    i <= j < self.page_cache@.len() ==> self.page_cache@[j] == before.page_cache@[j],
            decreases self.page_cache.len() - i,
        {
            if i < start || i > end {
                match &mut self.page_cache[i] {
                    Some(page) => page.clear_decoded(),
                    None => {},
                }
            }
            i += 1;
        }
        assert(self@.cache =~= want.cache);
    }
}

impl<P> ConverterEngine<P> {
    /// Whether a page keeps its pixels when the current page is elsewhere.
    fn keeps_pixels(&self, current_page: usize, radius: usize, i: usize) -> (r: bool)
        ensures
            r == self@.keeps(current_page, radius, i as int),
    {
        broadcast use vstd::std_specs::hash::group_hash_axioms;

        let start: usize = current_page.saturating_sub(radius);
        let end: usize = current_page.saturating_add(radius);
        if i >= start && i <= end {
            return true;
        }
        if let Some(cursor) = &self.cursor_rect {
            if cursor.page == i {
                return true;
            }
        }
        self.pending_cursor_pages.contains(&i)
    }

    /// Drops the pages that are far from the current one, except those that the
    /// cursor needs.
    pub fn clear_distant_pixels(&mut self, current_page: usize, radius: usize)
        requires
            old(self).wf(),
        ensures
            final(self).wf(),
            final(self)@ == old(self)@.without_distant_pages(current_page, radius),
    {
        broadcast use vstd::std_specs::hash::group_hash_axioms;

        let ghost want = self@.without_distant_pages(current_page, radius);
        let ghost before = *self;
        let mut i: usize = 0;
        while i < self.images.len()
            invariant
                before.wf(),
                self.wf(),
                i <= self.images@.len(),
                self.images@.len() == before.images@.len(),
                self.page_cache@.len() == before.page_cache@.len(),
                want == before@.without_distant_pages(current_page, radius),
                self@ == (EngineState {
                    images: self@.images,
                    cache: self@.cache,
                    sent: self@.sent,
                    ..before@
                }),
                forall|j: int| 0 <= j < i ==> #[trigger] self@.images[j] == want.images[j],
                forall|j: int| 0 <= j < i ==> #[trigger] self@.cache[j] == want.cache[j],
                forall|j: int|
                    i <= j < self.images@.len() ==> self.images@[j] == before.images@[j],
                forall|j: int|
                    i <= j < self.page_cache@.len() ==> self.page_cache@[j] == before.page_cache@[j],
                forall|p: usize| #[trigger]
                    self@.sent.contains(p) <==> before@.sent.contains(p) && (p >= i
                        || before@.cached(p) is None || before@.keeps(
                        current_page,
                        radius,
                        p as int,
                    )),
            decreases self.images.len() - i,
        {
            assert(self@.keeps(current_page, radius, i as int) == before@.keeps(
                current_page,
                radius,
                i as int,
            ));
            let ghost now = *self;
            if !self.keeps_pixels(current_page, radius, i) {
                self.images.set(i, None);
                if self.page_cache[i].is_some() {
                    assert(before.page_cache@[i as int] is Some);
                    self.page_cache.set(i, None);
                    self.sent_for_viewport.remove(&i);
                } else {
                    assert(before@.cached(i) is None);
                }
            }
            proof {
                assert forall|j: int| 0 <= j < i + 1 implies #[trigger] self@.cache[j]
                    == want.cache[j] by {
                    if j < i {
                        assert(now@.cache[j] == want.cache[j]);
                    } else {
                        assert(before@.cache[j] == self@.cache[j] || self@.cache[j] is None);
                    }
                }
            }
            i += 1;
        }
        assert(self@.images =~= want.images);
        assert(self@.cache =~= want.cache);
        assert(self@.sent =~= want.sent);
    }

    /// The pages that a change of items affects.
    pub fn collect_affected_pages<T: PageScoped>(old_items: &Vec<T>, new_items: &Vec<T>) -> (r: Vec<
        usize,
    >)
        ensures
            r@ == affected(old_items@, new_items@),
    {
        let mut pages: Vec<usize> = Vec::new();
        let ghost all = pages_of(old_items@) + pages_of(new_items@);
        let mut i: usize = 0;
        assert(all.take(0) =~= Seq::empty());
        while i < old_items.len()
            invariant
                i <= old_items.len(),
                all == pages_of(old_items@) + pages_of(new_items@),
                pages@ == distinct(all.take(i as int)),
            decreases old_items.len() - i,
        {
            proof {
                assert(all.take(i as int + 1).drop_last() =~= all.take(i as int));
            }
            push_distinct(&mut pages, old_items[i].page());
            i += 1;
        }
        let mut j: usize = 0;
        while j < new_items.len()
            invariant
                j <= new_items.len(),
                all == pages_of(old_items@) + pages_of(new_items@),
                pages@ == distinct(all.take(old_items@.len() + j)),
            decreases new_items.len() - j,
        {
            proof {
                assert(all.take(old_items@.len() + j + 1).drop_last() =~= all.take(
                    old_items@.len() + j,
                ));
            }
            push_distinct(&mut pages, new_items[j].page());
            j += 1;
        }
        assert(all.take(old_items@.len() + j) =~= all);
        pages
    }

    /// Drops the tiles of some pages.
    pub fn invalidate_tiles_for_pages(&mut self, pages: &Vec<usize>)
        requires
            old(self).wf(),
        ensures
            final(self).wf(),
            final(self)@ == old(self)@.without_tiles(pages@),
    {
        broadcast use vstd::std_specs::hash::group_hash_axioms;

        let ghost want = self@.without_tiles(pages@);
        let ghost before = *self;
        let mut i: usize = 0;
        while i < pages.len()
            invariant
                before.wf(),
                self.wf(),
                i <= pages@.len(),
                self.page_cache@.len() == before.page_cache@.len(),
                self.comment_cache == before.comment_cache,
                self@ == (EngineState { cache: self@.cache, tiled: self@.tiled, ..before@ }),
                forall|p: usize| #[trigger]
                    self@.tiled.contains(p) <==> before@.tiled.contains(p) && !pages@.take(
                        i as int,
                    ).contains(p),
                forall|j: int|
                    0 <= j < self.page_cache@.len() ==> #[trigger] self@.cache[j] == (
                    match before@.cache[j] {
                        Some(c) => Some(
                            if pages@.take(i as int).contains(j as usize) {
                                c.without_tiles()
                            } else {
                                c
                            },
                        ),
                        None => None,
                    }),
            decreases pages.len() - i,
        {
            let page: usize = pages[i];
            let ghost now = *self;
            proof {
                let (a, b) = (pages@.take(i as int), pages@.take(i as int + 1));
                assert(b =~= a.push(page));
                assert forall|p: usize| #[trigger] b.contains(p) <==> a.contains(p) || p == page by {
                    if a.contains(p) {
                        let k = choose|k: int| 0 <= k < a.len() && a[k] == p;
                        assert(b[k] == p);
                    }
                    assert(b[a.len() as int] == page);
                    if b.contains(p) && p != page {
                        let k = choose|k: int| 0 <= k < b.len() && b[k] == p;
                        assert(a[k] == p);
                    }
                }
            }
            self.tiled_pages.remove(&page);
            if page < self.page_cache.len() {
                match &mut self.page_cache[page] {
                    Some(cached) => cached.clear_tiles(),
                    None => {},
                }
            }
            proof {
                assert forall|j: int| 0 <= j < self.page_cache@.len() implies #[trigger] self@.cache[j]
                    == (match before@.cache[j] {
                    Some(c) => Some(
                        if pages@.take(i as int + 1).contains(j as usize) {
                            c.without_tiles()
                        } else {
                            c
                        },
                    ),
                    None => None,
                }) by {
                    assert(now@.cache[j] == (match before@.cache[j] {
                        Some(c) => Some(
                            if pages@.take(i as int).contains(j as usize) {
                                c.without_tiles()
                            } else {
                                c
                            },
                        ),
                        None => None,
                    }));
                    if j == page {
                    } else {
                        assert(self.page_cache@[j] == now.page_cache@[j]);
                    }
                }
            }
            i += 1;
        }
        assert(pages@.take(i as int) =~= pages@);
        assert(self@.cache =~= want.cache);
        assert(self@.tiled =~= want.tiled);
    }
}

impl<P> ConverterEngine<P> {
    /// The comments of the pages at hand, scaled to them.
    fn build_comment_cache(&self, rects: &Vec<SelectionRect>) -> (cache: HashMap<
        usize,
        CommentCacheEntry,
    >)
        requires
            self.wf(),
        ensures
            comment_view(cache@) == self@.scaled_comments(rects@),
    {
        broadcast use vstd::std_specs::hash::group_hash_axioms;

        let ghost want = self@.scaled_comments(rects@);
        let mut cache: HashMap<usize, CommentCacheEntry> = HashMap::new();
        let mut i: usize = 0;
        while i < rects.len()
            invariant
                self.wf(),
                i <= rects@.len(),
                want == self@.scaled_comments(rects@),
                forall|p: usize| #[trigger]
                    cache@.contains_key(p) ==> want.contains_key(p) && comment_view(cache@)[p]
                        == want[p],
                forall|j: int|
                    #![trigger rects@[j]]
                    0 <= j < i && want.contains_key(rects@[j].page) ==> cache@.contains_key(
                        rects@[j].page,
                    ),
            decreases rects.len() - i,
        {
            let page: usize = rects[i].page;
            if let Some(cached) = self.cached(page) {
                let scale_factor = cached.data.scale_factor;
                let rects_px = comment_rects_for_page(rects, page, scale_factor);
                if rects_px.len() > 0 {
                    cache.insert(page, CommentCacheEntry { scale_factor, rects: rects_px });
                }
            }
            i += 1;
        }
        proof {
            assert forall|p: usize| want.contains_key(p) implies #[trigger] cache@.contains_key(p) by {
                let scale = self@.cached(p)->0.data.scale_factor;
                let j = lemma_scaled_rect_has_source(rects@, p, scale);
                assert(rects@[j].page == p);
            }
            assert(comment_view(cache@) =~= want);
        }
        cache
    }

    /// Scales the comments of a page to it.
    fn update_comment_cache_for_page(&mut self, page_num: usize, scale_factor: ScaleFactor)
        ensures
            *final(self) == (ConverterEngine { comment_cache: final(self).comment_cache, ..*old(self) }),
            final(self)@ == old(self)@.with_comments_scaled(page_num, scale_factor),
    {
        broadcast use vstd::std_specs::hash::group_hash_axioms;

        let ghost before = *self;
        let rects = comment_rects_for_page(&self.comment_rects, page_num, scale_factor);
        if rects.len() == 0 {
            self.comment_cache.remove(&page_num);
        } else {
            self.comment_cache.insert(page_num, CommentCacheEntry { scale_factor, rects });
        }
        assert(self@.comment_cache =~= before@.with_comments_scaled(
            page_num,
            scale_factor,
        ).comment_cache);
    }

    /// Takes a page to hand.
    pub fn update_cache_for_page(&mut self, page_num: usize, page_info: &Arc<PageData>)
        requires
            old(self).wf(),
            page_info.page_num == page_num,
        ensures
            final(self).wf(),
            final(self)@ == old(self)@.with_page(page_num, *page_info),
            page_num >= old(self).page_cache@.len() ==> *final(self) == *old(self),
    {
        broadcast use vstd::std_specs::hash::group_hash_axioms;

        if page_num >= self.page_cache.len() {
            return ;
        }
        let ghost before = *self;
        let fits = match &self.page_cache[page_num] {
            Some(cached) => cached.data.width_cell == page_info.width_cell
                && cached.data.height_cell == page_info.height_cell && scale_factors_match(
                cached.data.scale_factor,
                page_info.scale_factor,
            ),
            None => false,
        };
        let mut tile_cache: HashMap<u32, Arc<P>> = HashMap::new();
        if fits {
            let slot = &mut self.page_cache[page_num];
            if let Some(cached) = slot.take() {
                tile_cache = cached.tile_cache;
            }
        } else {
            self.sent_for_viewport.remove(&page_num);
        }
        self.page_cache.set(
            page_num,
            Some(CachedPage { data: share(page_info), decoded: None, tile_cache }),
        );
        let ghost mid = *self;
        self.update_comment_cache_for_page(page_num, page_info.scale_factor);
        proof {
            assert forall|i: int|
                0 <= i < self.page_cache@.len() && (#[trigger] self.page_cache@[i]) is Some implies {
                let c = self.page_cache@[i]->0;
                &&& c.wf()
                &&& c.data.page_num == i
                &&& comments_current(
                    self@.comment_cache,
                    self.comment_rects@,
                    i as usize,
                    c.data.scale_factor,
                )
            } by {
                if i != page_num {
                    assert(self.page_cache@[i] == before.page_cache@[i]);
                }
            }
            assert(self@.cache =~= before@.with_page(page_num, *page_info).cache);
            assert(self@.sent =~= before@.with_page(page_num, *page_info).sent);
        }
    }

    /// Whether a page at hand need not be rendered ahead.
    pub fn should_skip_render(&self, page_num: usize) -> (r: bool)
        ensures
            r == self@.skips(page_num),
    {
        broadcast use vstd::std_specs::hash::group_hash_axioms;

        if self.sent_for_viewport.contains(&page_num) {
            return true;
        }
        match self.picker.protocol {
            ProtocolType::Kitty => false,
            _ => {
                let viewed = match &self.viewport {
                    Some(vp) => vp.page == page_num,
                    None => false,
                };
                !self.last_viewport_by_page.contains_key(&page_num) && !viewed
            },
        }
    }
}

proof fn lemma_scaled_rect_has_source(rects: Seq<SelectionRect>, page: usize, scale: ScaleFactor) -> (j:
    int)
    requires
        scaled_rects(rects, page, scale).len() > 0,
    ensures
        0 <= j < rects.len(),
        rects[j].page == page,
    decreases rects.len(),
{
    if rects.last().page == page {
        rects.len() - 1
    } else {
        lemma_scaled_rect_has_source(rects.drop_last(), page, scale)
    }
}

// Commands.

impl<P> ConverterEngine<P> {
    /// The pages at hand that have links.
    fn linked_pages(&self) -> (pages: Vec<usize>)
        requires
            self.wf(),
        ensures
            pages@ == linked_pages(self@.cache),
    {
        let ghost cache = self@.cache;
        let mut pages: Vec<usize> = Vec::new();
        let mut i: usize = 0;
        assert(cache.take(0) =~= Seq::empty());
        while i < self.page_cache.len()
            invariant
                self.wf(),
                cache == self@.cache,
                i <= self.page_cache@.len(),
                pages@ == linked_pages(cache.take(i as int)),
            decreases self.page_cache.len() - i,
        {
            proof {
                assert(cache.take(i as int + 1).drop_last() =~= cache.take(i as int));
                assert(cache.take(i as int + 1).last() == cache[i as int]);
            }
            if let Some(cached) = &self.page_cache[i] {
                if cached.data.links.len() > 0 {
                    pages.push(i);
                }
            }
            i += 1;
        }
        assert(cache.take(i as int) =~= cache);
        pages
    }

    /// Forgets that the display holds some pages.
    fn forget_sent(&mut self, pages: &Vec<usize>)
        requires
            old(self).wf(),
        ensures
            final(self).wf(),
            final(self)@ == (EngineState {
                sent: old(self)@.sent.filter(|p: usize| !pages@.contains(p)),
                viewports: old(self)@.viewports.remove_keys(pages@.to_set()),
                ..old(self)@
            }),
    {
        broadcast use vstd::std_specs::hash::group_hash_axioms;

        let ghost before = *self;
        let mut i: usize = 0;
        while i < pages.len()
            invariant
                before.wf(),
                self.wf(),
                i <= pages@.len(),
                self@ == (EngineState { sent: self@.sent, viewports: self@.viewports, ..before@ }),
                forall|p: usize| #[trigger]
                    self@.sent.contains(p) <==> before@.sent.contains(p) && !(exists|j: int|
                        0 <= j < i && pages@[j] == p),
                forall|p: usize| #[trigger]
                    self@.viewports.contains_key(p) <==> before@.viewports.contains_key(p) && !(
                    exists|j: int| 0 <= j < i && pages@[j] == p),
                forall|p: usize| #[trigger]
                    self@.viewports.contains_key(p) ==> self@.viewports[p] == before@.viewports[p],
            decreases pages.len() - i,
        {
            let page: usize = pages[i];
            self.sent_for_viewport.remove(&page);
            self.last_viewport_by_page.remove(&page);
            i += 1;
        }
        proof {
            let sent = before@.sent.filter(|p: usize| !pages@.contains(p));
            let viewports = before@.viewports.remove_keys(pages@.to_set());
            assert(self@.sent =~= sent);
            assert forall|p: usize| self@.viewports.contains_key(p) == viewports.contains_key(
                p,
            ) by {
                assert(pages@.to_set().contains(p) == pages@.contains(p));
            }
            assert(self@.viewports =~= viewports);
        }
    }

    /// Forgets all pages and what was in view or drawn over them for a moment.
    fn invalidate_page_cache(&mut self)
        requires
            old(self).wf(),
        ensures
            final(self).wf(),
            final(self)@ == old(self)@.after(ConversionCommand::InvalidatePageCache),
    {
        broadcast use vstd::std_specs::hash::group_hash_axioms;

        let ghost before = *self;
        let n: usize = self.images.len();
        self.images = nothing(n);
        self.page_cache = nothing(n);
        self.tiled_pages.clear();
        self.comment_cache.clear();
        self.sent_for_viewport.clear();
        self.last_viewport_by_page.clear();
        self.viewport = None;
        self.cursor_rect = None;
        self.visual_rects.clear();
        self.selection_rects.clear();
        proof {
            let want = before@.after(ConversionCommand::InvalidatePageCache);
            assert(self@.images =~= want.images);
            assert(self@.cache =~= want.cache);
            assert(self@.comment_cache =~= want.comment_cache);
        }
    }

    fn set_page_count(&mut self, n_pages: usize)
        requires
            old(self).wf(),
        ensures
            final(self).wf(),
            final(self)@ == old(self)@.after(ConversionCommand::SetPageCount(n_pages)),
    {
        broadcast use vstd::std_specs::hash::group_hash_axioms;

        let ghost before = *self;
        self.images = nothing(n_pages);
        self.page_cache = nothing(n_pages);
        let last: usize = n_pages.saturating_sub(1);
        if self.page > last {
            self.page = last;
        }
        self.sent_for_viewport.clear();
        self.last_viewport_by_page.clear();
        self.tiled_pages.clear();
        proof {
            let want = before@.after(ConversionCommand::SetPageCount(n_pages));
            assert(self@.images =~= want.images);
            assert(self@.cache =~= want.cache);
        }
    }

    fn visual_tasks(&self, old_rects: &Vec<VisualRect>, new_rects: &Vec<VisualRect>, pages: &Vec<usize>) -> (tasks:
        Vec<Task>)
        requires
            pages@ == affected(old_rects@, new_rects@),
        ensures
            asked(tasks@) == self@.visual_tasks(old_rects@, new_rects@),
    {
        let by_tiles = self.picker.protocol == ProtocolType::Iterm2 && self.viewport.is_some();
        let ghost want = self@.visual_tasks(old_rects@, new_rects@);
        let mut tasks: Vec<Task> = Vec::new();
        let mut i: usize = 0;
        while i < pages.len()
            invariant
                pages@ == affected(old_rects@, new_rects@),
                by_tiles == (self@.picker.protocol == ProtocolType::Iterm2 && self@.viewport is Some),
                want == self@.visual_tasks(old_rects@, new_rects@),
                i <= pages@.len(),
                tasks@.len() == i,
                forall|j: int| 0 <= j < i ==> (#[trigger] tasks@[j])@ == want[j],
            decreases pages.len() - i,
        {
            let page: usize = pages[i];
            let task = if by_tiles {
                Task::UpdateTiles { page, spans: rows_marked(old_rects, new_rects, page) }
            } else {
                Task::RedrawVisual { page }
            };
            assert(task@ == want[i as int]);
            tasks.push(task);
            i += 1;
        }
        assert(asked(tasks@) =~= want);
        tasks
    }

    fn cursor_tasks(&self, old_cursor: Option<CursorRect>, new_cursor: Option<CursorRect>) -> (tasks:
        Vec<Task>)
        ensures
            asked(tasks@) == self@.cursor_tasks(old_cursor, new_cursor),
    {
        broadcast use vstd::std_specs::hash::group_hash_axioms;

        let ghost want = self@.cursor_tasks(old_cursor, new_cursor);
        let pages = pages_under(old_cursor, new_cursor);
        let mut tasks: Vec<Task> = Vec::new();
        if self.picker.protocol == ProtocolType::Iterm2 {
            let page: Option<usize> = match new_cursor {
                Some(c) => Some(c.page),
                None => match old_cursor {
                    Some(c) => Some(c.page),
                    None => None,
                },
            };
            let tiled = match page {
                Some(page) => self.tiled_pages.contains(&page),
                None => false,
            };
            if self.viewport.is_none() {
                assert(asked(tasks@) =~= want);
                return tasks;
            }
            if !tiled {
                if let Some(page) = page {
                    tasks.push(Task::TileAtViewport { page });
                }
                assert(asked(tasks@) =~= want);
                return tasks;
            }
        }
        let mut i: usize = 0;
        while i < pages.len()
            invariant
                pages@ == cursor_pages(old_cursor, new_cursor),
                want == self@.cursor_tasks(old_cursor, new_cursor),
                self.picker.protocol == ProtocolType::Iterm2 ==> want == Seq::new(
                    pages@.len(),
                    |i: int|
                        TaskView::UpdateTiles {
                            page: pages@[i],
                            spans: cursor_rows(old_cursor, pages@[i], self.picker) + cursor_rows(
                                new_cursor,
                                pages@[i],
                                self.picker,
                            ),
                        },
                ),
                i <= pages@.len(),
                want.len() == pages@.len(),
                tasks@.len() == i,
                forall|j: int| 0 <= j < i ==> (#[trigger] tasks@[j])@ == want[j],
            decreases pages.len() - i,
        {
            let page: usize = pages[i];
            let task = if self.picker.protocol == ProtocolType::Iterm2 {
                let mut spans: Vec<RowSpan> = Vec::new();
                push_cursor_rows(&mut spans, old_cursor, page, &self.picker);
                push_cursor_rows(&mut spans, new_cursor, page, &self.picker);
                assert(spans@ =~= cursor_rows(old_cursor, page, self.picker) + cursor_rows(
                    new_cursor,
                    page,
                    self.picker,
                ));
                Task::UpdateTiles { page, spans }
            } else {
                Task::RedrawCursor { page }
            };
            assert(task@ == want[i as int]);
            tasks.push(task);
            i += 1;
        }
        assert(asked(tasks@) =~= want);
        tasks
    }

    /// Takes a command in. The tasks that it returns are to be done in order,
    /// before the next command.
    pub fn handle_msg(&mut self, msg: ConversionCommand) -> (tasks: Vec<Task>)
        requires
            old(self).wf(),
        ensures
            final(self).wf(),
            final(self)@ == old(self)@.after(msg),
            asked(tasks@) == old(self)@.tasks_of(msg),
    {
        broadcast use vstd::std_specs::hash::group_hash_axioms;

        let ghost before = *self;
        let mut tasks: Vec<Task> = Vec::new();
        assert(asked(tasks@) =~= Seq::empty());
        match msg {
            ConversionCommand::EnqueuePage(img) => {
                let page_num: usize = img.page_num;
                let held = self.picker.protocol == ProtocolType::Kitty
                    && self.sent_for_viewport.contains(&page_num);
                if !held && page_num < self.images.len() {
                    self.images.set(page_num, Some(img));
                }
            },
            ConversionCommand::SetPageCount(n_pages) => self.set_page_count(n_pages),
            ConversionCommand::NavigateTo(page) => {
                self.page = page;
                self.clear_distant_decoded(page, DECODED_RADIUS);
                self.clear_distant_pixels(page, PIXEL_RADIUS);
            },
            ConversionCommand::UpdateViewport(viewport) => {
                tasks.push(Task::ShowViewport { viewport });
                assert(asked(tasks@) =~= before@.tasks_of(msg));
            },
            ConversionCommand::UpdateDualViewport(viewports) => {
                let mut i: usize = 0;
                while i < viewports.len()
                    invariant
                        i <= viewports@.len(),
                        tasks@.len() == i,
                        forall|j: int|
                            0 <= j < i ==> (#[trigger] tasks@[j])@ == (TaskView::ShowViewport {
                                viewport: viewports@[j],
                            }),
                    decreases viewports.len() - i,
                {
                    tasks.push(Task::ShowViewport { viewport: viewports[i] });
                    i += 1;
                }
                assert(asked(tasks@) =~= before@.tasks_of(msg));
            },
            ConversionCommand::UpdateSelection(rects) => {
                let pages = Self::collect_affected_pages(&self.selection_rects, &rects);
                self.selection_rects = rects;
                self.invalidate_tiles_for_pages(&pages);
                tasks = reconvert_tasks(&pages);
            },
            ConversionCommand::UpdateComments(rects) => {
                let pages = Self::collect_affected_pages(&self.comment_rects, &rects);
                self.comment_cache = self.build_comment_cache(&rects);
                proof {
                    assert forall|i: int|
                        0 <= i < self.page_cache@.len() && (
                        #[trigger] self.page_cache@[i]) is Some implies comments_current(
                        self@.comment_cache,
                        rects@,
                        i as usize,
                        self.page_cache@[i]->0.data.scale_factor,
                    ) by {
                        assert(before@.cached(i as usize) == Some(self.page_cache@[i]->0@));
                    }
                }
                self.comment_rects = rects;
                self.invalidate_tiles_for_pages(&pages);
                tasks = reconvert_tasks(&pages);
            },
            ConversionCommand::UpdateHighlights(overlays) => {
                let pages = Self::collect_affected_pages(&self.highlight_overlays, &overlays);
                self.highlight_overlays = overlays;
                self.invalidate_tiles_for_pages(&pages);
                tasks = reconvert_tasks(&pages);
            },
            ConversionCommand::UpdateCursor(cursor) => {
                let old_cursor = self.cursor_rect;
                tasks = self.cursor_tasks(old_cursor, cursor);
                self.cursor_rect = cursor;
            },
            ConversionCommand::UpdateVisual(rects) => {
                let pages = Self::collect_affected_pages(&self.visual_rects, &rects);
                tasks = self.visual_tasks(&self.visual_rects, &rects, &pages);
                self.visual_rects = rects;
                self.invalidate_tiles_for_pages(&pages);
            },
            ConversionCommand::SetShowLinkUnderlines(show) => {
                if self.show_link_underlines != show {
                    let pages = self.linked_pages();
                    self.show_link_underlines = show;
                    self.invalidate_tiles_for_pages(&pages);
                    tasks = reconvert_tasks(&pages);
                }
            },
            ConversionCommand::InvalidatePageCache => self.invalidate_page_cache(),
            ConversionCommand::DisplayFailed(pages) => self.forget_sent(&pages),
            ConversionCommand::DumpState => {},
        }
        tasks
    }
}

fn nothing<T>(n: usize) -> (list: Vec<Option<T>>)
    ensures
        list@ == Seq::new(n as nat, |i: int| None::<T>),
{
    let mut list: Vec<Option<T>> = Vec::new();
    let mut i: usize = 0;
    while i < n
        invariant
            i <= n,
            list@ == Seq::new(i as nat, |i: int| None::<T>),
        decreases n - i,
    {
        list.push(None);
        i += 1;
        assert(list@ =~= Seq::new(i as nat, |i: int| None::<T>));
    }
    list
}

fn reconvert_tasks(pages: &Vec<usize>) -> (tasks: Vec<Task>)
    ensures
        asked(tasks@) == reconvert_all(pages@),
{
    let mut tasks: Vec<Task> = Vec::new();
    let mut i: usize = 0;
    while i < pages.len()
        invariant
            i <= pages@.len(),
            tasks@.len() == i,
            forall|j: int|
                0 <= j < i ==> (#[trigger] tasks@[j])@ == (TaskView::Reconvert { page: pages@[j] }),
        decreases pages.len() - i,
    {
        tasks.push(Task::Reconvert { page: pages[i] });
        i += 1;
    }
    assert(asked(tasks@) =~= reconvert_all(pages@));
    tasks
}

/// The rows of a page that the marked parts of two lists take up.
fn rows_marked(old_rects: &Vec<VisualRect>, new_rects: &Vec<VisualRect>, page: usize) -> (spans: Vec<
    RowSpan,
>)
    ensures
        spans@ == marked_rows(old_rects@ + new_rects@, page),
{
    let ghost all = old_rects@ + new_rects@;
    let mut spans: Vec<RowSpan> = Vec::new();
    let mut i: usize = 0;
    assert(all.take(0) =~= Seq::empty());
    while i < old_rects.len()
        invariant
            all == old_rects@ + new_rects@,
            i <= old_rects@.len(),
            spans@ == marked_rows(all.take(i as int), page),
        decreases old_rects.len() - i,
    {
        proof {
            assert(all.take(i as int + 1).drop_last() =~= all.take(i as int));
        }
        if old_rects[i].page == page {
            spans.push(RowSpan { y: old_rects[i].y, height: old_rects[i].height });
        }
        i += 1;
    }
    let mut j: usize = 0;
    while j < new_rects.len()
        invariant
            all == old_rects@ + new_rects@,
            j <= new_rects@.len(),
            spans@ == marked_rows(all.take(old_rects@.len() + j), page),
        decreases new_rects.len() - j,
    {
        proof {
            assert(all.take(old_rects@.len() + j + 1).drop_last() =~= all.take(
                old_rects@.len() + j,
            ));
        }
        if new_rects[j].page == page {
            spans.push(RowSpan { y: new_rects[j].y, height: new_rects[j].height });
        }
        j += 1;
    }
    assert(all.take(old_rects@.len() + j) =~= all);
    spans
}

/// The pages that a move of the cursor affects.
fn pages_under(old_cursor: Option<CursorRect>, new_cursor: Option<CursorRect>) -> (pages: Vec<usize>)
    ensures
        pages@ == cursor_pages(old_cursor, new_cursor),
{
    let mut pages: Vec<usize> = Vec::new();
    let ghost a = if old_cursor is Some {
        seq![old_cursor->0.page]
    } else {
        Seq::empty()
    };
    let ghost b = if new_cursor is Some {
        seq![new_cursor->0.page]
    } else {
        Seq::empty()
    };
    reveal_with_fuel(distinct, 3);
    if let Some(c) = old_cursor {
        pages.push(c.page);
        assert(a.drop_last() =~= Seq::empty());
    }
    assert(pages@ =~= distinct(a));
    if let Some(c) = new_cursor {
        push_distinct(&mut pages, c.page);
        assert((a + b).drop_last() =~= a);
    } else {
        assert(a + b =~= a);
    }
    pages
}

fn push_cursor_rows(
    spans: &mut Vec<RowSpan>,
    cursor: Option<CursorRect>,
    page: usize,
    picker: &Picker,
)
    ensures
        final(spans)@ == old(spans)@ + cursor_rows(cursor, page, *picker),
{
    let ghost before = spans@;
    if let Some(c) = cursor {
        if c.page == page {
            let e = expand_cursor_rect(&c, picker);
            spans.push(RowSpan { y: e.y, height: e.height });
        }
    }
    assert(spans@ =~= before + cursor_rows(cursor, page, *picker));
}

fn push_distinct(list: &mut Vec<usize>, n: usize)
    ensures
        final(list)@ == (if old(list)@.contains(n) {
            old(list)@
        } else {
            old(list)@.push(n)
        }),
{
    let mut i: usize = 0;
    while i < list.len()
        invariant
            *list == *old(list),
            i <= list@.len(),
            forall|j: int| 0 <= j < i ==> list@[j] != n,
        decreases list.len() - i,
    {
        if list[i] == n {
            assert(list@[i as int] == n);
            return ;
        }
        i += 1;
    }
    list.push(n);
}

/// The rectangle of an extent, held inside the coordinates.
fn extent_to_rect(x: u32, y: u32, width: u32, height: u32) -> (r: Option<PixelRect>)
    ensures
        r == extent_rect(x, y, width, height),
{
    PixelRect::new(x, y, x.saturating_add(width), y.saturating_add(height))
}

fn copy_rects(rects: &Vec<PixelRect>) -> (r: Vec<PixelRect>)
    ensures
        r@ == rects@,
{
    let mut out: Vec<PixelRect> = Vec::new();
    let mut i: usize = 0;
    while i < rects.len()
        invariant
            i <= rects.len(),
            out@ == rects@.take(i as int),
        decreases rects.len() - i,
    {
        out.push(rects[i]);
        i += 1;
        assert(out@ =~= rects@.take(i as int));
    }
    assert(out@ =~= rects@);
    out
}

} // verus!
