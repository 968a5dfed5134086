//! Pages that are at hand for rendering.

use std::collections::HashMap;
use std::sync::Arc;

use vstd::prelude::*;

use crate::geometry::Picker;
use crate::overlay::OverlaySet;
#[allow(unused_imports)]
use crate::overlay::Stroke;
use crate::page::{PageData, ViewportUpdate};
use crate::pixmap::PageImage;
#[allow(unused_imports)]
use crate::pixmap::Raster;
#[allow(unused_imports)]
use crate::render::page_cells;
use crate::render::{cached_cell_size, pixel_density_for_image, Prepared};
use crate::text::PipelineError;
use crate::tiles::{render_specific_tiles, touched_tiles, view_slots, RowSpan, TileSlot};
#[allow(unused_imports)]
use crate::tiles::{
    are_update_slots, are_view_slots, can_tile, can_update, rows_in_range, touched, Grid,
};

verus! {

/// A page, its image once it was needed, and the tiles that were encoded.
pub struct CachedPage<P> {
    pub data: Arc<PageData>,
    pub decoded: Option<PageImage>,
    pub tile_cache: HashMap<u32, Arc<P>>,
}

/// What a cached page holds.
#[verifier::ext_equal]
pub struct CachedView<P> {
    pub data: Arc<PageData>,
    /// The image, if it is at hand.
    pub decoded: Option<Raster>,
    pub tiles: Map<u32, Arc<P>>,
}

impl<P> View for CachedPage<P> {
    type V = CachedView<P>;

    open spec fn view(&self) -> CachedView<P> {
        CachedView {
            data: self.data,
            decoded: match self.decoded {
                Some(img) => Some(img@),
                None => None,
            },
            tiles: self.tile_cache@,
        }
    }
}

/// What rendering the tiles in view gives.
pub open spec fn tiles_prepared<P>(
    p: Prepared<Vec<TileSlot<P>>>,
    cached: CachedView<P>,
    strokes: Seq<Stroke>,
    picker: Picker,
    vp: ViewportUpdate,
) -> bool {
    match cached.data.raster() {
        Err(fault) => p == Prepared::<Vec<TileSlot<P>>>::Fault(fault),
        Ok(page) => {
            let grid = Grid { page, cells: page_cells(*cached.data), vp, picker };
            if can_tile(grid, strokes, cached.tiles) {
                &&& p matches Prepared::Ready(slots)
                &&& are_view_slots(slots@, grid, strokes, cached.tiles)
            } else {
                p is Stuck
            }
        },
    }
}

/// What rendering the tiles anew that some rows reach into gives.
pub open spec fn update_prepared<P>(
    p: Prepared<Vec<TileSlot<P>>>,
    cached: CachedView<P>,
    spans: Seq<RowSpan>,
    strokes: Seq<Stroke>,
    picker: Picker,
    vp: ViewportUpdate,
) -> bool {
    match cached.data.raster() {
        Err(fault) => p == Prepared::<Vec<TileSlot<P>>>::Fault(fault),
        Ok(page) => {
            let grid = Grid { page, cells: page_cells(*cached.data), vp, picker };
            let indices = touched(spans, grid.step());
            if rows_in_range(spans) && can_update(grid, indices) {
                &&& p matches Prepared::Ready(slots)
                &&& are_update_slots(slots@, grid, indices, strokes)
            } else {
                p is Stuck
            }
        },
    }
}

impl<P> CachedView<P> {
    /// The page after its image was needed: it is at hand, if the page has one.
    pub open spec fn after_use(self) -> Self {
        CachedView {
            decoded: match self.data.raster() {
                Ok(raster) => Some(raster),
                Err(_) => None,
            },
            ..self
        }
    }

    pub open spec fn without_tiles(self) -> Self {
        CachedView { tiles: Map::empty(), ..self }
    }

    pub open spec fn without_image(self) -> Self {
        CachedView { decoded: None, ..self }
    }
}

impl<P> CachedPage<P> {
    /// An image at hand is the page's own.
    pub open spec fn wf(self) -> bool {
        self.decoded matches Some(img) ==> img.wf() && self.data.raster() == Ok::<_, PipelineError>(
            img@,
        )
    }

    /// Hands out the image of the page, which leaves the cache.
    pub fn take_decoded(&mut self) -> (r: Result<PageImage, PipelineError>)
        requires
            old(self).wf(),
        ensures
            final(self).wf(),
            final(self)@ == old(self)@.without_image(),
            match old(self).data.raster() {
                Ok(raster) => r matches Ok(img) && img.wf() && img@ == raster,
                Err(fault) => r matches Err(e) && e == fault,
            },
    {
        match self.decoded.take() {
            Some(img) => Ok(img),
            None => self.data.decode(),
        }
    }

    /// Drops all encoded tiles.
    pub fn clear_tiles(&mut self)
        requires
            old(self).wf(),
        ensures
            final(self).wf(),
            final(self)@ == old(self)@.without_tiles(),
    {
        self.tile_cache.clear();
    }

    /// Drops the image.
    pub fn clear_decoded(&mut self)
        requires
            old(self).wf(),
        ensures
            final(self).wf(),
            final(self)@ == old(self)@.without_image(),
    {
        self.decoded = None;
    }

    /// The tiles in view.
    pub fn render_viewport_tiles(
        &mut self,
        viewport: &ViewportUpdate,
        overlays: &OverlaySet,
        picker: &Picker,
    ) -> (p: Prepared<Vec<TileSlot<P>>>)
        requires
            old(self).wf(),
        ensures
            final(self).wf(),
            final(self)@ == old(self)@.after_use(),
            tiles_prepared(p, old(self)@, overlays.strokes_for_tiles(), *picker, *viewport),
    {
        let img = match self.take_decoded() {
            Ok(img) => img,
            Err(e) => return Prepared::Fault(e),
        };
        let slots = view_slots(
            &img,
            cached_cell_size(&self.data),
            &self.tile_cache,
            viewport,
            overlays,
            picker,
        );
        self.decoded = Some(img);
        match slots {
            Some(slots) => Prepared::Ready(slots),
            None => Prepared::Stuck,
        }
    }

    /// The tiles in view that some rows reach into, to be encoded anew.
    pub fn render_touched_tiles(
        &mut self,
        viewport: &ViewportUpdate,
        spans: &Vec<RowSpan>,
        overlays: &OverlaySet,
        picker: &Picker,
    ) -> (p: Prepared<Vec<TileSlot<P>>>)
        requires
            old(self).wf(),
        ensures
            final(self).wf(),
            final(self)@ == old(self)@.after_use(),
            update_prepared(p, old(self)@, spans@, overlays.strokes_for_tiles(), *picker, *viewport),
    {
        let img = match self.take_decoded() {
            Ok(img) => img,
            Err(e) => return Prepared::Fault(e),
        };
        let cells = cached_cell_size(&self.data);
        let density = pixel_density_for_image(&img, cells, picker);
        let slots = match touched_tiles(spans, density.y) {
            Some(indices) => render_specific_tiles(&img, cells, viewport, &indices, overlays, picker),
            None => None,
        };
        self.decoded = Some(img);
        match slots {
            Some(slots) => Prepared::Ready(slots),
            None => Prepared::Stuck,
        }
    }
}

} // verus!
