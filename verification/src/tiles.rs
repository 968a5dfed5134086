//! Pages as rows of tiles, one cell high each.
//!
//! Tiles without overlays are kept once encoded, so that scrolling only encodes
//! what comes into view.

use std::collections::HashMap;
use std::sync::Arc;

use vstd::prelude::*;

use crate::frame::share;
#[allow(unused_imports)]
use crate::geometry::{density_of, held_difference, held_product, least, most};
use crate::geometry::{held_mul, lesser, CellSize, Picker, PixelDensity, ProtocolType};
use crate::overlay::{OverlaySet, TileSpan};
#[allow(unused_imports)]
use crate::overlay::{clip_strokes, is_tile_of, lemma_tile_strokes, Stroke};
use crate::page::ViewportUpdate;
use crate::paint::apply_overlays_dynamic;
#[allow(unused_imports)]
use crate::paint::{law_painting_nothing, law_parts_show_the_painted_page, painted};
use crate::pixmap::PageImage;
#[allow(unused_imports)]
use crate::pixmap::{cropped, padded, pads, Raster};
#[allow(unused_imports)]
use crate::render::{density_extent, font_extent};
use crate::render::{
    encode_fixed_area_protocol, pad_to_cell_bounds, pad_to_pixel_cell_bounds,
    pixel_density_for_image, EncodeRequest,
};

verus! {

/// A page as the tiles see it: its pixels, its extent in cells, the part in
/// view and the terminal.
#[verifier::ext_equal]
pub struct Grid {
    pub page: Raster,
    pub cells: CellSize,
    pub vp: ViewportUpdate,
    pub picker: Picker,
}

impl Grid {
    pub open spec fn density(self) -> PixelDensity {
        density_of(self.page.width, self.page.height, self.cells, self.picker)
    }

    /// The height of a tile, in pixels.
    pub open spec fn step(self) -> int {
        self.density().y as int
    }

    /// The number of tiles of the page.
    pub open spec fn tile_count(self) -> int {
        (self.page.height + self.step() - 1) / self.step()
    }

    /// The width of a tile, in cells: that of the page, but no more than is in
    /// view.
    pub open spec fn columns(self) -> u16 {
        least(self.cells.width as int, self.vp.viewport_width_cells as int) as u16
    }

    /// The extent of a tile, in cells.
    pub open spec fn tile_cells(self) -> CellSize {
        CellSize { width: self.columns(), height: 1 }
    }

    /// The part of the page that a tile shows.
    pub open spec fn span(self, index: int) -> TileSpan {
        let d = self.density();
        let w = self.page.width as int;
        let x = least(
            held_product(self.vp.x_offset_cells as int, d.x as int),
            held_difference(w, 1),
        );
        TileSpan {
            x: x as u32,
            width: least(held_product(self.columns() as int, d.x as int), held_difference(w, x)) as u32,
            y: (index * d.y) as u32,
            height: least(d.y as int, self.page.height - index * d.y) as u32,
        }
    }

    /// The extent of a tile's image, in pixels.
    pub open spec fn tile_extent(self) -> (int, int) {
        if self.picker.protocol == ProtocolType::Iterm2 {
            density_extent(self.tile_cells(), self.density())
        } else {
            font_extent(self.tile_cells(), self.picker)
        }
    }

    /// A tile's part of the page.
    pub open spec fn part(self, index: int) -> Raster {
        let s = self.span(index);
        cropped(self.page, s.x as int, s.y as int, s.width as int, s.height as int)
    }

    /// The image of a tile, with its overlays.
    pub open spec fn picture(self, index: int, strokes: Seq<Stroke>) -> Raster {
        let (w, h) = self.tile_extent();
        padded(painted(self.part(index), clip_strokes(strokes, self.span(index))), w, h)
    }

    /// Whether a tile's image can be made: a tile without pixels cannot be
    /// padded.
    pub open spec fn can_picture(self, index: int) -> bool {
        let (w, h) = self.tile_extent();
        pads(self.part(index), w, h)
    }

    /// Whether nothing is drawn over a tile.
    pub open spec fn is_plain(self, index: int, strokes: Seq<Stroke>) -> bool {
        clip_strokes(strokes, self.span(index)).len() == 0
    }

    /// How many tiles are in view.
    pub open spec fn shown(self) -> int {
        most(
            least(
                self.vp.viewport_height_cells as int,
                self.tile_count() - self.vp.y_offset_cells,
            ),
            0,
        )
    }

    pub proof fn lemma_step(self)
        ensures
            self.step() >= 1,
            self.density().x >= 1,
            self.tile_count() >= 0,
            forall|i: int| 0 <= i < self.tile_count() <==> 0 <= i && #[trigger] (i * self.step())
                < self.page.height,
    {
        let (h, c) = (self.page.height as int, self.cells.height as int);
        let (w, b) = (self.page.width as int, self.cells.width as int);
        if c > 0 {
            assert(0 <= h / c <= h) by (nonlinear_arith)
                requires
                    c > 0,
                    h >= 0,
            ;
        }
        if b > 0 {
            assert(0 <= w / b <= w) by (nonlinear_arith)
                requires
                    b > 0,
                    w >= 0,
            ;
        }
        let d = self.step();
        assert(d >= 1);
        let n = self.tile_count();
        let top = h + d - 1;
        vstd::arithmetic::div_mod::lemma_fundamental_div_mod(top, d);
        assert(n >= 0) by (nonlinear_arith)
            requires
                n == top / d,
                top >= 0,
                d >= 1,
        ;
        assert forall|i: int| 0 <= i < n <==> 0 <= i && #[trigger] (i * d) < h by {
            if 0 <= i < n {
                assert(i * d <= h - 1) by (nonlinear_arith)
                    requires
                        i + 1 <= n,
                        d * n <= h + d - 1,
                        d >= 1,
                ;
            }
            if 0 <= i && i * d < h {
                assert(i < n) by (nonlinear_arith)
                    requires
                        i * d < h,
                        h + d - 1 == d * n + top % d,
                        top % d < d,
                        d >= 1,
                ;
            }
        }
    }

    /// The tile's part lies inside the page.
    pub proof fn lemma_span(self, index: int)
        requires
            0 <= index < self.tile_count(),
        ensures
            self.span(index).y as int == index * self.step(),
            1 <= self.span(index).height <= self.step(),
            self.span(index).y + self.span(index).height <= self.page.height,
            self.span(index).x + self.span(index).width <= self.page.width,
            index < self.page.height,
    {
        self.lemma_step();
        let d = self.step();
        assert(index * d < self.page.height);
        assert(index <= index * d) by (nonlinear_arith)
            requires
                index >= 0,
                d >= 1,
        ;
        let dx = self.density().x as int;
        let c = self.columns() as int;
        assert(c * dx >= 0) by (nonlinear_arith)
            requires
                c >= 0,
                dx >= 1,
        ;
        let o = self.vp.x_offset_cells as int;
        assert(o * dx >= 0) by (nonlinear_arith)
            requires
                o >= 0,
                dx >= 1,
        ;
    }
}

/// Where a tile's encoding comes from.
pub enum TileSource<P> {
    /// It was encoded before.
    Kept { protocol: Arc<P> },
    /// It is to be encoded; `keep` says whether it can be used again.
    Fresh { request: EncodeRequest, keep: bool },
}

/// A tile in view.
pub struct TileSlot<P> {
    pub index: u32,
    pub y_offset_cells: u16,
    pub height_cells: u16,
    pub source: TileSource<P>,
}

impl<P> TileSlot<P> {
    /// The slot places a tile of the grid.
    pub open spec fn places(self, grid: Grid, index: int) -> bool {
        &&& self.index == index
        &&& self.y_offset_cells == index - grid.vp.y_offset_cells
        &&& self.height_cells == 1
    }

    /// The slot asks for the tile's image.
    pub open spec fn asks(self, grid: Grid, index: int, strokes: Seq<Stroke>, keep: bool) -> bool {
        &&& self.source matches TileSource::Fresh { request, keep: k }
        &&& request.asks(grid.picture(index, strokes), grid.tile_cells(), grid.picker)
        &&& k == keep
    }
}

/// Whether a tile in view has to be encoded.
pub open spec fn needs_encoding<P>(
    grid: Grid,
    index: int,
    strokes: Seq<Stroke>,
    kept: Map<u32, Arc<P>>,
) -> bool {
    !grid.is_plain(index, strokes) || !kept.contains_key(index as u32)
}

/// Whether all tiles in view that have to be encoded can be.
pub open spec fn can_tile<P>(grid: Grid, strokes: Seq<Stroke>, kept: Map<u32, Arc<P>>) -> bool {
    forall|index: int|
        grid.vp.y_offset_cells <= index < grid.vp.y_offset_cells + grid.shown() && needs_encoding(
            grid,
            index,
            strokes,
            kept,
        ) ==> #[trigger] grid.can_picture(index)
}

/// The slot of a tile in view: an encoding kept from before if nothing is drawn
/// over the tile, otherwise a request for one.
pub open spec fn is_view_slot<P>(
    slot: TileSlot<P>,
    grid: Grid,
    index: int,
    strokes: Seq<Stroke>,
    kept: Map<u32, Arc<P>>,
) -> bool {
    &&& slot.places(grid, index)
    &&& if needs_encoding(grid, index, strokes, kept) {
        slot.asks(grid, index, strokes, grid.is_plain(index, strokes))
    } else {
        slot.source == (TileSource::Kept { protocol: kept[index as u32] })
    }
}

/// The slots of all tiles in view, from the top.
pub open spec fn are_view_slots<P>(
    slots: Seq<TileSlot<P>>,
    grid: Grid,
    strokes: Seq<Stroke>,
    kept: Map<u32, Arc<P>>,
) -> bool {
    &&& slots.len() == grid.shown()
    &&& forall|k: int|
        0 <= k < slots.len() ==> is_view_slot(
            #[trigger] slots[k],
            grid,
            grid.vp.y_offset_cells + k,
            strokes,
            kept,
        )
}

/// The part of a page that a tile shows.
fn tile_span(
    img: &PageImage,
    cells: CellSize,
    vp: &ViewportUpdate,
    picker: &Picker,
    density: PixelDensity,
    index: u32,
) -> (r: TileSpan)
    requires
        density == (Grid { page: img@, cells, vp: *vp, picker: *picker }).density(),
        index < (Grid { page: img@, cells, vp: *vp, picker: *picker }).tile_count(),
    ensures
        r == (Grid { page: img@, cells, vp: *vp, picker: *picker }).span(index as int),
{
    let ghost grid = Grid { page: img@, cells, vp: *vp, picker: *picker };
    proof {
        grid.lemma_step();
        grid.lemma_span(index as int);
    }
    let columns: u16 = tile_columns(cells, vp);
    let y: u32 = index * density.y;
    let x: u32 = lesser(held_mul(vp.x_offset_cells, density.x), img.width.saturating_sub(1));
    let width: u32 = lesser(held_mul(columns as u32, density.x), img.width.saturating_sub(x));
    TileSpan { x, width, y, height: lesser(density.y, img.height - y) }
}

fn tile_columns(cells: CellSize, vp: &ViewportUpdate) -> (r: u16)
    ensures
        r as int == least(cells.width as int, vp.viewport_width_cells as int),
{
    if cells.width <= vp.viewport_width_cells {
        cells.width
    } else {
        vp.viewport_width_cells
    }
}

/// The request for a tile's image, unless the tile cannot be padded.
fn tile_request(
    img: &PageImage,
    cells: CellSize,
    vp: &ViewportUpdate,
    picker: &Picker,
    density: PixelDensity,
    span: TileSpan,
    local: &OverlaySet,
    Ghost(whole): Ghost<OverlaySet>,
    Ghost(index): Ghost<int>,
) -> (r: Option<EncodeRequest>)
    requires
        img.wf(),
        density == (Grid { page: img@, cells, vp: *vp, picker: *picker }).density(),
        span == (Grid { page: img@, cells, vp: *vp, picker: *picker }).span(index),
        is_tile_of(*local, whole, span),
    ensures
        ({
            let grid = Grid { page: img@, cells, vp: *vp, picker: *picker };
            match r {
                Some(request) => grid.can_picture(index) && request.asks(
                    grid.picture(index, whole.strokes_for_tiles()),
                    grid.tile_cells(),
                    *picker,
                ),
                None => !grid.can_picture(index),
            }
        }),
{
    let ghost grid = Grid { page: img@, cells, vp: *vp, picker: *picker };
    let mut tile = img.crop_imm(span.x, span.y, span.width, span.height);
    proof {
        lemma_tile_strokes(*local, whole, span);
        tile.lemma_view_wf();
        law_painting_nothing(tile@);
    }
    if !local.is_empty() {
        apply_overlays_dynamic(&mut tile, local);
    } else {
        assert(local.strokes() =~= Seq::empty());
    }
    assert(tile@ == painted(grid.part(index), clip_strokes(whole.strokes_for_tiles(), span)));
    let tile_cells = CellSize::new(tile_columns(cells, vp), 1);
    let (w, h) = if picker.protocol == ProtocolType::Iterm2 {
        (held_mul(tile_cells.width as u32, density.x), held_mul(1, density.y))
    } else {
        proof {
            assert(tile_cells.width as int * picker.font_width as int <= 0xffff * 0xffff)
                by (nonlinear_arith)
                requires
                    0 <= tile_cells.width <= 0xffff,
                    0 <= picker.font_width <= 0xffff,
            ;
        }
        (tile_cells.width as u32 * picker.font_width as u32, picker.font_height as u32)
    };
    assert((w as int, h as int) == grid.tile_extent());
    if !(tile.width == w && tile.height == h) && !(tile.width > 0 && tile.height > 0) {
        return None;
    }
    let tile = if picker.protocol == ProtocolType::Iterm2 {
        pad_to_pixel_cell_bounds(tile, tile_cells, density)
    } else {
        pad_to_cell_bounds(tile, tile_cells, picker)
    };
    Some(encode_fixed_area_protocol(tile, tile_cells, picker))
}

/// The slots of the tiles in view, unless one of them cannot be padded.
pub fn view_slots<P>(
    img: &PageImage,
    cells: CellSize,
    kept: &HashMap<u32, Arc<P>>,
    vp: &ViewportUpdate,
    overlays: &OverlaySet,
    picker: &Picker,
) -> (r: Option<Vec<TileSlot<P>>>)
    requires
        img.wf(),
    ensures
        ({
            let grid = Grid { page: img@, cells, vp: *vp, picker: *picker };
            match r {
                Some(slots) => can_tile(grid, overlays.strokes_for_tiles(), kept@) && are_view_slots(
                    slots@,
                    grid,
                    overlays.strokes_for_tiles(),
                    kept@,
                ),
                None => !can_tile(grid, overlays.strokes_for_tiles(), kept@),
            }
        }),
{
    broadcast use vstd::std_specs::hash::group_hash_axioms;

    let ghost grid = Grid { page: img@, cells, vp: *vp, picker: *picker };
    let ghost strokes = overlays.strokes_for_tiles();
    let density = pixel_density_for_image(img, cells, picker);
    proof {
        grid.lemma_step();
    }
    let tile_count: u64 = (img.height as u64 + density.y as u64 - 1) / density.y as u64;
    assert(tile_count == grid.tile_count());
    let mut slots: Vec<TileSlot<P>> = Vec::new();
    let mut k: u16 = 0;
    while k < vp.viewport_height_cells && vp.y_offset_cells as u64 + (k as u64) < tile_count
        invariant
            k <= vp.viewport_height_cells,
            img.wf(),
            strokes == overlays.strokes_for_tiles(),
            grid == (Grid { page: img@, cells, vp: *vp, picker: *picker }),
            density == grid.density(),
            tile_count == grid.tile_count(),
            k == 0 || vp.y_offset_cells + k <= tile_count,
            slots@.len() == k,
            forall|i: int|
                0 <= i < k ==> is_view_slot(
                    #[trigger] slots@[i],
                    grid,
                    grid.vp.y_offset_cells + i,
                    strokes,
                    kept@,
                ),
            forall|index: int|
                grid.vp.y_offset_cells <= index < grid.vp.y_offset_cells + k && needs_encoding(
                    grid,
                    index,
                    strokes,
                    kept@,
                ) ==> #[trigger] grid.can_picture(index),
        decreases vp.viewport_height_cells - k,
    {
        proof {
            grid.lemma_step();
            grid.lemma_span(vp.y_offset_cells + k);
        }
        let index: u32 = vp.y_offset_cells + k as u32;
        let span = tile_span(img, cells, vp, picker, density, index);
        let local = overlays.for_tile(span.x, span.width, span.y, span.height);
        let plain = local.is_empty();
        proof {
            lemma_tile_strokes(local, *overlays, span);
        }
        assert(plain == grid.is_plain(index as int, strokes));
        let found: Option<&Arc<P>> = if plain {
            kept.get(&index)
        } else {
            None
        };
        let source = match found {
            Some(protocol) => TileSource::Kept { protocol: share(protocol) },
            None => {
                let request = tile_request(
                    img,
                    cells,
                    vp,
                    picker,
                    density,
                    span,
                    &local,
                    Ghost(*overlays),
                    Ghost(index as int),
                );
                match request {
                    Some(request) => TileSource::Fresh { request, keep: plain },
                    None => {
                        assert(needs_encoding(grid, index as int, strokes, kept@));
                        assert(!grid.can_picture(index as int));
                        return None;
                    },
                }
            },
        };
        slots.push(TileSlot { index, y_offset_cells: k, height_cells: 1, source });
        k += 1;
    }
    Some(slots)
}

// Updating some tiles.

/// Some rows of a page, in pixels.
#[derive(Clone, Copy, Debug, PartialEq, Eq, Structural)]
pub struct RowSpan {
    pub y: u32,
    pub height: u32,
}

/// `list` with the numbers from `low` to below `high` that it lacks, in order.
pub open spec fn with_missing(list: Seq<u32>, low: int, high: int) -> Seq<u32>
    decreases high - low,
{
    if low >= high {
        list
    } else {
        let rest = with_missing(list, low, high - 1);
        if rest.contains((high - 1) as u32) {
            rest
        } else {
            rest.push((high - 1) as u32)
        }
    }
}

/// The tiles that some rows reach into, each once, in order of appearance.
pub open spec fn touched(spans: Seq<RowSpan>, step: int) -> Seq<u32>
    decreases spans.len(),
{
    if spans.len() == 0 {
        Seq::empty()
    } else {
        let s = spans.last();
        with_missing(
            touched(spans.drop_last(), step),
            s.y as int / step,
            (s.y + s.height + step - 1) / step,
        )
    }
}

/// Whether all rows lie at coordinates.
pub open spec fn rows_in_range(spans: Seq<RowSpan>) -> bool {
    forall|i: int| 0 <= i < spans.len() ==> (#[trigger] spans[i]).y + spans[i].height <= u32::MAX
}

fn holds(list: &Vec<u32>, n: u32) -> (r: bool)
    ensures
        r == list@.contains(n),
{
    let mut i: usize = 0;
    while i < list.len()
        invariant
            i <= list.len(),
            forall|j: int| 0 <= j < i ==> list@[j] != n,
        decreases list.len() - i,
    {
        if list[i] == n {
            assert(list@[i as int] == n);
            return true;
        }
        i += 1;
    }
    false
}

/// The tiles that some rows reach into, unless the rows end beyond the largest
/// coordinate.
pub fn touched_tiles(spans: &Vec<RowSpan>, step: u32) -> (r: Option<Vec<u32>>)
    requires
        step >= 1,
    ensures
        match r {
            Some(list) => rows_in_range(spans@) && list@ == touched(spans@, step as int),
            None => !rows_in_range(spans@),
        },
{
    let mut list: Vec<u32> = Vec::new();
    let mut i: usize = 0;
    assert(spans@.take(0) =~= Seq::empty());
    while i < spans.len()
        invariant
            step >= 1,
            i <= spans.len(),
            list@ == touched(spans@.take(i as int), step as int),
            forall|j: int|
                0 <= j < i ==> (#[trigger] spans@[j]).y + spans@[j].height <= u32::MAX,
        decreases spans.len() - i,
    {
        let span = spans[i];
        proof {
            assert(spans@.take(i as int + 1).drop_last() =~= spans@.take(i as int));
        }
        let ghost before = list@;
        let end: u32 = match span.y.checked_add(span.height) {
            Some(end) => end,
            None => {
                assert(spans@[i as int].y + spans@[i as int].height > u32::MAX);
                return None;
            },
        };
        let low: u32 = span.y / step;
        let high: u64 = (end as u64 + step as u64 - 1) / step as u64;
        assert(high <= end) by (nonlinear_arith)
            requires
                high == (end + step - 1) as int / step as int,
                step >= 1,
                end >= 0,
        ;
        let mut index: u64 = low as u64;
        while index < high
            invariant
                low <= index,
                high <= u32::MAX,
                index <= high || index == low,
                list@ == with_missing(before, low as int, index as int),
            decreases high - index,
        {
            if !holds(&list, index as u32) {
                list.push(index as u32);
            }
            index += 1;
        }
        assert(with_missing(before, low as int, index as int) == with_missing(
            before,
            low as int,
            high as int,
        ));
        i += 1;
    }
    assert(spans@.take(i as int) =~= spans@);
    Some(list)
}

/// Whether a tile is in view.
pub open spec fn in_view_tile(grid: Grid, index: int) -> bool {
    &&& index < grid.tile_count()
    &&& grid.vp.y_offset_cells <= index < grid.vp.y_offset_cells + grid.vp.viewport_height_cells
}

/// The tiles of a list that are in view, in order.
pub open spec fn those_in_view(grid: Grid, indices: Seq<u32>) -> Seq<u32> {
    indices.filter(|index: u32| in_view_tile(grid, index as int))
}

/// Whether all tiles of a list that are in view can be encoded.
pub open spec fn can_update(grid: Grid, indices: Seq<u32>) -> bool {
    forall|i: int|
        #![trigger indices[i]]
        0 <= i < indices.len() && in_view_tile(grid, indices[i] as int) ==> grid.can_picture(
            indices[i] as int,
        )
}

/// The slots of the listed tiles that are in view. All are encoded anew, and
/// none is kept.
pub open spec fn are_update_slots<P>(
    slots: Seq<TileSlot<P>>,
    grid: Grid,
    indices: Seq<u32>,
    strokes: Seq<Stroke>,
) -> bool {
    let list = those_in_view(grid, indices);
    &&& slots.len() == list.len()
    &&& forall|k: int|
        0 <= k < slots.len() ==> (#[trigger] slots[k]).places(grid, list[k] as int)
            && slots[k].asks(grid, list[k] as int, strokes, false)
}

/// The slots of some tiles, as far as they are in view, unless one of them
/// cannot be padded.
pub fn render_specific_tiles<P>(
    img: &PageImage,
    cells: CellSize,
    vp: &ViewportUpdate,
    indices: &Vec<u32>,
    overlays: &OverlaySet,
    picker: &Picker,
) -> (r: Option<Vec<TileSlot<P>>>)
    requires
        img.wf(),
    ensures
        ({
            let grid = Grid { page: img@, cells, vp: *vp, picker: *picker };
            match r {
                Some(slots) => can_update(grid, indices@) && are_update_slots(
                    slots@,
                    grid,
                    indices@,
                    overlays.strokes_for_tiles(),
                ),
                None => !can_update(grid, indices@),
            }
        }),
{
    let ghost grid = Grid { page: img@, cells, vp: *vp, picker: *picker };
    let ghost strokes = overlays.strokes_for_tiles();
    let ghost wanted = |index: u32| in_view_tile(grid, index as int);
    let density = pixel_density_for_image(img, cells, picker);
    proof {
        grid.lemma_step();
    }
    let tile_count: u64 = (img.height as u64 + density.y as u64 - 1) / density.y as u64;
    let mut slots: Vec<TileSlot<P>> = Vec::new();
    let mut i: usize = 0;
    assert(indices@.take(0).filter(wanted) =~= Seq::empty()) by {
        reveal(Seq::filter);
        assert(indices@.take(0) =~= Seq::empty());
    }
    while i < indices.len()
        invariant
            i <= indices.len(),
            img.wf(),
            strokes == overlays.strokes_for_tiles(),
            grid == (Grid { page: img@, cells, vp: *vp, picker: *picker }),
            wanted == |index: u32| in_view_tile(grid, index as int),
            density == grid.density(),
            tile_count == grid.tile_count(),
            slots@.len() == indices@.take(i as int).filter(wanted).len(),
            forall|k: int|
                0 <= k < slots@.len() ==> (#[trigger] slots@[k]).places(
                    grid,
                    indices@.take(i as int).filter(wanted)[k] as int,
                ) && slots@[k].asks(
                    grid,
                    indices@.take(i as int).filter(wanted)[k] as int,
                    strokes,
                    false,
                ),
            forall|j: int|
                #![trigger indices@[j]]
                0 <= j < i && in_view_tile(grid, indices@[j] as int) ==> grid.can_picture(
                    indices@[j] as int,
                ),
        decreases indices.len() - i,
    {
        let index: u32 = indices[i];
        proof {
            assert(indices@.take(i as int + 1) =~= indices@.take(i as int).push(index));
            indices@.take(i as int).lemma_filter_push(index, wanted);
        }
        let end: u64 = vp.y_offset_cells as u64 + vp.viewport_height_cells as u64;
        if (index as u64) < tile_count && vp.y_offset_cells <= index && (index as u64) < end {
            let span = tile_span(img, cells, vp, picker, density, index);
            let local = overlays.for_tile(span.x, span.width, span.y, span.height);
            let request = tile_request(
                img,
                cells,
                vp,
                picker,
                density,
                span,
                &local,
                Ghost(*overlays),
                Ghost(index as int),
            );
            match request {
                Some(request) => {
                    slots.push(
                        TileSlot {
                            index,
                            y_offset_cells: (index - vp.y_offset_cells) as u16,
                            height_cells: 1,
                            source: TileSource::Fresh { request, keep: false },
                        },
                    );
                },
                None => {
                    assert(in_view_tile(grid, indices@[i as int] as int));
                    return None;
                },
            }
        }
        i += 1;
    }
    assert(indices@.take(i as int) =~= indices@);
    Some(slots)
}

// Laws.

/// Tiles show the painted page: whatever is drawn, the image of a tile is the
/// tile's part of the page with everything drawn over it.
pub proof fn law_tile_shows_the_painted_page(grid: Grid, index: int, strokes: Seq<Stroke>)
    requires
        grid.page.wf(),
        0 <= index < grid.tile_count(),
    ensures
        ({
            let s = grid.span(index);
            let (w, h) = grid.tile_extent();
            grid.picture(index, strokes) == padded(
                cropped(
                    painted(grid.page, strokes),
                    s.x as int,
                    s.y as int,
                    s.width as int,
                    s.height as int,
                ),
                w,
                h,
            )
        }),
{
    grid.lemma_span(index);
    law_parts_show_the_painted_page(grid.page, strokes, grid.span(index));
}

/// An encoding that was kept stays right: the image of a plain tile does not
/// depend on what is drawn elsewhere on the page, nor on how far the view is
/// scrolled down.
pub proof fn law_plain_tile_keeps_its_picture(
    grid: Grid,
    other: Grid,
    index: int,
    strokes: Seq<Stroke>,
    others: Seq<Stroke>,
)
    requires
        other.page == grid.page,
        other.cells == grid.cells,
        other.picker == grid.picker,
        other.vp.x_offset_cells == grid.vp.x_offset_cells,
        other.vp.viewport_width_cells == grid.vp.viewport_width_cells,
        grid.is_plain(index, strokes),
        other.is_plain(index, others),
    ensures
        other.picture(index, others) == grid.picture(index, strokes),
        other.tile_cells() == grid.tile_cells(),
{
    assert(other.span(index) == grid.span(index));
    assert(clip_strokes(strokes, grid.span(index)) =~= Seq::<Stroke>::empty());
    assert(clip_strokes(others, grid.span(index)) =~= Seq::<Stroke>::empty());
}

/// Every row of a page lies in one tile and no other.
pub proof fn law_tiles_partition_the_rows(grid: Grid, y: int)
    requires
        0 <= y < grid.page.height,
    ensures
        ({
            let index = y / grid.step();
            let s = grid.span(index);
            &&& 0 <= index < grid.tile_count()
            &&& s.y <= y < s.y + s.height
            &&& forall|i: int|
                #![trigger grid.span(i)]
                0 <= i < grid.tile_count() && grid.span(i).y <= y < grid.span(i).y + grid.span(
                    i,
                ).height ==> i == index
        }),
{
    grid.lemma_step();
    let d = grid.step();
    let index = y / d;
    vstd::arithmetic::div_mod::lemma_fundamental_div_mod(y, d);
    assert(index >= 0) by (nonlinear_arith)
        requires
            index == y / d,
            y >= 0,
            d >= 1,
    ;
    assert(index * d == d * index) by (nonlinear_arith);
    assert(index * d < grid.page.height);
    grid.lemma_span(index);
    assert forall|i: int|
        #![trigger grid.span(i)]
        0 <= i < grid.tile_count() && grid.span(i).y <= y < grid.span(i).y + grid.span(
            i,
        ).height implies i == index by {
        grid.lemma_span(i);
        assert(i == index) by (nonlinear_arith)
            requires
                i * d <= y,
                y < i * d + d,
                index * d <= y,
                y < index * d + d,
                d >= 1,
        ;
    }
}

/// Tiles in view lie one below the other, from the top of the view, one cell
/// each.
pub proof fn law_view_slots_are_stacked<P>(
    slots: Seq<TileSlot<P>>,
    grid: Grid,
    strokes: Seq<Stroke>,
    kept: Map<u32, Arc<P>>,
    k: int,
)
    requires
        are_view_slots(slots, grid, strokes, kept),
        0 <= k < slots.len(),
    ensures
        slots[k].y_offset_cells == k,
        slots[k].height_cells == 1,
        slots[k].index == grid.vp.y_offset_cells + k,
        slots.len() <= grid.vp.viewport_height_cells,
{
}

proof fn lemma_with_missing(list: Seq<u32>, low: int, high: int)
    requires
        0 <= low,
        high <= u32::MAX,
        list.no_duplicates(),
    ensures
        with_missing(list, low, high).no_duplicates(),
        forall|n: u32| #[trigger]
            with_missing(list, low, high).contains(n) <==> list.contains(n) || low <= n < high,
    decreases high - low,
{
    if low < high {
        lemma_with_missing(list, low, high - 1);
        let rest = with_missing(list, low, high - 1);
        let last = (high - 1) as u32;
        let out = with_missing(list, low, high);
        if !rest.contains(last) {
            assert forall|n: u32| #[trigger] out.contains(n) <==> list.contains(n) || low <= n
                < high by {
                if rest.contains(n) {
                    let i = choose|i: int| 0 <= i < rest.len() && rest[i] == n;
                    assert(out[i] == n);
                }
                if n == last {
                    assert(out[rest.len() as int] == n);
                }
                if out.contains(n) && n != last {
                    let i = choose|i: int| 0 <= i < out.len() && out[i] == n;
                    assert(rest[i] == n);
                }
            }
        } else {
            assert forall|n: u32| #[trigger] out.contains(n) <==> list.contains(n) || low <= n
                < high by {
                assert(rest.contains(n) <==> list.contains(n) || low <= n < high - 1);
            }
        }
    }
}

/// A change of some rows touches each tile that the rows reach into, once, and
/// no other.
pub proof fn law_touched_tiles(spans: Seq<RowSpan>, step: int)
    requires
        step >= 1,
        rows_in_range(spans),
    ensures
        touched(spans, step).no_duplicates(),
        forall|n: u32| #[trigger]
            touched(spans, step).contains(n) <==> exists|i: int|
                0 <= i < spans.len() && (#[trigger] spans[i]).y as int / step <= n < (spans[i].y
                    + spans[i].height + step - 1) / step,
    decreases spans.len(),
{
    if spans.len() > 0 {
        let rest = spans.drop_last();
        assert forall|i: int| 0 <= i < rest.len() implies (#[trigger] rest[i]).y + rest[i].height
            <= u32::MAX by {
            assert(rest[i] == spans[i]);
        }
        law_touched_tiles(rest, step);
        let s = spans.last();
        let (low, high) = (s.y as int / step, (s.y + s.height + step - 1) / step);
        assert(low >= 0) by (nonlinear_arith)
            requires
                low == s.y as int / step,
                step >= 1,
        ;
        assert(high <= s.y + s.height) by (nonlinear_arith)
            requires
                high == (s.y + s.height + step - 1) / step,
                step >= 1,
                s.y + s.height >= 0,
        ;
        lemma_with_missing(touched(rest, step), low, high);
        assert forall|n: u32| #[trigger] touched(spans, step).contains(n) <==> exists|i: int|
            0 <= i < spans.len() && (#[trigger] spans[i]).y as int / step <= n < (spans[i].y
                + spans[i].height + step - 1) / step by {
            if touched(rest, step).contains(n) {
                let i = choose|i: int|
                    0 <= i < rest.len() && (#[trigger] rest[i]).y as int / step <= n < (rest[i].y
                        + rest[i].height + step - 1) / step;
                assert(spans[i] == rest[i]);
            }
            if low <= n < high {
                assert(spans[spans.len() - 1] == s);
            }
            if exists|i: int|
                0 <= i < spans.len() && (#[trigger] spans[i]).y as int / step <= n < (spans[i].y
                    + spans[i].height + step - 1) / step {
                let i = choose|i: int|
                    0 <= i < spans.len() && (#[trigger] spans[i]).y as int / step <= n < (
                    spans[i].y + spans[i].height + step - 1) / step;
                if i < rest.len() {
                    assert(rest[i] == spans[i]);
                    assert(touched(rest, step).contains(n));
                }
            }
        }
    }
}

} // verus!
