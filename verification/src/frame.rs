//! What the converter hands to the display.

use std::sync::Arc;

use vstd::prelude::*;

use crate::geometry::{CellSize, Rect};
use crate::rounding::ScaleFactor;

verus! {

/// A further owner of a shared value.
///
/// Calls `Arc::clone`, which the standard library documents as another pointer
/// to the same allocation: the new owner sees the same value.
#[verifier::external_body]
pub(crate) fn share<T>(value: &Arc<T>) -> (r: Arc<T>)
    ensures
        r == *value,
{
    Arc::clone(value)
}

/// One encoded tile, `y_offset_cells` below the upper edge of the viewport.
pub struct TiledProtocol<P> {
    pub protocol: Arc<P>,
    pub y_offset_cells: u16,
    pub height_cells: u16,
}

/// An encoded image. `P` is an image in some terminal protocol, `K` one for the
/// Kitty protocol.
pub enum ConvertedImage<P, K> {
    /// A whole image, shown on `area`.
    Generic { protocol: P, area: Rect },
    Tiled { tiles: Vec<TiledProtocol<P>>, cell_size: CellSize },
    Kitty { img: K, cell_size: CellSize },
    /// Tiles that replace those of an earlier `Tiled` image.
    TileUpdate { tiles: Vec<TiledProtocol<P>>, cell_size: CellSize },
}

/// An encoded page.
pub struct RenderedFrame<P, K> {
    pub index: usize,
    pub requested_scale: ScaleFactor,
    pub image: ConvertedImage<P, K>,
}

/// The first tile at a height, if there is one.
pub open spec fn first_at<P>(tiles: Seq<TiledProtocol<P>>, y: u16) -> Option<int>
    decreases tiles.len(),
{
    if tiles.len() == 0 {
        None
    } else {
        match first_at(tiles.drop_last(), y) {
            Some(i) => Some(i),
            None => if tiles.last().y_offset_cells == y {
                Some(tiles.len() - 1)
            } else {
                None
            },
        }
    }
}

/// The tiles after one update: it takes the place of the first tile at its
/// height; without such a tile nothing changes.
pub open spec fn tile_replaced<P>(
    tiles: Seq<TiledProtocol<P>>,
    update: TiledProtocol<P>,
) -> Seq<TiledProtocol<P>> {
    match first_at(tiles, update.y_offset_cells) {
        Some(i) => tiles.update(i, update),
        None => tiles,
    }
}

/// The tiles after several updates, one after the other.
pub open spec fn tiles_merged<P>(
    tiles: Seq<TiledProtocol<P>>,
    updates: Seq<TiledProtocol<P>>,
) -> Seq<TiledProtocol<P>>
    decreases updates.len(),
{
    if updates.len() == 0 {
        tiles
    } else {
        tiles_merged(tile_replaced(tiles, updates[0]), updates.drop_first())
    }
}

proof fn lemma_first_at<P>(tiles: Seq<TiledProtocol<P>>, y: u16)
    ensures
        match first_at(tiles, y) {
            Some(i) => 0 <= i < tiles.len() && tiles[i].y_offset_cells == y && forall|j: int|
                0 <= j < i ==> (#[trigger] tiles[j]).y_offset_cells != y,
            None => forall|j: int|
                0 <= j < tiles.len() ==> (#[trigger] tiles[j]).y_offset_cells != y,
        },
    decreases tiles.len(),
{
    if tiles.len() > 0 {
        let rest = tiles.drop_last();
        lemma_first_at(rest, y);
        match first_at(rest, y) {
            Some(i) => {
                assert forall|j: int| 0 <= j < i implies (#[trigger] tiles[j]).y_offset_cells
                    != y by {
                    assert(rest[j].y_offset_cells != y);
                }
            },
            None => {
                assert forall|j: int| 0 <= j < tiles.len() - 1 implies (#[trigger] tiles[j]).y_offset_cells
                    != y by {
                    assert(rest[j].y_offset_cells != y);
                }
            },
        }
    }
}

fn find_tile<P>(tiles: &Vec<TiledProtocol<P>>, y: u16) -> (r: Option<usize>)
    ensures
        match r {
            Some(i) => first_at(tiles@, y) == Some(i as int) && i < tiles.len(),
            None => first_at(tiles@, y) is None,
        },
{
    proof {
        lemma_first_at(tiles@, y);
    }
    let mut i: usize = 0;
    while i < tiles.len()
        invariant
            i <= tiles.len(),
            forall|j: int| 0 <= j < i ==> (#[trigger] tiles@[j]).y_offset_cells != y,
            match first_at(tiles@, y) {
                Some(i) => 0 <= i < tiles.len() && tiles[i].y_offset_cells == y && forall|j: int|
                    0 <= j < i ==> (#[trigger] tiles@[j]).y_offset_cells != y,
                None => forall|j: int|
                    0 <= j < tiles.len() ==> (#[trigger] tiles@[j]).y_offset_cells != y,
            },
        decreases tiles.len() - i,
    {
        if tiles[i].y_offset_cells == y {
            return Some(i);
        }
        i += 1;
    }
    None
}

impl<P, K> ConvertedImage<P, K> {
    /// The extent of the image, in cells.
    pub open spec fn cells(self) -> CellSize {
        match self {
            ConvertedImage::Generic { area, .. } => CellSize {
                width: area.width,
                height: area.height,
            },
            ConvertedImage::Tiled { cell_size, .. } => cell_size,
            ConvertedImage::Kitty { cell_size, .. } => cell_size,
            ConvertedImage::TileUpdate { cell_size, .. } => cell_size,
        }
    }

    #[must_use]
    pub fn cell_dimensions(&self) -> (r: CellSize)
        ensures
            r == self.cells(),
    {
        match self {
            ConvertedImage::Generic { area, .. } => CellSize::from_rect(*area),
            ConvertedImage::Tiled { cell_size, .. } => *cell_size,
            ConvertedImage::TileUpdate { cell_size, .. } => *cell_size,
            ConvertedImage::Kitty { cell_size, .. } => *cell_size,
        }
    }

    /// Puts the tiles of an update in the place of those at the same height.
    /// Only a tiled image takes an update; the result says whether it did.
    pub fn merge_tile_update(&mut self, update: ConvertedImage<P, K>) -> (merged: bool)
        ensures
            merged == ((*old(self)) is Tiled && update is TileUpdate),
            !merged ==> *final(self) == *old(self),
            merged ==> ({
                &&& (*final(self)) is Tiled
                &&& (*final(self))->Tiled_cell_size == (*old(self))->Tiled_cell_size
                &&& (*final(self))->Tiled_tiles@ == tiles_merged(
                    (*old(self))->Tiled_tiles@,
                    update->TileUpdate_tiles@,
                )
            }),
    {
        let ghost tiles_before = (*self)->Tiled_tiles@;
        match self {
            ConvertedImage::Tiled { tiles, cell_size: _ } => match update {
                ConvertedImage::TileUpdate { tiles: updates, cell_size: _ } => {
                    let ghost all = updates@;
                    let mut left: Vec<TiledProtocol<P>> = updates;
                    while left.len() > 0
                        invariant
                            tiles_merged(tiles@, left@) == tiles_merged(tiles_before, all),
                        decreases left.len(),
                    {
                        let ghost now = left@;
                        let tile = left.remove(0);
                        assert(left@ =~= now.drop_first());
                        if let Some(i) = find_tile(tiles, tile.y_offset_cells) {
                            tiles.set(i, tile);
                        }
                    }
                    true
                },
                _ => false,
            },
            _ => false,
        }
    }
}

/// Merging updates neither adds nor moves tiles, whatever the updates are.
pub proof fn law_merging_keeps_the_layout<P>(
    tiles: Seq<TiledProtocol<P>>,
    updates: Seq<TiledProtocol<P>>,
)
    ensures
        tiles_merged(tiles, updates).len() == tiles.len(),
        forall|i: int|
            0 <= i < tiles.len() ==> (#[trigger] tiles_merged(tiles, updates)[i]).y_offset_cells
                == tiles[i].y_offset_cells,
    decreases updates.len(),
{
    if updates.len() > 0 {
        lemma_first_at(tiles, updates[0].y_offset_cells);
        law_merging_keeps_the_layout(tile_replaced(tiles, updates[0]), updates.drop_first());
        assert forall|i: int| 0 <= i < tiles.len() implies (#[trigger] tiles_merged(
            tiles,
            updates,
        )[i]).y_offset_cells == tiles[i].y_offset_cells by {
            assert(tile_replaced(tiles, updates[0])[i].y_offset_cells == tiles[i].y_offset_cells);
        }
    }
}

/// An update shows: where no later update is for the same height, the first
/// tile at its height is the update's.
pub proof fn law_last_update_wins<P>(
    tiles: Seq<TiledProtocol<P>>,
    updates: Seq<TiledProtocol<P>>,
    k: int,
)
    requires
        0 <= k < updates.len(),
        first_at(tiles, updates[k].y_offset_cells) is Some,
        forall|j: int|
            k < j < updates.len() ==> (#[trigger] updates[j]).y_offset_cells
                != updates[k].y_offset_cells,
    ensures
        tiles_merged(tiles, updates)[first_at(tiles, updates[k].y_offset_cells)->0] == updates[k],
    decreases updates.len(),
{
    let y = updates[k].y_offset_cells;
    let next = tile_replaced(tiles, updates[0]);
    lemma_first_at(tiles, y);
    lemma_first_at(tiles, updates[0].y_offset_cells);
    lemma_first_at(next, y);
    let at = first_at(tiles, y)->0;
    assert(forall|j: int| 0 <= j < tiles.len() ==> (#[trigger] next[j]).y_offset_cells == tiles[j].y_offset_cells);
    assert(next[at].y_offset_cells == y);
    assert(first_at(next, y) == Some(at)) by {
        let b = first_at(next, y)->0;
        if b < at {
            assert(tiles[b].y_offset_cells != y);
        } else if at < b {
            assert(next[at].y_offset_cells != y);
        }
    }
    let rest = updates.drop_first();
    if k == 0 {
        lemma_untouched_tile(next, rest, at);
    } else {
        assert(rest[k - 1] == updates[k]);
        assert forall|j: int| k - 1 < j < rest.len() implies (#[trigger] rest[j]).y_offset_cells
            != y by {
            assert(rest[j] == updates[j + 1]);
        }
        law_last_update_wins(next, rest, k - 1);
    }
}

proof fn lemma_untouched_tile<P>(
    tiles: Seq<TiledProtocol<P>>,
    updates: Seq<TiledProtocol<P>>,
    at: int,
)
    requires
        0 <= at < tiles.len(),
        forall|j: int|
            0 <= j < updates.len() ==> (#[trigger] updates[j]).y_offset_cells
                != tiles[at].y_offset_cells,
    ensures
        tiles_merged(tiles, updates)[at] == tiles[at],
    decreases updates.len(),
{
    if updates.len() > 0 {
        lemma_first_at(tiles, updates[0].y_offset_cells);
        let rest = updates.drop_first();
        assert forall|j: int| 0 <= j < rest.len() implies (#[trigger] rest[j]).y_offset_cells
            != tiles[at].y_offset_cells by {
            assert(rest[j] == updates[j + 1]);
        }
        lemma_untouched_tile(tile_replaced(tiles, updates[0]), rest, at);
    }
}

/// Where no update is for a tile's height, the tile stays.
pub proof fn law_other_tiles_stay<P>(
    tiles: Seq<TiledProtocol<P>>,
    updates: Seq<TiledProtocol<P>>,
    i: int,
)
    requires
        0 <= i < tiles.len(),
        forall|k: int|
            0 <= k < updates.len() ==> (#[trigger] updates[k]).y_offset_cells
                != tiles[i].y_offset_cells,
    ensures
        tiles_merged(tiles, updates)[i] == tiles[i],
{
    lemma_untouched_tile(tiles, updates, i);
}

/// An update takes the place of the first tile at its height: where no later
/// update is for that height, that tile is the update's.
pub proof fn law_update_takes_the_first_place<P>(
    tiles: Seq<TiledProtocol<P>>,
    updates: Seq<TiledProtocol<P>>,
    i: int,
    k: int,
)
    requires
        0 <= i < tiles.len(),
        0 <= k < updates.len(),
        updates[k].y_offset_cells == tiles[i].y_offset_cells,
        forall|j: int|
            0 <= j < i ==> (#[trigger] tiles[j]).y_offset_cells != tiles[i].y_offset_cells,
        forall|j: int|
            k < j < updates.len() ==> (#[trigger] updates[j]).y_offset_cells
                != updates[k].y_offset_cells,
    ensures
        tiles_merged(tiles, updates)[i] == updates[k],
{
    lemma_first_at(tiles, updates[k].y_offset_cells);
    law_last_update_wins(tiles, updates, k);
}

/// A tile behind another one at the same height is never replaced.
pub proof fn law_later_tile_at_a_height_stays<P>(
    tiles: Seq<TiledProtocol<P>>,
    updates: Seq<TiledProtocol<P>>,
    i: int,
    j: int,
)
    requires
        0 <= i < j < tiles.len(),
        tiles[i].y_offset_cells == tiles[j].y_offset_cells,
    ensures
        tiles_merged(tiles, updates)[j] == tiles[j],
    decreases updates.len(),
{
    if updates.len() > 0 {
        let next = tile_replaced(tiles, updates[0]);
        lemma_first_at(tiles, updates[0].y_offset_cells);
        assert(next[i].y_offset_cells == tiles[i].y_offset_cells);
        assert(next[j] == tiles[j]);
        law_later_tile_at_a_height_stays(next, updates.drop_first(), i, j);
    }
}

/// A whole image takes up the area that it is shown on; another one what it
/// says.
pub proof fn law_extent_in_cells<P, K>(image: ConvertedImage<P, K>)
    ensures
        image matches ConvertedImage::Generic { area, .. } ==> image.cells().width == area.width
            && image.cells().height == area.height,
        image matches ConvertedImage::Tiled { cell_size, .. } ==> image.cells() == cell_size,
        image matches ConvertedImage::TileUpdate { cell_size, .. } ==> image.cells() == cell_size,
        image matches ConvertedImage::Kitty { cell_size, .. } ==> image.cells() == cell_size,
{
}

} // verus!
