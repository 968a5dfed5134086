//! Figures for the log.

use vstd::prelude::*;

use crate::engine::ConverterEngine;
#[allow(unused_imports)]
use crate::cache::CachedView;
#[allow(unused_imports)]
use crate::geometry::{held_difference, least};
#[allow(unused_imports)]
use crate::state::EngineState;

verus! {

/// How much the converter holds in memory.
#[derive(Clone, Copy, Debug, PartialEq, Eq, Structural)]
pub struct MemoryStats {
    pub cached_pages: usize,
    pub pixel_bytes: u128,
    pub decoded_count: usize,
    pub tile_cache_count: u128,
    pub sent_count: usize,
}

/// Pages, bytes, images and tiles at hand.
pub struct Tally {
    pub pages: int,
    pub bytes: int,
    pub images: int,
    pub tiles: int,
}

/// What the pages at hand amount to.
pub open spec fn tally<P>(cache: Seq<Option<CachedView<P>>>) -> Tally
    decreases cache.len(),
{
    if cache.len() == 0 {
        Tally { pages: 0, bytes: 0, images: 0, tiles: 0 }
    } else {
        let rest = tally(cache.drop_last());
        match cache.last() {
            Some(c) => Tally {
                pages: rest.pages + 1,
                bytes: rest.bytes + c.data.pixels@.len(),
                images: rest.images + if c.decoded is Some {
                    1int
                } else {
                    0
                },
                tiles: rest.tiles + c.tiles.len(),
            },
            None => rest,
        }
    }
}

/// What is known of a page near the current one.
#[derive(Clone, Copy, Debug, PartialEq, Eq, Structural)]
pub struct PageStatus {
    pub page: usize,
    pub cached: bool,
    pub has_pixels: bool,
    pub has_decoded: bool,
    pub sent: bool,
}

/// The status of a page. Of a page that is not at hand nothing else is said.
pub open spec fn status<P>(state: EngineState<P>, page: usize) -> PageStatus {
    match state.cached(page) {
        Some(c) => PageStatus {
            page,
            cached: true,
            has_pixels: c.data.pixels@.len() > 0,
            has_decoded: c.decoded is Some,
            sent: state.sent.contains(page),
        },
        None => PageStatus {
            page,
            cached: false,
            has_pixels: false,
            has_decoded: false,
            sent: false,
        },
    }
}

/// The first page near a page, and the page behind the last one.
pub open spec fn nearby(page: usize, pages: nat) -> (int, int) {
    (held_difference(page as int, 5), least(page + 5, pages as int))
}

/// A page is near another one if it exists and lies at most five before it or
/// four behind it.
pub proof fn law_nearby_pages(page: usize, pages: nat, p: int)
    requires
        p >= 0,
    ensures
        nearby(page, pages).0 <= p < nearby(page, pages).1 <==> p < pages && page - 5 <= p <= page + 4,
{
}

impl<P> ConverterEngine<P> {
    pub fn memory_stats(&self) -> (r: MemoryStats)
        requires
            self.wf(),
        ensures
            r.cached_pages == tally(self@.cache).pages,
            r.pixel_bytes == tally(self@.cache).bytes,
            r.decoded_count == tally(self@.cache).images,
            r.tile_cache_count == tally(self@.cache).tiles,
            r.sent_count == self@.sent.len(),
    {
        broadcast use vstd::std_specs::hash::group_hash_axioms;

        let ghost cache = self@.cache;
        let mut r = MemoryStats {
            cached_pages: 0,
            pixel_bytes: 0,
            decoded_count: 0,
            tile_cache_count: 0,
            sent_count: self.sent_for_viewport.len(),
        };
        let mut i: usize = 0;
        assert(cache.take(0) =~= Seq::empty());
        while i < self.page_cache.len()
            invariant
                self.wf(),
                cache == self@.cache,
                i <= self.page_cache@.len(),
                r.cached_pages == tally(cache.take(i as int)).pages,
                r.pixel_bytes == tally(cache.take(i as int)).bytes,
                r.decoded_count == tally(cache.take(i as int)).images,
                r.tile_cache_count == tally(cache.take(i as int)).tiles,
                r.sent_count == self@.sent.len(),
                r.cached_pages <= i,
                r.decoded_count <= i,
                r.pixel_bytes <= i * 0xffff_ffff_ffff_ffff,
                r.tile_cache_count <= i * 0xffff_ffff_ffff_ffff,
            decreases self.page_cache.len() - i,
        {
            proof {
                assert(cache.take(i as int + 1).drop_last() =~= cache.take(i as int));
                assert(cache.take(i as int + 1).last() == cache[i as int]);
            }
            if let Some(cached) = &self.page_cache[i] {
                let bytes: usize = cached.data.pixels.len();
                let tiles: usize = cached.tile_cache.len();
                r.cached_pages = r.cached_pages + 1;
                r.pixel_bytes = r.pixel_bytes + bytes as u128;
                if cached.decoded.is_some() {
                    r.decoded_count = r.decoded_count + 1;
                }
                r.tile_cache_count = r.tile_cache_count + tiles as u128;
            }
            i += 1;
        }
        assert(cache.take(i as int) =~= cache);
        r
    }

    /// The pages that wait to be rendered.
    pub fn queued_pages(&self) -> (pages: Vec<usize>)
        ensures
            forall|i: int, j: int| 0 <= i < j < pages@.len() ==> pages@[i] < pages@[j],
            forall|p: usize| #[trigger]
                pages@.contains(p) <==> p < self@.images.len() && self@.images[p as int] is Some,
    {
        let mut pages: Vec<usize> = Vec::new();
        let mut i: usize = 0;
        while i < self.images.len()
            invariant
                i <= self.images@.len(),
                forall|j: int| 0 <= j < pages@.len() ==> pages@[j] < i,
                forall|i: int, j: int| 0 <= i < j < pages@.len() ==> pages@[i] < pages@[j],
                forall|p: usize| #[trigger]
                    pages@.contains(p) <==> p < i && self@.images[p as int] is Some,
            decreases self.images.len() - i,
        {
            let ghost before = pages@;
            if self.images[i].is_some() {
                pages.push(i);
                proof {
                    assert forall|p: usize| #[trigger] pages@.contains(p) <==> p < i + 1
                        && self@.images[p as int] is Some by {
                        if before.contains(p) {
                            let k = choose|k: int| 0 <= k < before.len() && before[k] == p;
                            assert(pages@[k] == p);
                        }
                        if p == i {
                            assert(pages@[before.len() as int] == p);
                        }
                        if pages@.contains(p) && p != i {
                            let k = choose|k: int| 0 <= k < pages@.len() && pages@[k] == p;
                            assert(before[k] == p);
                        }
                    }
                }
            }
            i += 1;
        }
        pages
    }

    /// The first of the pages from five before the current one to four after,
    /// and the page behind the last that there is. If the current page lies far
    /// behind the last one, the range is empty.
    pub fn nearby_range(&self) -> (r: (usize, usize))
        ensures
            r.0 == held_difference(self@.page as int, 5),
            r.1 == least(self@.page + 5, self@.cache.len() as int),
            (r.0 as int, r.1 as int) == nearby(self@.page, self@.cache.len()),
    {
        let low: usize = self.page.saturating_sub(5);
        let end: usize = self.page.saturating_add(5);
        if end <= self.page_cache.len() {
            (low, end)
        } else {
            (low, self.page_cache.len())
        }
    }

    /// The status of the pages from five before the current one to four after.
    pub fn nearby_pages(&self) -> (list: Vec<PageStatus>)
        requires
            self.wf(),
        ensures
            ({
                let low = held_difference(self@.page as int, 5);
                let high = least(self@.page + 5, self@.cache.len() as int);
                &&& list@.len() == if high >= low {
                    high - low
                } else {
                    0
                }
                &&& forall|i: int|
                    0 <= i < list@.len() ==> #[trigger] list@[i] == status(self@, (low + i) as usize)
            }),
            forall|i: int|
                0 <= i < list@.len() ==> (#[trigger] list@[i]).page == nearby(
                    self@.page,
                    self@.cache.len(),
                ).0 + i,
    {
        broadcast use vstd::std_specs::hash::group_hash_axioms;

        let (low, high): (usize, usize) = self.nearby_range();
        let mut list: Vec<PageStatus> = Vec::new();
        let mut page: usize = low;
        while page < high
            invariant
                self.wf(),
                low <= page,
                page <= high || page == low,
                high <= self.page_cache@.len(),
                list@.len() == page - low,
                forall|i: int|
                    0 <= i < list@.len() ==> #[trigger] list@[i] == status(self@, (low + i) as usize),
            decreases high - page,
        {
            let entry = match &self.page_cache[page] {
                Some(cached) => PageStatus {
                    page,
                    cached: true,
                    has_pixels: cached.data.pixels.len() > 0,
                    has_decoded: cached.decoded.is_some(),
                    sent: self.sent_for_viewport.contains(&page),
                },
                None => PageStatus {
                    page,
                    cached: false,
                    has_pixels: false,
                    has_decoded: false,
                    sent: false,
                },
            };
            list.push(entry);
            page += 1;
        }
        list
    }
}

/// The figures of two parts of the cache add up.
pub proof fn law_figures_add_up<P>(a: Seq<Option<CachedView<P>>>, b: Seq<Option<CachedView<P>>>)
    ensures
        tally(a + b).pages == tally(a).pages + tally(b).pages,
        tally(a + b).bytes == tally(a).bytes + tally(b).bytes,
        tally(a + b).images == tally(a).images + tally(b).images,
        tally(a + b).tiles == tally(a).tiles + tally(b).tiles,
    decreases b.len(),
{
    if b.len() == 0 {
        assert(a + b =~= a);
    } else {
        law_figures_add_up(a, b.drop_last());
        assert((a + b).drop_last() =~= a + b.drop_last());
        assert((a + b).last() == b.last());
    }
}

/// A page at hand counts as one, with its bytes, its image if that is at hand
/// too, and its tiles; a place without a page counts as nothing.
pub proof fn law_figures_of_one_page<P>(c: CachedView<P>)
    ensures
        ({
            let t = tally(seq![Some(c)]);
            &&& t.pages == 1
            &&& t.bytes == c.data.pixels@.len()
            &&& c.decoded is Some ==> t.images == 1
            &&& c.decoded is None ==> t.images == 0
            &&& t.tiles == c.tiles.len()
        }),
        ({
            let t = tally(seq![None::<CachedView<P>>]);
            t.pages == 0 && t.bytes == 0 && t.images == 0 && t.tiles == 0
        }),
{
    let one: Seq<Option<CachedView<P>>> = seq![Some(c)];
    let none: Seq<Option<CachedView<P>>> = seq![None];
    assert(one.drop_last() =~= Seq::empty());
    assert(none.drop_last() =~= Seq::empty());
    assert(one.last() == Some(c));
    assert(none.last() is None);
    assert(tally(one.drop_last()) == (Tally { pages: 0, bytes: 0, images: 0, tiles: 0 }));
}

/// The status of a page says whether it is at hand, with pixels, with its image
/// and displayed; the latter three only of a page at hand.
pub proof fn law_status_of_a_page<P>(s: EngineState<P>, page: usize)
    ensures
        ({
            let at_hand = page < s.cache.len() && s.cache[page as int] is Some;
            let c = s.cache[page as int]->0;
            let r = status(s, page);
            &&& r.page == page
            &&& r.cached <==> at_hand
            &&& r.has_pixels <==> at_hand && c.data.pixels@.len() > 0
            &&& r.has_decoded <==> at_hand && c.decoded is Some
            &&& r.sent <==> at_hand && s.sent.contains(page)
        }),
{
}

} // verus!
