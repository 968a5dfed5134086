//! From encoded images to frames for the display.

use std::collections::HashMap;
use std::sync::Arc;

use vstd::prelude::*;

use crate::engine::ConverterEngine;
use crate::frame::{share, ConvertedImage, RenderedFrame, TiledProtocol};
use crate::geometry::{ProtocolType, Rect};
#[allow(unused_imports)]
use crate::cache::CachedView;
#[allow(unused_imports)]
use crate::render::{encoder_of, encoding_fault};
use crate::render::{encoding_error, Encoder, PageWork};
use crate::state::PIXEL_RADIUS;
#[allow(unused_imports)]
use crate::state::EngineState;
use crate::text::PipelineError;
use crate::tiles::{TileSlot, TileSource};
use crate::work::{Job, Marks, Work};

verus! {

/// An encoded page, and the area that it takes up.
pub struct Encoded<P> {
    pub protocol: P,
    pub area: Rect,
}

/// What the host answers to a job.
pub enum Reply<P, K> {
    /// The uploaded image.
    Kitty { img: K },
    /// The encoded page, or why it could not be encoded.
    Page { outcome: Result<Encoded<P>, String> },
    /// The tiles that were to be encoded, in order, up to the first that could
    /// not be; and why it could not.
    Tiles { encoded: Vec<Arc<P>>, failure: Option<String> },
}

/// How many of the first `k` slots ask for an encoding.
pub open spec fn fresh_before<P>(slots: Seq<TileSlot<P>>, k: int) -> int
    decreases k,
{
    if k <= 0 {
        0
    } else {
        fresh_before(slots, k - 1) + if slots[k - 1].source is Fresh {
            1int
        } else {
            0
        }
    }
}

/// The encoding of a slot: the one kept, or the one that was asked for.
pub open spec fn protocol_at<P>(slots: Seq<TileSlot<P>>, encoded: Seq<Arc<P>>, k: int) -> Arc<P> {
    match slots[k].source {
        TileSource::Kept { protocol } => protocol,
        TileSource::Fresh { .. } => encoded[fresh_before(slots, k)],
    }
}

/// The tiles of all slots, each in its place.
pub open spec fn placed<P>(slots: Seq<TileSlot<P>>, encoded: Seq<Arc<P>>) -> Seq<TiledProtocol<P>> {
    Seq::new(
        slots.len(),
        |k: int|
            TiledProtocol {
                protocol: protocol_at(slots, encoded, k),
                y_offset_cells: slots[k].y_offset_cells,
                height_cells: slots[k].height_cells,
            },
    )
}

/// The kept tiles after the first `n` slots: those that may be kept are added,
/// as far as they were encoded.
pub open spec fn with_kept<P>(
    tiles: Map<u32, Arc<P>>,
    slots: Seq<TileSlot<P>>,
    encoded: Seq<Arc<P>>,
    n: int,
) -> Map<u32, Arc<P>>
    decreases n,
{
    if n <= 0 {
        tiles
    } else {
        let rest = with_kept(tiles, slots, encoded, n - 1);
        let slot = slots[n - 1];
        let at = fresh_before(slots, n - 1);
        if slot.source is Fresh && slot.source->keep && at < encoded.len() {
            rest.insert(slot.index, encoded[at])
        } else {
            rest
        }
    }
}

/// Whether encoded tiles answer a list of slots: all that were asked for, or
/// fewer and a failure.
pub open spec fn answers<P>(
    slots: Seq<TileSlot<P>>,
    encoded: Seq<Arc<P>>,
    failure: Option<String>,
) -> bool {
    let asked = fresh_before(slots, slots.len() as int);
    if failure is None {
        encoded.len() == asked
    } else {
        encoded.len() < asked
    }
}

impl<P, K> Reply<P, K> {
    /// Whether this answers what was asked for.
    pub open spec fn fits(self, work: Work<P>) -> bool {
        match work {
            Work::Page { work: PageWork::Kitty { .. } } => self is Kitty,
            Work::Page { work: PageWork::Encode { .. } } => self is Page,
            Work::Tiles { slots, .. } => self matches Reply::Tiles { encoded, failure } && answers(
                slots@,
                encoded@,
                failure,
            ),
            Work::Update { slots, .. } => self matches Reply::Tiles { encoded, failure } && answers(
                slots@,
                encoded@,
                failure,
            ),
        }
    }

    /// Why the host failed, if it did.
    pub open spec fn failure(self) -> Option<String> {
        match self {
            Reply::Kitty { .. } => None,
            Reply::Page { outcome } => match outcome {
                Ok(_) => None,
                Err(detail) => Some(detail),
            },
            Reply::Tiles { failure, .. } => failure,
        }
    }
}

/// Counts the slots that ask for an encoding.
fn count_fresh<P>(slots: &Vec<TileSlot<P>>) -> (n: usize)
    ensures
        n == fresh_before(slots@, slots@.len() as int),
        n <= slots@.len(),
{
    let mut n: usize = 0;
    let mut i: usize = 0;
    while i < slots.len()
        invariant
            i <= slots@.len(),
            n <= i,
            n == fresh_before(slots@, i as int),
        decreases slots.len() - i,
    {
        if let TileSource::Fresh { .. } = &slots[i].source {
            n += 1;
        }
        i += 1;
    }
    n
}

fn tiles_answer<P>(slots: &Vec<TileSlot<P>>, encoded: &Vec<Arc<P>>, failure: &Option<String>) -> (r:
    bool)
    ensures
        r == answers(slots@, encoded@, *failure),
{
    let asked: usize = count_fresh(slots);
    if failure.is_none() {
        encoded.len() == asked
    } else {
        encoded.len() < asked
    }
}

impl<P, K> Reply<P, K> {
    /// Whether this answers what was asked for.
    pub fn answers(&self, work: &Work<P>) -> (r: bool)
        ensures
            r == self.fits(*work),
    {
        match work {
            Work::Page { work } => match work {
                PageWork::Kitty { .. } => match self {
                    Reply::Kitty { .. } => true,
                    _ => false,
                },
                PageWork::Encode { .. } => match self {
                    Reply::Page { .. } => true,
                    _ => false,
                },
            },
            Work::Tiles { slots, .. } => match self {
                Reply::Tiles { encoded, failure } => tiles_answer(slots, encoded, failure),
                _ => false,
            },
            Work::Update { slots, .. } => match self {
                Reply::Tiles { encoded, failure } => tiles_answer(slots, encoded, failure),
                _ => false,
            },
        }
    }
}

/// The frame, the fault or nothing that comes of a job.
pub open spec fn delivers<P, K>(
    out: Option<Result<RenderedFrame<P, K>, PipelineError>>,
    job: Job<P>,
    reply: Reply<P, K>,
    encoder: Encoder,
) -> bool {
    if reply.failure() is Some {
        out == Some(
            Err::<RenderedFrame<P, K>, PipelineError>(encoding_fault(encoder, reply.failure()->0)),
        )
    } else if job.work is Update && job.work->Update_slots@.len() == 0 {
        out is None
    } else {
        &&& out matches Some(Ok(frame))
        &&& frame.index == job.page
        &&& frame.requested_scale == job.requested_scale
        &&& match job.work {
            Work::Page { work: PageWork::Kitty { cell_size, .. } } => frame.image == (
            ConvertedImage::<P, K>::Kitty { img: reply->img, cell_size }),
            Work::Page { work: PageWork::Encode { .. } } => {
                let e = reply->outcome->Ok_0;
                frame.image == (ConvertedImage::<P, K>::Generic {
                    protocol: e.protocol,
                    area: e.area,
                })
            },
            Work::Tiles { slots, cell_size } => {
                &&& frame.image matches ConvertedImage::Tiled { tiles, cell_size: size }
                &&& size == cell_size
                &&& tiles@ == placed(slots@, reply->encoded@)
            },
            Work::Update { slots, cell_size } => {
                &&& frame.image matches ConvertedImage::TileUpdate { tiles, cell_size: size }
                &&& size == cell_size
                &&& tiles@ == placed(slots@, reply->encoded@)
            },
        }
    }
}

/// The slots of a job, if it is about tiles.
pub open spec fn slots_of<P>(work: Work<P>) -> Seq<TileSlot<P>> {
    match work {
        Work::Page { .. } => Seq::empty(),
        Work::Tiles { slots, .. } => slots@,
        Work::Update { slots, .. } => slots@,
    }
}

impl<P> EngineState<P> {
    /// After tiles of a page were encoded: those that may be kept are. After a
    /// failure the image is dropped.
    pub open spec fn with_encoded(
        self,
        page: usize,
        slots: Seq<TileSlot<P>>,
        encoded: Seq<Arc<P>>,
        failed: bool,
    ) -> Self {
        match self.cached(page) {
            Some(c) => self.with_cached(
                page,
                CachedView {
                    tiles: with_kept(c.tiles, slots, encoded, slots.len() as int),
                    decoded: if failed {
                        None
                    } else {
                        c.decoded
                    },
                    ..c
                },
            ),
            None => self,
        }
    }

    /// After a frame was made.
    pub open spec fn marked(self, page: usize, marks: Marks) -> Self {
        let noted = EngineState {
            sent: if marks.sent {
                self.sent.insert(page)
            } else {
                self.sent
            },
            tiled: match marks.tiled {
                Some(true) => self.tiled.insert(page),
                Some(false) => self.tiled.remove(page),
                None => self.tiled,
            },
            ..self
        };
        if marks.ahead is Some {
            noted.without_distant_pages(self.page, PIXEL_RADIUS)
        } else {
            noted
        }
    }

    /// After the host answered.
    pub open spec fn after_reply<K>(self, job: Job<P>, reply: Reply<P, K>) -> Self {
        let encoded = match reply {
            Reply::Tiles { encoded, failure } => self.with_encoded(
                job.page,
                slots_of(job.work),
                encoded@,
                failure is Some,
            ),
            _ => self,
        };
        if reply.failure() is None {
            encoded.marked(job.page, job.marks)
        } else {
            encoded
        }
    }
}

/// Puts encoded tiles in their places, and keeps those that may be kept.
fn place_tiles<P>(
    slots: &Vec<TileSlot<P>>,
    encoded: &Vec<Arc<P>>,
    kept: &mut HashMap<u32, Arc<P>>,
) -> (tiles: Vec<TiledProtocol<P>>)
    requires
        encoded@.len() <= fresh_before(slots@, slots@.len() as int),
    ensures
        final(kept)@ == with_kept(old(kept)@, slots@, encoded@, slots@.len() as int),
        encoded@.len() == fresh_before(slots@, slots@.len() as int) ==> tiles@ == placed(
            slots@,
            encoded@,
        ),
{
    broadcast use vstd::std_specs::hash::group_hash_axioms;

    let mut tiles: Vec<TiledProtocol<P>> = Vec::new();
    let mut at: usize = 0;
    let mut k: usize = 0;
    let ghost whole = encoded@.len() == fresh_before(slots@, slots@.len() as int);
    while k < slots.len()
        invariant
            k <= slots@.len(),
            whole == (encoded@.len() == fresh_before(slots@, slots@.len() as int)),
            at == (if fresh_before(slots@, k as int) <= encoded@.len() {
                fresh_before(slots@, k as int)
            } else {
                encoded@.len() as int
            }),
            kept@ == with_kept(old(kept)@, slots@, encoded@, k as int),
            whole ==> tiles@ == placed(slots@, encoded@).take(k as int),
        decreases slots.len() - k,
    {
        proof {
            lemma_fresh_grows(slots@, k as int + 1, slots@.len() as int);
            lemma_fresh_grows(slots@, k as int, k as int + 1);
        }
        let slot = &slots[k];
        let protocol: Option<Arc<P>> = match &slot.source {
            TileSource::Kept { protocol } => Some(share(protocol)),
            TileSource::Fresh { keep, .. } => {
                if at < encoded.len() {
                    let protocol = share(&encoded[at]);
                    if *keep {
                        kept.insert(slot.index, share(&encoded[at]));
                    }
                    at += 1;
                    Some(protocol)
                } else {
                    None
                }
            },
        };
        if let Some(protocol) = protocol {
            tiles.push(
                TiledProtocol {
                    protocol,
                    y_offset_cells: slot.y_offset_cells,
                    height_cells: slot.height_cells,
                },
            );
        }
        k += 1;
        assert(whole ==> tiles@ =~= placed(slots@, encoded@).take(k as int));
    }
    assert(placed(slots@, encoded@).take(k as int) =~= placed(slots@, encoded@));
    tiles
}

proof fn lemma_fresh_grows<P>(slots: Seq<TileSlot<P>>, a: int, b: int)
    requires
        0 <= a <= b,
    ensures
        0 <= fresh_before(slots, a) <= fresh_before(slots, b),
    decreases b,
{
    if a < b {
        lemma_fresh_grows(slots, a, b - 1);
    } else if a > 0 {
        lemma_fresh_grows(slots, a - 1, a - 1);
    }
}

impl<P> ConverterEngine<P> {
    fn encoder(&self) -> (r: Encoder)
        ensures
            r == encoder_of(self@.picker),
    {
        match self.picker.protocol {
            ProtocolType::Iterm2 => Encoder::Iterm2,
            _ => Encoder::Native,
        }
    }

    /// Notes that a frame was made.
    fn mark(&mut self, page: usize, marks: Marks)
        requires
            old(self).wf(),
        ensures
            final(self).wf(),
            final(self)@ == old(self)@.marked(page, marks),
    {
        broadcast use vstd::std_specs::hash::group_hash_axioms;

        if marks.sent {
            self.sent_for_viewport.insert(page);
        }
        match marks.tiled {
            Some(true) => {
                self.tiled_pages.insert(page);
            },
            Some(false) => {
                self.tiled_pages.remove(&page);
            },
            None => {},
        }
        if marks.ahead.is_some() {
            let current: usize = self.page;
            self.clear_distant_pixels(current, PIXEL_RADIUS);
        }
    }

    /// Takes encoded tiles in.
    fn take_tiles(
        &mut self,
        page: usize,
        slots: &Vec<TileSlot<P>>,
        encoded: &Vec<Arc<P>>,
        failed: bool,
    ) -> (tiles: Vec<TiledProtocol<P>>)
        requires
            old(self).wf(),
            encoded@.len() <= fresh_before(slots@, slots@.len() as int),
        ensures
            final(self).wf(),
            final(self)@ == old(self)@.with_encoded(page, slots@, encoded@, failed),
            encoded@.len() == fresh_before(slots@, slots@.len() as int) ==> tiles@ == placed(
                slots@,
                encoded@,
            ),
    {
        let ghost before = *self;
        if page < self.page_cache.len() {
            let tiles = match &mut self.page_cache[page] {
                Some(cached) => {
                    if failed {
                        cached.clear_decoded();
                    }
                    Some(place_tiles(slots, encoded, &mut cached.tile_cache))
                },
                None => None,
            };
            if let Some(tiles) = tiles {
                assert(self@.cache =~= before@.with_encoded(page, slots@, encoded@, failed).cache);
                return tiles;
            }
            assert(self@.cache =~= before@.cache);
        }
        let mut unused: HashMap<u32, Arc<P>> = HashMap::new();
        place_tiles(slots, encoded, &mut unused)
    }

    /// Takes the host's answer to a job in, and makes the frame for the display.
    pub fn finish<K>(&mut self, job: Job<P>, reply: Reply<P, K>) -> (out: Option<
        Result<RenderedFrame<P, K>, PipelineError>,
    >)
        requires
            old(self).wf(),
            reply.fits(job.work),
        ensures
            final(self).wf(),
            final(self)@ == old(self)@.after_reply(job, reply),
            delivers(out, job, reply, encoder_of(old(self)@.picker)),
    {
        let page: usize = job.page;
        let requested_scale = job.requested_scale;
        let marks = job.marks;
        let encoder = self.encoder();
        let image: ConvertedImage<P, K> = match job.work {
            Work::Page { work } => match work {
                PageWork::Kitty { cell_size, .. } => match reply {
                    Reply::Kitty { img } => ConvertedImage::Kitty { img, cell_size },
                    _ => return None,
                },
                PageWork::Encode { .. } => match reply {
                    Reply::Page { outcome: Ok(e) } => ConvertedImage::Generic {
                        protocol: e.protocol,
                        area: e.area,
                    },
                    Reply::Page { outcome: Err(detail) } => {
                        return Some(Err(encoding_error(encoder, detail)));
                    },
                    _ => return None,
                },
            },
            Work::Tiles { slots, cell_size } => match reply {
                Reply::Tiles { encoded, failure } => {
                    let tiles = self.take_tiles(page, &slots, &encoded, failure.is_some());
                    if let Some(detail) = failure {
                        return Some(Err(encoding_error(encoder, detail)));
                    }
                    ConvertedImage::Tiled { tiles, cell_size }
                },
                _ => return None,
            },
            Work::Update { slots, cell_size } => match reply {
                Reply::Tiles { encoded, failure } => {
                    let tiles = self.take_tiles(page, &slots, &encoded, failure.is_some());
                    if let Some(detail) = failure {
                        return Some(Err(encoding_error(encoder, detail)));
                    }
                    if slots.len() == 0 {
                        self.mark(page, marks);
                        return None;
                    }
                    ConvertedImage::TileUpdate { tiles, cell_size }
                },
                _ => return None,
            },
        };
        self.mark(page, marks);
        Some(Ok(RenderedFrame { index: page, requested_scale, image }))
    }
}

} // verus!
