//! The order of events: commands first, then one page ahead at a time.

use vstd::prelude::*;

use crate::delivery::Reply;
#[allow(unused_imports)]
use crate::delivery::delivers;
use crate::engine::ConverterEngine;
use crate::frame::RenderedFrame;
use crate::geometry::Picker;
#[allow(unused_imports)]
use crate::render::encoder_of;
use crate::state::{ConversionCommand, Task};
#[allow(unused_imports)]
use crate::state::{asked, EngineState};
use crate::text::PipelineError;
use crate::work::{Begun, Job};
#[allow(unused_imports)]
use crate::work::Marks;

verus! {

/// The converter and how far it has rendered ahead.
pub struct ConversionLoop<P> {
    pub engine: ConverterEngine<P>,
    /// How many places of the order were gone through since the last command.
    pub iteration: usize,
    /// Whether there may be a page to render ahead.
    pub has_work: bool,
}

/// What to do when no command is waiting.
pub enum Turn<P> {
    /// Wait for a command.
    Wait,
    /// Nothing was to be rendered; look for commands again.
    Idle,
    /// A page is to be rendered ahead.
    Ahead { begun: Begun<P> },
}

/// How many places were gone through once the host answered: those up to the
/// page that was rendered ahead, if that succeeded.
pub open spec fn places_after<P, K>(places: usize, job: Job<P>, reply: Reply<P, K>) -> usize {
    match job.marks.ahead {
        Some(place) => if reply.failure() is None {
            place
        } else {
            places
        },
        None => places,
    }
}

/// A page that was rendered ahead counts as gone through if and only if it
/// succeeded, and what a command asked for never does.
pub proof fn law_only_success_moves_on<P, K>(places: usize, job: Job<P>, reply: Reply<P, K>)
    ensures
        job.marks.ahead is None ==> places_after(places, job, reply) == places,
        reply matches Reply::Page { outcome } && outcome is Err ==> places_after(places, job, reply)
            == places,
        reply matches Reply::Tiles { failure, .. } && failure is Some ==> places_after(
            places,
            job,
            reply,
        ) == places,
        job.marks.ahead is Some && (reply is Kitty || (reply is Page && reply->outcome is Ok) || (
        reply is Tiles && reply->failure is None)) ==> places_after(places, job, reply)
            == job.marks.ahead->0,
{
}

impl<P> ConversionLoop<P> {
    pub open spec fn wf(self) -> bool {
        self.engine.wf()
    }

    pub fn new(
        picker: Picker,
        prerender: usize,
        kitty_shm_support: bool,
        pid: u32,
        show_link_underlines: bool,
    ) -> (r: Self)
        ensures
            r.wf(),
            r.iteration == 0,
            !r.has_work,
            r.engine@ == (EngineState::<P> {
                picker,
                prerender,
                kitty_shm_support,
                pid,
                page: 0,
                images: Seq::empty(),
                cache: Seq::empty(),
                selection: Seq::empty(),
                comments: Seq::empty(),
                highlights: Seq::empty(),
                comment_cache: Map::empty(),
                visual: Seq::empty(),
                cursor: None,
                show_links: show_link_underlines,
                viewport: None,
                viewports: Map::empty(),
                tiled: Set::empty(),
                sent: Set::empty(),
                pending: Set::empty(),
            }),
    {
        let engine = ConverterEngine::new(
            picker,
            prerender,
            kitty_shm_support,
            pid,
            show_link_underlines,
        );
        ConversionLoop { engine, iteration: 0, has_work: false }
    }

    /// Takes a command in. Rendering ahead starts over.
    pub fn receive(&mut self, msg: ConversionCommand) -> (tasks: Vec<Task>)
        requires
            old(self).wf(),
        ensures
            final(self).wf(),
            final(self).engine@ == old(self).engine@.after(msg),
            asked(tasks@) == old(self).engine@.tasks_of(msg),
            final(self).iteration == 0,
            final(self).has_work,
    {
        let tasks = self.engine.handle_msg(msg);
        self.iteration = 0;
        self.has_work = true;
        tasks
    }

    /// Begins a task of a command.
    pub fn begin(&mut self, task: Task, raw_limit: Option<u64>) -> (b: Begun<P>)
        requires
            old(self).wf(),
        ensures
            final(self).wf(),
            final(self).engine@ == old(self).engine@.after_begin(task@),
            old(self).engine@.begins(task@, b, raw_limit),
            final(self).iteration == old(self).iteration,
            final(self).has_work == old(self).has_work,
    {
        self.engine.begin(task, raw_limit)
    }

    /// Takes the next page to render ahead, if there may be one.
    pub fn turn(&mut self, raw_limit: Option<u64>) -> (t: Turn<P>)
        requires
            old(self).wf(),
        ensures
            final(self).wf(),
            !old(self).has_work ==> t is Wait && *final(self) == *old(self),
            old(self).has_work ==> ({
                let (after, places, pick) = old(self).engine@.looked_ahead(
                    old(self).iteration as int,
                );
                &&& final(self).iteration == places
                &&& match pick {
                    Some((i, page)) => {
                        let marks = Marks { tiled: None, sent: true, ahead: Some(i as usize) };
                        &&& t matches Turn::Ahead { begun }
                        &&& after.renders(page, begun, raw_limit, marks)
                        &&& final(self).engine@ == after.after_rendering(page)
                        &&& final(self).has_work
                    },
                    None => t is Idle && final(self).engine@ == after && !final(self).has_work,
                }
            }),
    {
        if !self.has_work {
            return Turn::Wait;
        }
        match self.engine.next_page(&mut self.iteration, raw_limit) {
            Some(begun) => Turn::Ahead { begun },
            None => {
                self.has_work = false;
                Turn::Idle
            },
        }
    }

    /// Takes the host's answer to a job in. A page that was rendered ahead
    /// counts as gone through only if it succeeded.
    pub fn finish<K>(&mut self, job: Job<P>, reply: Reply<P, K>) -> (out: Option<
        Result<RenderedFrame<P, K>, PipelineError>,
    >)
        requires
            old(self).wf(),
            reply.fits(job.work),
        ensures
            final(self).wf(),
            final(self).engine@ == old(self).engine@.after_reply(job, reply),
            delivers(out, job, reply, encoder_of(old(self).engine@.picker)),
            final(self).has_work == old(self).has_work,
            final(self).iteration == (if reply.failure() is None && job.marks.ahead is Some {
                job.marks.ahead->0
            } else {
                old(self).iteration
            }),
            final(self).iteration == places_after(old(self).iteration, job, reply),
    {
        let ahead = job.marks.ahead;
        let failed = match &reply {
            Reply::Kitty { .. } => false,
            Reply::Page { outcome } => outcome.is_err(),
            Reply::Tiles { failure, .. } => failure.is_some(),
        };
        let out = self.engine.finish(job, reply);
        if let Some(place) = ahead {
            if !failed {
                self.iteration = place;
            }
        }
        out
    }
}

} // verus!
