//! The convolution engine as callers use it: a scheduler whose signal is
//! pushed block by block and whose filter is installed as prepared spectra.

use crate::kernel::{mac_total, mix_total, plus_total, transform_fits};
use crate::partition::{bins_before, PlanError};
use crate::scheduler::{block_done, build_verdict, cycle_done, feed_of, fresh, installed, push_done, scheduler_wf, FdlConfig, Scheduler, SchedulerView};
use crate::worker::{worker_for, Worker};
use crate::upconv::{buffer_set, FdlKey};
use vstd::prelude::*;

verus! {

/// The convolution engine.
#[verifier::reject_recursive_types(S)]
#[verifier::reject_recursive_types(C)]
pub struct Conv<S, C> {
    scheduler: Scheduler<S, C>,
}

/// How the engine feeds the signal's delay lines: blocks of samples, pushed
/// in sliding mode.
pub open spec fn signal_feed() -> FdlConfig {
    FdlConfig { name: FdlKey::Signal, complex_ringbuff: false, real_ringbuff: true, moving: true }
}

/// How the engine feeds the filter's delay lines: whole spectra.
pub open spec fn filter_feed() -> FdlConfig {
    FdlConfig { name: FdlKey::Filter, complex_ringbuff: true, real_ringbuff: false, moving: false }
}

impl<S, C> View for Conv<S, C> {
    type V = SchedulerView<S, C>;

    closed spec fn view(&self) -> SchedulerView<S, C> {
        self.scheduler@
    }
}

impl<S: Copy, C: Copy> Conv<S, C> {
    /// What the engine holds is consistent.
    pub closed spec fn wf(&self) -> bool {
        &&& self.scheduler.wf()
        &&& self.scheduler@.signal_feed == signal_feed()
        &&& self.scheduler@.filter_feed == filter_feed()
    }

    /// A consistent engine's view is consistent, and its feeds are the
    /// engine's.
    pub proof fn lemma_wf(&self)
        requires
            self.wf(),
        ensures
            scheduler_wf(self@),
            self@.signal_feed == signal_feed(),
            self@.filter_feed == filter_feed(),
    {
        self.scheduler.lemma_wf();
    }

    /// Builds the engine of a plan for `channels` channels, and one worker
    /// for every partition but the first. A plan that is not usable is
    /// rejected with its verdict, and one whose queues cannot be allocated as
    /// too large.
    pub fn new(partition: &[(usize, usize)], channels: usize, silence: S, zero: C) -> (r: Result<
        (Self, Vec<Worker<S, C>>),
        PlanError,
    >)
        ensures
            r is Ok <==> build_verdict::<S, C>(partition@, channels as int) is Ok,
            r is Err ==> build_verdict::<S, C>(partition@, channels as int) == Err::<
                (),
                PlanError,
            >(r->Err_0),
            r is Ok ==> {
                let conv = (r->Ok_0).0;
                let workers = (r->Ok_0).1;
                &&& conv.wf()
                &&& conv@.plan == partition@
                &&& conv@.channels == channels
                &&& conv@.silence == silence
                &&& fresh(conv@, zero)
                &&& workers.len() == partition.len() - 1
                &&& forall|i: int|
                    0 <= i < workers.len() ==> (#[trigger] workers[i]).wf() && worker_for(
                        workers[i]@,
                        partition@,
                        channels as int,
                        signal_feed(),
                        filter_feed(),
                        silence,
                        zero,
                        i,
                    )
            },
    {
        let mut fdl_config: Vec<FdlConfig> = Vec::new();
        fdl_config.push(
            FdlConfig {
                name: FdlKey::Signal,
                complex_ringbuff: false,
                real_ringbuff: true,
                moving: true,
            },
        );
        fdl_config.push(
            FdlConfig {
                name: FdlKey::Filter,
                complex_ringbuff: true,
                real_ringbuff: false,
                moving: false,
            },
        );
        proof {
            assert(feed_of(fdl_config@, FdlKey::Signal, 2) == feed_of(fdl_config@, FdlKey::Signal, 1));
            assert(feed_of(fdl_config@, FdlKey::Signal, 1) == signal_feed());
            assert(feed_of(fdl_config@, FdlKey::Filter, 2) == filter_feed());
        }
        match Scheduler::new(partition, fdl_config.as_slice(), channels, silence, zero) {
            Ok((scheduler, workers)) => Ok((Conv { scheduler }, workers)),
            Err(e) => Err(e),
        }
    }

    /// How many bins the spectra of the whole plan have, which is the length
    /// that `set_filter` asks for.
    pub fn spectrum_len(&self) -> (r: usize)
        requires
            self.wf(),
        ensures
            r == bins_before(self@.plan, self@.channels, self@.plan.len() as int),
    {
        self.scheduler.spectrum_len()
    }

    /// How many blocks were processed.
    pub fn processed(&self) -> (r: usize)
        ensures
            r == self@.process_counter,
    {
        self.scheduler.processed()
    }

    /// How many partitions are convolved by workers.
    pub fn segments(&self) -> (r: usize)
        ensures
            r == self@.segments.len(),
    {
        self.scheduler.segments()
    }

    /// How many hand-overs to segment `i` found no room in its queue.
    pub fn overruns(&self, i: usize) -> (r: usize)
        requires
            i < self@.segments.len(),
        ensures
            r == self@.segments[i as int].overruns,
    {
        self.scheduler.overruns(i)
    }

    /// How many collections from segment `i` found no block in its queue.
    pub fn underruns(&self, i: usize) -> (r: usize)
        requires
            i < self@.segments.len(),
        ensures
            r == self@.segments[i as int].underruns,
    {
        self.scheduler.underruns(i)
    }

    /// Installs a new filter, given as the spectra of the whole plan in the
    /// layout of `process_filter`. The first partition takes its part at once
    /// and fades to it over the next block where a filter was installed
    /// before; the other parts are handed to the workers.
    pub fn set_filter(&mut self, new_filter: &[C])
        requires
            old(self).wf(),
            new_filter.len() == bins_before(
                old(self)@.plan,
                old(self)@.channels,
                old(self)@.plan.len() as int,
            ),
        ensures
            final(self).wf(),
            final(self)@ == (SchedulerView {
                rt: final(self)@.rt,
                segments: final(self)@.segments,
                ..old(self)@
            }),
            buffer_set(
                old(self)@.rt,
                final(self)@.rt,
                FdlKey::Filter,
                new_filter@.subrange(0, bins_before(old(self)@.plan, old(self)@.channels, 1)),
            ),
            final(self)@.segments.len() == old(self)@.segments.len(),
            forall|i: int|
                0 <= i < old(self)@.segments.len() ==> installed(
                    old(self)@.segments[i],
                    #[trigger] final(self)@.segments[i],
                ),
    {
        self.scheduler.set(FdlKey::Filter, new_filter);
    }

    /// Takes in one block per channel and puts out one block per channel:
    /// `Scheduler::process_block`.
    pub fn process_block<
        F: Fn(&Vec<S>) -> Vec<C>,
        M: Fn(C, C, C) -> C,
        I: Fn(&Vec<C>) -> Vec<S>,
        X: Fn(S, S, usize, usize, usize) -> S,
        P: Fn(S, S) -> S,
    >(
        &mut self,
        channel_blocks: &[Vec<S>],
        fft: &F,
        mac: &M,
        ifft: &I,
        mix: &X,
        plus: &P,
    ) -> (out: &Vec<Vec<S>>)
        requires
            old(self).wf(),
            old(self)@.signal_count < usize::MAX,
            old(self)@.process_counter < usize::MAX,
            channel_blocks.len() == old(self)@.channels,
            forall|c: int|
                0 <= c < channel_blocks.len() ==> (#[trigger] channel_blocks[c]).len() == old(self)@.plan[0].0,
            transform_fits(fft, 2 * old(self)@.plan[0].0, old(self)@.plan[0].0 + 1),
            mac_total(mac),
            transform_fits(ifft, old(self)@.plan[0].0 + 1, 2 * old(self)@.plan[0].0),
            mix_total(mix),
            plus_total(plus),
        ensures
            final(self).wf(),
            block_done(fft, mac, ifft, mix, plus, old(self)@, final(self)@, channel_blocks@),
            out.len() == old(self)@.channels,
            forall|c: int| 0 <= c < out.len() ==> (#[trigger] out[c])@ == final(self)@.front[c],
    {
        self.scheduler.process_block(channel_blocks, fft, mac, ifft, mix, plus)
    }

    /// Takes in one block of the signal per channel: `Scheduler::push` for
    /// the signal, sliding.
    pub fn push<F: Fn(&Vec<S>) -> Vec<C>>(&mut self, channel_blocks: &[Vec<S>], fft: &F)
        requires
            old(self).wf(),
            old(self)@.signal_count < usize::MAX,
            channel_blocks.len() == old(self)@.channels,
            forall|c: int|
                0 <= c < channel_blocks.len() ==> (#[trigger] channel_blocks[c]).len() == old(self)@.plan[0].0,
            transform_fits(fft, 2 * old(self)@.plan[0].0, old(self)@.plan[0].0 + 1),
        ensures
            final(self).wf(),
            push_done(fft, old(self)@, final(self)@, FdlKey::Signal, channel_blocks@, true),
    {
        self.scheduler.push(channel_blocks, FdlKey::Signal, true, fft);
    }

    /// Puts out one block per channel for the block pushed last:
    /// `Scheduler::process`.
    pub fn process<
        M: Fn(C, C, C) -> C,
        I: Fn(&Vec<C>) -> Vec<S>,
        X: Fn(S, S, usize, usize, usize) -> S,
        P: Fn(S, S) -> S,
    >(&mut self, mac: &M, ifft: &I, mix: &X, plus: &P) -> (out: &Vec<Vec<S>>)
        requires
            old(self).wf(),
            old(self)@.process_counter < usize::MAX,
            mac_total(mac),
            transform_fits(ifft, old(self)@.plan[0].0 + 1, 2 * old(self)@.plan[0].0),
            mix_total(mix),
            plus_total(plus),
        ensures
            final(self).wf(),
            cycle_done(mac, ifft, mix, plus, old(self)@, final(self)@),
            out.len() == old(self)@.channels,
            forall|c: int| 0 <= c < out.len() ==> (#[trigger] out[c])@ == final(self)@.front[c],
    {
        self.scheduler.process(mac, ifft, mix, plus)
    }

    /// The blocks that were put out last, per channel.
    pub fn front(&self) -> (out: &Vec<Vec<S>>)
        ensures
            out.len() == self@.front.len(),
            forall|c: int| 0 <= c < out.len() ==> (#[trigger] out[c])@ == self@.front[c],
    {
        self.scheduler.front()
    }
}

} // verus!
