//! The engine with a filter that moves: the filter is not installed as
//! spectra but pushed block by block, like the signal.

use crate::kernel::{mac_total, mix_total, plus_total, transform_fits};
use crate::partition::PlanError;
use crate::scheduler::{block_done, build_verdict, feed_of, fresh, push_done, scheduler_wf, FdlConfig, Scheduler, SchedulerView};
use crate::worker::{worker_for, Worker};
use crate::upconv::FdlKey;
use vstd::prelude::*;

verus! {

/// The convolution engine for a filter that is pushed block by block.
#[verifier::reject_recursive_types(S)]
#[verifier::reject_recursive_types(C)]
pub struct MovingConv<S, C> {
    scheduler: Scheduler<S, C>,
}

/// How this engine feeds the signal's delay lines: blocks of samples, which
/// the workers push in sliding mode.
pub open spec fn moving_signal_feed() -> FdlConfig {
    FdlConfig { name: FdlKey::Signal, complex_ringbuff: false, real_ringbuff: true, moving: true }
}

/// How this engine feeds the filter's delay lines: blocks of samples, which
/// the workers push followed by silence.
pub open spec fn moving_filter_feed() -> FdlConfig {
    FdlConfig { name: FdlKey::Filter, complex_ringbuff: false, real_ringbuff: true, moving: false }
}

impl<S, C> View for MovingConv<S, C> {
    type V = SchedulerView<S, C>;

    closed spec fn view(&self) -> SchedulerView<S, C> {
        self.scheduler@
    }
}

impl<S: Copy, C: Copy> MovingConv<S, C> {
    /// What the engine holds is consistent.
    pub closed spec fn wf(&self) -> bool {
        &&& self.scheduler.wf()
        &&& self.scheduler@.signal_feed == moving_signal_feed()
        &&& self.scheduler@.filter_feed == moving_filter_feed()
    }

    /// A consistent engine's view is consistent, and its feeds are the
    /// engine's.
    pub proof fn lemma_wf(&self)
        requires
            self.wf(),
        ensures
            scheduler_wf(self@),
            self@.signal_feed == moving_signal_feed(),
            self@.filter_feed == moving_filter_feed(),
    {
        self.scheduler.lemma_wf();
    }

    /// Builds the engine of a plan for `channels` channels, and one worker
    /// for every partition but the first. A plan that is not usable is
    /// rejected with its verdict, and one whose queues cannot be allocated as
    /// too large.
    pub fn new(channels: usize, partition: &[(usize, usize)], silence: S, zero: C) -> (r: Result<
        (Self, Vec<Worker<S, C>>),
        PlanError,
    >)
        ensures
            r is Ok <==> build_verdict::<S, C>(partition@, channels as int) is Ok,
            r is Err ==> build_verdict::<S, C>(partition@, channels as int) == Err::<
                (),
                PlanError,
            >(r->Err_0),
            r is Ok ==> {
                let conv = (r->Ok_0).0;
                let workers = (r->Ok_0).1;
                &&& conv.wf()
                &&& conv@.plan == partition@
                &&& conv@.channels == channels
                &&& conv@.silence == silence
                &&& fresh(conv@, zero)
                &&& workers.len() == partition.len() - 1
                &&& forall|i: int|
                    0 <= i < workers.len() ==> (#[trigger] workers[i]).wf() && worker_for(
                        workers[i]@,
                        partition@,
                        channels as int,
                        moving_signal_feed(),
                        moving_filter_feed(),
                        silence,
                        zero,
                        i,
                    )
            },
    {
        let mut fdl_config: Vec<FdlConfig> = Vec::new();
        fdl_config.push(
            FdlConfig {
                name: FdlKey::Signal,
                complex_ringbuff: false,
                real_ringbuff: true,
                moving: true,
            },
        );
        fdl_config.push(
            FdlConfig {
                name: FdlKey::Filter,
                complex_ringbuff: false,
                real_ringbuff: true,
                moving: false,
            },
        );
        proof {
            assert(feed_of(fdl_config@, FdlKey::Signal, 2) == feed_of(fdl_config@, FdlKey::Signal, 1));
            assert(feed_of(fdl_config@, FdlKey::Signal, 1) == moving_signal_feed());
            assert(feed_of(fdl_config@, FdlKey::Filter, 2) == moving_filter_feed());
        }
        match Scheduler::new(partition, fdl_config.as_slice(), channels, silence, zero) {
            Ok((scheduler, workers)) => Ok((MovingConv { scheduler }, workers)),
            Err(e) => Err(e),
        }
    }

    /// Takes in one block of the filter per channel: `Scheduler::push` for
    /// the filter, sliding on the calling thread.
    pub fn push_filter_chunk<F: Fn(&Vec<S>) -> Vec<C>>(&mut self, filter_chunk: &[Vec<S>], fft: &F)
        requires
            old(self).wf(),
            old(self)@.filter_count < usize::MAX,
            filter_chunk.len() == old(self)@.channels,
            forall|c: int|
                0 <= c < filter_chunk.len() ==> (#[trigger] filter_chunk[c]).len() == old(self)@.plan[0].0,
            transform_fits(fft, 2 * old(self)@.plan[0].0, old(self)@.plan[0].0 + 1),
        ensures
            final(self).wf(),
            push_done(fft, old(self)@, final(self)@, FdlKey::Filter, filter_chunk@, true),
    {
        self.scheduler.push(filter_chunk, FdlKey::Filter, true, fft);
    }

    /// Takes in one block of the signal per channel and puts out one block
    /// per channel: `Scheduler::process_block`.
    pub fn process_block<
        F: Fn(&Vec<S>) -> Vec<C>,
        M: Fn(C, C, C) -> C,
        I: Fn(&Vec<C>) -> Vec<S>,
        X: Fn(S, S, usize, usize, usize) -> S,
        P: Fn(S, S) -> S,
    >(
        &mut self,
        channel_blocks: &[Vec<S>],
        fft: &F,
        mac: &M,
        ifft: &I,
        mix: &X,
        plus: &P,
    ) -> (out: &Vec<Vec<S>>)
        requires
            old(self).wf(),
            old(self)@.signal_count < usize::MAX,
            old(self)@.process_counter < usize::MAX,
            channel_blocks.len() == old(self)@.channels,
            forall|c: int|
                0 <= c < channel_blocks.len() ==> (#[trigger] channel_blocks[c]).len() == old(self)@.plan[0].0,
            transform_fits(fft, 2 * old(self)@.plan[0].0, old(self)@.plan[0].0 + 1),
            mac_total(mac),
            transform_fits(ifft, old(self)@.plan[0].0 + 1, 2 * old(self)@.plan[0].0),
            mix_total(mix),
            plus_total(plus),
        ensures
            final(self).wf(),
            block_done(fft, mac, ifft, mix, plus, old(self)@, final(self)@, channel_blocks@),
            out.len() == old(self)@.channels,
            forall|c: int| 0 <= c < out.len() ==> (#[trigger] out[c])@ == final(self)@.front[c],
    {
        self.scheduler.process_block(channel_blocks, fft, mac, ifft, mix, plus)
    }
}

} // verus!
