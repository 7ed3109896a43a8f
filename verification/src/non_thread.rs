//! The engine on one thread: the workers are not moved to threads of their
//! own but stepped on the calling thread, between the hand-over of a block
//! and the collection of the outputs.

use crate::conv::{filter_feed, signal_feed, Conv};
use crate::kernel::{mac_total, mix_total, plus_total, transform_fits};
use crate::partition::{bins_before, PlanError};
use crate::scheduler::{block_done, build_verdict, fresh, installed, SchedulerView};
use crate::worker::{
    busy, ran, settled, steps, worker_did, worker_for, Worker, WorkerEvent, WorkerView,
};
use crate::upconv::{buffer_set, FdlKey};
use vstd::prelude::*;

verus! {

/// How many steps a worker gets at most each time that the workers are run.
/// One call hands a worker one thing to do.
pub const STEP_LIMIT: usize = 4;

/// The convolution engine on one thread.
#[verifier::reject_recursive_types(S)]
#[verifier::reject_recursive_types(C)]
pub struct NoThreadConv<S, C> {
    conv: Conv<S, C>,
    workers: Vec<Worker<S, C>>,
}

impl<S, C> View for NoThreadConv<S, C> {
    type V = SchedulerView<S, C>;

    closed spec fn view(&self) -> SchedulerView<S, C> {
        self.conv@
    }
}

/// The transforms fit the block size of every worker.
pub open spec fn fit_workers<
    S,
    C,
    F: Fn(&Vec<S>) -> Vec<C>,
    I: Fn(&Vec<C>) -> Vec<S>,
>(fft: &F, ifft: &I, plan: Seq<(usize, usize)>) -> bool {
    forall|i: int|
        0 < i < plan.len() ==> transform_fits(fft, 2 * (#[trigger] plan[i]).0, plan[i].0 + 1)
            && transform_fits(ifft, plan[i].0 + 1, 2 * plan[i].0)
}

/// Steps one worker until it finds nothing to do, `STEP_LIMIT` times at most.
/// The result tells how many steps did something.
fn run_worker<
    S: Copy,
    C: Copy,
    F: Fn(&Vec<S>) -> Vec<C>,
    M: Fn(C, C, C) -> C,
    I: Fn(&Vec<C>) -> Vec<S>,
    X: Fn(S, S, usize, usize, usize) -> S,
>(worker: &mut Worker<S, C>, fft: &F, mac: &M, ifft: &I, mix: &X) -> (done: usize)
    requires
        old(worker).wf(),
        transform_fits(
            fft,
            2 * old(worker)@.conv.signal.block_size,
            old(worker)@.conv.signal.block_size + 1,
        ),
        mac_total(mac),
        transform_fits(
            ifft,
            old(worker)@.conv.signal.block_size + 1,
            2 * old(worker)@.conv.signal.block_size,
        ),
        mix_total(mix),
    ensures
        final(worker).wf(),
        final(worker)@.conv.signal.block_size == old(worker)@.conv.signal.block_size,
        ran(fft, mac, ifft, mix, old(worker)@, final(worker)@, STEP_LIMIT as int, done as int),
{
    let mut done: usize = 0;
    let ghost mut views: Seq<WorkerView<S, C>> = seq![worker@];
    let ghost mut events: Seq<WorkerEvent> = Seq::empty();
    while done < STEP_LIMIT
        invariant
            0 <= done <= STEP_LIMIT,
            worker.wf(),
            worker@.conv.signal.block_size == old(worker)@.conv.signal.block_size,
            transform_fits(
                fft,
                2 * old(worker)@.conv.signal.block_size,
                old(worker)@.conv.signal.block_size + 1,
            ),
            mac_total(mac),
            transform_fits(
                ifft,
                old(worker)@.conv.signal.block_size + 1,
                2 * old(worker)@.conv.signal.block_size,
            ),
            mix_total(mix),
            steps(fft, mac, ifft, mix, views, events),
            events.len() == done,
            views[0] == old(worker)@,
            views[done as int] == worker@,
            forall|i: int| 0 <= i < done ==> busy(#[trigger] events[i]),
        decreases STEP_LIMIT - done,
    {
        let ghost views_before = views;
        let ghost events_before = events;
        proof {
            worker.lemma_wf();
        }
        let event = worker.step(fft, mac, ifft, mix);
        proof {
            worker.lemma_wf();
            views = views_before.push(worker@);
            events = events_before.push(event);
            assert forall|i: int| 0 <= i < events.len() implies worker_did(
                fft,
                mac,
                ifft,
                mix,
                views[i],
                views[i + 1],
                #[trigger] events[i],
            ) by {
                if i < done {
                    assert(events[i] == events_before[i]);
                    assert(views[i] == views_before[i]);
                    assert(views[i + 1] == views_before[i + 1]);
                }
            }
            assert(steps(fft, mac, ifft, mix, views, events));
        }
        match event {
            WorkerEvent::Idle => {
                return done;
            },
            WorkerEvent::Closed => {
                return done;
            },
            _ => {
                proof {
                    assert forall|i: int| 0 <= i < done + 1 implies busy(
                        #[trigger] events[i],
                    ) by {
                        if i < done {
                            assert(events[i] == events_before[i]);
                        }
                    }
                }
                done += 1;
            },
        }
    }
    done
}

impl<S: Copy, C: Copy> NoThreadConv<S, C> {
    /// What the engine holds is consistent: worker `i` convolves partition
    /// `i + 1` of the plan.
    pub closed spec fn wf(&self) -> bool {
        &&& self.conv.wf()
        &&& self.workers.len() == self.conv@.plan.len() - 1
        &&& forall|i: int|
            0 <= i < self.workers.len() ==> (#[trigger] self.workers[i]).wf()
                && self.workers[i]@.conv.signal.block_size == self.conv@.plan[i + 1].0
    }

    /// Builds the engine of a plan for `channels` channels. A plan that is
    /// not usable is rejected with its verdict, and one whose queues cannot
    /// be allocated as too large.
    pub fn new(partition: &[(usize, usize)], channels: usize, silence: S, zero: C) -> (r: Result<
        Self,
        PlanError,
    >)
        ensures
            r is Ok <==> build_verdict::<S, C>(partition@, channels as int) is Ok,
            r is Err ==> build_verdict::<S, C>(partition@, channels as int) == Err::<
                (),
                PlanError,
            >(r->Err_0),
            r is Ok ==> {
                &&& (r->Ok_0).wf()
                &&& (r->Ok_0)@.plan == partition@
                &&& (r->Ok_0)@.channels == channels
                &&& (r->Ok_0)@.silence == silence
                &&& (r->Ok_0)@.signal_feed == signal_feed()
                &&& (r->Ok_0)@.filter_feed == filter_feed()
                &&& fresh((r->Ok_0)@, zero)
                &&& (r->Ok_0).workers().len() == partition.len() - 1
                &&& forall|i: int|
                    0 <= i < partition.len() - 1 ==> worker_for(
                        #[trigger] (r->Ok_0).workers()[i],
                        partition@,
                        channels as int,
                        signal_feed(),
                        filter_feed(),
                        silence,
                        zero,
                        i,
                    )
            },
    {
        match Conv::new(partition, channels, silence, zero) {
            Ok((conv, workers)) => {
                proof {
                    conv.lemma_wf();
                }
                let engine = NoThreadConv { conv, workers };
                proof {
                    assert forall|i: int| 0 <= i < partition.len() - 1 implies worker_for(
                        #[trigger] engine.workers()[i],
                        partition@,
                        channels as int,
                        signal_feed(),
                        filter_feed(),
                        silence,
                        zero,
                        i,
                    ) by {
                        assert(engine.workers()[i] == engine.workers[i]@);
                    }
                }
                Ok(engine)
            },
            Err(e) => Err(e),
        }
    }

    /// How many bins the spectra of the whole plan have, which is the length
    /// that `set_filter` asks for.
    pub fn spectrum_len(&self) -> (r: usize)
        requires
            self.wf(),
        ensures
            r == bins_before(self@.plan, self@.channels, self@.plan.len() as int),
    {
        self.conv.spectrum_len()
    }

    /// What the workers hold, in the order of the plan.
    pub closed spec fn workers(&self) -> Seq<WorkerView<S, C>> {
        Seq::new(self.workers.len() as nat, |i: int| self.workers[i]@)
    }

    /// Runs every worker, in the order of the plan: each is stepped until a
    /// step finds nothing to do, `STEP_LIMIT` times at most. What the
    /// real-time side holds stays as it is.
    fn settle<
        F: Fn(&Vec<S>) -> Vec<C>,
        M: Fn(C, C, C) -> C,
        I: Fn(&Vec<C>) -> Vec<S>,
        X: Fn(S, S, usize, usize, usize) -> S,
    >(&mut self, fft: &F, mac: &M, ifft: &I, mix: &X)
        requires
            old(self).wf(),
            fit_workers(fft, ifft, old(self)@.plan),
            mac_total(mac),
            mix_total(mix),
        ensures
            final(self).wf(),
            final(self)@ == old(self)@,
            final(self).workers().len() == old(self).workers().len(),
            forall|i: int|
                0 <= i < old(self).workers().len() ==> settled(
                    fft,
                    mac,
                    ifft,
                    mix,
                    old(self).workers()[i],
                    #[trigger] final(self).workers()[i],
                    STEP_LIMIT as int,
                ),
    {
        let n: usize = self.workers.len();
        let mut i: usize = 0;
        while i < n
            invariant
                0 <= i <= n,
                n == self.workers.len(),
                n == old(self).workers.len(),
                self.conv == old(self).conv,
                self.wf(),
                fit_workers(fft, ifft, old(self)@.plan),
                mac_total(mac),
                mix_total(mix),
                forall|j: int| i <= j < n ==> (#[trigger] self.workers[j]) == old(self).workers[j],
                forall|j: int|
                    0 <= j < i ==> settled(
                        fft,
                        mac,
                        ifft,
                        mix,
                        old(self).workers[j]@,
                        (#[trigger] self.workers[j])@,
                        STEP_LIMIT as int,
                    ),
            decreases n - i,
        {
            let ghost plan = self.conv@.plan;
            let ghost before = self.workers@;
            proof {
                assert(self.workers[i as int].wf());
                assert(self.workers[i as int] == old(self).workers[i as int]);
                assert(transform_fits(fft, 2 * plan[i + 1].0, plan[i + 1].0 + 1));
            }
            let done = run_worker(&mut self.workers[i], fft, mac, ifft, mix);
            proof {
                assert(ran(
                    fft,
                    mac,
                    ifft,
                    mix,
                    old(self).workers[i as int]@,
                    self.workers[i as int]@,
                    STEP_LIMIT as int,
                    done as int,
                ));
                assert forall|j: int| 0 <= j < self.workers.len() implies (
                #[trigger] self.workers[j]).wf() && self.workers[j]@.conv.signal.block_size
                    == plan[j + 1].0 by {
                    if j != i {
                        assert(self.workers[j] == before[j]);
                    }
                }
                assert forall|j: int| 0 <= j < i + 1 implies settled(
                    fft,
                    mac,
                    ifft,
                    mix,
                    old(self).workers[j]@,
                    (#[trigger] self.workers[j])@,
                    STEP_LIMIT as int,
                ) by {
                    if j != i {
                        assert(self.workers[j] == before[j]);
                    }
                }
            }
            i += 1;
        }
        proof {
            assert forall|j: int| 0 <= j < old(self).workers().len() implies settled(
                fft,
                mac,
                ifft,
                mix,
                old(self).workers()[j],
                #[trigger] self.workers()[j],
                STEP_LIMIT as int,
            ) by {
                assert(self.workers()[j] == self.workers[j]@);
                assert(old(self).workers()[j] == old(self).workers[j]@);
            }
        }
    }

    /// Installs a new filter, given as the spectra of the whole plan in the
    /// layout of `process_filter`: `Conv::set_filter`, and every worker is
    /// run so that it installs its part.
    pub fn set_filter<
        F: Fn(&Vec<S>) -> Vec<C>,
        M: Fn(C, C, C) -> C,
        I: Fn(&Vec<C>) -> Vec<S>,
        X: Fn(S, S, usize, usize, usize) -> S,
    >(&mut self, new_filter: &[C], fft: &F, mac: &M, ifft: &I, mix: &X)
        requires
            old(self).wf(),
            new_filter.len() == bins_before(
                old(self)@.plan,
                old(self)@.channels,
                old(self)@.plan.len() as int,
            ),
            fit_workers(fft, ifft, old(self)@.plan),
            mac_total(mac),
            mix_total(mix),
        ensures
            final(self).wf(),
            final(self)@ == (SchedulerView {
                rt: final(self)@.rt,
                segments: final(self)@.segments,
                ..old(self)@
            }),
            buffer_set(
                old(self)@.rt,
                final(self)@.rt,
                FdlKey::Filter,
                new_filter@.subrange(0, bins_before(old(self)@.plan, old(self)@.channels, 1)),
            ),
            final(self)@.segments.len() == old(self)@.segments.len(),
            forall|i: int|
                0 <= i < old(self)@.segments.len() ==> installed(
                    old(self)@.segments[i],
                    #[trigger] final(self)@.segments[i],
                ),
            final(self).workers().len() == old(self).workers().len(),
            forall|i: int|
                0 <= i < old(self).workers().len() ==> settled(
                    fft,
                    mac,
                    ifft,
                    mix,
                    old(self).workers()[i],
                    #[trigger] final(self).workers()[i],
                    STEP_LIMIT as int,
                ),
    {
        self.conv.set_filter(new_filter);
        self.settle(fft, mac, ifft, mix);
    }

    /// Takes in one block per channel and puts out one block per channel:
    /// the block is pushed and handed over, the workers are run, and the
    /// outputs are collected and added up.
    pub fn process_block<
        F: Fn(&Vec<S>) -> Vec<C>,
        M: Fn(C, C, C) -> C,
        I: Fn(&Vec<C>) -> Vec<S>,
        X: Fn(S, S, usize, usize, usize) -> S,
        P: Fn(S, S) -> S,
    >(
        &mut self,
        channel_blocks: &[Vec<S>],
        fft: &F,
        mac: &M,
        ifft: &I,
        mix: &X,
        plus: &P,
    ) -> (out: &Vec<Vec<S>>)
        requires
            old(self).wf(),
            old(self)@.signal_count < usize::MAX,
            old(self)@.process_counter < usize::MAX,
            channel_blocks.len() == old(self)@.channels,
            forall|c: int|
                0 <= c < channel_blocks.len() ==> (#[trigger] channel_blocks[c]).len() == old(self)@.plan[0].0,
            transform_fits(fft, 2 * old(self)@.plan[0].0, old(self)@.plan[0].0 + 1),
            transform_fits(ifft, old(self)@.plan[0].0 + 1, 2 * old(self)@.plan[0].0),
            fit_workers(fft, ifft, old(self)@.plan),
            mac_total(mac),
            mix_total(mix),
            plus_total(plus),
        ensures
            final(self).wf(),
            block_done(fft, mac, ifft, mix, plus, old(self)@, final(self)@, channel_blocks@),
            final(self).workers().len() == old(self).workers().len(),
            forall|i: int|
                0 <= i < old(self).workers().len() ==> settled(
                    fft,
                    mac,
                    ifft,
                    mix,
                    old(self).workers()[i],
                    #[trigger] final(self).workers()[i],
                    STEP_LIMIT as int,
                ),
            out.len() == old(self)@.channels,
            forall|c: int| 0 <= c < out.len() ==> (#[trigger] out[c])@ == final(self)@.front[c],
    {
        self.conv.push(channel_blocks, fft);
        let ghost pushed = self@;
        self.settle(fft, mac, ifft, mix);
        self.conv.process(mac, ifft, mix, plus);
        proof {
            self.conv.lemma_wf();
            assert(crate::scheduler::cycle_done(mac, ifft, mix, plus, pushed, self@));
        }
        self.conv.front()
    }
}

} // verus!
