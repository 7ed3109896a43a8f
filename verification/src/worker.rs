//! The worker of one partition: its convolver and its ends of the queues.
//! A worker is meant to run on a thread of its own, which calls `step` again
//! and again.
//!
//! What arrives through a queue depends on the other thread. A step takes
//! what has arrived and hands it to the worker's `Station`, whose functions
//! say exactly what is made of it.

use crate::buffers::{filled, gather, gathered, row_views, rows, scatter, scattered};
use crate::kernel::{mac_total, mix_total, transform_fits};
use crate::queue::{abandoned, receive, send};
use crate::scheduler::{bump, count_fault, FdlConfig};
use crate::upconv::{
    block_output, buffer_set, chunk_pushed, conv_wf, FdlKey, UPConv, UPConvView,
};
use vstd::prelude::*;

verus! {

/// The worker's end of the queues of one partition, with the convolver of
/// that partition. A worker is made by `Scheduler::new` and meant to be moved
/// to a thread of its own, which calls `step` again and again.
#[verifier::reject_recursive_types(S)]
#[verifier::reject_recursive_types(C)]
pub struct Worker<S, C> {
    station: Station<S, C>,
    signal_real: Option<rtrb::Consumer<S>>,
    filter_real: Option<rtrb::Consumer<S>>,
    signal_complex: Option<rtrb::Consumer<C>>,
    filter_complex: Option<rtrb::Consumer<C>>,
    signal_moving: bool,
    filter_moving: bool,
    out_prod: rtrb::Producer<S>,
    samples_in: Vec<S>,
    spectra_in: Vec<C>,
    dropped: usize,
}

/// Which queues lead to a worker.
pub ghost struct Inlets {
    /// Spectra for the signal's delay line.
    pub signal_spectra: bool,
    /// Spectra for the filter's delay line.
    pub filter_spectra: bool,
    /// Blocks of samples for the filter's delay line.
    pub filter_blocks: bool,
    /// Blocks of samples for the signal's delay line.
    pub signal_blocks: bool,
}

/// The queues that lead to the workers of an engine with these feeds.
pub open spec fn inlets_of(signal_feed: FdlConfig, filter_feed: FdlConfig) -> Inlets {
    Inlets {
        signal_spectra: signal_feed.complex_ringbuff,
        filter_spectra: filter_feed.complex_ringbuff,
        filter_blocks: filter_feed.real_ringbuff,
        signal_blocks: signal_feed.real_ringbuff,
    }
}

/// What a worker holds.
pub ghost struct WorkerView<S, C> {
    /// The queues that lead to the worker.
    pub inlets: Inlets,
    /// The convolver of the worker's partition.
    pub conv: UPConvView<S, C>,
    /// Whether pushes into the signal's delay line slide.
    pub signal_moving: bool,
    /// Whether pushes into the filter's delay line slide.
    pub filter_moving: bool,
    /// The samples that were received last, channel after channel.
    pub samples_in: Seq<S>,
    /// The spectra that were received last, channel after channel.
    pub spectra_in: Seq<C>,
    /// The output that was computed last, channel after channel.
    pub samples_out: Seq<S>,
    /// How many outputs found no room in the queue.
    pub dropped: int,
}

/// A worker's buffers have the sizes that its convolver calls for.
pub open spec fn worker_wf<S, C>(v: WorkerView<S, C>) -> bool {
    &&& conv_wf(v.conv)
    &&& v.samples_in.len() == v.conv.signal.block_size * v.conv.signal.channels
    &&& v.samples_out.len() == v.conv.signal.block_size * v.conv.signal.channels
    &&& v.spectra_in.len() == v.conv.signal.channels * ((v.conv.signal.block_size + 1)
        * v.conv.signal.num_blocks)
    &&& 0 <= v.dropped
}

impl<S, C> View for Worker<S, C> {
    type V = WorkerView<S, C>;

    closed spec fn view(&self) -> WorkerView<S, C> {
        WorkerView {
            inlets: Inlets {
                signal_spectra: self.signal_complex is Some,
                filter_spectra: self.filter_complex is Some,
                filter_blocks: self.filter_real is Some,
                signal_blocks: self.signal_real is Some,
            },
            conv: self.station@.conv,
            signal_moving: self.signal_moving,
            filter_moving: self.filter_moving,
            samples_in: self.samples_in@,
            spectra_in: self.spectra_in@,
            samples_out: self.station@.samples_out,
            dropped: self.dropped as int,
        }
    }
}

/// What one step of a worker has done.
#[derive(Clone, Copy, Debug, PartialEq, Eq, Structural)]
pub enum WorkerEvent {
    /// Nothing had arrived.
    Idle,
    /// Nothing had arrived, and nothing will arrive: every queue that leads
    /// to the worker has lost its sending end, or there is none.
    Closed,
    /// Spectra had arrived and were installed in the delay line named.
    Installed(FdlKey),
    /// A block had arrived for the filter's delay line and was pushed.
    Pushed,
    /// A block of the signal had arrived and was convolved; the flag tells
    /// whether the output found room in its queue.
    Processed(bool),
}

/// What taking in a block of samples makes of a convolver: the block, which
/// holds the samples channel after channel, is cut into one block per channel
/// and every channel of the delay line that `key` names takes its block in.
pub open spec fn block_pushed<S, C, F: Fn(&Vec<S>) -> Vec<C>>(
    fft: &F,
    before: UPConvView<S, C>,
    after: UPConvView<S, C>,
    key: FdlKey,
    samples: Seq<S>,
    sliding: bool,
) -> bool {
    exists|chunk: Seq<Vec<S>>|
        #![trigger scattered(chunk, samples, before.signal.block_size)]
        chunk.len() == before.signal.channels && scattered(
            chunk,
            samples,
            before.signal.block_size,
        ) && chunk_pushed(fft, before, after, key, chunk, sliding)
}

/// What convolving a block of the signal makes of a convolver: the block is
/// taken in by the signal's delay line, one output block per channel is
/// computed from what the delay lines hold then, a pending fade is done with,
/// and `out` holds the output blocks channel after channel.
pub open spec fn block_convolved<
    S,
    C,
    F: Fn(&Vec<S>) -> Vec<C>,
    M: Fn(C, C, C) -> C,
    I: Fn(&Vec<C>) -> Vec<S>,
    X: Fn(S, S, usize, usize, usize) -> S,
>(
    fft: &F,
    mac: &M,
    ifft: &I,
    mix: &X,
    before: UPConvView<S, C>,
    after: UPConvView<S, C>,
    samples: Seq<S>,
    sliding: bool,
    out: Seq<S>,
) -> bool {
    &&& block_pushed(
        fft,
        before,
        UPConvView { output: before.output, fading: before.fading, ..after },
        FdlKey::Signal,
        samples,
        sliding,
    )
    &&& !after.fading
    &&& forall|c: int|
        0 <= c < before.signal.channels ==> block_output(
            mac,
            ifft,
            mix,
            UPConvView { signal: after.signal, ..before },
            c,
            #[trigger] after.output[c],
        )
    &&& gathered(out, after.output, before.signal.block_size)
}

/// Whether a worker with these queues may report this event: what has
/// arrived has come through a queue that is there, and a worker that is idle
/// has a queue to wait for.
pub open spec fn may_report(inlets: Inlets, event: WorkerEvent) -> bool {
    match event {
        WorkerEvent::Idle => inlets.signal_spectra || inlets.filter_spectra || inlets.filter_blocks
            || inlets.signal_blocks,
        WorkerEvent::Closed => true,
        WorkerEvent::Installed(FdlKey::Signal) => inlets.signal_spectra,
        WorkerEvent::Installed(FdlKey::Filter) => inlets.filter_spectra,
        WorkerEvent::Pushed => inlets.filter_blocks,
        WorkerEvent::Processed(_) => inlets.signal_blocks,
    }
}

/// What a step makes of a worker, for each event that it may report. The
/// queues stay, and what has arrived lies in the worker's buffers and has
/// been dealt with as `Station::install`, `Station::push` and
/// `Station::convolve` deal with it.
pub open spec fn worker_did<
    S,
    C,
    F: Fn(&Vec<S>) -> Vec<C>,
    M: Fn(C, C, C) -> C,
    I: Fn(&Vec<C>) -> Vec<S>,
    X: Fn(S, S, usize, usize, usize) -> S,
>(
    fft: &F,
    mac: &M,
    ifft: &I,
    mix: &X,
    before: WorkerView<S, C>,
    after: WorkerView<S, C>,
    event: WorkerEvent,
) -> bool {
    &&& after.inlets == before.inlets
    &&& may_report(before.inlets, event)
    &&& after.signal_moving == before.signal_moving
    &&& after.filter_moving == before.filter_moving
    &&& match event {
        WorkerEvent::Idle => after == before,
        WorkerEvent::Closed => after == before,
        WorkerEvent::Installed(key) => {
            &&& buffer_set(before.conv, after.conv, key, after.spectra_in)
            &&& after.samples_in == before.samples_in
            &&& after.samples_out == before.samples_out
            &&& after.dropped == before.dropped
        },
        WorkerEvent::Pushed => {
            &&& block_pushed(
                fft,
                before.conv,
                after.conv,
                FdlKey::Filter,
                after.samples_in,
                before.filter_moving,
            )
            &&& after.spectra_in == before.spectra_in
            &&& after.samples_out == before.samples_out
            &&& after.dropped == before.dropped
        },
        WorkerEvent::Processed(delivered) => {
            &&& block_convolved(
                fft,
                mac,
                ifft,
                mix,
                before.conv,
                after.conv,
                after.samples_in,
                before.signal_moving,
                after.samples_out,
            )
            &&& after.spectra_in == before.spectra_in
            &&& after.dropped == bump(before.dropped, delivered)
        },
    }
}

/// Whether an event tells of something done.
pub open spec fn busy(event: WorkerEvent) -> bool {
    match event {
        WorkerEvent::Idle => false,
        WorkerEvent::Closed => false,
        _ => true,
    }
}

/// `views` are what a worker holds before, between and after steps that
/// report `events`, one after the other.
pub open spec fn steps<
    S,
    C,
    F: Fn(&Vec<S>) -> Vec<C>,
    M: Fn(C, C, C) -> C,
    I: Fn(&Vec<C>) -> Vec<S>,
    X: Fn(S, S, usize, usize, usize) -> S,
>(
    fft: &F,
    mac: &M,
    ifft: &I,
    mix: &X,
    views: Seq<WorkerView<S, C>>,
    events: Seq<WorkerEvent>,
) -> bool {
    &&& views.len() == events.len() + 1
    &&& forall|i: int|
        0 <= i < events.len() ==> worker_did(
            fft,
            mac,
            ifft,
            mix,
            views[i],
            views[i + 1],
            #[trigger] events[i],
        )
}

/// What a run makes of a worker: it is stepped until a step finds nothing to
/// do, `limit` times at most, and `done` of the steps have done something.
pub open spec fn ran<
    S,
    C,
    F: Fn(&Vec<S>) -> Vec<C>,
    M: Fn(C, C, C) -> C,
    I: Fn(&Vec<C>) -> Vec<S>,
    X: Fn(S, S, usize, usize, usize) -> S,
>(
    fft: &F,
    mac: &M,
    ifft: &I,
    mix: &X,
    before: WorkerView<S, C>,
    after: WorkerView<S, C>,
    limit: int,
    done: int,
) -> bool {
    exists|views: Seq<WorkerView<S, C>>, events: Seq<WorkerEvent>|
        #![trigger steps(fft, mac, ifft, mix, views, events)]
        {
            &&& steps(fft, mac, ifft, mix, views, events)
            &&& views[0] == before
            &&& views[events.len() as int] == after
            &&& 1 <= events.len() <= limit
            &&& forall|i: int| 0 <= i < done ==> busy(#[trigger] events[i])
            &&& done == events.len() || (done == events.len() - 1 && !busy(events[done]))
            &&& done < events.len() || events.len() == limit
        }
}

/// What a run makes of a worker, however many of its steps have done
/// something.
pub open spec fn settled<
    S,
    C,
    F: Fn(&Vec<S>) -> Vec<C>,
    M: Fn(C, C, C) -> C,
    I: Fn(&Vec<C>) -> Vec<S>,
    X: Fn(S, S, usize, usize, usize) -> S,
>(
    fft: &F,
    mac: &M,
    ifft: &I,
    mix: &X,
    before: WorkerView<S, C>,
    after: WorkerView<S, C>,
    limit: int,
) -> bool {
    exists|done: int| #[trigger] ran(fft, mac, ifft, mix, before, after, limit, done)
}

/// The convolver of one partition with the buffers that turn a block which
/// holds the samples channel after channel into one block per channel, and
/// the output blocks back into one.
pub struct Station<S, C> {
    conv: UPConv<S, C>,
    chunk: Vec<Vec<S>>,
    samples_out: Vec<S>,
}

/// What a station holds.
pub ghost struct StationView<S, C> {
    /// The convolver.
    pub conv: UPConvView<S, C>,
    /// The output that was computed last, channel after channel.
    pub samples_out: Seq<S>,
}

/// A station's output has room for one block per channel.
pub open spec fn station_wf<S, C>(v: StationView<S, C>) -> bool {
    &&& conv_wf(v.conv)
    &&& v.samples_out.len() == v.conv.signal.block_size * v.conv.signal.channels
}

impl<S, C> View for Station<S, C> {
    type V = StationView<S, C>;

    closed spec fn view(&self) -> StationView<S, C> {
        StationView { conv: self.conv@, samples_out: self.samples_out@ }
    }
}

impl<S: Copy, C: Copy> Station<S, C> {
    /// What the station holds is consistent.
    pub closed spec fn wf(&self) -> bool {
        &&& station_wf(self@)
        &&& self.conv.wf()
        &&& self.chunk.len() == self.conv@.signal.channels
        &&& forall|c: int|
            0 <= c < self.chunk.len() ==> (#[trigger] self.chunk[c]).len()
                == self.conv@.signal.block_size
    }

    /// A consistent station's view is consistent.
    pub proof fn lemma_wf(&self)
        requires
            self.wf(),
        ensures
            station_wf(self@),
    {
    }

    /// A station with a fresh convolver, whose output holds `silence`.
    pub fn new(block_size: usize, channels: usize, num_blocks: usize, silence: S, zero: C) -> (station:
        Self)
        requires
            num_blocks >= 1,
            2 * block_size <= usize::MAX,
            (block_size + 1) * num_blocks <= usize::MAX,
            block_size * channels <= usize::MAX,
        ensures
            station.wf(),
            station@.conv.signal.block_size == block_size,
            station@.conv.signal.num_blocks == num_blocks,
            station@.conv.signal.channels == channels,
            station@.conv.signal.silence == silence,
            station@.conv.zero == zero,
            !station@.conv.loaded,
            !station@.conv.fading,
            station@.samples_out == Seq::new((block_size * channels) as nat, |i: int| silence),
    {
        let station = Station {
            conv: UPConv::new(block_size, channels, num_blocks, silence, zero),
            chunk: rows(channels, block_size, silence),
            samples_out: filled(block_size * channels, silence),
        };
        proof {
            station.conv.lemma_wf();
        }
        station
    }

    /// Samples per block.
    pub fn block_size(&self) -> (r: usize)
        ensures
            r == self@.conv.signal.block_size,
    {
        self.conv.block_size()
    }

    /// The output that was computed last, channel after channel.
    pub fn output(&self) -> (out: &Vec<S>)
        ensures
            out@ == self@.samples_out,
    {
        &self.samples_out
    }

    /// Installs spectra that have arrived in the delay line that `fdl_key`
    /// names: `UPConv::set_fdl_buff`.
    pub fn install(&mut self, spectra: &[C], fdl_key: FdlKey)
        requires
            old(self).wf(),
            spectra.len() == old(self)@.conv.signal.channels * ((old(self)@.conv.signal.block_size
                + 1) * old(self)@.conv.signal.num_blocks),
        ensures
            final(self).wf(),
            buffer_set(old(self)@.conv, final(self)@.conv, fdl_key, spectra@),
            final(self)@.samples_out == old(self)@.samples_out,
    {
        proof {
            self.conv.lemma_wf();
        }
        self.conv.set_fdl_buff(spectra, fdl_key);
        proof {
            self.conv.lemma_wf();
        }
    }

    /// Takes a block of samples that has arrived into the delay line that
    /// `fdl_key` names. The block holds the samples channel after channel.
    pub fn push<F: Fn(&Vec<S>) -> Vec<C>>(
        &mut self,
        samples: &Vec<S>,
        fdl_key: FdlKey,
        sliding: bool,
        fft: &F,
    )
        requires
            old(self).wf(),
            samples.len() == old(self)@.conv.signal.block_size * old(self)@.conv.signal.channels,
            transform_fits(
                fft,
                2 * old(self)@.conv.signal.block_size,
                old(self)@.conv.signal.block_size + 1,
            ),
        ensures
            final(self).wf(),
            block_pushed(fft, old(self)@.conv, final(self)@.conv, fdl_key, samples@, sliding),
            final(self)@.samples_out == old(self)@.samples_out,
    {
        let b: usize = self.conv.block_size();
        proof {
            self.conv.lemma_wf();
            assert(b * self.chunk.len() == self.chunk.len() * b) by (nonlinear_arith);
        }
        scatter(&mut self.chunk, samples, b);
        self.conv.push_chunk(fdl_key, self.chunk.as_slice(), sliding, fft);
        proof {
            self.conv.lemma_wf();
            assert(scattered(self.chunk@, samples@, b as int));
        }
    }

    /// Convolves a block of the signal that has arrived: the block is taken
    /// into the signal's delay line, the output blocks are computed, and they
    /// are laid out channel after channel, as they are handed back.
    pub fn convolve<
        F: Fn(&Vec<S>) -> Vec<C>,
        M: Fn(C, C, C) -> C,
        I: Fn(&Vec<C>) -> Vec<S>,
        X: Fn(S, S, usize, usize, usize) -> S,
    >(&mut self, samples: &Vec<S>, sliding: bool, fft: &F, mac: &M, ifft: &I, mix: &X)
        requires
            old(self).wf(),
            samples.len() == old(self)@.conv.signal.block_size * old(self)@.conv.signal.channels,
            transform_fits(
                fft,
                2 * old(self)@.conv.signal.block_size,
                old(self)@.conv.signal.block_size + 1,
            ),
            mac_total(mac),
            transform_fits(
                ifft,
                old(self)@.conv.signal.block_size + 1,
                2 * old(self)@.conv.signal.block_size,
            ),
            mix_total(mix),
        ensures
            final(self).wf(),
            block_convolved(
                fft,
                mac,
                ifft,
                mix,
                old(self)@.conv,
                final(self)@.conv,
                samples@,
                sliding,
                final(self)@.samples_out,
            ),
    {
        let b: usize = self.conv.block_size();
        proof {
            self.conv.lemma_wf();
            assert(b * self.chunk.len() == self.chunk.len() * b) by (nonlinear_arith);
        }
        scatter(&mut self.chunk, samples, b);
        self.conv.push_chunk(FdlKey::Signal, self.chunk.as_slice(), sliding, fft);
        let ghost pushed = self.conv@;
        proof {
            self.conv.lemma_wf();
        }
        self.conv.process(mac, ifft, mix);
        proof {
            self.conv.lemma_wf();
        }
        let blocks = self.conv.output();
        gather(&mut self.samples_out, blocks, b);
        proof {
            assert(scattered(self.chunk@, samples@, b as int));
            assert(row_views(blocks@) =~= self@.conv.output);
            assert(pushed == (UPConvView {
                output: old(self)@.conv.output,
                fading: old(self)@.conv.fading,
                ..self@.conv
            }));
            assert(pushed == (UPConvView { signal: self@.conv.signal, ..old(self)@.conv }));
        }
    }
}

/// Fills `items` from the queue, where it is there and holds enough. Without
/// a queue nothing arrives. Whether there is a queue does not change.
fn receive_on<T: Copy>(queue: &mut Option<rtrb::Consumer<T>>, items: &mut Vec<T>) -> (got: bool)
    ensures
        *final(queue) is Some == *old(queue) is Some,
        got ==> *old(queue) is Some,
        final(items).len() == old(items).len(),
        !got ==> final(items)@ == old(items)@,
{
    match queue {
        Some(rx) => receive(rx, items),
        None => false,
    }
}

/// Whether nothing will arrive through the queue any more: it is not there,
/// or its sending end is gone.
fn gone<T>(queue: &Option<rtrb::Consumer<T>>) -> (r: bool)
    ensures
        *queue is None ==> r,
{
    match queue {
        Some(rx) => abandoned(rx),
        None => true,
    }
}

/// Worker `i` is a fresh convolver for partition `i + 1` of the plan.
pub open spec fn worker_for<S, C>(
    w: WorkerView<S, C>,
    plan: Seq<(usize, usize)>,
    channels: int,
    signal_feed: FdlConfig,
    filter_feed: FdlConfig,
    silence: S,
    zero: C,
    i: int,
) -> bool {
    &&& w.conv.signal.block_size == plan[i + 1].0
    &&& w.conv.signal.num_blocks == plan[i + 1].1
    &&& w.conv.signal.channels == channels
    &&& w.conv.signal.silence == silence
    &&& w.conv.zero == zero
    &&& !w.conv.loaded
    &&& !w.conv.fading
    &&& w.inlets == inlets_of(signal_feed, filter_feed)
    &&& w.signal_moving == signal_feed.moving
    &&& w.filter_moving == filter_feed.moving
    &&& w.dropped == 0
}

impl<S: Copy, C: Copy> Worker<S, C> {
    /// What the worker holds is consistent.
    pub closed spec fn wf(&self) -> bool {
        &&& worker_wf(self@)
        &&& self.station.wf()
    }

    /// A consistent worker's view is consistent.
    pub proof fn lemma_wf(&self)
        requires
            self.wf(),
        ensures
            worker_wf(self@),
    {
    }

    /// The worker of a partition of `block_size` samples and `num_blocks` taps,
    /// with its ends of the queues.
    pub(crate) fn new(
        block_size: usize,
        channels: usize,
        num_blocks: usize,
        silence: S,
        zero: C,
        signal_feed: FdlConfig,
        filter_feed: FdlConfig,
        signal_real: Option<rtrb::Consumer<S>>,
        filter_real: Option<rtrb::Consumer<S>>,
        signal_complex: Option<rtrb::Consumer<C>>,
        filter_complex: Option<rtrb::Consumer<C>>,
        out_prod: rtrb::Producer<S>,
    ) -> (worker: Self)
        requires
            num_blocks >= 1,
            2 * block_size <= usize::MAX,
            (block_size + 1) * num_blocks <= usize::MAX,
            (block_size + 1) * num_blocks * channels <= usize::MAX,
        ensures
            worker.wf(),
            worker@.inlets == (Inlets {
                signal_spectra: signal_complex is Some,
                filter_spectra: filter_complex is Some,
                filter_blocks: filter_real is Some,
                signal_blocks: signal_real is Some,
            }),
            worker@.conv.signal.block_size == block_size,
            worker@.conv.signal.num_blocks == num_blocks,
            worker@.conv.signal.channels == channels,
            worker@.conv.signal.silence == silence,
            worker@.conv.zero == zero,
            !worker@.conv.loaded,
            !worker@.conv.fading,
            worker@.signal_moving == signal_feed.moving,
            worker@.filter_moving == filter_feed.moving,
            worker@.dropped == 0,
    {
        proof {
            assert(block_size * channels <= (block_size + 1) * num_blocks * channels)
                by (nonlinear_arith)
                requires
                    num_blocks >= 1,
            ;
            assert((block_size + 1) * num_blocks * channels == channels * ((block_size + 1)
                * num_blocks)) by (nonlinear_arith);
        }
        let block_len: usize = block_size * channels;
        let bins: usize = (block_size + 1) * num_blocks * channels;
        let station = Station::new(block_size, channels, num_blocks, silence, zero);
        proof {
            station.lemma_wf();
        }
        Worker {
            station,
            signal_real,
            filter_real,
            signal_complex,
            filter_complex,
            signal_moving: signal_feed.moving,
            filter_moving: filter_feed.moving,
            out_prod,
            samples_in: filled(block_len, silence),
            spectra_in: filled(bins, zero),
            dropped: 0,
        }
    }

    /// Samples per block of the worker's partition.
    pub fn block_size(&self) -> (r: usize)
        ensures
            r == self@.conv.signal.block_size,
    {
        self.station.block_size()
    }

    /// How many outputs found no room in the queue.
    pub fn dropped(&self) -> (r: usize)
        ensures
            r == self@.dropped,
    {
        self.dropped
    }

    /// Does the first thing that there is to do, in this order: install
    /// spectra that have arrived for the signal's or for the filter's delay
    /// line, push a block that has arrived for the filter's delay line, or
    /// take in a block of the signal, convolve it and hand the output back.
    /// So a filter that was handed over before a block is installed before
    /// that block is convolved.
    pub fn step<
        F: Fn(&Vec<S>) -> Vec<C>,
        M: Fn(C, C, C) -> C,
        I: Fn(&Vec<C>) -> Vec<S>,
        X: Fn(S, S, usize, usize, usize) -> S,
    >(&mut self, fft: &F, mac: &M, ifft: &I, mix: &X) -> (event: WorkerEvent)
        requires
            old(self).wf(),
            transform_fits(
                fft,
                2 * old(self)@.conv.signal.block_size,
                old(self)@.conv.signal.block_size + 1,
            ),
            mac_total(mac),
            transform_fits(
                ifft,
                old(self)@.conv.signal.block_size + 1,
                2 * old(self)@.conv.signal.block_size,
            ),
            mix_total(mix),
        ensures
            final(self).wf(),
            worker_did(fft, mac, ifft, mix, old(self)@, final(self)@, event),
    {
        proof {
            self.station.lemma_wf();
        }
        if receive_on(&mut self.signal_complex, &mut self.spectra_in) {
            self.station.install(self.spectra_in.as_slice(), FdlKey::Signal);
            proof {
                self.station.lemma_wf();
            }
            return WorkerEvent::Installed(FdlKey::Signal);
        }
        if receive_on(&mut self.filter_complex, &mut self.spectra_in) {
            self.station.install(self.spectra_in.as_slice(), FdlKey::Filter);
            proof {
                self.station.lemma_wf();
            }
            return WorkerEvent::Installed(FdlKey::Filter);
        }
        if receive_on(&mut self.filter_real, &mut self.samples_in) {
            self.station.push(&self.samples_in, FdlKey::Filter, self.filter_moving, fft);
            proof {
                self.station.lemma_wf();
            }
            return WorkerEvent::Pushed;
        }
        if receive_on(&mut self.signal_real, &mut self.samples_in) {
            self.station.convolve(&self.samples_in, self.signal_moving, fft, mac, ifft, mix);
            proof {
                self.station.lemma_wf();
            }
            let sent: bool = send(&mut self.out_prod, self.station.output().as_slice());
            self.dropped = count_fault(self.dropped, sent);
            return WorkerEvent::Processed(sent);
        }
        if gone(&self.signal_complex) && gone(&self.filter_complex) && gone(&self.filter_real)
            && gone(&self.signal_real) {
            WorkerEvent::Closed
        } else {
            WorkerEvent::Idle
        }
    }
}

} // verus!
