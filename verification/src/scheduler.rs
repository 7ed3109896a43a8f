//! The multi-partition scheduler: the smallest partition is convolved on the
//! calling thread, every other partition by a worker that is fed through
//! queues, and the outputs are added up where they belong in time.
//!
//! A segment is handed a block in every cycle that its cadence divides, and
//! its output for that block is collected `offset - avail` cycles later
//! (`partition::lemma_due_cycle`). That is the time its worker has. A plan
//! whose partitions before a segment hold no more samples than one block of
//! the segment leaves its worker no cycle at all: the output is then due in
//! the cycle of the hand-over, which only an engine on one thread meets.

use crate::buffers::{
    add_at, channel_block, copy_block, filled, gather, gathered, row_views, rows, slide_in,
    summed,
};
use crate::kernel::{all_are, mac_total, mix_total, plus_total, transform_fits};
use crate::partition::{
    avail_of, bins_before, check_partition, lemma_bin_factors, lemma_bins_before_grows,
    lemma_blocks_ascend, lemma_first_divides, offset_of, partition_bins, segment_avail,
    segment_offset, usable, verdict, PlanError,
};
use crate::queue::{receive, ring_buffer, send};
use crate::worker::{worker_for, Worker};
use crate::upconv::{
    block_output, buffer_set, chunk_pushed, conv_wf, FdlKey, UPConv, UPConvView,
};
use vstd::prelude::*;

verus! {

/// How many blocks of its partition a queue of samples has room for.
pub const QUEUE_BLOCKS: usize = 1000;

/// How many whole filters a queue of spectra has room for.
pub const QUEUE_FILTERS: usize = 2;

/// How one delay line of the engine is fed.
#[derive(Clone, Copy, Debug, PartialEq, Eq, Structural)]
pub struct FdlConfig {
    /// The delay line that is meant.
    pub name: FdlKey,
    /// Whole spectra are installed into it, through `Scheduler::set`.
    pub complex_ringbuff: bool,
    /// Blocks of samples are pushed into it, through `Scheduler::push`.
    pub real_ringbuff: bool,
    /// The workers push its blocks in sliding mode.
    pub moving: bool,
}

/// The feed of a delay line that no configuration names: none at all.
pub open spec fn no_feed(key: FdlKey) -> FdlConfig {
    FdlConfig { name: key, complex_ringbuff: false, real_ringbuff: false, moving: false }
}

/// The feed of the delay line `key` according to the first `n` of `configs`:
/// the last of them that names it.
pub open spec fn feed_of(configs: Seq<FdlConfig>, key: FdlKey, n: int) -> FdlConfig
    decreases n,
{
    if n <= 0 {
        no_feed(key)
    } else if configs[n - 1].name == key {
        configs[n - 1]
    } else {
        feed_of(configs, key, n - 1)
    }
}

/// Slots of a queue of samples for one partition.
pub open spec fn real_slots(part: (usize, usize), channels: int) -> int {
    part.0 * channels * QUEUE_BLOCKS
}

/// Slots of a queue of spectra for one partition.
pub open spec fn complex_slots(part: (usize, usize), channels: int) -> int {
    partition_bins(part, channels) * QUEUE_FILTERS
}

/// A queue of `slots` items of `size` bytes can be allocated.
pub open spec fn queue_fits(slots: int, size: int) -> bool {
    slots <= usize::MAX && slots * size <= isize::MAX
}

/// The queues of every partition but the first can be allocated.
pub open spec fn queues_fit<S, C>(plan: Seq<(usize, usize)>, channels: int) -> bool {
    forall|i: int|
        0 < i < plan.len() ==> queue_fits(
            real_slots(#[trigger] plan[i], channels),
            vstd::layout::size_of::<S>() as int,
        ) && queue_fits(complex_slots(plan[i], channels), vstd::layout::size_of::<C>() as int)
}

/// The feed of `key` in a list of configurations.
pub fn resolve(fdl_config: &[FdlConfig], key: FdlKey) -> (feed: FdlConfig)
    ensures
        feed == feed_of(fdl_config@, key, fdl_config.len() as int),
{
    let mut feed = FdlConfig {
        name: key,
        complex_ringbuff: false,
        real_ringbuff: false,
        moving: false,
    };
    let mut i: usize = 0;
    while i < fdl_config.len()
        invariant
            0 <= i <= fdl_config.len(),
            feed == feed_of(fdl_config@, key, i as int),
        decreases fdl_config.len() - i,
    {
        if fdl_config[i].name == key {
            feed = fdl_config[i];
        }
        i += 1;
    }
    feed
}

/// The number of slots `a * b * c`, where a queue of items of `size` bytes
/// with that many slots can be allocated.
pub fn queue_slots(a: usize, b: usize, c: usize, size: usize) -> (slots: Option<usize>)
    ensures
        slots is Some <==> queue_fits(a * b * c, size as int),
        slots is Some ==> slots->0 == a * b * c,
{
    let ab: usize = match a.checked_mul(b) {
        Some(ab) => ab,
        None => {
            proof {
                if c == 0 {
                    assert(a * b * c == 0) by (nonlinear_arith)
                        requires
                            c == 0,
                    ;
                } else {
                    assert(a * b * c >= a * b) by (nonlinear_arith)
                        requires
                            c >= 1,
                            a * b >= 0,
                    ;
                }
            }
            if c == 0 {
                return Some(0);
            }
            return None;
        },
    };
    let slots: usize = match ab.checked_mul(c) {
        Some(n) => n,
        None => {
            return None;
        },
    };
    match slots.checked_mul(size) {
        Some(bytes) => {
            if bytes <= isize::MAX as usize {
                Some(slots)
            } else {
                None
            }
        },
        None => None,
    }
}

/// Whether the queues of every partition but the first can be allocated.
pub fn check_queues<S, C>(partition: &[(usize, usize)], channels: usize) -> (ok: bool)
    requires
        usable(partition@, channels as int),
    ensures
        ok == queues_fit::<S, C>(partition@, channels as int),
{
    let n: usize = partition.len();
    let mut i: usize = 1;
    while i < n
        invariant
            1 <= i <= n,
            n == partition.len(),
            usable(partition@, channels as int),
            forall|j: int|
                0 < j < i ==> queue_fits(
                    real_slots(#[trigger] partition@[j], channels as int),
                    vstd::layout::size_of::<S>() as int,
                ) && queue_fits(
                    complex_slots(partition@[j], channels as int),
                    vstd::layout::size_of::<C>() as int,
                ),
        decreases n - i,
    {
        let part = partition[i];
        proof {
            lemma_part_fits(partition@, channels as int, i as int);
        }
        let for_samples = queue_slots(part.0, channels, QUEUE_BLOCKS, core::mem::size_of::<S>());
        let for_spectra = queue_slots(
            (part.0 + 1) * part.1,
            channels,
            QUEUE_FILTERS,
            core::mem::size_of::<C>(),
        );
        if for_samples.is_none() || for_spectra.is_none() {
            return false;
        }
        i += 1;
    }
    true
}

/// In a usable plan the sizes of every partition can be addressed.
pub proof fn lemma_part_fits(plan: Seq<(usize, usize)>, channels: int, i: int)
    requires
        usable(plan, channels),
        0 <= i < plan.len(),
    ensures
        plan[i].0 >= 1,
        plan[i].1 >= 1,
        2 * plan[i].0 <= usize::MAX,
        plan[i].0 <= plan.last().0,
        plan[0].0 <= plan[i].0,
        (plan[i].0 + 1) * plan[i].1 <= usize::MAX,
        plan[i].0 * channels <= partition_bins(plan[i], channels) <= usize::MAX,
        partition_bins(plan[i], channels) == channels * ((plan[i].0 + 1) * plan[i].1),
        partition_bins(plan[i], channels) == (plan[i].0 + 1) * plan[i].1 * channels,
{
    let n = plan.len() as int;
    let part = plan[i];
    lemma_blocks_ascend(plan, i, n - 1);
    lemma_blocks_ascend(plan, 0, i);
    lemma_bin_factors(part.0 as int, part.1 as int, channels);
    lemma_bins_before_grows(plan, channels, i, i);
    lemma_bins_before_grows(plan, channels, i + 1, n);
    assert(bins_before(plan, channels, i + 1) == bins_before(plan, channels, i) + partition_bins(
        part,
        channels,
    ));
    assert(part.0 * channels <= (part.0 + 1) * part.1 * channels) by (nonlinear_arith)
        requires
            part.0 >= 0,
            part.1 >= 1,
            channels >= 1,
    ;
    assert((part.0 + 1) * part.1 * channels == channels * ((part.0 + 1) * part.1))
        by (nonlinear_arith);
}

/// The real-time thread's end of the queues of one partition.
#[verifier::reject_recursive_types(S)]
#[verifier::reject_recursive_types(C)]
struct SegmentHandle<S, C> {
    signal_real: Option<rtrb::Producer<S>>,
    filter_real: Option<rtrb::Producer<S>>,
    signal_complex: Option<rtrb::Producer<C>>,
    filter_complex: Option<rtrb::Producer<C>>,
    out_cons: rtrb::Consumer<S>,
    block_size: usize,
    num_blocks: usize,
    offset: usize,
    avail: usize,
    outbox: Vec<S>,
    inbox: Vec<S>,
    sent: bool,
    arrived: bool,
    overruns: usize,
    underruns: usize,
}

/// What the real-time thread knows of one partition that a worker convolves.
pub ghost struct SegmentView<S> {
    /// Samples per block of the partition.
    pub block_size: int,
    /// Taps of the partition.
    pub num_blocks: int,
    /// Real-time blocks per block of the partition.
    pub avail: int,
    /// Real-time blocks before the partition first contributes.
    pub offset: int,
    /// The samples that were handed to the worker last, channel after channel.
    pub outbox: Seq<S>,
    /// The samples that came from the worker last, channel after channel.
    pub inbox: Seq<S>,
    /// The last hand-over found room in its queue.
    pub sent: bool,
    /// The last collection found a block in its queue.
    pub arrived: bool,
    /// How many hand-overs found no room.
    pub overruns: int,
    /// How many collections found no block.
    pub underruns: int,
}

impl<S, C> SegmentHandle<S, C> {
    spec fn view(&self) -> SegmentView<S> {
        SegmentView {
            block_size: self.block_size as int,
            num_blocks: self.num_blocks as int,
            avail: self.avail as int,
            offset: self.offset as int,
            outbox: self.outbox@,
            inbox: self.inbox@,
            sent: self.sent,
            arrived: self.arrived,
            overruns: self.overruns as int,
            underruns: self.underruns as int,
        }
    }

    /// The queues are there that the feeds call for.
    spec fn lanes(&self, signal_feed: FdlConfig, filter_feed: FdlConfig) -> bool {
        &&& self.signal_real is Some == signal_feed.real_ringbuff
        &&& self.filter_real is Some == filter_feed.real_ringbuff
        &&& self.signal_complex is Some == signal_feed.complex_ringbuff
        &&& self.filter_complex is Some == filter_feed.complex_ringbuff
    }
}

/// Segment `i` stands for partition `i + 1` of the plan.
pub open spec fn segment_wf<S>(s: SegmentView<S>, plan: Seq<(usize, usize)>, channels: int, i: int) -> bool {
    &&& s.block_size == plan[i + 1].0
    &&& s.num_blocks == plan[i + 1].1
    &&& s.avail == avail_of(plan, i + 1)
    &&& s.offset == offset_of(plan, i + 1)
    &&& s.outbox.len() == s.block_size * channels
    &&& s.inbox.len() == s.block_size * channels
    &&& 0 <= s.overruns
    &&& 0 <= s.underruns
}

/// The scheduler of a whole plan, as the real-time thread holds it.
#[verifier::reject_recursive_types(S)]
#[verifier::reject_recursive_types(C)]
pub struct Scheduler<S, C> {
    rt_segment: UPConv<S, C>,
    non_rt_segments: Vec<SegmentHandle<S, C>>,
    signal_feed: FdlConfig,
    filter_feed: FdlConfig,
    signal_in: Vec<Vec<S>>,
    signal_count: usize,
    filter_in: Vec<Vec<S>>,
    filter_count: usize,
    partition: Vec<(usize, usize)>,
    out_buff: Vec<Vec<S>>,
    front: Vec<Vec<S>>,
    quiet: Vec<S>,
    process_counter: usize,
    block_size: usize,
    channels: usize,
    silence: S,
}

/// What a scheduler holds.
pub ghost struct SchedulerView<S, C> {
    /// The partition plan.
    pub plan: Seq<(usize, usize)>,
    /// Number of channels.
    pub channels: int,
    /// How the signal's delay lines are fed.
    pub signal_feed: FdlConfig,
    /// How the filter's delay lines are fed.
    pub filter_feed: FdlConfig,
    /// The convolver of the first partition, which runs on the calling thread.
    pub rt: UPConvView<S, C>,
    /// Per channel, the most recent samples pushed for the signal, as many as
    /// the largest block has, the newest last.
    pub signal_in: Seq<Seq<S>>,
    /// How many blocks were pushed for the signal.
    pub signal_count: int,
    /// The same for the filter.
    pub filter_in: Seq<Seq<S>>,
    /// How many blocks were pushed for the filter.
    pub filter_count: int,
    /// Per channel, the output that is being added up: twice the largest
    /// block, the current block first.
    pub out_buff: Seq<Seq<S>>,
    /// Per channel, the block that was put out last.
    pub front: Seq<Seq<S>>,
    /// How many blocks were processed.
    pub process_counter: int,
    /// The partitions that workers convolve, in the order of the plan.
    pub segments: Seq<SegmentView<S>>,
    /// The sample that stands for silence.
    pub silence: S,
}

/// The history of the delay line that `key` names.
pub open spec fn history<S, C>(v: SchedulerView<S, C>, key: FdlKey) -> Seq<Seq<S>> {
    match key {
        FdlKey::Signal => v.signal_in,
        FdlKey::Filter => v.filter_in,
    }
}

/// How many blocks were pushed for the delay line that `key` names.
pub open spec fn pushes<S, C>(v: SchedulerView<S, C>, key: FdlKey) -> int {
    match key {
        FdlKey::Signal => v.signal_count,
        FdlKey::Filter => v.filter_count,
    }
}

/// The feed of the delay line that `key` names.
pub open spec fn feed<S, C>(v: SchedulerView<S, C>, key: FdlKey) -> FdlConfig {
    match key {
        FdlKey::Signal => v.signal_feed,
        FdlKey::Filter => v.filter_feed,
    }
}

/// Every buffer of the scheduler has the size that the plan calls for, and
/// every segment stands for its partition.
pub open spec fn scheduler_wf<S, C>(v: SchedulerView<S, C>) -> bool {
    &&& usable(v.plan, v.channels)
    &&& conv_wf(v.rt)
    &&& v.rt.signal.block_size == v.plan[0].0
    &&& v.rt.signal.num_blocks == v.plan[0].1
    &&& v.rt.signal.channels == v.channels
    &&& v.rt.signal.silence == v.silence
    &&& v.signal_in.len() == v.channels
    &&& v.filter_in.len() == v.channels
    &&& v.out_buff.len() == v.channels
    &&& v.front.len() == v.channels
    &&& forall|c: int| 0 <= c < v.channels ==> (#[trigger] v.signal_in[c]).len() == v.plan.last().0
    &&& forall|c: int| 0 <= c < v.channels ==> (#[trigger] v.filter_in[c]).len() == v.plan.last().0
    &&& forall|c: int| 0 <= c < v.channels ==> (#[trigger] v.out_buff[c]).len() == 2 * v.plan.last().0
    &&& forall|c: int| 0 <= c < v.channels ==> (#[trigger] v.front[c]).len() == v.plan[0].0
    &&& v.segments.len() == v.plan.len() - 1
    &&& forall|i: int|
        0 <= i < v.segments.len() ==> segment_wf(#[trigger] v.segments[i], v.plan, v.channels, i)
    &&& 0 <= v.signal_count
    &&& 0 <= v.filter_count
    &&& 0 <= v.process_counter
}

/// A scheduler that has not taken anything in yet.
pub open spec fn fresh<S, C>(v: SchedulerView<S, C>, zero: C) -> bool {
    &&& v.signal_count == 0
    &&& v.filter_count == 0
    &&& v.process_counter == 0
    &&& !v.rt.loaded
    &&& !v.rt.fading
    &&& v.rt.zero == zero
    &&& forall|c: int|
        0 <= c < v.channels ==> #[trigger] v.signal_in[c] == Seq::new(
            v.plan.last().0 as nat,
            |i: int| v.silence,
        )
    &&& forall|c: int|
        0 <= c < v.channels ==> #[trigger] v.filter_in[c] == Seq::new(
            v.plan.last().0 as nat,
            |i: int| v.silence,
        )
    &&& forall|c: int|
        0 <= c < v.channels ==> #[trigger] v.out_buff[c] == Seq::new(
            (2 * v.plan.last().0) as nat,
            |i: int| v.silence,
        )
    &&& forall|i: int|
        0 <= i < v.segments.len() ==> (#[trigger] v.segments[i]).overruns == 0
            && v.segments[i].underruns == 0
}

impl<S, C> View for Scheduler<S, C> {
    type V = SchedulerView<S, C>;

    closed spec fn view(&self) -> SchedulerView<S, C> {
        SchedulerView {
            plan: self.partition@,
            channels: self.channels as int,
            signal_feed: self.signal_feed,
            filter_feed: self.filter_feed,
            rt: self.rt_segment@,
            signal_in: Seq::new(self.signal_in.len() as nat, |c: int| self.signal_in[c]@),
            signal_count: self.signal_count as int,
            filter_in: Seq::new(self.filter_in.len() as nat, |c: int| self.filter_in[c]@),
            filter_count: self.filter_count as int,
            out_buff: Seq::new(self.out_buff.len() as nat, |c: int| self.out_buff[c]@),
            front: Seq::new(self.front.len() as nat, |c: int| self.front[c]@),
            process_counter: self.process_counter as int,
            segments: Seq::new(
                self.non_rt_segments.len() as nat,
                |i: int| self.non_rt_segments[i].view(),
            ),
            silence: self.silence,
        }
    }
}

/// A queue of `slots` samples or bins where `wanted`, as its two ends.
fn lane<T>(wanted: bool, slots: usize) -> (ends: (Option<rtrb::Producer<T>>, Option<rtrb::Consumer<T>>))
    requires
        slots * vstd::layout::size_of::<T>() <= isize::MAX,
    ensures
        ends.0 is Some == wanted,
        ends.1 is Some == wanted,
{
    if wanted {
        let (tx, rx) = ring_buffer::<T>(slots);
        (Some(tx), Some(rx))
    } else {
        (None, None)
    }
}

/// What `Scheduler::new` answers for a plan: the verdict on the plan, and
/// `TooLarge` as well where its queues cannot be allocated.
pub open spec fn build_verdict<S, C>(plan: Seq<(usize, usize)>, channels: int) -> Result<
    (),
    PlanError,
> {
    if verdict(plan, channels) is Err {
        verdict(plan, channels)
    } else if !queues_fit::<S, C>(plan, channels) {
        Err(PlanError::TooLarge)
    } else {
        Ok(())
    }
}

/// A fault counter after one more attempt: it stays where the attempt went
/// well, and where it has reached the largest count.
pub open spec fn bump(counter: int, ok: bool) -> int {
    if ok || counter >= usize::MAX {
        counter
    } else {
        counter + 1
    }
}

/// Counts a fault where `ok` is false.
pub fn count_fault(counter: usize, ok: bool) -> (r: usize)
    ensures
        r == bump(counter as int, ok),
{
    if ok || counter == usize::MAX {
        counter
    } else {
        counter + 1
    }
}

/// What a push makes of a segment: where `count` blocks make a whole number
/// of the segment's blocks, the newest samples were gathered and handed to
/// the worker, and a hand-over that found no room was counted.
pub open spec fn handed_over<S>(
    before: SegmentView<S>,
    after: SegmentView<S>,
    hist: Seq<Seq<S>>,
    count: int,
) -> bool {
    &&& after.block_size == before.block_size
    &&& after.num_blocks == before.num_blocks
    &&& after.avail == before.avail
    &&& after.offset == before.offset
    &&& after.inbox == before.inbox
    &&& after.arrived == before.arrived
    &&& after.underruns == before.underruns
    &&& if count % before.avail == 0 {
        &&& gathered(after.outbox, hist, before.block_size)
        &&& after.overruns == bump(before.overruns, after.sent)
    } else {
        &&& after.outbox == before.outbox
        &&& after.sent == before.sent
        &&& after.overruns == before.overruns
    }
}

/// Rolls every channel's history by its block of `input`.
fn roll_all<S: Copy>(hist: &mut Vec<Vec<S>>, input: &[Vec<S>])
    requires
        input.len() == old(hist).len(),
        forall|c: int| 0 <= c < input.len() ==> (#[trigger] input[c]).len() <= old(hist)[c].len(),
    ensures
        final(hist).len() == old(hist).len(),
        forall|c: int|
            0 <= c < input.len() ==> (#[trigger] final(hist)[c])@ == old(hist)[c]@.skip(
                input[c].len() as int,
            ) + input[c]@,
{
    let n: usize = hist.len();
    let mut c: usize = 0;
    while c < n
        invariant
            0 <= c <= n,
            n == input.len(),
            hist.len() == n,
            n == old(hist).len(),
            forall|d: int| 0 <= d < n ==> (#[trigger] input[d]).len() <= old(hist)[d].len(),
            forall|d: int|
                0 <= d < c ==> (#[trigger] hist[d])@ == old(hist)[d]@.skip(input[d].len() as int)
                    + input[d]@,
            forall|d: int| c <= d < n ==> (#[trigger] hist[d]) == old(hist)[d],
        decreases n - c,
    {
        slide_in(&mut hist[c], input[c].as_slice());
        c += 1;
    }
}

/// Hands `items` to the queue, where there is one: without a queue nothing is
/// handed over, and the result says so. Whether there is a queue does not
/// change.
fn send_on<T: Copy>(queue: &mut Option<rtrb::Producer<T>>, items: &[T]) -> (sent: bool)
    ensures
        *final(queue) is Some == *old(queue) is Some,
        *old(queue) is None ==> !sent,
{
    match queue {
        Some(tx) => send(tx, items),
        None => false,
    }
}

/// The real-time side of a push for one segment.
fn hand_over<S: Copy, C: Copy>(
    seg: &mut SegmentHandle<S, C>,
    hist: &Vec<Vec<S>>,
    key: FdlKey,
    count: usize,
    signal_feed: FdlConfig,
    filter_feed: FdlConfig,
)
    requires
        old(seg).lanes(signal_feed, filter_feed),
        key == FdlKey::Signal ==> signal_feed.real_ringbuff,
        key == FdlKey::Filter ==> filter_feed.real_ringbuff,
        old(seg).avail >= 1,
        old(seg).outbox.len() == old(seg).block_size * hist.len(),
        forall|c: int| 0 <= c < hist.len() ==> (#[trigger] hist[c]).len() >= old(seg).block_size,
    ensures
        final(seg).lanes(signal_feed, filter_feed),
        handed_over(old(seg).view(), final(seg).view(), row_views(hist@), count as int),
{
    if count % seg.avail == 0 {
        proof {
            assert(seg.block_size * hist.len() == hist.len() * seg.block_size)
                by (nonlinear_arith);
        }
        gather(&mut seg.outbox, hist, seg.block_size);
        let sent: bool = match key {
            FdlKey::Signal => send_on(&mut seg.signal_real, seg.outbox.as_slice()),
            FdlKey::Filter => send_on(&mut seg.filter_real, seg.outbox.as_slice()),
        };
        seg.sent = sent;
        seg.overruns = count_fault(seg.overruns, sent);
    }
}

/// The real-time side of a push for every segment.
fn hand_over_all<S: Copy, C: Copy>(
    segments: &mut Vec<SegmentHandle<S, C>>,
    hist: &Vec<Vec<S>>,
    key: FdlKey,
    count: usize,
    signal_feed: FdlConfig,
    filter_feed: FdlConfig,
)
    requires
        key == FdlKey::Signal ==> signal_feed.real_ringbuff,
        key == FdlKey::Filter ==> filter_feed.real_ringbuff,
        forall|i: int|
            0 <= i < old(segments).len() ==> {
                &&& (#[trigger] old(segments)[i]).lanes(signal_feed, filter_feed)
                &&& old(segments)[i].avail >= 1
                &&& old(segments)[i].outbox.len() == old(segments)[i].block_size * hist.len()
                &&& forall|c: int|
                    0 <= c < hist.len() ==> (#[trigger] hist[c]).len() >= old(segments)[i].block_size
            },
    ensures
        final(segments).len() == old(segments).len(),
        forall|i: int|
            0 <= i < old(segments).len() ==> (#[trigger] final(segments)[i]).lanes(
                signal_feed,
                filter_feed,
            ) && handed_over(
                old(segments)[i].view(),
                final(segments)[i].view(),
                row_views(hist@),
                count as int,
            ),
{
    let n: usize = segments.len();
    let mut i: usize = 0;
    while i < n
        invariant
            0 <= i <= n,
            segments.len() == n,
            n == old(segments).len(),
            key == FdlKey::Signal ==> signal_feed.real_ringbuff,
            key == FdlKey::Filter ==> filter_feed.real_ringbuff,
            forall|j: int| i <= j < n ==> (#[trigger] segments[j]) == old(segments)[j],
            forall|j: int|
                0 <= j < n ==> {
                    &&& (#[trigger] old(segments)[j]).lanes(signal_feed, filter_feed)
                    &&& old(segments)[j].avail >= 1
                    &&& old(segments)[j].outbox.len() == old(segments)[j].block_size * hist.len()
                    &&& forall|c: int|
                        0 <= c < hist.len() ==> (#[trigger] hist[c]).len() >= old(segments)[j].block_size
                },
            forall|j: int|
                0 <= j < i ==> (#[trigger] segments[j]).lanes(signal_feed, filter_feed)
                    && handed_over(
                    old(segments)[j].view(),
                    segments[j].view(),
                    row_views(hist@),
                    count as int,
                ),
        decreases n - i,
    {
        assert(segments[i as int] == old(segments)[i as int]);
        hand_over(&mut segments[i], hist, key, count, signal_feed, filter_feed);
        i += 1;
    }
}

/// What an installation makes of a segment: its spectra were handed to the
/// worker, and a hand-over that found no room was counted.
pub open spec fn installed<S>(before: SegmentView<S>, after: SegmentView<S>) -> bool {
    &&& after.block_size == before.block_size
    &&& after.num_blocks == before.num_blocks
    &&& after.avail == before.avail
    &&& after.offset == before.offset
    &&& after.outbox == before.outbox
    &&& after.inbox == before.inbox
    &&& after.arrived == before.arrived
    &&& after.underruns == before.underruns
    &&& after.overruns == bump(before.overruns, after.sent)
}

/// The real-time side of an installation for every segment: segment `i` is
/// handed the spectra of partition `i + 1`.
fn install_all<S: Copy, C: Copy>(
    segments: &mut Vec<SegmentHandle<S, C>>,
    data: &[C],
    partition: &[(usize, usize)],
    channels: usize,
    key: FdlKey,
    signal_feed: FdlConfig,
    filter_feed: FdlConfig,
)
    requires
        usable(partition@, channels as int),
        old(segments).len() == partition.len() - 1,
        data.len() == bins_before(partition@, channels as int, partition.len() as int),
        key == FdlKey::Signal ==> signal_feed.complex_ringbuff,
        key == FdlKey::Filter ==> filter_feed.complex_ringbuff,
        forall|i: int|
            0 <= i < old(segments).len() ==> (#[trigger] old(segments)[i]).lanes(
                signal_feed,
                filter_feed,
            ),
    ensures
        final(segments).len() == old(segments).len(),
        forall|i: int|
            0 <= i < old(segments).len() ==> (#[trigger] final(segments)[i]).lanes(
                signal_feed,
                filter_feed,
            ) && installed(old(segments)[i].view(), final(segments)[i].view()),
{
    let n: usize = segments.len();
    let mut i: usize = 0;
    while i < n
        invariant
            0 <= i <= n,
            segments.len() == n,
            n == old(segments).len(),
            n == partition.len() - 1,
            usable(partition@, channels as int),
            data.len() == bins_before(partition@, channels as int, partition.len() as int),
            key == FdlKey::Signal ==> signal_feed.complex_ringbuff,
            key == FdlKey::Filter ==> filter_feed.complex_ringbuff,
            forall|j: int| i <= j < n ==> (#[trigger] segments[j]) == old(segments)[j],
            forall|j: int|
                0 <= j < n ==> (#[trigger] old(segments)[j]).lanes(signal_feed, filter_feed),
            forall|j: int|
                0 <= j < i ==> (#[trigger] segments[j]).lanes(signal_feed, filter_feed)
                    && installed(old(segments)[j].view(), segments[j].view()),
        decreases n - i,
    {
        assert(segments[i as int] == old(segments)[i as int]);
        proof {
            lemma_bins_before_grows(partition@, channels as int, i + 1, i + 2);
            lemma_bins_before_grows(partition@, channels as int, i + 2, partition.len() as int);
        }
        let lo: usize = crate::partition::spectrum_start(partition, channels, i + 1);
        let hi: usize = crate::partition::spectrum_start(partition, channels, i + 2);
        let spectra = vstd::slice::slice_subrange(data, lo, hi);
        let seg = &mut segments[i];
        let sent: bool = match key {
            FdlKey::Signal => send_on(&mut seg.signal_complex, spectra),
            FdlKey::Filter => send_on(&mut seg.filter_complex, spectra),
        };
        seg.sent = sent;
        seg.overruns = count_fault(seg.overruns, sent);
        i += 1;
    }
}

/// Whether a segment's output is collected in cycle `cycle`: once its
/// pipeline has filled, at its cadence.
pub open spec fn collects<S>(s: SegmentView<S>, cycle: int) -> bool {
    cycle >= s.offset && (cycle - s.offset) % s.avail == 0
}

/// What a cycle makes of a segment: where its output is collected, a block
/// has arrived or the fault was counted.
pub open spec fn collected<S>(before: SegmentView<S>, after: SegmentView<S>, cycle: int) -> bool {
    &&& after.block_size == before.block_size
    &&& after.num_blocks == before.num_blocks
    &&& after.avail == before.avail
    &&& after.offset == before.offset
    &&& after.outbox == before.outbox
    &&& after.sent == before.sent
    &&& after.overruns == before.overruns
    &&& after.inbox.len() == before.inbox.len()
    &&& if collects(before, cycle) {
        &&& after.underruns == bump(before.underruns, after.arrived)
        &&& !after.arrived ==> after.inbox == before.inbox
    } else {
        &&& after.inbox == before.inbox
        &&& after.arrived == before.arrived
        &&& after.underruns == before.underruns
    }
}

/// What a segment contributes to channel `c` in cycle `cycle`: the channel's
/// block of what arrived, or nothing.
pub open spec fn contribution<S>(s: SegmentView<S>, cycle: int, c: int) -> Option<Seq<S>> {
    if collects(s, cycle) && s.arrived {
        Some(channel_block(s.inbox, s.block_size, c))
    } else {
        None
    }
}

/// `b` is `a` with `block` added onto the elements from `at` on.
pub open spec fn added<S, P: Fn(S, S) -> S>(
    plus: &P,
    a: Seq<S>,
    at: int,
    block: Seq<S>,
    b: Seq<S>,
) -> bool {
    &&& b.len() == a.len()
    &&& b.take(at) == a.take(at)
    &&& b.skip(at + block.len()) == a.skip(at + block.len())
    &&& summed(
        plus,
        a.subrange(at, at + block.len()),
        block,
        b.subrange(at, at + block.len()),
    )
}

/// Stage `i + 1` of a channel's accumulator is stage `i` with the
/// contribution of segment `i` added one real-time block ahead.
pub open spec fn step_ok<S, P: Fn(S, S) -> S>(
    plus: &P,
    segments: Seq<SegmentView<S>>,
    cycle: int,
    b0: int,
    c: int,
    stages: Seq<Seq<S>>,
    i: int,
) -> bool {
    match contribution(segments[i], cycle, c) {
        None => stages[i + 1] == stages[i],
        Some(block) => added(plus, stages[i], b0, block, stages[i + 1]),
    }
}

/// `stages` are the stages of a channel's accumulator over the first `n`
/// segments, from `start`.
pub open spec fn mixing<S, P: Fn(S, S) -> S>(
    plus: &P,
    start: Seq<S>,
    segments: Seq<SegmentView<S>>,
    n: int,
    cycle: int,
    b0: int,
    c: int,
    stages: Seq<Seq<S>>,
) -> bool {
    &&& stages.len() == n + 1
    &&& stages[0] == start
    &&& forall|i: int| 0 <= i < n ==> #[trigger] step_ok(plus, segments, cycle, b0, c, stages, i)
}

/// `end` is an accumulator that channel `c` may reach from `start` by taking
/// in the contributions of all segments, in their order.
pub open spec fn mixes_to<S, P: Fn(S, S) -> S>(
    plus: &P,
    start: Seq<S>,
    segments: Seq<SegmentView<S>>,
    cycle: int,
    b0: int,
    c: int,
    end: Seq<S>,
) -> bool {
    exists|stages: Seq<Seq<S>>| #[trigger]
        mixing(plus, start, segments, segments.len() as int, cycle, b0, c, stages)
            && stages[segments.len() as int] == end
}

/// `end` is an accumulator that channel `c` may hold after a cycle: `start`
/// with the contributions of all segments added one real-time block ahead and
/// the first partition's block `rt_out` added at the front.
pub open spec fn mixed<S, P: Fn(S, S) -> S>(
    plus: &P,
    start: Seq<S>,
    segments: Seq<SegmentView<S>>,
    cycle: int,
    b0: int,
    c: int,
    rt_out: Seq<S>,
    end: Seq<S>,
) -> bool {
    exists|mid: Seq<S>| #[trigger]
        mixes_to(plus, start, segments, cycle, b0, c, mid) && added(plus, mid, 0, rt_out, end)
}

/// Rolls every accumulator by the length of `quiet` and puts `quiet` at its
/// end.
fn roll_quiet<S: Copy>(acc: &mut Vec<Vec<S>>, quiet: &Vec<S>)
    requires
        forall|c: int| 0 <= c < old(acc).len() ==> quiet.len() <= (#[trigger] old(acc)[c]).len(),
    ensures
        final(acc).len() == old(acc).len(),
        forall|c: int|
            0 <= c < old(acc).len() ==> (#[trigger] final(acc)[c])@ == old(acc)[c]@.skip(
                quiet.len() as int,
            ) + quiet@,
{
    let n: usize = acc.len();
    let mut c: usize = 0;
    while c < n
        invariant
            0 <= c <= n,
            acc.len() == n,
            n == old(acc).len(),
            forall|d: int| 0 <= d < n ==> quiet.len() <= (#[trigger] old(acc)[d]).len(),
            forall|d: int|
                0 <= d < c ==> (#[trigger] acc[d])@ == old(acc)[d]@.skip(quiet.len() as int)
                    + quiet@,
            forall|d: int| c <= d < n ==> (#[trigger] acc[d]) == old(acc)[d],
        decreases n - c,
    {
        slide_in(&mut acc[c], quiet.as_slice());
        c += 1;
    }
}

/// Adds a block that has arrived from a worker into the accumulators: the
/// block of channel `c` in `inbox`, which holds `b` samples per channel, is
/// added onto the accumulator of channel `c` from `at` on.
pub fn mix_in<S: Copy, P: Fn(S, S) -> S>(
    acc: &mut Vec<Vec<S>>,
    inbox: &Vec<S>,
    b: usize,
    at: usize,
    plus: &P,
)
    requires
        inbox.len() == b * old(acc).len(),
        forall|c: int| 0 <= c < old(acc).len() ==> at + b <= (#[trigger] old(acc)[c]).len(),
        plus_total(plus),
    ensures
        final(acc).len() == old(acc).len(),
        forall|c: int|
            0 <= c < old(acc).len() ==> added(
                plus,
                old(acc)[c]@,
                at as int,
                channel_block(inbox@, b as int, c),
                (#[trigger] final(acc)[c])@,
            ),
{
    let n: usize = acc.len();
    let mut base: usize = 0;
    let mut c: usize = 0;
    while c < n
        invariant
            0 <= c <= n,
            acc.len() == n,
            n == old(acc).len(),
            inbox.len() == b * n,
            base == c * b,
            plus_total(plus),
            forall|d: int| 0 <= d < n ==> at + b <= (#[trigger] old(acc)[d]).len(),
            forall|d: int|
                0 <= d < c ==> added(
                    plus,
                    old(acc)[d]@,
                    at as int,
                    channel_block(inbox@, b as int, d),
                    (#[trigger] acc[d])@,
                ),
            forall|d: int| c <= d < n ==> (#[trigger] acc[d]) == old(acc)[d],
        decreases n - c,
    {
        proof {
            assert((c + 1) * b == c * b + b && (c + 1) * b <= n * b && b * n == n * b)
                by (nonlinear_arith)
                requires
                    0 <= c < n,
                    b >= 0,
            ;
        }
        let block = vstd::slice::slice_subrange(inbox.as_slice(), base, base + b);
        add_at(&mut acc[c], at, block, plus);
        base = base + b;
        c += 1;
    }
}

/// Adds one block per channel onto the front of the accumulators.
fn add_rows<S: Copy, P: Fn(S, S) -> S>(acc: &mut Vec<Vec<S>>, blocks: &Vec<Vec<S>>, plus: &P)
    requires
        blocks.len() == old(acc).len(),
        forall|c: int|
            0 <= c < old(acc).len() ==> (#[trigger] blocks[c]).len() <= old(acc)[c].len(),
        plus_total(plus),
    ensures
        final(acc).len() == old(acc).len(),
        forall|c: int|
            0 <= c < old(acc).len() ==> added(
                plus,
                old(acc)[c]@,
                0,
                blocks[c]@,
                (#[trigger] final(acc)[c])@,
            ),
{
    let n: usize = acc.len();
    let mut c: usize = 0;
    while c < n
        invariant
            0 <= c <= n,
            acc.len() == n,
            n == old(acc).len(),
            blocks.len() == n,
            plus_total(plus),
            forall|d: int| 0 <= d < n ==> (#[trigger] blocks[d]).len() <= old(acc)[d].len(),
            forall|d: int|
                0 <= d < c ==> added(plus, old(acc)[d]@, 0, blocks[d]@, (#[trigger] acc[d])@),
            forall|d: int| c <= d < n ==> (#[trigger] acc[d]) == old(acc)[d],
        decreases n - c,
    {
        add_at(&mut acc[c], 0, blocks[c].as_slice(), plus);
        c += 1;
    }
}

/// Copies the front of every accumulator into the channel's output block.
fn take_fronts<S: Copy>(front: &mut Vec<Vec<S>>, acc: &Vec<Vec<S>>)
    requires
        acc.len() == old(front).len(),
        forall|c: int|
            0 <= c < old(front).len() ==> (#[trigger] old(front)[c]).len() <= acc[c].len(),
    ensures
        final(front).len() == old(front).len(),
        forall|c: int|
            0 <= c < old(front).len() ==> (#[trigger] final(front)[c])@ == acc[c]@.take(
                old(front)[c].len() as int,
            ),
{
    let n: usize = front.len();
    let mut c: usize = 0;
    while c < n
        invariant
            0 <= c <= n,
            front.len() == n,
            n == old(front).len(),
            acc.len() == n,
            forall|d: int| 0 <= d < n ==> (#[trigger] old(front)[d]).len() <= acc[d].len(),
            forall|d: int|
                0 <= d < c ==> (#[trigger] front[d])@ == acc[d]@.take(old(front)[d].len() as int),
            forall|d: int| c <= d < n ==> (#[trigger] front[d]) == old(front)[d],
        decreases n - c,
    {
        copy_block(&mut front[c], acc[c].as_slice(), 0);
        assert(front[c as int]@ =~= acc[c as int]@.take(old(front)[c as int].len() as int));
        c += 1;
    }
}

/// The views of a list of segments.
spec fn segment_views<S, C>(segments: Seq<SegmentHandle<S, C>>) -> Seq<SegmentView<S>> {
    Seq::new(segments.len(), |i: int| segments[i].view())
}

/// The real-time side of a cycle for one segment: where its output is due, a
/// block is collected and added into the accumulators, or the fault counted.
fn collect<S: Copy, C: Copy, P: Fn(S, S) -> S>(
    seg: &mut SegmentHandle<S, C>,
    acc: &mut Vec<Vec<S>>,
    cycle: usize,
    b0: usize,
    plus: &P,
    signal_feed: FdlConfig,
    filter_feed: FdlConfig,
)
    requires
        old(seg).lanes(signal_feed, filter_feed),
        old(seg).avail >= 1,
        old(seg).inbox.len() == old(seg).block_size * old(acc).len(),
        forall|c: int|
            0 <= c < old(acc).len() ==> b0 + old(seg).block_size <= (#[trigger] old(acc)[c]).len(),
        plus_total(plus),
    ensures
        final(seg).lanes(signal_feed, filter_feed),
        collected(old(seg).view(), final(seg).view(), cycle as int),
        final(acc).len() == old(acc).len(),
        forall|c: int|
            0 <= c < old(acc).len() ==> (#[trigger] final(acc)[c]).len() == old(acc)[c].len(),
        forall|c: int|
            0 <= c < old(acc).len() ==> match contribution(final(seg).view(), cycle as int, c) {
                None => (#[trigger] final(acc)[c])@ == old(acc)[c]@,
                Some(block) => added(plus, old(acc)[c]@, b0 as int, block, final(acc)[c]@),
            },
{
    if cycle >= seg.offset && (cycle - seg.offset) % seg.avail == 0 {
        let got: bool = receive(&mut seg.out_cons, &mut seg.inbox);
        seg.arrived = got;
        seg.underruns = count_fault(seg.underruns, got);
        if got {
            proof {
                assert(seg.block_size * acc.len() == acc.len() * seg.block_size)
                    by (nonlinear_arith);
            }
            mix_in(acc, &seg.inbox, seg.block_size, b0, plus);
        }
    }
}

/// The real-time side of a cycle for every segment, in their order.
#[verifier::rlimit(60)]
fn collect_all<S: Copy, C: Copy, P: Fn(S, S) -> S>(
    segments: &mut Vec<SegmentHandle<S, C>>,
    acc: &mut Vec<Vec<S>>,
    cycle: usize,
    b0: usize,
    plus: &P,
    signal_feed: FdlConfig,
    filter_feed: FdlConfig,
)
    requires
        plus_total(plus),
        forall|i: int|
            0 <= i < old(segments).len() ==> {
                &&& (#[trigger] old(segments)[i]).lanes(signal_feed, filter_feed)
                &&& old(segments)[i].avail >= 1
                &&& old(segments)[i].inbox.len() == old(segments)[i].block_size * old(acc).len()
                &&& forall|c: int|
                    0 <= c < old(acc).len() ==> b0 + old(segments)[i].block_size <= (#[trigger] old(acc)[c]).len()
            },
    ensures
        final(segments).len() == old(segments).len(),
        forall|i: int|
            0 <= i < old(segments).len() ==> (#[trigger] final(segments)[i]).lanes(
                signal_feed,
                filter_feed,
            ) && collected(old(segments)[i].view(), final(segments)[i].view(), cycle as int),
        final(acc).len() == old(acc).len(),
        forall|c: int|
            0 <= c < old(acc).len() ==> (#[trigger] final(acc)[c]).len() == old(acc)[c].len(),
        forall|c: int|
            0 <= c < old(acc).len() ==> mixes_to(
                plus,
                old(acc)[c]@,
                segment_views(final(segments)@),
                cycle as int,
                b0 as int,
                c,
                (#[trigger] final(acc)[c])@,
            ),
{
    let n: usize = segments.len();
    let ghost m = acc.len() as int;
    let ghost mut stages: Seq<Seq<Seq<S>>> = Seq::new(m as nat, |c: int| seq![old(acc)[c]@]);
    let mut i: usize = 0;
    while i < n
        invariant
            0 <= i <= n,
            segments.len() == n,
            n == old(segments).len(),
            acc.len() == m,
            m == old(acc).len(),
            plus_total(plus),
            forall|c: int| 0 <= c < m ==> (#[trigger] acc[c]).len() == old(acc)[c].len(),
            forall|j: int| i <= j < n ==> (#[trigger] segments[j]) == old(segments)[j],
            forall|j: int|
                0 <= j < n ==> {
                    &&& (#[trigger] old(segments)[j]).lanes(signal_feed, filter_feed)
                    &&& old(segments)[j].avail >= 1
                    &&& old(segments)[j].inbox.len() == old(segments)[j].block_size * m
                    &&& forall|c: int|
                        0 <= c < m ==> b0 + old(segments)[j].block_size <= (#[trigger] old(acc)[c]).len()
                },
            forall|j: int|
                0 <= j < i ==> (#[trigger] segments[j]).lanes(signal_feed, filter_feed)
                    && collected(old(segments)[j].view(), segments[j].view(), cycle as int),
            stages.len() == m,
            forall|c: int| 0 <= c < m ==> (#[trigger] stages[c]).len() == i + 1,
            forall|c: int| 0 <= c < m ==> (#[trigger] stages[c])[0] == old(acc)[c]@,
            forall|c: int| 0 <= c < m ==> (#[trigger] stages[c])[i as int] == acc[c]@,
            forall|c: int, j: int|
                0 <= c < m && 0 <= j < i ==> #[trigger] step_ok(
                    plus,
                    segment_views(segments@),
                    cycle as int,
                    b0 as int,
                    c,
                    stages[c],
                    j,
                ),
        decreases n - i,
    {
        let ghost views_before = segment_views(segments@);
        let ghost stages_before = stages;
        let ghost acc_before = acc@;
        assert(segments[i as int] == old(segments)[i as int]);
        proof {
            assert forall|c: int| 0 <= c < m implies b0 + segments[i as int].block_size <= (
            #[trigger] acc[c]).len() by {
                assert(acc[c].len() == old(acc)[c].len());
            }
        }
        collect(&mut segments[i], acc, cycle, b0, plus, signal_feed, filter_feed);
        proof {
            let views = segment_views(segments@);
            stages = Seq::new(m as nat, |c: int| stages_before[c].push(acc[c]@));
            assert forall|c: int, j: int| 0 <= c < m && 0 <= j < i + 1 implies #[trigger] step_ok(
                plus,
                views,
                cycle as int,
                b0 as int,
                c,
                stages[c],
                j,
            ) by {
                if j < i {
                    assert(views[j] == views_before[j]) by {
                        assert(views[j] == segments[j].view());
                        assert(views_before[j] == segments[j].view());
                    }
                    assert(step_ok(
                        plus,
                        views_before,
                        cycle as int,
                        b0 as int,
                        c,
                        stages_before[c],
                        j,
                    ));
                    assert(stages[c][j] == stages_before[c][j]);
                    assert(stages[c][j + 1] == stages_before[c][j + 1]);
                } else {
                    assert(views[i as int] == segments[i as int].view());
                    assert(stages[c][i as int] == acc_before[c]@);
                    assert(stages[c][i + 1] == acc[c]@);
                }
            }
        }
        i += 1;
    }
    proof {
        let views = segment_views(segments@);
        assert forall|c: int| 0 <= c < m implies mixes_to(
            plus,
            old(acc)[c]@,
            views,
            cycle as int,
            b0 as int,
            c,
            (#[trigger] acc[c])@,
        ) by {
            assert(mixing(
                plus,
                old(acc)[c]@,
                views,
                views.len() as int,
                cycle as int,
                b0 as int,
                c,
                stages[c],
            ));
        }
    }
}

/// What a push of one block per channel makes of a scheduler: the history of
/// the delay line that `key` names has rolled by the block in every channel,
/// the first partition's convolver has pushed the block, and every segment
/// whose cadence had come was handed the newest samples of its block size.
pub open spec fn push_done<S, C, F: Fn(&Vec<S>) -> Vec<C>>(
    fft: &F,
    before: SchedulerView<S, C>,
    after: SchedulerView<S, C>,
    key: FdlKey,
    input: Seq<Vec<S>>,
    sliding: bool,
) -> bool {
    &&& after.plan == before.plan
    &&& after.channels == before.channels
    &&& after.signal_feed == before.signal_feed
    &&& after.filter_feed == before.filter_feed
    &&& after.silence == before.silence
    &&& after.out_buff == before.out_buff
    &&& after.front == before.front
    &&& after.process_counter == before.process_counter
    &&& key == FdlKey::Signal ==> after.filter_in == before.filter_in && after.filter_count
        == before.filter_count
    &&& key == FdlKey::Filter ==> after.signal_in == before.signal_in && after.signal_count
        == before.signal_count
    &&& pushes(after, key) == pushes(before, key) + 1
    &&& forall|c: int|
        0 <= c < input.len() ==> #[trigger] history(after, key)[c] == history(before, key)[c].skip(
            before.plan[0].0 as int,
        ) + input[c]@
    &&& chunk_pushed(fft, before.rt, after.rt, key, input, sliding)
    &&& after.segments.len() == before.segments.len()
    &&& forall|i: int|
        0 <= i < before.segments.len() ==> handed_over(
            before.segments[i],
            #[trigger] after.segments[i],
            history(after, key),
            pushes(after, key),
        )
}

/// What a cycle makes of a scheduler: the accumulators have rolled by one
/// real-time block, every segment whose output was due has been collected and
/// added one real-time block ahead, the first partition's block has been
/// computed and added at the front, and the front blocks are the output.
pub open spec fn cycle_done<
    S,
    C,
    M: Fn(C, C, C) -> C,
    I: Fn(&Vec<C>) -> Vec<S>,
    X: Fn(S, S, usize, usize, usize) -> S,
    P: Fn(S, S) -> S,
>(
    mac: &M,
    ifft: &I,
    mix: &X,
    plus: &P,
    before: SchedulerView<S, C>,
    after: SchedulerView<S, C>,
) -> bool {
    let b0 = before.plan[0].0 as int;
    &&& after.plan == before.plan
    &&& after.channels == before.channels
    &&& after.signal_feed == before.signal_feed
    &&& after.filter_feed == before.filter_feed
    &&& after.silence == before.silence
    &&& after.signal_in == before.signal_in
    &&& after.signal_count == before.signal_count
    &&& after.filter_in == before.filter_in
    &&& after.filter_count == before.filter_count
    &&& after.process_counter == before.process_counter + 1
    &&& after.rt.signal == before.rt.signal
    &&& after.rt.filter == before.rt.filter
    &&& after.rt.outgoing == before.rt.outgoing
    &&& after.rt.loaded == before.rt.loaded
    &&& after.rt.zero == before.rt.zero
    &&& !after.rt.fading
    &&& forall|c: int|
        0 <= c < before.channels ==> block_output(
            mac,
            ifft,
            mix,
            before.rt,
            c,
            #[trigger] after.rt.output[c],
        )
    &&& after.segments.len() == before.segments.len()
    &&& forall|i: int|
        0 <= i < before.segments.len() ==> collected(
            before.segments[i],
            #[trigger] after.segments[i],
            after.process_counter,
        )
    &&& forall|c: int|
        0 <= c < before.channels ==> mixed(
            plus,
            before.out_buff[c].skip(b0) + Seq::new(b0 as nat, |i: int| before.silence),
            after.segments,
            after.process_counter,
            b0,
            c,
            after.rt.output[c],
            #[trigger] after.out_buff[c],
        )
    &&& forall|c: int|
        0 <= c < before.channels ==> #[trigger] after.front[c] == after.out_buff[c].take(b0)
}

/// What taking in one block of the signal per channel and putting out one
/// block per channel makes of a scheduler: a sliding push for the signal and
/// then a cycle.
pub open spec fn block_done<
    S,
    C,
    F: Fn(&Vec<S>) -> Vec<C>,
    M: Fn(C, C, C) -> C,
    I: Fn(&Vec<C>) -> Vec<S>,
    X: Fn(S, S, usize, usize, usize) -> S,
    P: Fn(S, S) -> S,
>(
    fft: &F,
    mac: &M,
    ifft: &I,
    mix: &X,
    plus: &P,
    before: SchedulerView<S, C>,
    after: SchedulerView<S, C>,
    input: Seq<Vec<S>>,
) -> bool {
    exists|mid: SchedulerView<S, C>|
        #![trigger cycle_done(mac, ifft, mix, plus, mid, after)]
        push_done(fft, before, mid, FdlKey::Signal, input, true) && cycle_done(
            mac,
            ifft,
            mix,
            plus,
            mid,
            after,
        )
}

/// Without segments nothing is taken in: the accumulator of an engine of one
/// partition is the rolled accumulator with the first partition's block added
/// at the front, and nothing else.
pub proof fn lemma_mixed_alone<S, P: Fn(S, S) -> S>(
    plus: &P,
    start: Seq<S>,
    segments: Seq<SegmentView<S>>,
    cycle: int,
    b0: int,
    c: int,
    rt_out: Seq<S>,
    end: Seq<S>,
)
    requires
        segments.len() == 0,
        mixed(plus, start, segments, cycle, b0, c, rt_out, end),
    ensures
        added(plus, start, 0, rt_out, end),
{
    let mid = choose|mid: Seq<S>| #[trigger]
        mixes_to(plus, start, segments, cycle, b0, c, mid) && added(plus, mid, 0, rt_out, end);
    let stages = choose|stages: Seq<Seq<S>>| #[trigger]
        mixing(plus, start, segments, segments.len() as int, cycle, b0, c, stages) && stages[segments.len() as int]
            == mid;
    assert(stages[0] == start);
}

/// Adding silence to silence gives silence.
pub open spec fn adds_silence<S, P: Fn(S, S) -> S>(plus: &P, silence: S) -> bool {
    forall|r: S| #[trigger] plus.ensures((silence, silence), r) ==> r == silence
}

/// A silent block added onto a silent accumulator leaves it silent.
pub proof fn lemma_added_silence<S, P: Fn(S, S) -> S>(
    plus: &P,
    silence: S,
    a: Seq<S>,
    at: int,
    block: Seq<S>,
    b: Seq<S>,
)
    requires
        0 <= at,
        at + block.len() <= a.len(),
        added(plus, a, at, block, b),
        all_are(a, silence),
        all_are(block, silence),
        adds_silence(plus, silence),
    ensures
        all_are(b, silence),
{
    let end = at + block.len();
    assert forall|i: int| 0 <= i < b.len() implies #[trigger] b[i] == silence by {
        if i < at {
            assert(b.take(at)[i] == a.take(at)[i]);
        } else if i < end {
            assert(b.subrange(at, end)[i - at] == b[i]);
            assert(a.subrange(at, end)[i - at] == a[i]);
            assert(plus.ensures(
                (a.subrange(at, end)[i - at], block[i - at]),
                b.subrange(at, end)[i - at],
            ));
        } else {
            assert(b.skip(end)[i - end] == a.skip(end)[i - end]);
        }
    }
}

/// The stages of an accumulator that starts silent and takes in silent
/// contributions only are silent.
proof fn lemma_stages_silent<S, P: Fn(S, S) -> S>(
    plus: &P,
    silence: S,
    start: Seq<S>,
    segments: Seq<SegmentView<S>>,
    n: int,
    cycle: int,
    b0: int,
    c: int,
    stages: Seq<Seq<S>>,
    j: int,
)
    requires
        0 <= j <= n <= segments.len(),
        0 <= b0,
        mixing(plus, start, segments, n, cycle, b0, c, stages),
        all_are(start, silence),
        adds_silence(plus, silence),
        forall|i: int|
            0 <= i < n ==> match #[trigger] contribution(segments[i], cycle, c) {
                None => true,
                Some(block) => all_are(block, silence) && b0 + block.len() <= start.len(),
            },
    ensures
        all_are(stages[j], silence),
        stages[j].len() == start.len(),
    decreases j,
{
    if j > 0 {
        lemma_stages_silent(plus, silence, start, segments, n, cycle, b0, c, stages, j - 1);
        assert(step_ok(plus, segments, cycle, b0, c, stages, j - 1));
        match contribution(segments[j - 1], cycle, c) {
            None => {
                assert(stages[j - 1 + 1] == stages[j - 1]);
            },
            Some(block) => {
                lemma_added_silence(plus, silence, stages[j - 1], b0, block, stages[j - 1 + 1]);
            },
        }
    }
}

/// A silent engine stays silent: where a channel's accumulator was silent
/// before a cycle, the first partition's block for the channel is silent and
/// so is every block that has arrived for it, the accumulator is silent after
/// the cycle, and so is the block that is put out.
pub proof fn lemma_cycle_stays_silent<
    S,
    C,
    M: Fn(C, C, C) -> C,
    I: Fn(&Vec<C>) -> Vec<S>,
    X: Fn(S, S, usize, usize, usize) -> S,
    P: Fn(S, S) -> S,
>(
    mac: &M,
    ifft: &I,
    mix: &X,
    plus: &P,
    before: SchedulerView<S, C>,
    after: SchedulerView<S, C>,
    c: int,
)
    requires
        scheduler_wf(before),
        scheduler_wf(after),
        cycle_done(mac, ifft, mix, plus, before, after),
        0 <= c < before.channels,
        all_are(before.out_buff[c], before.silence),
        all_are(after.rt.output[c], before.silence),
        forall|i: int|
            0 <= i < after.segments.len() ==> match #[trigger] contribution(
                after.segments[i],
                after.process_counter,
                c,
            ) {
                None => true,
                Some(block) => all_are(block, before.silence),
            },
        adds_silence(plus, before.silence),
    ensures
        all_are(after.out_buff[c], before.silence),
        all_are(after.front[c], before.silence),
{
    let plan = before.plan;
    let channels = before.channels;
    let b0 = plan[0].0 as int;
    let silence = before.silence;
    let cycle = after.process_counter;
    let n = after.segments.len() as int;
    let start = before.out_buff[c].skip(b0) + Seq::new(b0 as nat, |i: int| silence);
    lemma_part_fits(plan, channels, 0);
    assert(all_are(start, silence)) by {
        assert forall|i: int| 0 <= i < start.len() implies #[trigger] start[i] == silence by {
            if i < before.out_buff[c].len() - b0 {
                assert(start[i] == before.out_buff[c][b0 + i]);
            }
        }
    }
    assert(mixed(plus, start, after.segments, cycle, b0, c, after.rt.output[c], after.out_buff[c]));
    let mid = choose|mid: Seq<S>| #[trigger]
        mixes_to(plus, start, after.segments, cycle, b0, c, mid) && added(
            plus,
            mid,
            0,
            after.rt.output[c],
            after.out_buff[c],
        );
    let stages = choose|stages: Seq<Seq<S>>| #[trigger]
        mixing(plus, start, after.segments, n, cycle, b0, c, stages) && stages[n] == mid;
    assert forall|i: int| 0 <= i < n implies match #[trigger] contribution(
        after.segments[i],
        cycle,
        c,
    ) {
        None => true,
        Some(block) => all_are(block, silence) && b0 + block.len() <= start.len(),
    } by {
        let seg = after.segments[i];
        assert(segment_wf(seg, plan, channels, i));
        lemma_part_fits(plan, channels, i + 1);
        if contribution(seg, cycle, c) is Some {
            let b = seg.block_size;
            assert(c * b >= 0 && (c + 1) * b == c * b + b && (c + 1) * b <= b * channels)
                by (nonlinear_arith)
                requires
                    0 <= c < channels,
                    b >= 0,
            ;
            assert(channel_block(seg.inbox, b, c).len() == b);
        }
    }
    lemma_stages_silent(plus, silence, start, after.segments, n, cycle, b0, c, stages, n);
    assert(conv_wf(after.rt));
    lemma_added_silence(plus, silence, mid, 0, after.rt.output[c], after.out_buff[c]);
    assert(after.front[c] == after.out_buff[c].take(b0));
    assert forall|i: int| 0 <= i < after.front[c].len() implies #[trigger] after.front[c][i]
        == silence by {
        assert(after.front[c][i] == after.out_buff[c][i]);
    }
}

/// The two sides of partition `i` of a plan: what the real-time thread holds
/// of it, and its worker.
fn segment_pair<S: Copy, C: Copy>(
    partition: &[(usize, usize)],
    i: usize,
    channels: usize,
    signal_feed: FdlConfig,
    filter_feed: FdlConfig,
    silence: S,
    zero: C,
) -> (pair: (SegmentHandle<S, C>, Worker<S, C>))
    requires
        usable(partition@, channels as int),
        queues_fit::<S, C>(partition@, channels as int),
        1 <= i < partition.len(),
    ensures
        segment_wf(pair.0.view(), partition@, channels as int, i - 1),
        pair.0.lanes(signal_feed, filter_feed),
        pair.0.overruns == 0,
        pair.0.underruns == 0,
        pair.1.wf(),
        worker_for(
            pair.1@,
            partition@,
            channels as int,
            signal_feed,
            filter_feed,
            silence,
            zero,
            i - 1,
        ),
{
    let ghost plan = partition@;
    let part = partition[i];
    proof {
        lemma_part_fits(plan, channels as int, i as int);
        assert(queue_fits(
            real_slots(plan[i as int], channels as int),
            vstd::layout::size_of::<S>() as int,
        ));
        assert(queue_fits(
            complex_slots(plan[i as int], channels as int),
            vstd::layout::size_of::<C>() as int,
        ));
    }
    proof {
        assert(part.0 * channels <= part.0 * channels * QUEUE_BLOCKS) by (nonlinear_arith)
            requires
                part.0 * channels >= 0,
                QUEUE_BLOCKS >= 1,
        ;
        assert(part.0 * channels >= 0) by (nonlinear_arith);
    }
    let sample_slots: usize = part.0 * channels * QUEUE_BLOCKS;
    let spectrum_slots: usize = (part.0 + 1) * part.1 * channels * QUEUE_FILTERS;
    let (signal_real_tx, signal_real_rx) = lane::<S>(signal_feed.real_ringbuff, sample_slots);
    let (filter_real_tx, filter_real_rx) = lane::<S>(filter_feed.real_ringbuff, sample_slots);
    let (signal_complex_tx, signal_complex_rx) = lane::<C>(
        signal_feed.complex_ringbuff,
        spectrum_slots,
    );
    let (filter_complex_tx, filter_complex_rx) = lane::<C>(
        filter_feed.complex_ringbuff,
        spectrum_slots,
    );
    let (out_prod, out_cons) = ring_buffer::<S>(sample_slots);
    let avail: usize = segment_avail(partition, i);
    let offset: usize = segment_offset(partition, channels, i);
    let block_len: usize = part.0 * channels;
    let bins: usize = (part.0 + 1) * part.1 * channels;
    let handle = SegmentHandle {
        signal_real: signal_real_tx,
        filter_real: filter_real_tx,
        signal_complex: signal_complex_tx,
        filter_complex: filter_complex_tx,
        out_cons,
        block_size: part.0,
        num_blocks: part.1,
        offset,
        avail,
        outbox: filled(block_len, silence),
        inbox: filled(block_len, silence),
        sent: false,
        arrived: false,
        overruns: 0,
        underruns: 0,
    };
    let worker = Worker::new(
        part.0,
        channels,
        part.1,
        silence,
        zero,
        signal_feed,
        filter_feed,
        signal_real_rx,
        filter_real_rx,
        signal_complex_rx,
        filter_complex_rx,
        out_prod,
    );
    proof {
        assert(segment_wf(handle.view(), plan, channels as int, i - 1));
    }
    (handle, worker)
}

impl<S: Copy, C: Copy> Scheduler<S, C> {
    /// What the scheduler holds is consistent.
    pub closed spec fn wf(&self) -> bool {
        &&& scheduler_wf(self@)
        &&& self.rt_segment.wf()
        &&& self.block_size == self.partition@[0].0
        &&& self.quiet@ == Seq::new(self.block_size as nat, |i: int| self.silence)
        &&& forall|i: int|
            0 <= i < self.non_rt_segments.len() ==> (#[trigger] self.non_rt_segments[i]).lanes(
                self.signal_feed,
                self.filter_feed,
            )
    }

    /// A consistent scheduler's view is consistent.
    pub proof fn lemma_wf(&self)
        requires
            self.wf(),
        ensures
            scheduler_wf(self@),
    {
    }

    /// Builds the scheduler of a plan for `channels` channels, and one worker
    /// for every partition but the first, in the order of the plan. The feeds
    /// of the two delay lines are taken from `fdl_config`. A plan that is not
    /// usable is rejected with its verdict, and one whose queues cannot be
    /// allocated as too large.
    pub fn new(
        partition: &[(usize, usize)],
        fdl_config: &[FdlConfig],
        channels: usize,
        silence: S,
        zero: C,
    ) -> (r: Result<(Self, Vec<Worker<S, C>>), PlanError>)
        ensures
            r is Ok <==> build_verdict::<S, C>(partition@, channels as int) is Ok,
            r is Err ==> build_verdict::<S, C>(partition@, channels as int) == Err::<
                (),
                PlanError,
            >(r->Err_0),
            r is Ok ==> {
                let sched = (r->Ok_0).0;
                let workers = (r->Ok_0).1;
                &&& sched.wf()
                &&& sched@.plan == partition@
                &&& sched@.channels == channels
                &&& sched@.signal_feed == feed_of(
                    fdl_config@,
                    FdlKey::Signal,
                    fdl_config.len() as int,
                )
                &&& sched@.filter_feed == feed_of(
                    fdl_config@,
                    FdlKey::Filter,
                    fdl_config.len() as int,
                )
                &&& sched@.silence == silence
                &&& fresh(sched@, zero)
                &&& workers.len() == partition.len() - 1
                &&& forall|i: int|
                    0 <= i < workers.len() ==> (#[trigger] workers[i]).wf() && worker_for(
                        workers[i]@,
                        partition@,
                        channels as int,
                        sched@.signal_feed,
                        sched@.filter_feed,
                        silence,
                        zero,
                        i,
                    )
            },
    {
        match check_partition(partition, channels) {
            Err(e) => {
                return Err(e);
            },
            Ok(()) => {},
        }
        if !check_queues::<S, C>(partition, channels) {
            return Err(PlanError::TooLarge);
        }
        let ghost plan = partition@;
        let n: usize = partition.len();
        let signal_feed = resolve(fdl_config, FdlKey::Signal);
        let filter_feed = resolve(fdl_config, FdlKey::Filter);
        let first = partition[0];
        let largest: usize = partition[n - 1].0;
        proof {
            lemma_part_fits(plan, channels as int, 0);
            assert(largest == plan.last().0);
        }
        let rt_segment = UPConv::new(first.0, channels, first.1, silence, zero);
        let signal_in = rows(channels, largest, silence);
        let filter_in = rows(channels, largest, silence);
        let out_buff = rows(channels, 2 * largest, silence);
        let front = rows(channels, first.0, silence);
        let quiet = filled(first.0, silence);
        let mut non_rt_segments: Vec<SegmentHandle<S, C>> = Vec::new();
        let mut workers: Vec<Worker<S, C>> = Vec::new();
        let mut i: usize = 1;
        while i < n
            invariant
                1 <= i <= n,
                n == partition.len(),
                plan == partition@,
                usable(plan, channels as int),
                queues_fit::<S, C>(plan, channels as int),
                non_rt_segments.len() == i - 1,
                workers.len() == i - 1,
                forall|j: int|
                    0 <= j < i - 1 ==> segment_wf(
                        (#[trigger] non_rt_segments[j]).view(),
                        plan,
                        channels as int,
                        j,
                    ) && non_rt_segments[j].lanes(signal_feed, filter_feed)
                        && non_rt_segments[j].overruns == 0 && non_rt_segments[j].underruns == 0,
                forall|j: int|
                    0 <= j < i - 1 ==> (#[trigger] workers[j]).wf() && worker_for(
                        workers[j]@,
                        plan,
                        channels as int,
                        signal_feed,
                        filter_feed,
                        silence,
                        zero,
                        j,
                    ),
            decreases n - i,
        {
            let (handle, worker) = segment_pair(
                partition,
                i,
                channels,
                signal_feed,
                filter_feed,
                silence,
                zero,
            );
            non_rt_segments.push(handle);
            workers.push(worker);
            i += 1;
        }
        let sched = Scheduler {
            rt_segment,
            non_rt_segments,
            signal_feed,
            filter_feed,
            signal_in,
            signal_count: 0,
            filter_in,
            filter_count: 0,
            partition: crate::buffers::copy_range(partition, 0, n),
            out_buff,
            front,
            quiet,
            process_counter: 0,
            block_size: first.0,
            channels,
            silence,
        };
        proof {
            sched.rt_segment.lemma_wf();
            assert(sched.partition@ =~= partition@);
            assert(sched@.plan == plan);
            assert forall|c: int| 0 <= c < channels implies #[trigger] sched@.signal_in[c]
                == Seq::new(plan.last().0 as nat, |i: int| silence) by {
                assert(sched@.signal_in[c] == sched.signal_in[c]@);
            }
            assert forall|c: int| 0 <= c < channels implies #[trigger] sched@.filter_in[c]
                == Seq::new(plan.last().0 as nat, |i: int| silence) by {
                assert(sched@.filter_in[c] == sched.filter_in[c]@);
            }
            assert forall|c: int| 0 <= c < channels implies #[trigger] sched@.out_buff[c]
                == Seq::new((2 * plan.last().0) as nat, |i: int| silence) by {
                assert(sched@.out_buff[c] == sched.out_buff[c]@);
            }
            assert forall|c: int| 0 <= c < channels implies (#[trigger] sched@.front[c]).len()
                == plan[0].0 by {
                assert(sched@.front[c] == sched.front[c]@);
            }
            assert forall|j: int| 0 <= j < sched@.segments.len() implies segment_wf(
                #[trigger] sched@.segments[j],
                plan,
                channels as int,
                j,
            ) && sched@.segments[j].overruns == 0 && sched@.segments[j].underruns == 0 by {
                assert(sched@.segments[j] == sched.non_rt_segments[j].view());
            }
            assert(scheduler_wf(sched@));
            assert(fresh(sched@, zero));
        }
        Ok((sched, workers))
    }

    /// Takes in one block per channel for the delay line that `fdl_key`
    /// names: the history of every channel rolls by the block, every segment
    /// whose cadence has come is handed the newest samples of its block size,
    /// and the first partition's convolver pushes the block into its delay
    /// line. A segment whose queue has no room is left out and the fault is
    /// counted with it.
    #[verifier::rlimit(60)]
    pub fn push<F: Fn(&Vec<S>) -> Vec<C>>(
        &mut self,
        input: &[Vec<S>],
        fdl_key: FdlKey,
        sliding: bool,
        fft: &F,
    )
        requires
            old(self).wf(),
            feed(old(self)@, fdl_key).real_ringbuff,
            pushes(old(self)@, fdl_key) < usize::MAX,
            input.len() == old(self)@.channels,
            forall|c: int|
                0 <= c < input.len() ==> (#[trigger] input[c]).len() == old(self)@.plan[0].0,
            transform_fits(fft, 2 * old(self)@.plan[0].0, old(self)@.plan[0].0 + 1),
        ensures
            final(self).wf(),
            push_done(fft, old(self)@, final(self)@, fdl_key, input@, sliding),
    {
        let ghost plan = self.partition@;
        let ghost channels = self.channels as int;
        proof {
            lemma_part_fits(plan, channels, 0);
            assert forall|c: int| 0 <= c < channels implies (#[trigger] self.signal_in[c]).len()
                == plan.last().0 by {
                assert(self@.signal_in[c] == self.signal_in[c]@);
            }
            assert forall|c: int| 0 <= c < channels implies (#[trigger] self.filter_in[c]).len()
                == plan.last().0 by {
                assert(self@.filter_in[c] == self.filter_in[c]@);
            }
            assert forall|i: int| 0 <= i < self.non_rt_segments.len() implies {
                &&& (#[trigger] self.non_rt_segments[i]).lanes(self.signal_feed, self.filter_feed)
                &&& self.non_rt_segments[i].avail >= 1
                &&& self.non_rt_segments[i].outbox.len() == self.non_rt_segments[i].block_size
                    * channels
                &&& self.non_rt_segments[i].block_size <= plan.last().0
            } by {
                assert(segment_wf(self@.segments[i], plan, channels, i));
                assert(self@.segments[i] == self.non_rt_segments[i].view());
                lemma_first_divides(plan, i + 1);
                lemma_part_fits(plan, channels, i + 1);
            }
        }
        let count: usize;
        match fdl_key {
            FdlKey::Signal => {
                roll_all(&mut self.signal_in, input);
                self.signal_count = self.signal_count + 1;
                count = self.signal_count;
                hand_over_all(
                    &mut self.non_rt_segments,
                    &self.signal_in,
                    fdl_key,
                    count,
                    self.signal_feed,
                    self.filter_feed,
                );
                assert(row_views(self.signal_in@) =~= self@.signal_in);
            },
            FdlKey::Filter => {
                roll_all(&mut self.filter_in, input);
                self.filter_count = self.filter_count + 1;
                count = self.filter_count;
                hand_over_all(
                    &mut self.non_rt_segments,
                    &self.filter_in,
                    fdl_key,
                    count,
                    self.signal_feed,
                    self.filter_feed,
                );
                assert(row_views(self.filter_in@) =~= self@.filter_in);
            },
        }
        proof {
            old(self).rt_segment.lemma_wf();
        }
        self.rt_segment.push_chunk(fdl_key, input, sliding, fft);
        proof {
            self.rt_segment.lemma_wf();
            assert(final(self)@.out_buff =~= old(self)@.out_buff);
            assert(final(self)@.front =~= old(self)@.front);
            assert(fdl_key == FdlKey::Signal ==> final(self)@.filter_in =~= old(self)@.filter_in);
            assert(fdl_key == FdlKey::Filter ==> final(self)@.signal_in =~= old(self)@.signal_in);
            assert forall|c: int| 0 <= c < input.len() implies #[trigger] history(
                self@,
                fdl_key,
            )[c] == history(old(self)@, fdl_key)[c].skip(old(self)@.plan[0].0 as int)
                + input[c]@ by {
                assert(self@.signal_in[c] == self.signal_in[c]@);
                assert(self@.filter_in[c] == self.filter_in[c]@);
                assert(old(self)@.signal_in[c] == old(self).signal_in[c]@);
                assert(old(self)@.filter_in[c] == old(self).filter_in[c]@);
            }
            assert forall|i: int| 0 <= i < old(self)@.segments.len() implies handed_over(
                old(self)@.segments[i],
                #[trigger] self@.segments[i],
                history(self@, fdl_key),
                pushes(self@, fdl_key),
            ) && segment_wf(self@.segments[i], plan, channels, i) by {
                assert(self@.segments[i] == self.non_rt_segments[i].view());
                assert(old(self)@.segments[i] == old(self).non_rt_segments[i].view());
                assert(self.non_rt_segments[i].lanes(self.signal_feed, self.filter_feed));
                assert(segment_wf(old(self)@.segments[i], plan, channels, i));
                assert(self@.segments[i].block_size * channels == channels
                    * self@.segments[i].block_size) by (nonlinear_arith);
            }
            assert forall|c: int| 0 <= c < channels implies (#[trigger] self@.signal_in[c]).len()
                == plan.last().0 && (#[trigger] self@.filter_in[c]).len() == plan.last().0 by {
                assert(self@.signal_in[c] == self.signal_in[c]@);
                assert(self@.filter_in[c] == self.filter_in[c]@);
                assert(old(self)@.signal_in[c] == old(self).signal_in[c]@);
                assert(old(self)@.filter_in[c] == old(self).filter_in[c]@);
            }
        }
    }

    /// Installs spectra for the delay line that `fdl_key` names, for a whole
    /// plan: `data` holds them partition after partition, as `process_filter`
    /// lays them out. The first partition's convolver takes its part at once,
    /// every segment's part is handed to its worker. A segment whose queue
    /// has no room is left out and the fault is counted with it.
    pub fn set(&mut self, fdl_key: FdlKey, data: &[C])
        requires
            old(self).wf(),
            feed(old(self)@, fdl_key).complex_ringbuff,
            data.len() == bins_before(
                old(self)@.plan,
                old(self)@.channels,
                old(self)@.plan.len() as int,
            ),
        ensures
            final(self).wf(),
            final(self)@.plan == old(self)@.plan,
            final(self)@.channels == old(self)@.channels,
            final(self)@.signal_feed == old(self)@.signal_feed,
            final(self)@.filter_feed == old(self)@.filter_feed,
            final(self)@.silence == old(self)@.silence,
            final(self)@.signal_in == old(self)@.signal_in,
            final(self)@.signal_count == old(self)@.signal_count,
            final(self)@.filter_in == old(self)@.filter_in,
            final(self)@.filter_count == old(self)@.filter_count,
            final(self)@.out_buff == old(self)@.out_buff,
            final(self)@.front == old(self)@.front,
            final(self)@.process_counter == old(self)@.process_counter,
            buffer_set(
                old(self)@.rt,
                final(self)@.rt,
                fdl_key,
                data@.subrange(0, bins_before(old(self)@.plan, old(self)@.channels, 1)),
            ),
            final(self)@.segments.len() == old(self)@.segments.len(),
            forall|i: int|
                0 <= i < old(self)@.segments.len() ==> installed(
                    old(self)@.segments[i],
                    #[trigger] final(self)@.segments[i],
                ),
    {
        let ghost plan = self.partition@;
        let ghost channels = self.channels as int;
        proof {
            lemma_part_fits(plan, channels, 0);
            lemma_bins_before_grows(plan, channels, 0, 1);
            lemma_bins_before_grows(plan, channels, 1, plan.len() as int);
            assert(bins_before(plan, channels, 1) == bins_before(plan, channels, 0)
                + partition_bins(plan[0], channels));
            old(self).rt_segment.lemma_wf();
        }
        let first_len: usize = crate::partition::spectrum_start(
            self.partition.as_slice(),
            self.channels,
            1,
        );
        let first = vstd::slice::slice_subrange(data, 0, first_len);
        self.rt_segment.set_fdl_buff(first, fdl_key);
        install_all(
            &mut self.non_rt_segments,
            data,
            self.partition.as_slice(),
            self.channels,
            fdl_key,
            self.signal_feed,
            self.filter_feed,
        );
        proof {
            self.rt_segment.lemma_wf();
            assert(final(self)@.out_buff =~= old(self)@.out_buff);
            assert(final(self)@.front =~= old(self)@.front);
            assert(final(self)@.signal_in =~= old(self)@.signal_in);
            assert(final(self)@.filter_in =~= old(self)@.filter_in);
            assert forall|i: int| 0 <= i < old(self)@.segments.len() implies installed(
                old(self)@.segments[i],
                #[trigger] self@.segments[i],
            ) && segment_wf(self@.segments[i], plan, channels, i) by {
                assert(self@.segments[i] == self.non_rt_segments[i].view());
                assert(old(self)@.segments[i] == old(self).non_rt_segments[i].view());
                assert(self.non_rt_segments[i].lanes(self.signal_feed, self.filter_feed));
                assert(segment_wf(old(self)@.segments[i], plan, channels, i));
            }
        }
    }

    /// Computes one output block per channel. The accumulators roll by one
    /// real-time block and are filled up with silence, every segment whose
    /// output is due is collected and added one real-time block ahead, the
    /// first partition's convolver computes its block, which is added at the
    /// front, and the front block of every accumulator is the output. A
    /// segment whose block has not arrived contributes nothing, and the fault
    /// is counted with it.
    #[verifier::rlimit(80)]
    pub fn process<
        M: Fn(C, C, C) -> C,
        I: Fn(&Vec<C>) -> Vec<S>,
        X: Fn(S, S, usize, usize, usize) -> S,
        P: Fn(S, S) -> S,
    >(&mut self, mac: &M, ifft: &I, mix: &X, plus: &P) -> (out: &Vec<Vec<S>>)
        requires
            old(self).wf(),
            old(self)@.process_counter < usize::MAX,
            mac_total(mac),
            transform_fits(ifft, old(self)@.plan[0].0 + 1, 2 * old(self)@.plan[0].0),
            mix_total(mix),
            plus_total(plus),
        ensures
            final(self).wf(),
            cycle_done(mac, ifft, mix, plus, old(self)@, final(self)@),
            out.len() == old(self)@.channels,
            forall|c: int| 0 <= c < out.len() ==> (#[trigger] out[c])@ == final(self)@.front[c],
    {
        let ghost plan = self.partition@;
        let ghost channels = self.channels as int;
        let ghost b0 = self.block_size as int;
        proof {
            lemma_part_fits(plan, channels, 0);
            old(self).rt_segment.lemma_wf();
            assert forall|c: int| 0 <= c < channels implies (#[trigger] self.out_buff[c]).len() == 2
                * plan.last().0 by {
                assert(self@.out_buff[c] == self.out_buff[c]@);
            }
            assert forall|c: int| 0 <= c < channels implies (#[trigger] self.front[c]).len()
                == b0 by {
                assert(self@.front[c] == self.front[c]@);
            }
            assert forall|i: int| 0 <= i < self.non_rt_segments.len() implies {
                &&& (#[trigger] self.non_rt_segments[i]).lanes(self.signal_feed, self.filter_feed)
                &&& self.non_rt_segments[i].avail >= 1
                &&& self.non_rt_segments[i].inbox.len() == self.non_rt_segments[i].block_size
                    * channels
                &&& self.non_rt_segments[i].block_size <= plan.last().0
            } by {
                assert(segment_wf(self@.segments[i], plan, channels, i));
                assert(self@.segments[i] == self.non_rt_segments[i].view());
                lemma_first_divides(plan, i + 1);
                lemma_part_fits(plan, channels, i + 1);
            }
        }
        self.process_counter = self.process_counter + 1;
        roll_quiet(&mut self.out_buff, &self.quiet);
        let ghost rolled = self.out_buff@;
        collect_all(
            &mut self.non_rt_segments,
            &mut self.out_buff,
            self.process_counter,
            self.block_size,
            plus,
            self.signal_feed,
            self.filter_feed,
        );
        let ghost mids = self.out_buff@;
        self.rt_segment.process(mac, ifft, mix);
        proof {
            self.rt_segment.lemma_wf();
        }
        add_rows(&mut self.out_buff, self.rt_segment.output(), plus);
        take_fronts(&mut self.front, &self.out_buff);
        proof {
            assert(final(self)@.signal_in =~= old(self)@.signal_in);
            assert(final(self)@.filter_in =~= old(self)@.filter_in);
            assert(segment_views(self.non_rt_segments@) =~= self@.segments);
            assert forall|i: int| 0 <= i < old(self)@.segments.len() implies collected(
                old(self)@.segments[i],
                #[trigger] self@.segments[i],
                self@.process_counter,
            ) && segment_wf(self@.segments[i], plan, channels, i) by {
                assert(self@.segments[i] == self.non_rt_segments[i].view());
                assert(old(self)@.segments[i] == old(self).non_rt_segments[i].view());
                assert(self.non_rt_segments[i].lanes(self.signal_feed, self.filter_feed));
                assert(segment_wf(old(self)@.segments[i], plan, channels, i));
            }
            assert forall|c: int| 0 <= c < channels implies mixed(
                plus,
                old(self)@.out_buff[c].skip(b0) + Seq::new(b0 as nat, |i: int| old(self)@.silence),
                self@.segments,
                self@.process_counter,
                b0,
                c,
                self@.rt.output[c],
                #[trigger] self@.out_buff[c],
            ) && self@.out_buff[c].len() == 2 * plan.last().0 && self@.front[c]
                == self@.out_buff[c].take(b0) && self@.front[c].len() == b0 by {
                assert(self@.out_buff[c] == self.out_buff[c]@);
                assert(self@.front[c] == self.front[c]@);
                assert(old(self)@.out_buff[c] == old(self).out_buff[c]@);
                assert(rolled[c]@ == old(self)@.out_buff[c].skip(b0) + Seq::new(
                    b0 as nat,
                    |i: int| old(self)@.silence,
                ));
                assert(mixes_to(
                    plus,
                    rolled[c]@,
                    self@.segments,
                    self@.process_counter,
                    b0,
                    c,
                    mids[c]@,
                ));
                assert(added(plus, mids[c]@, 0, self@.rt.output[c], self.out_buff[c]@));
            }
        }
        &self.front
    }

    /// Samples per real-time block.
    pub fn block_size(&self) -> (r: usize)
        requires
            self.wf(),
        ensures
            r == self@.plan[0].0,
    {
        self.block_size
    }

    /// Number of channels.
    pub fn channels(&self) -> (r: usize)
        ensures
            r == self@.channels,
    {
        self.channels
    }

    /// How many partitions are convolved by workers.
    pub fn segments(&self) -> (r: usize)
        ensures
            r == self@.segments.len(),
    {
        self.non_rt_segments.len()
    }

    /// How many bins the spectra of the whole plan have, which is the length
    /// that `set` asks for.
    pub fn spectrum_len(&self) -> (r: usize)
        requires
            self.wf(),
        ensures
            r == bins_before(self@.plan, self@.channels, self@.plan.len() as int),
    {
        crate::partition::spectrum_start(
            self.partition.as_slice(),
            self.channels,
            self.partition.len(),
        )
    }

    /// How many hand-overs to segment `i` found no room in its queue.
    pub fn overruns(&self, i: usize) -> (r: usize)
        requires
            i < self@.segments.len(),
        ensures
            r == self@.segments[i as int].overruns,
    {
        self.non_rt_segments[i].overruns
    }

    /// How many collections from segment `i` found no block in its queue.
    pub fn underruns(&self, i: usize) -> (r: usize)
        requires
            i < self@.segments.len(),
        ensures
            r == self@.segments[i as int].underruns,
    {
        self.non_rt_segments[i].underruns
    }

    /// How many blocks were pushed for the delay line that `fdl_key` names.
    pub fn pushed(&self, fdl_key: FdlKey) -> (r: usize)
        ensures
            r == pushes(self@, fdl_key),
    {
        match fdl_key {
            FdlKey::Signal => self.signal_count,
            FdlKey::Filter => self.filter_count,
        }
    }

    /// How many blocks were processed.
    pub fn processed(&self) -> (r: usize)
        ensures
            r == self@.process_counter,
    {
        self.process_counter
    }

    /// The blocks that were put out last, per channel.
    pub fn front(&self) -> (out: &Vec<Vec<S>>)
        ensures
            out.len() == self@.front.len(),
            forall|c: int| 0 <= c < out.len() ==> (#[trigger] out[c])@ == self@.front[c],
    {
        &self.front
    }

    /// Takes in one block of the signal per channel and puts out one block
    /// per channel: `push` for the signal, sliding, and then `process`.
    pub fn process_block<
        F: Fn(&Vec<S>) -> Vec<C>,
        M: Fn(C, C, C) -> C,
        I: Fn(&Vec<C>) -> Vec<S>,
        X: Fn(S, S, usize, usize, usize) -> S,
        P: Fn(S, S) -> S,
    >(
        &mut self,
        channel_blocks: &[Vec<S>],
        fft: &F,
        mac: &M,
        ifft: &I,
        mix: &X,
        plus: &P,
    ) -> (out: &Vec<Vec<S>>)
        requires
            old(self).wf(),
            old(self)@.signal_feed.real_ringbuff,
            old(self)@.signal_count < usize::MAX,
            old(self)@.process_counter < usize::MAX,
            channel_blocks.len() == old(self)@.channels,
            forall|c: int|
                0 <= c < channel_blocks.len() ==> (#[trigger] channel_blocks[c]).len() == old(self)@.plan[0].0,
            transform_fits(fft, 2 * old(self)@.plan[0].0, old(self)@.plan[0].0 + 1),
            mac_total(mac),
            transform_fits(ifft, old(self)@.plan[0].0 + 1, 2 * old(self)@.plan[0].0),
            mix_total(mix),
            plus_total(plus),
        ensures
            final(self).wf(),
            block_done(fft, mac, ifft, mix, plus, old(self)@, final(self)@, channel_blocks@),
            out.len() == old(self)@.channels,
            forall|c: int| 0 <= c < out.len() ==> (#[trigger] out[c])@ == final(self)@.front[c],
    {
        self.push(channel_blocks, FdlKey::Signal, true, fft);
        let ghost pushed = self@;
        proof {
            self.lemma_wf();
        }
        self.process(mac, ifft, mix, plus);
        proof {
            self.lemma_wf();
            assert(cycle_done(mac, ifft, mix, plus, pushed, self@));
        }
        &self.front
    }
}

} // verus!
