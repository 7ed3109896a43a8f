//! The single-partition convolver: overlap-add convolution at one block size,
//! with a delay line for the signal and one for the filter.

use crate::buffers::{copy_block, fill, filled};
use crate::envelopes::{envelope_weight, linear_envelope, FadeDirection};
use crate::fdl::{channel_kept, channel_pushed, shape_kept, view_wf, Fdl, FdlView};
use crate::kernel::{
    accumulates, all_are, mac_total, maps_to, mix_total, running_sums, transform_fits,
};
use vstd::prelude::*;

verus! {

/// Which delay line of a convolver is meant.
#[derive(Clone, Copy, Debug, PartialEq, Eq, Structural)]
pub enum FdlKey {
    /// The delay line of the live signal.
    Signal,
    /// The delay line of the filter.
    Filter,
}

/// A convolver for one partition: `num_blocks` taps of `block_size` samples
/// on each of `channels` channels.
pub struct UPConv<S, C> {
    signal: Fdl<S, C>,
    filter: Fdl<S, C>,
    outgoing: Fdl<S, C>,
    loaded: bool,
    fading: bool,
    accumulation_buffer: Vec<C>,
    output_buff: Vec<Vec<S>>,
    zero: C,
}

/// What a convolver holds.
pub ghost struct UPConvView<S, C> {
    /// The delay line of the signal.
    pub signal: FdlView<S, C>,
    /// The delay line of the filter.
    pub filter: FdlView<S, C>,
    /// Per channel, the spectra of the filter that is being replaced.
    pub outgoing: Seq<Seq<C>>,
    /// A filter has been installed.
    pub loaded: bool,
    /// The next block fades from the outgoing filter to the installed one.
    pub fading: bool,
    /// Per channel, the block that was computed last.
    pub output: Seq<Seq<S>>,
    /// The bin that an accumulation starts from.
    pub zero: C,
}

/// The delay line of `v` that `key` names.
pub open spec fn line<S, C>(v: UPConvView<S, C>, key: FdlKey) -> FdlView<S, C> {
    match key {
        FdlKey::Signal => v.signal,
        FdlKey::Filter => v.filter,
    }
}

/// `out` is a block that the convolution of one channel may give: each bin of
/// some accumulator is reached from `zero` by accumulating the products of
/// the signal's and the filter's spectra, the accumulator is transformed
/// back, and `out` is the second half of what comes back.
pub open spec fn convolved<S, C, M: Fn(C, C, C) -> C, I: Fn(&Vec<C>) -> Vec<S>>(
    mac: &M,
    ifft: &I,
    zero: C,
    signal: Seq<C>,
    filter: Seq<C>,
    block_size: int,
    num_blocks: int,
    out: Seq<S>,
) -> bool {
    exists|acc: Seq<C>, time: Seq<S>|
        #![trigger maps_to(ifft, acc, time)]
        {
            &&& acc.len() == block_size + 1
            &&& time.len() == 2 * block_size
            &&& forall|k: int|
                0 <= k < block_size + 1 ==> accumulates(
                    mac,
                    signal,
                    filter,
                    block_size + 1,
                    k,
                    num_blocks,
                    zero,
                    #[trigger] acc[k],
                )
            &&& maps_to(ifft, acc, time)
            &&& out == time.skip(block_size)
        }
}

/// `out` is a crossfade of `leaving` and `entering` over a linear window: at
/// every position the leaving block has the weight of a fade out and the
/// entering block the weight of a fade in.
pub open spec fn crossfaded<S, X: Fn(S, S, usize, usize, usize) -> S>(
    mix: &X,
    leaving: Seq<S>,
    entering: Seq<S>,
    out: Seq<S>,
) -> bool {
    &&& leaving.len() == out.len()
    &&& entering.len() == out.len()
    &&& forall|i: int|
        0 <= i < out.len() ==> mix.ensures(
            (
                leaving[i],
                entering[i],
                envelope_weight(i, out.len() as int, FadeDirection::FadeOut) as usize,
                envelope_weight(i, out.len() as int, FadeDirection::FadeIn) as usize,
                out.len() as usize,
            ),
            #[trigger] out[i],
        )
}

/// `out` is a block that one channel may put out: the convolution with the
/// installed filter, or, while a replaced filter fades, the crossfade of the
/// convolutions with the outgoing and with the installed filter.
pub open spec fn block_output<
    S,
    C,
    M: Fn(C, C, C) -> C,
    I: Fn(&Vec<C>) -> Vec<S>,
    X: Fn(S, S, usize, usize, usize) -> S,
>(
    mac: &M,
    ifft: &I,
    mix: &X,
    v: UPConvView<S, C>,
    c: int,
    out: Seq<S>,
) -> bool {
    let b = v.signal.block_size;
    let n = v.signal.num_blocks;
    if v.fading {
        exists|leaving: Seq<S>, entering: Seq<S>|
            #![trigger crossfaded(mix, leaving, entering, out)]
            {
                &&& convolved(mac, ifft, v.zero, v.signal.spectra[c], v.outgoing[c], b, n, leaving)
                &&& convolved(
                    mac,
                    ifft,
                    v.zero,
                    v.signal.spectra[c],
                    v.filter.spectra[c],
                    b,
                    n,
                    entering,
                )
                &&& crossfaded(mix, leaving, entering, out)
            }
    } else {
        convolved(mac, ifft, v.zero, v.signal.spectra[c], v.filter.spectra[c], b, n, out)
    }
}

/// What an installation makes of a convolver: the delay line that `key`
/// names holds `spectra`, channel after channel, and where that is the filter
/// and a filter was installed before, a fade from the filter heard last is
/// pending.
pub open spec fn buffer_set<S, C>(
    before: UPConvView<S, C>,
    after: UPConvView<S, C>,
    key: FdlKey,
    spectra: Seq<C>,
) -> bool {
    let stride = (before.signal.block_size + 1) * before.signal.num_blocks;
    &&& shape_kept(before.signal, after.signal)
    &&& after.signal.windows == before.signal.windows
    &&& after.filter.windows == before.filter.windows
    &&& after.output == before.output
    &&& after.zero == before.zero
    &&& forall|c: int|
        0 <= c < before.signal.channels ==> #[trigger] line(after, key).spectra[c]
            == spectra.subrange(c * stride, (c + 1) * stride)
    &&& key == FdlKey::Signal ==> {
        &&& after.filter == before.filter
        &&& after.outgoing == before.outgoing
        &&& after.loaded == before.loaded
        &&& after.fading == before.fading
    }
    &&& key == FdlKey::Filter ==> {
        &&& after.signal == before.signal
        &&& after.loaded
        &&& after.fading == before.loaded
        &&& after.outgoing == if before.loaded && !before.fading {
            before.filter.spectra
        } else {
            before.outgoing
        }
    }
}

/// What a push of one block per channel makes of a convolver: every channel
/// of the delay line that `key` names has taken its block in, and nothing
/// else has changed.
pub open spec fn chunk_pushed<S, C, F: Fn(&Vec<S>) -> Vec<C>>(
    fft: &F,
    before: UPConvView<S, C>,
    after: UPConvView<S, C>,
    key: FdlKey,
    input: Seq<Vec<S>>,
    sliding: bool,
) -> bool {
    &&& shape_kept(line(before, key), line(after, key))
    &&& key == FdlKey::Signal ==> after.filter == before.filter
    &&& key == FdlKey::Filter ==> after.signal == before.signal
    &&& after.outgoing == before.outgoing
    &&& after.loaded == before.loaded
    &&& after.fading == before.fading
    &&& after.output == before.output
    &&& after.zero == before.zero
    &&& forall|c: int|
        0 <= c < before.signal.channels ==> #[trigger] channel_pushed(
            fft,
            line(before, key),
            line(after, key),
            c,
            input[c]@,
            sliding,
        )
}

/// The convolver's delay lines agree in their sizes, there is at least one
/// tap, a fade is pending only where a filter was installed before, and each
/// channel has its output block.
pub open spec fn conv_wf<S, C>(v: UPConvView<S, C>) -> bool {
    &&& view_wf(v.signal)
    &&& view_wf(v.filter)
    &&& v.signal.num_blocks >= 1
    &&& v.filter.block_size == v.signal.block_size
    &&& v.filter.num_blocks == v.signal.num_blocks
    &&& v.filter.channels == v.signal.channels
    &&& v.filter.silence == v.signal.silence
    &&& v.outgoing.len() == v.signal.channels
    &&& forall|c: int|
        0 <= c < v.signal.channels ==> (#[trigger] v.outgoing[c]).len() == (v.signal.block_size + 1)
            * v.signal.num_blocks
    &&& v.fading ==> v.loaded
    &&& v.output.len() == v.signal.channels
    &&& forall|c: int|
        0 <= c < v.signal.channels ==> (#[trigger] v.output[c]).len() == v.signal.block_size
}

impl<S, C> View for UPConv<S, C> {
    type V = UPConvView<S, C>;

    closed spec fn view(&self) -> UPConvView<S, C> {
        UPConvView {
            signal: self.signal@,
            filter: self.filter@,
            outgoing: self.outgoing@.spectra,
            loaded: self.loaded,
            fading: self.fading,
            output: Seq::new(self.output_buff.len() as nat, |c: int| self.output_buff[c]@),
            zero: self.zero,
        }
    }
}

/// Accumulates the products of one channel's spectra from `zero` and
/// transforms the sums back.
fn convolve<S: Copy, C: Copy, M: Fn(C, C, C) -> C, I: Fn(&Vec<C>) -> Vec<S>>(
    signal: &Fdl<S, C>,
    filter: &Fdl<S, C>,
    acc: &mut Vec<C>,
    zero: C,
    channel: usize,
    mac: &M,
    ifft: &I,
) -> (time: Vec<S>)
    requires
        signal.wf(),
        filter.wf(),
        signal.same_shape(filter),
        channel < signal@.channels,
        channel < filter@.channels,
        old(acc).len() == signal@.block_size + 1,
        mac_total(mac),
        transform_fits(ifft, signal@.block_size + 1, 2 * signal@.block_size),
    ensures
        final(acc).len() == old(acc).len(),
        time.len() == 2 * signal@.block_size,
        convolved(
            mac,
            ifft,
            zero,
            signal@.spectra[channel as int],
            filter@.spectra[channel as int],
            signal@.block_size,
            signal@.num_blocks,
            time@.skip(signal@.block_size),
        ),
{
    fill(acc, zero);
    signal.mul_blocks(filter, acc, channel, mac);
    let time = ifft(&*acc);
    proof {
        assert(maps_to(ifft, acc@, time@));
    }
    time
}

/// Writes the crossfade of the second halves of `leaving` and `entering`
/// into `out`.
fn fade<S: Copy, X: Fn(S, S, usize, usize, usize) -> S>(
    out: &mut Vec<S>,
    leaving: &Vec<S>,
    entering: &Vec<S>,
    mix: &X,
)
    requires
        leaving.len() == 2 * old(out).len(),
        entering.len() == 2 * old(out).len(),
        mix_total(mix),
    ensures
        final(out).len() == old(out).len(),
        crossfaded(
            mix,
            leaving@.skip(old(out).len() as int),
            entering@.skip(old(out).len() as int),
            final(out)@,
        ),
{
    let n: usize = out.len();
    let mut i: usize = 0;
    while i < n
        invariant
            0 <= i <= n,
            out.len() == n,
            n == old(out).len(),
            leaving.len() == 2 * n,
            entering.len() == 2 * n,
            mix_total(mix),
            forall|j: int|
                0 <= j < i ==> mix.ensures(
                    (leaving[n + j], entering[n + j], (n - j) as usize, j as usize, n),
                    #[trigger] out[j],
                ),
        decreases n - i,
    {
        let in_weight: usize = linear_envelope(i, n, FadeDirection::FadeIn);
        let out_weight: usize = linear_envelope(i, n, FadeDirection::FadeOut);
        let sample = mix(leaving[n + i], entering[n + i], out_weight, in_weight, n);
        out[i] = sample;
        i += 1;
    }
}

/// The number of channels that a chunk of `given` blocks reaches in a
/// convolver of `channels` channels.
pub open spec fn reached(given: int, channels: int) -> int {
    if given < channels {
        given
    } else {
        channels
    }
}

/// Pushes the blocks of `chunk` into the channels of `fdl`, in their order,
/// as far as both go.
fn push_all<S: Copy, C: Copy, F: Fn(&Vec<S>) -> Vec<C>>(
    fdl: &mut Fdl<S, C>,
    chunk: &[Vec<S>],
    sliding: bool,
    fft: &F,
)
    requires
        old(fdl).wf(),
        old(fdl)@.num_blocks >= 1,
        forall|c: int| 0 <= c < chunk.len() ==> (#[trigger] chunk[c]).len() == old(fdl)@.block_size,
        transform_fits(fft, 2 * old(fdl)@.block_size, old(fdl)@.block_size + 1),
    ensures
        final(fdl).wf(),
        shape_kept(old(fdl)@, final(fdl)@),
        forall|c: int|
            0 <= c < reached(chunk.len() as int, old(fdl)@.channels) ==> #[trigger] channel_pushed(
                fft,
                old(fdl)@,
                final(fdl)@,
                c,
                chunk[c]@,
                sliding,
            ),
        forall|c: int|
            reached(chunk.len() as int, old(fdl)@.channels) <= c < old(fdl)@.channels
                ==> #[trigger] channel_kept(old(fdl)@, final(fdl)@, c),
{
    let channels: usize = fdl.channels();
    let n: usize = if chunk.len() < channels {
        chunk.len()
    } else {
        channels
    };
    let mut c: usize = 0;
    while c < n
        invariant
            0 <= c <= n,
            n == reached(chunk.len() as int, old(fdl)@.channels),
            channels == old(fdl)@.channels,
            fdl.wf(),
            shape_kept(old(fdl)@, fdl@),
            old(fdl)@.num_blocks >= 1,
            forall|d: int|
                0 <= d < chunk.len() ==> (#[trigger] chunk[d]).len() == old(fdl)@.block_size,
            transform_fits(fft, 2 * old(fdl)@.block_size, old(fdl)@.block_size + 1),
            forall|d: int|
                0 <= d < c ==> #[trigger] channel_pushed(
                    fft,
                    old(fdl)@,
                    fdl@,
                    d,
                    chunk[d]@,
                    sliding,
                ),
            forall|d: int| c <= d < channels ==> #[trigger] channel_kept(old(fdl)@, fdl@, d),
        decreases n - c,
    {
        let ghost before = fdl@;
        fdl.push_block(chunk[c].as_slice(), fft, sliding, c);
        proof {
            assert forall|d: int| 0 <= d < c + 1 implies #[trigger] channel_pushed(
                fft,
                old(fdl)@,
                fdl@,
                d,
                chunk[d]@,
                sliding,
            ) by {
                if d < c {
                    assert(channel_pushed(fft, old(fdl)@, before, d, chunk[d]@, sliding));
                    assert(channel_kept(before, fdl@, d));
                } else {
                    assert(channel_kept(old(fdl)@, before, d));
                    assert(channel_pushed(fft, before, fdl@, d, chunk[d]@, sliding));
                }
            }
            assert forall|d: int| c + 1 <= d < channels implies #[trigger] channel_kept(
                old(fdl)@,
                fdl@,
                d,
            ) by {
                assert(channel_kept(old(fdl)@, before, d));
                assert(channel_kept(before, fdl@, d));
            }
        }
        c += 1;
    }
}

impl<S: Copy, C: Copy> UPConv<S, C> {
    /// What the convolver holds is consistent.
    pub closed spec fn wf(&self) -> bool {
        &&& conv_wf(self@)
        &&& self.outgoing.wf()
        &&& self.outgoing.same_shape(&self.signal)
        &&& self.outgoing@.channels == self.signal@.channels
        &&& self.accumulation_buffer.len() == self.signal@.block_size + 1
    }

    /// A consistent convolver's view is consistent.
    pub proof fn lemma_wf(&self)
        requires
            self.wf(),
        ensures
            conv_wf(self@),
    {
    }

    /// A convolver with no filter installed: its windows hold `silence`, its
    /// spectra and its filter hold `zero`.
    pub fn new(block_size: usize, channels: usize, num_blocks: usize, silence: S, zero: C) -> (conv:
        Self)
        requires
            num_blocks >= 1,
            2 * block_size <= usize::MAX,
            (block_size + 1) * num_blocks <= usize::MAX,
        ensures
            conv.wf(),
            conv@.signal.block_size == block_size,
            conv@.signal.num_blocks == num_blocks,
            conv@.signal.channels == channels,
            conv@.signal.silence == silence,
            conv@.zero == zero,
            !conv@.loaded,
            !conv@.fading,
            forall|c: int|
                0 <= c < channels ==> #[trigger] conv@.filter.spectra[c] == Seq::new(
                    ((block_size + 1) * num_blocks) as nat,
                    |i: int| zero,
                ),
            forall|c: int|
                0 <= c < channels ==> #[trigger] conv@.signal.spectra[c] == Seq::new(
                    ((block_size + 1) * num_blocks) as nat,
                    |i: int| zero,
                ),
            forall|c: int|
                0 <= c < channels ==> #[trigger] conv@.signal.windows[c] == Seq::new(
                    (2 * block_size) as nat,
                    |i: int| silence,
                ),
    {
        let signal = Fdl::new(block_size, num_blocks, channels, silence, zero);
        let filter = Fdl::new(block_size, num_blocks, channels, silence, zero);
        let outgoing = Fdl::new(block_size, num_blocks, channels, silence, zero);
        let accumulation_buffer = filled(block_size + 1, zero);
        let mut output_buff: Vec<Vec<S>> = Vec::new();
        let mut c: usize = 0;
        while c < channels
            invariant
                0 <= c <= channels,
                output_buff.len() == c,
                forall|d: int| 0 <= d < c ==> (#[trigger] output_buff[d]).len() == block_size,
            decreases channels - c,
        {
            output_buff.push(filled(block_size, silence));
            c += 1;
        }
        UPConv {
            signal,
            filter,
            outgoing,
            loaded: false,
            fading: false,
            accumulation_buffer,
            output_buff,
            zero,
        }
    }

    /// Samples per block.
    pub fn block_size(&self) -> (r: usize)
        ensures
            r == self@.signal.block_size,
    {
        self.signal.block_size()
    }

    /// Number of channels.
    pub fn channels(&self) -> (r: usize)
        ensures
            r == self@.signal.channels,
    {
        self.signal.channels()
    }

    /// Taps per channel.
    pub fn num_blocks(&self) -> (r: usize)
        ensures
            r == self@.signal.num_blocks,
    {
        self.signal.num_blocks()
    }

    /// The block that was computed last, per channel.
    pub fn output(&self) -> (out: &Vec<Vec<S>>)
        ensures
            out.len() == self@.output.len(),
            forall|c: int| 0 <= c < out.len() ==> (#[trigger] out[c])@ == self@.output[c],
    {
        &self.output_buff
    }

    /// Replaces the spectra of the delay line that `fdl_key` names by
    /// `new_buff`, which holds them channel after channel. Where that is the
    /// filter and a filter was installed before, the next block fades from
    /// the filter that was heard last to the new one.
    pub fn set_fdl_buff(&mut self, new_buff: &[C], fdl_key: FdlKey)
        requires
            old(self).wf(),
            new_buff.len() == old(self)@.signal.channels * ((old(self)@.signal.block_size + 1)
                * old(self)@.signal.num_blocks),
        ensures
            final(self).wf(),
            buffer_set(old(self)@, final(self)@, fdl_key, new_buff@),
    {
        match fdl_key {
            FdlKey::Signal => {
                self.signal.set_buffer(new_buff);
            },
            FdlKey::Filter => {
                if self.loaded && !self.fading {
                    self.outgoing.copy_spectra_from(&self.filter);
                    self.fading = true;
                }
                self.filter.set_buffer(new_buff);
                self.loaded = true;
            },
        }
    }

    /// Installs a filter: `set_fdl_buff` for the filter's delay line.
    pub fn set_filter(&mut self, new_filter: &[C])
        requires
            old(self).wf(),
            new_filter.len() == old(self)@.signal.channels * ((old(self)@.signal.block_size + 1)
                * old(self)@.signal.num_blocks),
        ensures
            final(self).wf(),
            buffer_set(old(self)@, final(self)@, FdlKey::Filter, new_filter@),
    {
        self.set_fdl_buff(new_filter, FdlKey::Filter);
    }

    /// Pushes one block per channel into the delay line that `fdl_key` names,
    /// for as many channels as `chunk` has blocks and the convolver has
    /// channels. The other delay line and the output stay as they are.
    pub fn push_chunk<F: Fn(&Vec<S>) -> Vec<C>>(
        &mut self,
        fdl_key: FdlKey,
        chunk: &[Vec<S>],
        sliding: bool,
        fft: &F,
    )
        requires
            old(self).wf(),
            forall|c: int|
                0 <= c < chunk.len() ==> (#[trigger] chunk[c]).len() == old(self)@.signal.block_size,
            transform_fits(
                fft,
                2 * old(self)@.signal.block_size,
                old(self)@.signal.block_size + 1,
            ),
        ensures
            final(self).wf(),
            shape_kept(line(old(self)@, fdl_key), line(final(self)@, fdl_key)),
            fdl_key == FdlKey::Signal ==> final(self)@.filter == old(self)@.filter,
            fdl_key == FdlKey::Filter ==> final(self)@.signal == old(self)@.signal,
            final(self)@.outgoing == old(self)@.outgoing,
            final(self)@.loaded == old(self)@.loaded,
            final(self)@.fading == old(self)@.fading,
            final(self)@.output == old(self)@.output,
            final(self)@.zero == old(self)@.zero,
            forall|c: int|
                0 <= c < reached(chunk.len() as int, old(self)@.signal.channels)
                    ==> #[trigger] channel_pushed(
                    fft,
                    line(old(self)@, fdl_key),
                    line(final(self)@, fdl_key),
                    c,
                    chunk[c]@,
                    sliding,
                ),
            forall|c: int|
                reached(chunk.len() as int, old(self)@.signal.channels) <= c < old(self)@.signal.channels ==> #[trigger] channel_kept(
                    line(old(self)@, fdl_key),
                    line(final(self)@, fdl_key),
                    c,
                ),
    {
        match fdl_key {
            FdlKey::Signal => {
                push_all(&mut self.signal, chunk, sliding, fft);
            },
            FdlKey::Filter => {
                push_all(&mut self.filter, chunk, sliding, fft);
            },
        }
    }

    /// Computes one output block per channel from what the delay lines hold.
    /// The delay lines stay as they are, and a pending fade is done with.
    pub fn process<
        M: Fn(C, C, C) -> C,
        I: Fn(&Vec<C>) -> Vec<S>,
        X: Fn(S, S, usize, usize, usize) -> S,
    >(&mut self, mac: &M, ifft: &I, mix: &X) -> (out: &Vec<Vec<S>>)
        requires
            old(self).wf(),
            mac_total(mac),
            transform_fits(
                ifft,
                old(self)@.signal.block_size + 1,
                2 * old(self)@.signal.block_size,
            ),
            mix_total(mix),
        ensures
            final(self).wf(),
            final(self)@.signal == old(self)@.signal,
            final(self)@.filter == old(self)@.filter,
            final(self)@.outgoing == old(self)@.outgoing,
            final(self)@.loaded == old(self)@.loaded,
            final(self)@.zero == old(self)@.zero,
            !final(self)@.fading,
            forall|c: int|
                0 <= c < old(self)@.signal.channels ==> block_output(
                    mac,
                    ifft,
                    mix,
                    old(self)@,
                    c,
                    #[trigger] final(self)@.output[c],
                ),
            out.len() == old(self)@.signal.channels,
            forall|c: int| 0 <= c < out.len() ==> (#[trigger] out[c])@ == final(self)@.output[c],
    {
        let channels: usize = self.signal.channels();
        let zero = self.zero;
        let fading: bool = self.fading;
        let mut c: usize = 0;
        while c < channels
            invariant
                0 <= c <= channels,
                channels == old(self)@.signal.channels,
                self.wf(),
                self.signal == old(self).signal,
                self.filter == old(self).filter,
                self.outgoing == old(self).outgoing,
                self.loaded == old(self).loaded,
                self.fading == old(self).fading,
                self.zero == old(self).zero,
                zero == self.zero,
                fading == self.fading,
                mac_total(mac),
                transform_fits(
                    ifft,
                    old(self)@.signal.block_size + 1,
                    2 * old(self)@.signal.block_size,
                ),
                mix_total(mix),
                forall|d: int|
                    0 <= d < c ==> block_output(
                        mac,
                        ifft,
                        mix,
                        old(self)@,
                        d,
                        (#[trigger] self.output_buff[d])@,
                    ),
            decreases channels - c,
        {
            let ghost rows = self.output_buff@;
            proof {
                assert forall|d: int| 0 <= d < channels implies (#[trigger] rows[d]).len()
                    == self@.signal.block_size by {
                    assert(self@.output[d] == rows[d]@);
                }
            }
            let entering = convolve(
                &self.signal,
                &self.filter,
                &mut self.accumulation_buffer,
                zero,
                c,
                mac,
                ifft,
            );
            if fading {
                let leaving = convolve(
                    &self.signal,
                    &self.outgoing,
                    &mut self.accumulation_buffer,
                    zero,
                    c,
                    mac,
                    ifft,
                );
                fade(&mut self.output_buff[c], &leaving, &entering, mix);
                proof {
                    let b = old(self)@.signal.block_size;
                    assert(crossfaded(
                        mix,
                        leaving@.skip(b),
                        entering@.skip(b),
                        self.output_buff[c as int]@,
                    ));
                }
            } else {
                let b: usize = self.signal.block_size();
                copy_block(&mut self.output_buff[c], entering.as_slice(), b);
                assert(self.output_buff[c as int]@ =~= entering@.skip(b as int));
            }
            proof {
                assert forall|d: int| 0 <= d < self.output_buff.len() implies (
                #[trigger] self@.output[d]).len() == self@.signal.block_size by {
                    assert(self@.output[d] == self.output_buff[d]@);
                    if d != c {
                        assert(self.output_buff[d] == rows[d]);
                    }
                }
            }
            c += 1;
        }
        self.fading = false;
        proof {
            assert forall|d: int| 0 <= d < channels implies block_output(
                mac,
                ifft,
                mix,
                old(self)@,
                d,
                #[trigger] self@.output[d],
            ) by {
                assert(self@.output[d] == self.output_buff[d]@);
            }
        }
        &self.output_buff
    }

    /// Takes in one block per channel and computes the output blocks for it:
    /// `push_chunk` for the signal, sliding, and then `process`.
    pub fn process_block<
        F: Fn(&Vec<S>) -> Vec<C>,
        M: Fn(C, C, C) -> C,
        I: Fn(&Vec<C>) -> Vec<S>,
        X: Fn(S, S, usize, usize, usize) -> S,
    >(&mut self, block: &[Vec<S>], fft: &F, mac: &M, ifft: &I, mix: &X) -> (out: &Vec<Vec<S>>)
        requires
            old(self).wf(),
            forall|c: int|
                0 <= c < block.len() ==> (#[trigger] block[c]).len() == old(self)@.signal.block_size,
            transform_fits(
                fft,
                2 * old(self)@.signal.block_size,
                old(self)@.signal.block_size + 1,
            ),
            mac_total(mac),
            transform_fits(
                ifft,
                old(self)@.signal.block_size + 1,
                2 * old(self)@.signal.block_size,
            ),
            mix_total(mix),
        ensures
            final(self).wf(),
            shape_kept(old(self)@.signal, final(self)@.signal),
            final(self)@.filter == old(self)@.filter,
            final(self)@.outgoing == old(self)@.outgoing,
            final(self)@.loaded == old(self)@.loaded,
            final(self)@.zero == old(self)@.zero,
            !final(self)@.fading,
            forall|c: int|
                0 <= c < reached(block.len() as int, old(self)@.signal.channels)
                    ==> #[trigger] channel_pushed(
                    fft,
                    old(self)@.signal,
                    final(self)@.signal,
                    c,
                    block[c]@,
                    true,
                ),
            forall|c: int|
                reached(block.len() as int, old(self)@.signal.channels) <= c < old(self)@.signal.channels ==> #[trigger] channel_kept(
                    old(self)@.signal,
                    final(self)@.signal,
                    c,
                ),
            forall|c: int|
                0 <= c < old(self)@.signal.channels ==> block_output(
                    mac,
                    ifft,
                    mix,
                    UPConvView { signal: final(self)@.signal, ..old(self)@ },
                    c,
                    #[trigger] final(self)@.output[c],
                ),
            out.len() == old(self)@.signal.channels,
            forall|c: int| 0 <= c < out.len() ==> (#[trigger] out[c])@ == final(self)@.output[c],
    {
        self.push_chunk(FdlKey::Signal, block, true, fft);
        assert(self@ == (UPConvView { signal: self@.signal, ..old(self)@ }));
        self.process(mac, ifft, mix)
    }
}

/// Accumulating `a` times nothing onto nothing gives nothing, for every bin
/// `a` of `bins`: with `mac` for `sum + a * b`, `zero + a * zero` is `zero`.
pub open spec fn absorbs_right<C, M: Fn(C, C, C) -> C>(mac: &M, zero: C, bins: Seq<C>) -> bool {
    forall|i: int, r: C|
        0 <= i < bins.len() && #[trigger] mac.ensures((zero, bins[i], zero), r) ==> r == zero
}

/// Accumulating nothing times `b` onto nothing gives nothing, for every bin
/// `b` of `bins`: `zero + zero * b` is `zero`.
pub open spec fn absorbs_left<C, M: Fn(C, C, C) -> C>(mac: &M, zero: C, bins: Seq<C>) -> bool {
    forall|i: int, r: C|
        0 <= i < bins.len() && #[trigger] mac.ensures((zero, zero, bins[i]), r) ==> r == zero
}

/// The transform back of `bins` zeros is `2 * (bins - 1)` times silence.
pub open spec fn zeros_to_silence<S, C, I: Fn(&Vec<C>) -> Vec<S>>(
    ifft: &I,
    zero: C,
    silence: S,
) -> bool {
    forall|x: &Vec<C>, y: Vec<S>| all_are(x@, zero) && #[trigger] ifft.ensures((x,), y) ==> all_are(y@, silence)
}

/// A crossfade of silence and silence is silence.
pub open spec fn mixes_silence<S, X: Fn(S, S, usize, usize, usize) -> S>(mix: &X, silence: S) -> bool {
    forall|out_weight: usize, in_weight: usize, size: usize, r: S| #[trigger]
        mix.ensures((silence, silence, out_weight, in_weight, size), r) ==> r == silence
}

/// With nothing entering yet, a crossfade gives what is leaving.
pub open spec fn starts_with_leaving<S, X: Fn(S, S, usize, usize, usize) -> S>(mix: &X) -> bool {
    forall|leaving: S, entering: S, size: usize, r: S| #[trigger]
        mix.ensures((leaving, entering, size, 0, size), r) ==> r == leaving
}

/// Where one of the two factors is nothing in every block, what is
/// accumulated from nothing is nothing.
pub proof fn lemma_accumulates_nothing<C, M: Fn(C, C, C) -> C>(
    mac: &M,
    zero: C,
    a: Seq<C>,
    b: Seq<C>,
    width: int,
    k: int,
    n: int,
    end: C,
)
    requires
        0 <= k < width,
        0 <= n,
        a.len() == width * n,
        b.len() == width * n,
        accumulates(mac, a, b, width, k, n, zero, end),
        (all_are(b, zero) && absorbs_right(mac, zero, a)) || (all_are(a, zero) && absorbs_left(
            mac,
            zero,
            b,
        )),
    ensures
        end == zero,
{
    let sums = choose|sums: Seq<C>| #[trigger]
        running_sums(mac, a, b, width, k, n, sums) && sums[0] == zero && sums[n] == end;
    lemma_sums_nothing(mac, zero, a, b, width, k, n, sums, n);
}

/// The running sums of such an accumulation are nothing throughout.
proof fn lemma_sums_nothing<C, M: Fn(C, C, C) -> C>(
    mac: &M,
    zero: C,
    a: Seq<C>,
    b: Seq<C>,
    width: int,
    k: int,
    n: int,
    sums: Seq<C>,
    j: int,
)
    requires
        0 <= k < width,
        0 <= j <= n,
        a.len() == width * n,
        b.len() == width * n,
        running_sums(mac, a, b, width, k, n, sums),
        sums[0] == zero,
        (all_are(b, zero) && absorbs_right(mac, zero, a)) || (all_are(a, zero) && absorbs_left(
            mac,
            zero,
            b,
        )),
    ensures
        sums[j] == zero,
    decreases j,
{
    if j > 0 {
        lemma_sums_nothing(mac, zero, a, b, width, k, n, sums, j - 1);
        crate::fdl::lemma_bin_index(width, n, j - 1, k);
        let at = (j - 1) * width + k;
        assert(at < a.len()) by (nonlinear_arith)
            requires
                at < n * width,
                a.len() == width * n,
        ;
        assert(mac.ensures((sums[j - 1], a[at], b[at]), sums[j - 1 + 1]));
    }
}

/// A convolution with nothing gives silence: where the filter's spectra or
/// the signal's spectra are nothing, and the arithmetic treats nothing as
/// nothing, the block that a convolution gives is silence.
pub proof fn lemma_convolved_silence<S, C, M: Fn(C, C, C) -> C, I: Fn(&Vec<C>) -> Vec<S>>(
    mac: &M,
    ifft: &I,
    zero: C,
    silence: S,
    signal: Seq<C>,
    filter: Seq<C>,
    block_size: int,
    num_blocks: int,
    out: Seq<S>,
)
    requires
        0 <= block_size,
        0 <= num_blocks,
        signal.len() == (block_size + 1) * num_blocks,
        filter.len() == (block_size + 1) * num_blocks,
        convolved(mac, ifft, zero, signal, filter, block_size, num_blocks, out),
        (all_are(filter, zero) && absorbs_right(mac, zero, signal)) || (all_are(signal, zero)
            && absorbs_left(mac, zero, filter)),
        zeros_to_silence(ifft, zero, silence),
    ensures
        out == Seq::new(block_size as nat, |i: int| silence),
{
    let (acc, time) = choose|acc: Seq<C>, time: Seq<S>|
        #![trigger maps_to(ifft, acc, time)]
        {
            &&& acc.len() == block_size + 1
            &&& time.len() == 2 * block_size
            &&& forall|k: int|
                0 <= k < block_size + 1 ==> accumulates(
                    mac,
                    signal,
                    filter,
                    block_size + 1,
                    k,
                    num_blocks,
                    zero,
                    #[trigger] acc[k],
                )
            &&& maps_to(ifft, acc, time)
            &&& out == time.skip(block_size)
        };
    assert forall|k: int| 0 <= k < acc.len() implies #[trigger] acc[k] == zero by {
        lemma_accumulates_nothing(
            mac,
            zero,
            signal,
            filter,
            block_size + 1,
            k,
            num_blocks,
            acc[k],
        );
    }
    let (x, y) = choose|x: Vec<C>, y: Vec<S>| x@ == acc && y@ == time && #[trigger] ifft.ensures((&x,), y);
    assert(all_are(x@, zero));
    assert(ifft.ensures((&x,), y));
    assert(all_are(y@, silence));
    assert(out =~= Seq::new(block_size as nat, |i: int| silence)) by {
        assert forall|i: int| 0 <= i < block_size implies out[i] == silence by {
            assert(out[i] == time[block_size + i]);
        }
    }
}

/// A filter of nothing gives silence, whatever the signal: where the
/// installed filter of a channel, and the outgoing one while it fades, hold
/// nothing, the channel's output block is silence.
pub proof fn lemma_zero_filter_silence<
    S,
    C,
    M: Fn(C, C, C) -> C,
    I: Fn(&Vec<C>) -> Vec<S>,
    X: Fn(S, S, usize, usize, usize) -> S,
>(mac: &M, ifft: &I, mix: &X, v: UPConvView<S, C>, c: int, out: Seq<S>)
    requires
        conv_wf(v),
        0 <= c < v.signal.channels,
        block_output(mac, ifft, mix, v, c, out),
        all_are(v.filter.spectra[c], v.zero),
        v.fading ==> all_are(v.outgoing[c], v.zero),
        absorbs_right(mac, v.zero, v.signal.spectra[c]),
        zeros_to_silence(ifft, v.zero, v.signal.silence),
        mixes_silence(mix, v.signal.silence),
    ensures
        out == Seq::new(v.signal.block_size as nat, |i: int| v.signal.silence),
{
    let b = v.signal.block_size;
    let n = v.signal.num_blocks;
    let silence = v.signal.silence;
    if v.fading {
        let (leaving, entering) = choose|leaving: Seq<S>, entering: Seq<S>|
            #![trigger crossfaded(mix, leaving, entering, out)]
            {
                &&& convolved(mac, ifft, v.zero, v.signal.spectra[c], v.outgoing[c], b, n, leaving)
                &&& convolved(
                    mac,
                    ifft,
                    v.zero,
                    v.signal.spectra[c],
                    v.filter.spectra[c],
                    b,
                    n,
                    entering,
                )
                &&& crossfaded(mix, leaving, entering, out)
            };
        lemma_convolved_silence(
            mac,
            ifft,
            v.zero,
            silence,
            v.signal.spectra[c],
            v.outgoing[c],
            b,
            n,
            leaving,
        );
        lemma_convolved_silence(
            mac,
            ifft,
            v.zero,
            silence,
            v.signal.spectra[c],
            v.filter.spectra[c],
            b,
            n,
            entering,
        );
        assert(out =~= Seq::new(b as nat, |i: int| silence));
    } else {
        lemma_convolved_silence(
            mac,
            ifft,
            v.zero,
            silence,
            v.signal.spectra[c],
            v.filter.spectra[c],
            b,
            n,
            out,
        );
    }
}

/// A signal of nothing gives silence, whatever the filter: where the spectra
/// of a channel's signal hold nothing, which they do once silence has passed
/// through all of its taps, the channel's output block is silence.
pub proof fn lemma_zero_signal_silence<
    S,
    C,
    M: Fn(C, C, C) -> C,
    I: Fn(&Vec<C>) -> Vec<S>,
    X: Fn(S, S, usize, usize, usize) -> S,
>(mac: &M, ifft: &I, mix: &X, v: UPConvView<S, C>, c: int, out: Seq<S>)
    requires
        conv_wf(v),
        0 <= c < v.signal.channels,
        block_output(mac, ifft, mix, v, c, out),
        all_are(v.signal.spectra[c], v.zero),
        absorbs_left(mac, v.zero, v.filter.spectra[c]),
        v.fading ==> absorbs_left(mac, v.zero, v.outgoing[c]),
        zeros_to_silence(ifft, v.zero, v.signal.silence),
        mixes_silence(mix, v.signal.silence),
    ensures
        out == Seq::new(v.signal.block_size as nat, |i: int| v.signal.silence),
{
    let b = v.signal.block_size;
    let n = v.signal.num_blocks;
    let silence = v.signal.silence;
    if v.fading {
        let (leaving, entering) = choose|leaving: Seq<S>, entering: Seq<S>|
            #![trigger crossfaded(mix, leaving, entering, out)]
            {
                &&& convolved(mac, ifft, v.zero, v.signal.spectra[c], v.outgoing[c], b, n, leaving)
                &&& convolved(
                    mac,
                    ifft,
                    v.zero,
                    v.signal.spectra[c],
                    v.filter.spectra[c],
                    b,
                    n,
                    entering,
                )
                &&& crossfaded(mix, leaving, entering, out)
            };
        lemma_convolved_silence(
            mac,
            ifft,
            v.zero,
            silence,
            v.signal.spectra[c],
            v.outgoing[c],
            b,
            n,
            leaving,
        );
        lemma_convolved_silence(
            mac,
            ifft,
            v.zero,
            silence,
            v.signal.spectra[c],
            v.filter.spectra[c],
            b,
            n,
            entering,
        );
        assert(out =~= Seq::new(b as nat, |i: int| silence));
    } else {
        lemma_convolved_silence(
            mac,
            ifft,
            v.zero,
            silence,
            v.signal.spectra[c],
            v.filter.spectra[c],
            b,
            n,
            out,
        );
    }
}

/// A replaced filter is left without a jump: the first sample of the block
/// that fades from the outgoing filter to the new one is the sample that the
/// outgoing filter alone gives, where a crossfade with nothing entering yet
/// gives what is leaving.
pub proof fn lemma_fade_starts_with_leaving<S, X: Fn(S, S, usize, usize, usize) -> S>(
    mix: &X,
    leaving: Seq<S>,
    entering: Seq<S>,
    out: Seq<S>,
)
    requires
        crossfaded(mix, leaving, entering, out),
        0 < out.len() <= usize::MAX,
        starts_with_leaving(mix),
    ensures
        out[0] == leaving[0],
{
    assert(mix.ensures(
        (leaving[0], entering[0], (out.len() - 0) as usize, 0int as usize, out.len() as usize),
        out[0],
    ));
}

} // verus!
