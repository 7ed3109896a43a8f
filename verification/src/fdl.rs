//! The frequency-domain delay line: for each channel, the spectra of the most
//! recent blocks of a signal, newest first.

use crate::buffers::{copy_range, fill, filled, shift_in, slide_in, write_at};
use crate::kernel::{
    accumulates, all_are, lemma_running_sums_step, mac_total, maps_to, running_sums,
    transform_fits,
};
use vstd::prelude::*;

verus! {

/// A delay line of `num_blocks` spectra per channel. A spectrum has
/// `block_size + 1` bins and is the transform of a window of `2 * block_size`
/// samples, which the delay line keeps per channel as well.
pub struct Fdl<S, C> {
    buffer: Vec<Vec<C>>,
    input_buff: Vec<Vec<S>>,
    block_size: usize,
    num_blocks: usize,
    channels: usize,
    silence: S,
}

/// What a delay line holds.
pub ghost struct FdlView<S, C> {
    /// Samples per block.
    pub block_size: int,
    /// Spectra per channel.
    pub num_blocks: int,
    /// Number of channels.
    pub channels: int,
    /// Per channel, the spectra back to back, the newest first.
    pub spectra: Seq<Seq<C>>,
    /// Per channel, the window of samples that was transformed last.
    pub windows: Seq<Seq<S>>,
    /// The sample that stands for silence.
    pub silence: S,
}

/// The window that follows `window` when `block` is pushed: in sliding mode
/// the newer half moves to the front and the block follows it; else the block
/// is followed by silence.
pub open spec fn pushed_window<S>(window: Seq<S>, block: Seq<S>, sliding: bool, silence: S) -> Seq<
    S,
> {
    if sliding {
        window.skip(block.len() as int) + block
    } else {
        block + Seq::new(block.len(), |i: int| silence)
    }
}

/// Channel `c` holds in `after` what a push of `block` makes of what it held
/// in `before`: the window has taken the block in, block 0 of the spectra is
/// a transform of that window, and the blocks behind it are the blocks that
/// were there, but for the oldest.
pub open spec fn channel_pushed<S, C, F: Fn(&Vec<S>) -> Vec<C>>(
    fft: &F,
    before: FdlView<S, C>,
    after: FdlView<S, C>,
    c: int,
    block: Seq<S>,
    sliding: bool,
) -> bool {
    let width = before.block_size + 1;
    &&& after.windows[c] == pushed_window(before.windows[c], block, sliding, before.silence)
    &&& maps_to(fft, after.windows[c], after.spectra[c].take(width))
    &&& after.spectra[c].skip(width) == before.spectra[c].take(width * before.num_blocks - width)
}

/// Channel `c` holds in `after` what it held in `before`.
pub open spec fn channel_kept<S, C>(before: FdlView<S, C>, after: FdlView<S, C>, c: int) -> bool {
    after.windows[c] == before.windows[c] && after.spectra[c] == before.spectra[c]
}

/// `after` has the sizes and the silence of `before`.
pub open spec fn shape_kept<S, C>(before: FdlView<S, C>, after: FdlView<S, C>) -> bool {
    &&& after.block_size == before.block_size
    &&& after.num_blocks == before.num_blocks
    &&& after.channels == before.channels
    &&& after.silence == before.silence
}

/// The position of bin `k` of block `j` lies within `n` blocks of `width` bins.
pub proof fn lemma_bin_index(width: int, n: int, j: int, k: int)
    requires
        0 <= j < n,
        0 <= k < width,
    ensures
        0 <= j * width + k < n * width,
        (j + 1) * width == j * width + width,
        (j + 1) * width <= n * width,
{
    assert(j * width >= 0 && (j + 1) * width == j * width + width && (j + 1) * width <= n * width)
        by (nonlinear_arith)
        requires
            0 <= j < n,
            0 < width,
    ;
}

impl<S, C> View for Fdl<S, C> {
    type V = FdlView<S, C>;

    closed spec fn view(&self) -> FdlView<S, C> {
        FdlView {
            block_size: self.block_size as int,
            num_blocks: self.num_blocks as int,
            channels: self.channels as int,
            spectra: Seq::new(self.buffer.len() as nat, |c: int| self.buffer[c]@),
            windows: Seq::new(self.input_buff.len() as nat, |c: int| self.input_buff[c]@),
            silence: self.silence,
        }
    }
}

/// Every channel has its window and its spectra, of the sizes that the block
/// size and the number of blocks give, and these can be addressed.
pub open spec fn view_wf<S, C>(v: FdlView<S, C>) -> bool {
    &&& 0 <= v.block_size
    &&& 0 <= v.num_blocks
    &&& 0 <= v.channels
    &&& 2 * v.block_size <= usize::MAX
    &&& (v.block_size + 1) * v.num_blocks <= usize::MAX
    &&& v.spectra.len() == v.channels
    &&& v.windows.len() == v.channels
    &&& forall|c: int|
        0 <= c < v.channels ==> (#[trigger] v.spectra[c]).len() == (v.block_size + 1) * v.num_blocks
    &&& forall|c: int| 0 <= c < v.channels ==> (#[trigger] v.windows[c]).len() == 2 * v.block_size
}

impl<S: Copy, C: Copy> Fdl<S, C> {
    /// The delay line holds what its sizes call for.
    pub open spec fn wf(&self) -> bool {
        view_wf(self@)
    }

    /// Two delay lines have the same block size and number of blocks.
    pub open spec fn same_shape(&self, other: &Self) -> bool {
        self@.block_size == other@.block_size && self@.num_blocks == other@.num_blocks
    }

    /// A delay line whose windows hold `silence` and whose spectra hold `zero`.
    pub fn new(block_size: usize, num_blocks: usize, channels: usize, silence: S, zero: C) -> (fdl:
        Self)
        requires
            2 * block_size <= usize::MAX,
            (block_size + 1) * num_blocks <= usize::MAX,
        ensures
            fdl.wf(),
            fdl@.block_size == block_size,
            fdl@.num_blocks == num_blocks,
            fdl@.channels == channels,
            fdl@.silence == silence,
            forall|c: int|
                0 <= c < channels ==> #[trigger] fdl@.spectra[c] == Seq::new(
                    ((block_size + 1) * num_blocks) as nat,
                    |i: int| zero,
                ),
            forall|c: int|
                0 <= c < channels ==> #[trigger] fdl@.windows[c] == Seq::new(
                    (2 * block_size) as nat,
                    |i: int| silence,
                ),
    {
        let stride: usize = (block_size + 1) * num_blocks;
        let mut buffer: Vec<Vec<C>> = Vec::new();
        let mut input_buff: Vec<Vec<S>> = Vec::new();
        let mut c: usize = 0;
        while c < channels
            invariant
                0 <= c <= channels,
                buffer.len() == c,
                input_buff.len() == c,
                stride == (block_size + 1) * num_blocks,
                2 * block_size <= usize::MAX,
                forall|d: int|
                    0 <= d < c ==> (#[trigger] buffer[d])@ == Seq::new(stride as nat, |i: int| zero),
                forall|d: int|
                    0 <= d < c ==> (#[trigger] input_buff[d])@ == Seq::new(
                        (2 * block_size) as nat,
                        |i: int| silence,
                    ),
            decreases channels - c,
        {
            buffer.push(filled(stride, zero));
            input_buff.push(filled(2 * block_size, silence));
            c += 1;
        }
        let fdl = Fdl { buffer, input_buff, block_size, num_blocks, channels, silence };
        assert forall|d: int| 0 <= d < channels implies #[trigger] fdl@.spectra[d] == Seq::new(
            ((block_size + 1) * num_blocks) as nat,
            |i: int| zero,
        ) by {
            assert(fdl@.spectra[d] == fdl.buffer[d]@);
        }
        assert forall|d: int| 0 <= d < channels implies #[trigger] fdl@.windows[d] == Seq::new(
            (2 * block_size) as nat,
            |i: int| silence,
        ) by {
            assert(fdl@.windows[d] == fdl.input_buff[d]@);
        }
        fdl
    }

    /// Samples per block.
    pub fn block_size(&self) -> (r: usize)
        ensures
            r == self@.block_size,
    {
        self.block_size
    }

    /// Spectra per channel.
    pub fn num_blocks(&self) -> (r: usize)
        ensures
            r == self@.num_blocks,
    {
        self.num_blocks
    }

    /// Number of channels.
    pub fn channels(&self) -> (r: usize)
        ensures
            r == self@.channels,
    {
        self.channels
    }

    /// Replaces all spectra by `new_buffer`, which holds them channel after
    /// channel. The windows stay as they are.
    pub fn set_buffer(&mut self, new_buffer: &[C])
        requires
            old(self).wf(),
            new_buffer.len() == old(self)@.channels * ((old(self)@.block_size + 1) * old(self)@.num_blocks),
        ensures
            final(self).wf(),
            final(self)@.block_size == old(self)@.block_size,
            final(self)@.num_blocks == old(self)@.num_blocks,
            final(self)@.channels == old(self)@.channels,
            final(self)@.silence == old(self)@.silence,
            final(self)@.windows == old(self)@.windows,
            forall|c: int|
                0 <= c < old(self)@.channels ==> #[trigger] final(self)@.spectra[c]
                    == new_buffer@.subrange(
                    c * ((old(self)@.block_size + 1) * old(self)@.num_blocks),
                    (c + 1) * ((old(self)@.block_size + 1) * old(self)@.num_blocks),
                ),
    {
        let stride: usize = (self.block_size + 1) * self.num_blocks;
        let channels: usize = self.channels;
        let mut base: usize = 0;
        let mut c: usize = 0;
        while c < channels
            invariant
                0 <= c <= channels,
                channels == self.channels,
                self.buffer.len() == channels,
                stride == (self.block_size + 1) * self.num_blocks,
                new_buffer.len() == channels * stride,
                base == c * stride,
                self.block_size == old(self).block_size,
                self.num_blocks == old(self).num_blocks,
                self.channels == old(self).channels,
                self.silence == old(self).silence,
                self.input_buff == old(self).input_buff,
                forall|d: int|
                    0 <= d < c ==> (#[trigger] self.buffer[d])@ == new_buffer@.subrange(
                        d * stride,
                        (d + 1) * stride,
                    ),
            decreases channels - c,
        {
            proof {
                assert((c + 1) * stride == c * stride + stride && (c + 1) * stride <= channels
                    * stride) by (nonlinear_arith)
                    requires
                        0 <= c < channels,
                        stride >= 0,
                ;
            }
            let row = copy_range(new_buffer, base, base + stride);
            self.buffer[c] = row;
            base = base + stride;
            c += 1;
        }
        assert(final(self)@.windows =~= old(self)@.windows);
        assert forall|d: int| 0 <= d < channels implies (#[trigger] self@.spectra[d]).len()
            == stride by {
            assert(self@.spectra[d] == self.buffer[d]@);
            assert((d + 1) * stride == d * stride + stride && (d + 1) * stride <= channels * stride
                && d * stride >= 0) by (nonlinear_arith)
                requires
                    0 <= d < channels,
                    stride >= 0,
            ;
        }
        assert forall|d: int| 0 <= d < channels implies #[trigger] self@.spectra[d]
            == new_buffer@.subrange(d * stride, (d + 1) * stride) by {
            assert(self@.spectra[d] == self.buffer[d]@);
        }
    }

    /// Pushes one block of samples for `channel`: the channel's window takes
    /// the block in, the window is transformed, the channel's spectra move one
    /// block older, the oldest leaves, and the new spectrum becomes block 0.
    pub fn push_block<F: Fn(&Vec<S>) -> Vec<C>>(
        &mut self,
        block: &[S],
        fft: &F,
        sliding: bool,
        channel: usize,
    )
        requires
            old(self).wf(),
            old(self)@.num_blocks >= 1,
            block.len() == old(self)@.block_size,
            channel < old(self)@.channels,
            transform_fits(fft, 2 * old(self)@.block_size, old(self)@.block_size + 1),
        ensures
            final(self).wf(),
            shape_kept(old(self)@, final(self)@),
            channel_pushed(fft, old(self)@, final(self)@, channel as int, block@, sliding),
            forall|c: int|
                0 <= c < old(self)@.channels && c != channel ==> #[trigger] channel_kept(
                    old(self)@,
                    final(self)@,
                    c,
                ),
    {
        let ghost width = self.block_size + 1;
        let ghost stride = (self.block_size + 1) * self.num_blocks;
        proof {
            assert(old(self)@.spectra[channel as int] == self.buffer[channel as int]@);
            assert(old(self)@.windows[channel as int] == self.input_buff[channel as int]@);
            lemma_bin_index(width, self.num_blocks as int, 0, 0);
        }
        if sliding {
            slide_in(&mut self.input_buff[channel], block);
        } else {
            let silence = self.silence;
            fill(&mut self.input_buff[channel], silence);
            write_at(&mut self.input_buff[channel], 0, block);
            assert(self.input_buff[channel as int]@ =~= pushed_window(
                old(self)@.windows[channel as int],
                block@,
                sliding,
                old(self)@.silence,
            ));
        }
        let spectrum = fft(&self.input_buff[channel]);
        shift_in(&mut self.buffer[channel], spectrum.as_slice());
        proof {
            let row = self.buffer[channel as int]@;
            assert(self@.spectra[channel as int] == row);
            assert(self@.windows[channel as int] == self.input_buff[channel as int]@);
            assert(row.take(width) =~= spectrum@);
            assert(row.skip(width) =~= old(self)@.spectra[channel as int].take(stride - width));
            assert(width * self.num_blocks == stride) by (nonlinear_arith)
                requires
                    width == self.block_size + 1,
                    stride == (self.block_size + 1) * self.num_blocks,
            ;
            assert forall|c: int| 0 <= c < self.channels implies (#[trigger] self@.spectra[c]).len()
                == stride by {
                assert(self@.spectra[c] == self.buffer[c]@);
                assert(old(self)@.spectra[c] == old(self).buffer[c]@);
            }
            assert forall|c: int| 0 <= c < self.channels implies (#[trigger] self@.windows[c]).len()
                == 2 * self.block_size by {
                assert(self@.windows[c] == self.input_buff[c]@);
                assert(old(self)@.windows[c] == old(self).input_buff[c]@);
            }
            assert forall|c: int| 0 <= c < self.channels && c != channel implies #[trigger] channel_kept(
                old(self)@,
                self@,
                c,
            ) by {
                assert(self@.spectra[c] == self.buffer[c]@);
                assert(old(self)@.spectra[c] == old(self).buffer[c]@);
                assert(self@.windows[c] == self.input_buff[c]@);
                assert(old(self)@.windows[c] == old(self).input_buff[c]@);
            }
        }
    }

    /// Takes over the spectra of `other`; the windows stay as they are.
    pub fn copy_spectra_from(&mut self, other: &Self)
        requires
            old(self).wf(),
            other.wf(),
            old(self).same_shape(other),
            old(self)@.channels == other@.channels,
        ensures
            final(self).wf(),
            shape_kept(old(self)@, final(self)@),
            final(self)@.windows == old(self)@.windows,
            final(self)@.spectra == other@.spectra,
    {
        let channels: usize = self.channels;
        let mut c: usize = 0;
        proof {
            assert forall|d: int| 0 <= d < channels implies (#[trigger] self.buffer[d]).len()
                == other.buffer[d].len() by {
                assert(self@.spectra[d] == self.buffer[d]@);
                assert(other@.spectra[d] == other.buffer[d]@);
            }
        }
        while c < channels
            invariant
                0 <= c <= channels,
                channels == self.channels,
                other.wf(),
                other@.channels == channels,
                self.buffer.len() == channels,
                self.block_size == old(self).block_size,
                self.num_blocks == old(self).num_blocks,
                self.channels == old(self).channels,
                self.silence == old(self).silence,
                self.input_buff == old(self).input_buff,
                forall|d: int| 0 <= d < channels ==> (#[trigger] self.buffer[d]).len() == other.buffer[d].len(),
                forall|d: int| 0 <= d < c ==> (#[trigger] self.buffer[d])@ == other.buffer[d]@,
            decreases channels - c,
        {
            assert(other@.spectra[c as int] == other.buffer[c as int]@);
            write_at(&mut self.buffer[c], 0, other.buffer[c].as_slice());
            assert(self.buffer[c as int]@ =~= other.buffer[c as int]@);
            c += 1;
        }
        assert(final(self)@.windows =~= old(self)@.windows);
        assert(final(self)@.spectra =~= other@.spectra);
    }

    /// The spectra of `channel`, back to back, the newest first.
    pub fn get_channel(&self, channel: usize) -> (spectra: &[C])
        requires
            self.wf(),
            channel < self@.channels,
        ensures
            spectra@ == self@.spectra[channel as int],
    {
        self.buffer[channel].as_slice()
    }

    /// Accumulates onto `accum_buff`, bin by bin, the products of the spectra
    /// of `channel` in this delay line and in `other`, block by block from the
    /// newest. Bins that `accum_buff` does not have are left out, and elements
    /// of `accum_buff` beyond a spectrum's width stay as they are.
    pub fn mul_blocks<M: Fn(C, C, C) -> C>(
        &self,
        other: &Self,
        accum_buff: &mut Vec<C>,
        channel: usize,
        mac: &M,
    )
        requires
            self.wf(),
            other.wf(),
            self.same_shape(other),
            channel < self@.channels,
            channel < other@.channels,
            mac_total(mac),
        ensures
            final(accum_buff).len() == old(accum_buff).len(),
            forall|k: int|
                0 <= k < old(accum_buff).len() && k < self@.block_size + 1 ==> accumulates(
                    mac,
                    self@.spectra[channel as int],
                    other@.spectra[channel as int],
                    self@.block_size + 1,
                    k,
                    self@.num_blocks,
                    old(accum_buff)[k],
                    #[trigger] final(accum_buff)[k],
                ),
            forall|k: int|
                self@.block_size + 1 <= k < old(accum_buff).len() ==> final(accum_buff)[k] == old(accum_buff)[k],
    {
        let width: usize = self.block_size + 1;
        let blocks: usize = self.num_blocks;
        let bins: usize = if accum_buff.len() < width {
            accum_buff.len()
        } else {
            width
        };
        let mine = self.buffer[channel].as_slice();
        let theirs = other.buffer[channel].as_slice();
        proof {
            assert(self@.spectra[channel as int] == mine@);
            assert(other@.spectra[channel as int] == theirs@);
        }
        let ghost mut chains: Seq<Seq<C>> = Seq::new(bins as nat, |k: int| seq![old(accum_buff)[k]]);
        let mut base: usize = 0;
        let mut j: usize = 0;
        while j < blocks
            invariant
                0 <= j <= blocks,
                width >= 1,
                bins <= width,
                bins <= accum_buff.len(),
                accum_buff.len() == old(accum_buff).len(),
                mine.len() == width * blocks,
                theirs.len() == width * blocks,
                base == j * width,
                mac_total(mac),
                chains.len() == bins,
                forall|k: int|
                    0 <= k < bins ==> running_sums(mac, mine@, theirs@, width as int, k, j as int, #[trigger] chains[k]),
                forall|k: int| 0 <= k < bins ==> (#[trigger] chains[k])[0] == old(accum_buff)[k],
                forall|k: int| 0 <= k < bins ==> (#[trigger] chains[k])[j as int] == accum_buff[k],
                forall|k: int| bins <= k < accum_buff.len() ==> accum_buff[k] == old(accum_buff)[k],
            decreases blocks - j,
        {
            let ghost before = chains;
            let mut k: usize = 0;
            while k < bins
                invariant
                    0 <= k <= bins,
                    0 <= j < blocks,
                    width >= 1,
                    bins <= width,
                    bins <= accum_buff.len(),
                    accum_buff.len() == old(accum_buff).len(),
                    mine.len() == width * blocks,
                    theirs.len() == width * blocks,
                    base == j * width,
                    mac_total(mac),
                    chains.len() == bins,
                    before.len() == bins,
                    forall|m: int|
                        0 <= m < k ==> running_sums(
                            mac,
                            mine@,
                            theirs@,
                            width as int,
                            m,
                            j + 1,
                            #[trigger] chains[m],
                        ),
                    forall|m: int| 0 <= m < k ==> (#[trigger] chains[m])[j + 1] == accum_buff[m],
                    forall|m: int| k <= m < bins ==> #[trigger] chains[m] == before[m],
                    forall|m: int|
                        k <= m < bins ==> running_sums(
                            mac,
                            mine@,
                            theirs@,
                            width as int,
                            m,
                            j as int,
                            #[trigger] before[m],
                        ),
                    forall|m: int| k <= m < bins ==> (#[trigger] before[m])[j as int] == accum_buff[m],
                    forall|m: int| 0 <= m < bins ==> (#[trigger] chains[m])[0] == old(accum_buff)[m],
                    forall|m: int|
                        bins <= m < accum_buff.len() ==> accum_buff[m] == old(accum_buff)[m],
                decreases bins - k,
            {
                proof {
                    lemma_bin_index(width as int, blocks as int, j as int, k as int);
                }
                let sum = mac(accum_buff[k], mine[base + k], theirs[base + k]);
                proof {
                    assert(chains[k as int] == before[k as int]);
                    lemma_running_sums_step(
                        mac,
                        mine@,
                        theirs@,
                        width as int,
                        k as int,
                        j as int,
                        before[k as int],
                        sum,
                    );
                    chains = chains.update(k as int, before[k as int].push(sum));
                }
                accum_buff[k] = sum;
                k += 1;
            }
            proof {
                lemma_bin_index(width as int, blocks as int, j as int, 0);
            }
            base = base + width;
            j += 1;
        }
        assert forall|k: int|
            0 <= k < old(accum_buff).len() && k < self@.block_size + 1 implies accumulates(
            mac,
            self@.spectra[channel as int],
            other@.spectra[channel as int],
            self@.block_size + 1,
            k,
            self@.num_blocks,
            old(accum_buff)[k],
            #[trigger] accum_buff[k],
        ) by {
            assert(running_sums(mac, mine@, theirs@, width as int, k, blocks as int, chains[k]));
        }
    }
}

/// The transform of silence is nothing.
pub open spec fn silence_to_zeros<S, C, F: Fn(&Vec<S>) -> Vec<C>>(
    fft: &F,
    silence: S,
    zero: C,
) -> bool {
    forall|x: &Vec<S>, y: Vec<C>|
        all_are(x@, silence) && #[trigger] fft.ensures((x,), y) ==> all_are(y@, zero)
}

/// A window whose newer half is silent is silent after a sliding push of a
/// silent block: two silent blocks in a row leave a silent window.
pub proof fn lemma_window_falls_silent<S>(window: Seq<S>, block: Seq<S>, silence: S)
    requires
        block.len() <= window.len(),
        all_are(window.skip(block.len() as int), silence),
        all_are(block, silence),
    ensures
        all_are(pushed_window(window, block, true, silence), silence),
{
    let after = pushed_window(window, block, true, silence);
    let rest = window.skip(block.len() as int);
    assert forall|i: int| 0 <= i < after.len() implies #[trigger] after[i] == silence by {
        if i < rest.len() {
            assert(after[i] == rest[i]);
        } else {
            assert(after[i] == block[i - rest.len()]);
        }
    }
}

/// Silence spreads through a delay line one tap with every push: where the
/// window that was pushed is silent, the transform of silence is nothing, and
/// the `m` newest taps of the channel held nothing before, its `m + 1` newest
/// taps hold nothing after. So after as many silent pushes as there are taps,
/// the channel holds nothing at all.
pub proof fn lemma_silence_spreads<S, C, F: Fn(&Vec<S>) -> Vec<C>>(
    fft: &F,
    before: FdlView<S, C>,
    after: FdlView<S, C>,
    c: int,
    block: Seq<S>,
    sliding: bool,
    zero: C,
    m: int,
)
    requires
        view_wf(before),
        view_wf(after),
        shape_kept(before, after),
        0 <= c < before.channels,
        0 <= m < before.num_blocks,
        channel_pushed(fft, before, after, c, block, sliding),
        all_are(after.windows[c], before.silence),
        silence_to_zeros(fft, before.silence, zero),
        all_are(before.spectra[c].take(m * (before.block_size + 1)), zero),
    ensures
        all_are(after.spectra[c].take((m + 1) * (before.block_size + 1)), zero),
{
    let width = before.block_size + 1;
    let n = before.num_blocks;
    let old_row = before.spectra[c];
    let row = after.spectra[c];
    assert(width * n == (before.block_size + 1) * n);
    assert(m * width >= 0 && (m + 1) * width == m * width + width && (m + 1) * width <= n * width
        && width * n == n * width) by (nonlinear_arith)
        requires
            0 <= m < n,
            width >= 1,
    ;
    let (x, y) = choose|x: Vec<S>, y: Vec<C>|
        x@ == after.windows[c] && y@ == row.take(width) && #[trigger] fft.ensures((&x,), y);
    assert(fft.ensures((&x,), y));
    assert(all_are(y@, zero));
    let head = row.take((m + 1) * width);
    assert forall|i: int| 0 <= i < head.len() implies #[trigger] head[i] == zero by {
        if i < width {
            assert(head[i] == row.take(width)[i]);
        } else {
            assert(head[i] == row.skip(width)[i - width]);
            assert(row.skip(width)[i - width] == old_row.take(width * n - width)[i - width]);
            assert(old_row.take(m * width)[i - width] == old_row[i - width]);
        }
    }
}

} // verus!
