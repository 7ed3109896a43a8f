//! Preparing a filter: cutting an impulse response into the chunks of a plan
//! and transforming each chunk into the spectrum that its partition expects.

use crate::buffers::{append, append_filled, filled};
use crate::kernel::{lemma_maps_to_one, maps_to, single_valued, transform_fits};
use crate::partition::{
    bins_before, check_partition, lemma_bin_factors, lemma_bins_before_grows,
    lemma_samples_before_grows, lemma_samples_within_bins, partition_bins, samples_before, usable,
    verdict, PlanError,
};
use crate::upconv::{buffer_set, conv_wf, line, FdlKey, UPConvView};
use vstd::prelude::*;

verus! {

/// The window that is transformed for the chunk of `ir` that starts at
/// `start`: the chunk's samples, as far as `ir` has them, then silence up to
/// twice the block size.
pub open spec fn padded_chunk<S>(ir: Seq<S>, start: int, block_size: int, silence: S) -> Seq<S> {
    Seq::new(
        (2 * block_size) as nat,
        |i: int|
            if i < block_size && start + i < ir.len() {
                ir[start + i]
            } else {
                silence
            },
    )
}

/// `bins` is what one tap may hold for the chunk of `ir` at `start`: a
/// transform of the padded chunk, or zeros where `ir` has ended before.
pub open spec fn tap_prepared<S, C, F: Fn(&Vec<S>) -> Vec<C>>(
    fft: &F,
    ir: Seq<S>,
    start: int,
    block_size: int,
    silence: S,
    zero: C,
    bins: Seq<C>,
) -> bool {
    if start < ir.len() {
        maps_to(fft, padded_chunk(ir, start, block_size, silence), bins)
    } else {
        bins == Seq::new((block_size + 1) as nat, |i: int| zero)
    }
}

/// Tap `t` of `row` is prepared for the chunk `t` blocks after `start`.
pub open spec fn tap_ok<S, C, F: Fn(&Vec<S>) -> Vec<C>>(
    fft: &F,
    ir: Seq<S>,
    start: int,
    block_size: int,
    silence: S,
    zero: C,
    row: Seq<C>,
    t: int,
) -> bool {
    tap_prepared(
        fft,
        ir,
        start + t * block_size,
        block_size,
        silence,
        zero,
        row.subrange(t * (block_size + 1), (t + 1) * (block_size + 1)),
    )
}

/// `row` holds the spectra of one channel for one partition: `taps` taps, the
/// chunk at `start` first.
pub open spec fn channel_prepared<S, C, F: Fn(&Vec<S>) -> Vec<C>>(
    fft: &F,
    ir: Seq<S>,
    start: int,
    block_size: int,
    taps: int,
    silence: S,
    zero: C,
    row: Seq<C>,
) -> bool {
    &&& row.len() == (block_size + 1) * taps
    &&& forall|t: int|
        0 <= t < taps ==> #[trigger] tap_ok(fft, ir, start, block_size, silence, zero, row, t)
}

/// Channel `c` of `part` is prepared from the response `irs[c]`.
pub open spec fn channel_ok<S, C, F: Fn(&Vec<S>) -> Vec<C>>(
    fft: &F,
    irs: Seq<Seq<S>>,
    start: int,
    block_size: int,
    taps: int,
    silence: S,
    zero: C,
    part: Seq<C>,
    c: int,
) -> bool {
    channel_prepared(
        fft,
        irs[c],
        start,
        block_size,
        taps,
        silence,
        zero,
        part.subrange(c * ((block_size + 1) * taps), (c + 1) * ((block_size + 1) * taps)),
    )
}

/// `part` holds the spectra of one partition, channel after channel.
pub open spec fn partition_prepared<S, C, F: Fn(&Vec<S>) -> Vec<C>>(
    fft: &F,
    irs: Seq<Seq<S>>,
    start: int,
    block_size: int,
    taps: int,
    silence: S,
    zero: C,
    part: Seq<C>,
) -> bool {
    &&& part.len() == irs.len() * ((block_size + 1) * taps)
    &&& forall|c: int|
        0 <= c < irs.len() ==> #[trigger] channel_ok(
            fft,
            irs,
            start,
            block_size,
            taps,
            silence,
            zero,
            part,
            c,
        )
}

/// Partition `p` of `out` is prepared from the samples that follow those of
/// the partitions before it.
pub open spec fn partition_ok<S, C, F: Fn(&Vec<S>) -> Vec<C>>(
    fft: &F,
    irs: Seq<Seq<S>>,
    plan: Seq<(usize, usize)>,
    silence: S,
    zero: C,
    out: Seq<C>,
    p: int,
) -> bool {
    partition_prepared(
        fft,
        irs,
        samples_before(plan, p),
        plan[p].0 as int,
        plan[p].1 as int,
        silence,
        zero,
        out.subrange(
            bins_before(plan, irs.len() as int, p),
            bins_before(plan, irs.len() as int, p + 1),
        ),
    )
}

/// `out` holds the filter spectra of a whole plan in the flat layout:
/// partition after partition, in each channel after channel, in each tap
/// after tap.
pub open spec fn prepared<S, C, F: Fn(&Vec<S>) -> Vec<C>>(
    fft: &F,
    irs: Seq<Seq<S>>,
    plan: Seq<(usize, usize)>,
    silence: S,
    zero: C,
    out: Seq<C>,
) -> bool {
    &&& out.len() == bins_before(plan, irs.len() as int, plan.len() as int)
    &&& forall|p: int|
        0 <= p < plan.len() ==> #[trigger] partition_ok(fft, irs, plan, silence, zero, out, p)
}

/// The transform `fft` fits every partition of `plan`.
pub open spec fn fits_plan<S, C, F: Fn(&Vec<S>) -> Vec<C>>(fft: &F, plan: Seq<(usize, usize)>) -> bool {
    forall|p: int|
        0 <= p < plan.len() ==> transform_fits(fft, 2 * (#[trigger] plan[p]).0, plan[p].0 + 1)
}

/// The views of the per-channel responses.
pub open spec fn responses<S>(filter: Seq<Vec<S>>) -> Seq<Seq<S>> {
    Seq::new(filter.len(), |c: int| filter[c]@)
}

/// Appends to `out` the spectrum of one tap.
fn prepare_tap<S: Copy, C: Copy, F: Fn(&Vec<S>) -> Vec<C>>(
    ir: &Vec<S>,
    start: usize,
    block_size: usize,
    silence: S,
    zero: C,
    fft: &F,
    out: &mut Vec<C>,
)
    requires
        2 * block_size <= usize::MAX,
        start + block_size <= usize::MAX,
        transform_fits(fft, 2 * block_size, block_size + 1),
    ensures
        final(out)@.len() == old(out)@.len() + block_size + 1,
        final(out)@.take(old(out)@.len() as int) == old(out)@,
        tap_prepared(
            fft,
            ir@,
            start as int,
            block_size as int,
            silence,
            zero,
            final(out)@.skip(old(out)@.len() as int),
        ),
{
    if start < ir.len() {
        let mut window = filled(2 * block_size, silence);
        let end: usize = if ir.len() - start < block_size {
            ir.len()
        } else {
            start + block_size
        };
        let mut i: usize = start;
        while i < end
            invariant
                start <= i <= end <= ir.len(),
                end <= start + block_size,
                window.len() == 2 * block_size,
                forall|j: int| 0 <= j < i - start ==> window[j] == ir[start + j],
                forall|j: int| i - start <= j < 2 * block_size ==> window[j] == silence,
            decreases end - i,
        {
            window[i - start] = ir[i];
            i += 1;
        }
        assert(window@ =~= padded_chunk(ir@, start as int, block_size as int, silence));
        let spectrum = fft(&window);
        append(out, spectrum.as_slice());
        assert(out@.take(old(out)@.len() as int) =~= old(out)@);
        assert(out@.skip(old(out)@.len() as int) =~= spectrum@);
    } else {
        append_filled(out, block_size + 1, zero);
        assert(out@.take(old(out)@.len() as int) =~= old(out)@);
        assert(out@.skip(old(out)@.len() as int) =~= Seq::new(
            (block_size + 1) as nat,
            |i: int| zero,
        ));
    }
}

/// Appends to `out` the spectra of one channel for one partition.
fn prepare_channel<S: Copy, C: Copy, F: Fn(&Vec<S>) -> Vec<C>>(
    ir: &Vec<S>,
    start: usize,
    block_size: usize,
    taps: usize,
    silence: S,
    zero: C,
    fft: &F,
    out: &mut Vec<C>,
)
    requires
        2 * block_size <= usize::MAX,
        start + block_size * taps <= usize::MAX,
        (block_size + 1) * taps <= usize::MAX,
        transform_fits(fft, 2 * block_size, block_size + 1),
    ensures
        final(out)@.len() == old(out)@.len() + (block_size + 1) * taps,
        final(out)@.take(old(out)@.len() as int) == old(out)@,
        channel_prepared(
            fft,
            ir@,
            start as int,
            block_size as int,
            taps as int,
            silence,
            zero,
            final(out)@.skip(old(out)@.len() as int),
        ),
{
    let ghost base = out@.len() as int;
    let ghost width = block_size + 1;
    let mut at: usize = start;
    let mut t: usize = 0;
    while t < taps
        invariant
            0 <= t <= taps,
            base == old(out)@.len(),
            width == block_size + 1,
            2 * block_size <= usize::MAX,
            start + block_size * taps <= usize::MAX,
            transform_fits(fft, 2 * block_size, block_size + 1),
            at == start + t * block_size,
            out@.len() == base + t * width,
            out@.take(base) == old(out)@,
            forall|u: int|
                0 <= u < t ==> #[trigger] tap_ok(
                    fft,
                    ir@,
                    start as int,
                    block_size as int,
                    silence,
                    zero,
                    out@.skip(base),
                    u,
                ),
        decreases taps - t,
    {
        let ghost before = out@;
        proof {
            assert((t + 1) * block_size == t * block_size + block_size && (t + 1) * block_size
                <= taps * block_size && block_size * taps == taps * block_size && (t + 1) * width
                == t * width + width && t * width >= 0) by (nonlinear_arith)
                requires
                    0 <= t < taps,
                    block_size >= 0,
                    width >= 0,
            ;
        }
        prepare_tap(ir, at, block_size, silence, zero, fft, out);
        proof {
            assert(out@.take(base) =~= before.take(base)) by {
                assert(out@.take(before.len() as int) == before);
            }
            assert forall|u: int| 0 <= u < t + 1 implies #[trigger] tap_ok(
                fft,
                ir@,
                start as int,
                block_size as int,
                silence,
                zero,
                out@.skip(base),
                u,
            ) by {
                let row = out@.skip(base);
                if u < t {
                    assert((u + 1) * width == u * width + width && (u + 1) * width <= t * width
                        && u * width >= 0) by (nonlinear_arith)
                        requires
                            0 <= u < t,
                            width >= 0,
                    ;
                    assert(tap_ok(
                        fft,
                        ir@,
                        start as int,
                        block_size as int,
                        silence,
                        zero,
                        before.skip(base),
                        u,
                    ));
                    assert(out@.take(before.len() as int) == before);
                    assert(row.subrange(u * width, (u + 1) * width) =~= before.skip(base).subrange(
                        u * width,
                        (u + 1) * width,
                    )) by {
                        assert forall|i: int| u * width <= i < (u + 1) * width implies row[i]
                            == before.skip(base)[i] by {
                            assert(out@.take(before.len() as int)[base + i] == out@[base + i]);
                        }
                    }
                } else {
                    assert(row.subrange(t * width, (t + 1) * width) =~= out@.skip(
                        before.len() as int,
                    ));
                }
            }
        }
        at = at + block_size;
        t += 1;
    }
    proof {
        assert(width * taps == (block_size + 1) * taps);
        assert(taps * width == width * taps) by (nonlinear_arith);
    }
}

/// Appends to `out` the spectra of one partition, channel after channel.
fn prepare_partition<S: Copy, C: Copy, F: Fn(&Vec<S>) -> Vec<C>>(
    filter: &[Vec<S>],
    start: usize,
    block_size: usize,
    taps: usize,
    silence: S,
    zero: C,
    fft: &F,
    out: &mut Vec<C>,
)
    requires
        2 * block_size <= usize::MAX,
        start + block_size * taps <= usize::MAX,
        (block_size + 1) * taps <= usize::MAX,
        transform_fits(fft, 2 * block_size, block_size + 1),
    ensures
        final(out)@.len() == old(out)@.len() + filter.len() * ((block_size + 1) * taps),
        final(out)@.take(old(out)@.len() as int) == old(out)@,
        partition_prepared(
            fft,
            responses(filter@),
            start as int,
            block_size as int,
            taps as int,
            silence,
            zero,
            final(out)@.skip(old(out)@.len() as int),
        ),
{
    let ghost base = out@.len() as int;
    let ghost stride = (block_size + 1) * taps;
    let ghost irs = responses(filter@);
    let channels: usize = filter.len();
    let mut c: usize = 0;
    while c < channels
        invariant
            0 <= c <= channels,
            channels == filter.len(),
            irs == responses(filter@),
            base == old(out)@.len(),
            stride == (block_size + 1) * taps,
            2 * block_size <= usize::MAX,
            start + block_size * taps <= usize::MAX,
            (block_size + 1) * taps <= usize::MAX,
            transform_fits(fft, 2 * block_size, block_size + 1),
            out@.len() == base + c * stride,
            out@.take(base) == old(out)@,
            forall|d: int|
                0 <= d < c ==> #[trigger] channel_ok(
                    fft,
                    irs,
                    start as int,
                    block_size as int,
                    taps as int,
                    silence,
                    zero,
                    out@.skip(base),
                    d,
                ),
        decreases channels - c,
    {
        let ghost before = out@;
        proof {
            assert((c + 1) * stride == c * stride + stride && c * stride >= 0) by (nonlinear_arith)
                requires
                    0 <= c,
                    stride >= 0,
            ;
        }
        prepare_channel(&filter[c], start, block_size, taps, silence, zero, fft, out);
        proof {
            assert(out@.take(base) =~= before.take(base)) by {
                assert(out@.take(before.len() as int) == before);
            }
            assert forall|d: int| 0 <= d < c + 1 implies #[trigger] channel_ok(
                fft,
                irs,
                start as int,
                block_size as int,
                taps as int,
                silence,
                zero,
                out@.skip(base),
                d,
            ) by {
                let part = out@.skip(base);
                if d < c {
                    assert((d + 1) * stride == d * stride + stride && (d + 1) * stride <= c
                        * stride && d * stride >= 0) by (nonlinear_arith)
                        requires
                            0 <= d < c,
                            stride >= 0,
                    ;
                    assert(channel_ok(
                        fft,
                        irs,
                        start as int,
                        block_size as int,
                        taps as int,
                        silence,
                        zero,
                        before.skip(base),
                        d,
                    ));
                    assert(out@.take(before.len() as int) == before);
                    assert(part.subrange(d * stride, (d + 1) * stride) =~= before.skip(
                        base,
                    ).subrange(d * stride, (d + 1) * stride)) by {
                        assert forall|i: int| d * stride <= i < (d + 1) * stride implies part[i]
                            == before.skip(base)[i] by {
                            assert(out@.take(before.len() as int)[base + i] == out@[base + i]);
                        }
                    }
                } else {
                    assert(irs[c as int] == filter[c as int]@);
                    assert(part.subrange(c * stride, (c + 1) * stride) =~= out@.skip(
                        before.len() as int,
                    ));
                }
            }
        }
        c += 1;
    }
}

/// Prepares the filter spectra of a whole plan from one impulse response per
/// channel. Partition by partition, each channel's next `block_size *
/// tap_count` samples are cut into chunks of `block_size`, each chunk is
/// padded with silence to twice its size and transformed, and taps that lie
/// behind the end of the response hold zeros. A plan that is not usable for
/// as many channels as there are responses is rejected with its verdict.
pub fn process_filter<S: Copy, C: Copy, F: Fn(&Vec<S>) -> Vec<C>>(
    filter: &[Vec<S>],
    partition: &[(usize, usize)],
    silence: S,
    zero: C,
    fft: &F,
) -> (r: Result<Vec<C>, PlanError>)
    requires
        fits_plan(fft, partition@),
    ensures
        r is Ok <==> usable(partition@, filter.len() as int),
        r is Err ==> verdict(partition@, filter.len() as int) == Err::<(), PlanError>(r->Err_0),
        r is Ok ==> prepared(fft, responses(filter@), partition@, silence, zero, r->Ok_0@),
{
    match check_partition(partition, filter.len()) {
        Err(e) => {
            return Err(e);
        },
        Ok(()) => {},
    }
    let ghost plan = partition@;
    let ghost irs = responses(filter@);
    let ghost channels = filter.len() as int;
    let mut out: Vec<C> = Vec::new();
    let mut start: usize = 0;
    let mut p: usize = 0;
    while p < partition.len()
        invariant
            0 <= p <= partition.len(),
            plan == partition@,
            irs == responses(filter@),
            channels == filter.len(),
            irs.len() == channels,
            usable(plan, channels),
            fits_plan(fft, plan),
            start == samples_before(plan, p as int),
            out@.len() == bins_before(plan, channels, p as int),
            forall|q: int|
                0 <= q < p ==> #[trigger] partition_ok(fft, irs, plan, silence, zero, out@, q),
        decreases partition.len() - p,
    {
        let ghost before = out@;
        let part = partition[p];
        proof {
            let n = plan.len() as int;
            lemma_bin_factors(part.0 as int, part.1 as int, channels);
            lemma_bins_before_grows(plan, channels, p as int, p as int);
            lemma_bins_before_grows(plan, channels, p + 1, n);
            lemma_samples_within_bins(plan, channels, p + 1);
            lemma_samples_before_grows(plan, p as int, p as int);
            assert(bins_before(plan, channels, p + 1) == bins_before(plan, channels, p as int)
                + partition_bins(part, channels));
            assert(samples_before(plan, p + 1) == start + part.0 * part.1);
            assert(plan.last().0 >= part.0) by {
                crate::partition::lemma_blocks_ascend(plan, p as int, n - 1);
            }
            assert((part.0 + 1) * part.1 * channels == channels * ((part.0 + 1) * part.1))
                by (nonlinear_arith);
            assert(transform_fits(fft, 2 * plan[p as int].0, plan[p as int].0 + 1));
        }
        prepare_partition(filter, start, part.0, part.1, silence, zero, fft, &mut out);
        proof {
            let lo = bins_before(plan, channels, p as int);
            let hi = bins_before(plan, channels, p + 1);
            assert(out@.take(lo) == before);
            assert forall|q: int| 0 <= q < p + 1 implies #[trigger] partition_ok(
                fft,
                irs,
                plan,
                silence,
                zero,
                out@,
                q,
            ) by {
                if q < p {
                    lemma_bins_before_grows(plan, channels, q, q + 1);
                    lemma_bins_before_grows(plan, channels, q + 1, p as int);
                    assert(partition_ok(fft, irs, plan, silence, zero, before, q));
                    assert(out@.subrange(
                        bins_before(plan, channels, q),
                        bins_before(plan, channels, q + 1),
                    ) =~= before.subrange(
                        bins_before(plan, channels, q),
                        bins_before(plan, channels, q + 1),
                    )) by {
                        assert forall|i: int|
                            bins_before(plan, channels, q) <= i < bins_before(
                                plan,
                                channels,
                                q + 1,
                            ) implies out@[i] == before[i] by {
                            assert(out@.take(lo)[i] == out@[i]);
                        }
                    }
                } else {
                    assert(out@.subrange(lo, hi) =~= out@.skip(lo));
                }
            }
        }
        start = start + part.0 * part.1;
        p += 1;
    }
    Ok(out)
}

/// Two sequences of one length that agree piece by piece are the same, where
/// the pieces lie between the bounds `bounds(0) == 0`, `bounds(1)`, up to
/// `bounds(n)`, their length.
pub proof fn lemma_pieces_equal<T>(a: Seq<T>, b: Seq<T>, bounds: spec_fn(int) -> int, n: int)
    requires
        n >= 0,
        bounds(0) == 0,
        forall|i: int| 0 <= i < n ==> #[trigger] bounds(i) <= bounds(i + 1),
        a.len() == bounds(n),
        b.len() == bounds(n),
        forall|i: int|
            0 <= i < n ==> #[trigger] a.subrange(bounds(i), bounds(i + 1)) == b.subrange(
                bounds(i),
                bounds(i + 1),
            ),
    ensures
        a == b,
{
    lemma_prefixes_equal(a, b, bounds, n, n);
    assert(a.take(bounds(n)) =~= a);
    assert(b.take(bounds(n)) =~= b);
}

/// The bounds of pieces ascend.
proof fn lemma_bounds_ascend(bounds: spec_fn(int) -> int, i: int, j: int, n: int)
    requires
        0 <= i <= j <= n,
        forall|k: int| 0 <= k < n ==> #[trigger] bounds(k) <= bounds(k + 1),
    ensures
        bounds(i) <= bounds(j),
    decreases j - i,
{
    if i < j {
        lemma_bounds_ascend(bounds, i, j - 1, n);
        assert(bounds(j - 1) <= bounds(j - 1 + 1));
    }
}

/// Two sequences that agree piece by piece agree up to every bound.
proof fn lemma_prefixes_equal<T>(a: Seq<T>, b: Seq<T>, bounds: spec_fn(int) -> int, m: int, n: int)
    requires
        0 <= m <= n,
        bounds(0) == 0,
        forall|i: int| 0 <= i < n ==> #[trigger] bounds(i) <= bounds(i + 1),
        a.len() == bounds(n),
        b.len() == bounds(n),
        forall|i: int|
            0 <= i < n ==> #[trigger] a.subrange(bounds(i), bounds(i + 1)) == b.subrange(
                bounds(i),
                bounds(i + 1),
            ),
    ensures
        a.take(bounds(m)) == b.take(bounds(m)),
    decreases m,
{
    lemma_bounds_ascend(bounds, 0, m, n);
    lemma_bounds_ascend(bounds, m, n, n);
    if m == 0 {
        assert(a.take(bounds(0)) =~= b.take(bounds(0)));
    } else {
        lemma_prefixes_equal(a, b, bounds, m - 1, n);
        lemma_bounds_ascend(bounds, 0, m - 1, n);
        assert(bounds(m - 1) <= bounds(m - 1 + 1));
        let lo = bounds(m - 1);
        let hi = bounds(m);
        assert(a.subrange(bounds(m - 1), bounds(m - 1 + 1)) == b.subrange(
            bounds(m - 1),
            bounds(m - 1 + 1),
        ));
        assert(a.take(hi) =~= a.take(lo) + a.subrange(lo, hi));
        assert(b.take(hi) =~= b.take(lo) + b.subrange(lo, hi));
    }
}

/// With a single-valued transform, one channel of one partition is prepared
/// in one way only.
pub proof fn lemma_channel_prepared_once<S, C, F: Fn(&Vec<S>) -> Vec<C>>(
    fft: &F,
    ir: Seq<S>,
    start: int,
    block_size: int,
    taps: int,
    silence: S,
    zero: C,
    row1: Seq<C>,
    row2: Seq<C>,
)
    requires
        single_valued(fft),
        block_size >= 0,
        taps >= 0,
        channel_prepared(fft, ir, start, block_size, taps, silence, zero, row1),
        channel_prepared(fft, ir, start, block_size, taps, silence, zero, row2),
    ensures
        row1 == row2,
{
    let width = block_size + 1;
    let bounds = |t: int| t * width;
    assert(bounds(taps) == (block_size + 1) * taps) by (nonlinear_arith)
        requires
            bounds(taps) == taps * width,
            width == block_size + 1,
    ;
    assert forall|t: int| 0 <= t < taps implies #[trigger] bounds(t) <= bounds(t + 1) by {
        assert(t * width <= (t + 1) * width) by (nonlinear_arith)
            requires
                width >= 0,
        ;
    }
    assert forall|t: int| 0 <= t < taps implies #[trigger] row1.subrange(bounds(t), bounds(t + 1))
        == row2.subrange(bounds(t), bounds(t + 1)) by {
        assert(tap_ok(fft, ir, start, block_size, silence, zero, row1, t));
        assert(tap_ok(fft, ir, start, block_size, silence, zero, row2, t));
        let bins1 = row1.subrange(t * (block_size + 1), (t + 1) * (block_size + 1));
        let bins2 = row2.subrange(t * (block_size + 1), (t + 1) * (block_size + 1));
        if start + t * block_size < ir.len() {
            lemma_maps_to_one(
                fft,
                padded_chunk(ir, start + t * block_size, block_size, silence),
                bins1,
                bins2,
            );
        }
    }
    lemma_pieces_equal(row1, row2, bounds, taps);
}

/// With a single-valued transform, one partition is prepared in one way only.
pub proof fn lemma_partition_prepared_once<S, C, F: Fn(&Vec<S>) -> Vec<C>>(
    fft: &F,
    irs: Seq<Seq<S>>,
    start: int,
    block_size: int,
    taps: int,
    silence: S,
    zero: C,
    part1: Seq<C>,
    part2: Seq<C>,
)
    requires
        single_valued(fft),
        block_size >= 0,
        taps >= 0,
        partition_prepared(fft, irs, start, block_size, taps, silence, zero, part1),
        partition_prepared(fft, irs, start, block_size, taps, silence, zero, part2),
    ensures
        part1 == part2,
{
    let stride = (block_size + 1) * taps;
    let bounds = |c: int| c * stride;
    let n = irs.len() as int;
    assert(stride >= 0) by (nonlinear_arith)
        requires
            stride == (block_size + 1) * taps,
            block_size >= 0,
            taps >= 0,
    ;
    assert(bounds(n) == irs.len() * ((block_size + 1) * taps));
    assert forall|c: int| 0 <= c < n implies #[trigger] bounds(c) <= bounds(c + 1) by {
        assert(c * stride <= (c + 1) * stride) by (nonlinear_arith)
            requires
                stride >= 0,
        ;
    }
    assert forall|c: int| 0 <= c < n implies #[trigger] part1.subrange(bounds(c), bounds(c + 1))
        == part2.subrange(bounds(c), bounds(c + 1)) by {
        assert(channel_ok(fft, irs, start, block_size, taps, silence, zero, part1, c));
        assert(channel_ok(fft, irs, start, block_size, taps, silence, zero, part2, c));
        lemma_channel_prepared_once(
            fft,
            irs[c],
            start,
            block_size,
            taps,
            silence,
            zero,
            part1.subrange(c * stride, (c + 1) * stride),
            part2.subrange(c * stride, (c + 1) * stride),
        );
    }
    lemma_pieces_equal(part1, part2, bounds, n);
}

/// Preparing a filter twice gives the same spectra: with a transform that
/// gives one output for one input, the spectra of a plan are prepared from
/// given responses in one way only.
pub proof fn lemma_prepared_once<S, C, F: Fn(&Vec<S>) -> Vec<C>>(
    fft: &F,
    irs: Seq<Seq<S>>,
    plan: Seq<(usize, usize)>,
    silence: S,
    zero: C,
    out1: Seq<C>,
    out2: Seq<C>,
)
    requires
        single_valued(fft),
        prepared(fft, irs, plan, silence, zero, out1),
        prepared(fft, irs, plan, silence, zero, out2),
    ensures
        out1 == out2,
{
    let channels = irs.len() as int;
    let bounds = |p: int| bins_before(plan, channels, p);
    let n = plan.len() as int;
    assert forall|p: int| 0 <= p < n implies #[trigger] bounds(p) <= bounds(p + 1) by {
        lemma_bins_before_grows(plan, channels, p, p + 1);
    }
    assert forall|p: int| 0 <= p < n implies #[trigger] out1.subrange(bounds(p), bounds(p + 1))
        == out2.subrange(bounds(p), bounds(p + 1)) by {
        assert(partition_ok(fft, irs, plan, silence, zero, out1, p));
        assert(partition_ok(fft, irs, plan, silence, zero, out2, p));
        lemma_partition_prepared_once(
            fft,
            irs,
            samples_before(plan, p),
            plan[p].0 as int,
            plan[p].1 as int,
            silence,
            zero,
            out1.subrange(bins_before(plan, channels, p), bins_before(plan, channels, p + 1)),
            out2.subrange(bins_before(plan, channels, p), bins_before(plan, channels, p + 1)),
        );
    }
    lemma_pieces_equal(out1, out2, bounds, n);
}

/// What is prepared is what a convolver takes: where the spectra of one
/// partition, as `process_filter` lays them out, are installed as a
/// convolver's filter, every channel's delay line holds the spectra that were
/// prepared for that channel, tap after tap from the newest.
pub proof fn lemma_prepared_installs<S, C, F: Fn(&Vec<S>) -> Vec<C>>(
    fft: &F,
    irs: Seq<Seq<S>>,
    start: int,
    silence: S,
    zero: C,
    part: Seq<C>,
    before: UPConvView<S, C>,
    after: UPConvView<S, C>,
    c: int,
)
    requires
        conv_wf(before),
        irs.len() == before.signal.channels,
        0 <= c < before.signal.channels,
        partition_prepared(
            fft,
            irs,
            start,
            before.signal.block_size,
            before.signal.num_blocks,
            silence,
            zero,
            part,
        ),
        buffer_set(before, after, FdlKey::Filter, part),
    ensures
        channel_prepared(
            fft,
            irs[c],
            start,
            before.signal.block_size,
            before.signal.num_blocks,
            silence,
            zero,
            after.filter.spectra[c],
        ),
{
    assert(channel_ok(
        fft,
        irs,
        start,
        before.signal.block_size,
        before.signal.num_blocks,
        silence,
        zero,
        part,
        c,
    ));
    assert(line(after, FdlKey::Filter).spectra[c] == after.filter.spectra[c]);
}

} // verus!
