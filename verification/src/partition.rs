//! Partition plans: which block sizes an impulse response is cut into, and the
//! cadence and latency that follow from them.

use vstd::prelude::*;

verus! {

/// Why a partition plan is rejected.
#[derive(Clone, Copy, Debug, PartialEq, Eq, Structural)]
pub enum PlanError {
    /// The plan holds no partition.
    Empty,
    /// The engine was asked for zero channels.
    NoChannels,
    /// A partition has block size zero.
    ZeroBlockSize,
    /// A partition has no taps.
    ZeroTapCount,
    /// A block size is not larger than the one before it.
    NotAscending,
    /// A block size is not a multiple of the one before it.
    NotDivisible,
    /// A buffer that the plan calls for cannot be addressed on this machine.
    TooLarge,
}

/// Number of impulse-response samples that the first `n` partitions consume.
pub open spec fn samples_before(plan: Seq<(usize, usize)>, n: int) -> int
    decreases n,
{
    if n <= 0 {
        0
    } else {
        samples_before(plan, n - 1) + plan[n - 1].0 * plan[n - 1].1
    }
}

/// Number of bins that the filter spectra of one partition hold.
pub open spec fn partition_bins(part: (usize, usize), channels: int) -> int {
    (part.0 + 1) * part.1 * channels
}

/// Number of bins that the filter spectra of the first `n` partitions hold,
/// which is where the spectra of partition `n` start in the flat layout.
pub open spec fn bins_before(plan: Seq<(usize, usize)>, channels: int, n: int) -> int
    decreases n,
{
    if n <= 0 {
        0
    } else {
        bins_before(plan, channels, n - 1) + partition_bins(plan[n - 1], channels)
    }
}

/// What is wrong with entry `i` on its own or against the entry before it.
pub open spec fn entry_fault(plan: Seq<(usize, usize)>, i: int) -> Option<PlanError> {
    if plan[i].0 == 0 {
        Some(PlanError::ZeroBlockSize)
    } else if plan[i].1 == 0 {
        Some(PlanError::ZeroTapCount)
    } else if i > 0 && plan[i].0 <= plan[i - 1].0 {
        Some(PlanError::NotAscending)
    } else if i > 0 && plan[i].0 % plan[i - 1].0 != 0 {
        Some(PlanError::NotDivisible)
    } else {
        None
    }
}

/// The fault of the first faulty entry among the first `n`.
pub open spec fn shape_fault(plan: Seq<(usize, usize)>, n: int) -> Option<PlanError>
    decreases n,
{
    if n <= 0 {
        None
    } else {
        match shape_fault(plan, n - 1) {
            Some(e) => Some(e),
            None => entry_fault(plan, n - 1),
        }
    }
}

/// A plan is well formed when it is not empty, every block size and tap count
/// is positive, and every block size is a proper multiple of the one before.
pub open spec fn well_formed(plan: Seq<(usize, usize)>) -> bool {
    &&& plan.len() > 0
    &&& forall|i: int| 0 <= i < plan.len() ==> (#[trigger] plan[i]).0 > 0 && plan[i].1 > 0
    &&& forall|i: int|
        0 < i < plan.len() ==> plan[i - 1].0 < (#[trigger] plan[i]).0 && plan[i].0 % plan[i - 1].0
            == 0
}

/// The buffers of an engine for this plan can be addressed.
pub open spec fn fits(plan: Seq<(usize, usize)>, channels: int) -> bool {
    &&& 2 * plan.last().0 <= usize::MAX
    &&& bins_before(plan, channels, plan.len() as int) <= usize::MAX
}

/// A plan that an engine with `channels` channels can be built for.
pub open spec fn usable(plan: Seq<(usize, usize)>, channels: int) -> bool {
    well_formed(plan) && channels > 0 && fits(plan, channels)
}

/// The verdict on a plan: the first reason to reject it, if there is one.
pub open spec fn verdict(plan: Seq<(usize, usize)>, channels: int) -> Result<(), PlanError> {
    if plan.len() == 0 {
        Err(PlanError::Empty)
    } else if channels == 0 {
        Err(PlanError::NoChannels)
    } else if shape_fault(plan, plan.len() as int) is Some {
        Err(shape_fault(plan, plan.len() as int)->0)
    } else if !fits(plan, channels) {
        Err(PlanError::TooLarge)
    } else {
        Ok(())
    }
}

/// How many real-time blocks make one block of partition `i`.
pub open spec fn avail_of(plan: Seq<(usize, usize)>, i: int) -> int {
    plan[i].0 as int / plan[0].0 as int
}

/// How many real-time blocks pass before partition `i` first contributes.
pub open spec fn offset_of(plan: Seq<(usize, usize)>, i: int) -> int {
    samples_before(plan, i) / plan[0].0 as int
}

/// No entry among the first `n` is faulty exactly when they are positive,
/// ascending and each a multiple of the one before.
pub proof fn lemma_shape_fault_none(plan: Seq<(usize, usize)>, n: int)
    requires
        0 <= n <= plan.len(),
    ensures
        shape_fault(plan, n) is None <==> {
            &&& forall|i: int| 0 <= i < n ==> (#[trigger] plan[i]).0 > 0 && plan[i].1 > 0
            &&& forall|i: int|
                0 < i < n ==> plan[i - 1].0 < (#[trigger] plan[i]).0 && plan[i].0 % plan[i - 1].0
                    == 0
        },
    decreases n,
{
    if n > 0 {
        lemma_shape_fault_none(plan, n - 1);
        if shape_fault(plan, n - 1) is None {
            if entry_fault(plan, n - 1) is None {
                assert forall|i: int| 0 <= i < n implies (#[trigger] plan[i]).0 > 0 && plan[i].1
                    > 0 by {
                    if i == n - 1 {
                    }
                }
                assert forall|i: int| 0 < i < n implies plan[i - 1].0 < (#[trigger] plan[i]).0
                    && plan[i].0 % plan[i - 1].0 == 0 by {
                    if i == n - 1 {
                    }
                }
            } else {
                assert(plan[n - 1].0 > 0 && plan[n - 1].1 > 0 && (n - 1 > 0 ==> plan[n - 2].0
                    < plan[n - 1].0 && plan[n - 1].0 % plan[n - 2].0 == 0) ==> false);
            }
        }
    }
}

/// A plan gets the verdict `Ok` exactly when it is usable.
pub proof fn lemma_verdict_ok(plan: Seq<(usize, usize)>, channels: int)
    requires
        channels >= 0,
    ensures
        verdict(plan, channels) is Ok <==> usable(plan, channels),
{
    lemma_shape_fault_none(plan, plan.len() as int);
}

/// Sample counts grow with the number of partitions counted.
pub proof fn lemma_samples_before_grows(plan: Seq<(usize, usize)>, i: int, j: int)
    requires
        i <= j,
    ensures
        0 <= samples_before(plan, i) <= samples_before(plan, j),
    decreases j,
{
    if j > 0 {
        assert(plan[j - 1].0 * plan[j - 1].1 >= 0) by (nonlinear_arith);
        if i < j {
            lemma_samples_before_grows(plan, i, j - 1);
        } else {
            lemma_samples_before_grows(plan, i - 1, j - 1);
        }
    }
}

/// Bin counts grow with the number of partitions counted.
pub proof fn lemma_bins_before_grows(plan: Seq<(usize, usize)>, channels: int, i: int, j: int)
    requires
        i <= j,
        channels >= 0,
    ensures
        0 <= bins_before(plan, channels, i) <= bins_before(plan, channels, j),
    decreases j,
{
    if j > 0 {
        let part = plan[j - 1];
        assert((part.0 + 1) * part.1 * channels >= 0) by (nonlinear_arith)
            requires
                part.0 >= 0,
                part.1 >= 0,
                channels >= 0,
        ;
        if i < j {
            lemma_bins_before_grows(plan, channels, i, j - 1);
        } else {
            lemma_bins_before_grows(plan, channels, i - 1, j - 1);
        }
    }
}

/// With at least one channel and one tap everywhere, the bins of a plan are at
/// least as many as its samples.
pub proof fn lemma_samples_within_bins(plan: Seq<(usize, usize)>, channels: int, n: int)
    requires
        channels >= 1,
        0 <= n <= plan.len(),
    ensures
        samples_before(plan, n) <= bins_before(plan, channels, n),
    decreases n,
{
    if n > 0 {
        lemma_samples_within_bins(plan, channels, n - 1);
        let part = plan[n - 1];
        assert(part.0 * part.1 <= (part.0 + 1) * part.1 * channels) by (nonlinear_arith)
            requires
                part.0 >= 0,
                part.1 >= 0,
                channels >= 1,
        ;
    }
}

/// In a well-formed plan the block sizes ascend, so none exceeds the last.
pub proof fn lemma_blocks_ascend(plan: Seq<(usize, usize)>, i: int, j: int)
    requires
        well_formed(plan),
        0 <= i <= j < plan.len(),
    ensures
        plan[i].0 <= plan[j].0,
    decreases j - i,
{
    if i < j {
        lemma_blocks_ascend(plan, i, j - 1);
        assert(plan[j - 1].0 < plan[j].0);
    }
}

/// A positive multiple of `d` is its quotient by `d`, at least one, times `d`.
pub proof fn lemma_multiple_split(x: int, d: int)
    requires
        d > 0,
        x > 0,
        x % d == 0,
    ensures
        x == (x / d) * d,
        x / d >= 1,
{
    vstd::arithmetic::div_mod::lemma_fundamental_div_mod(x, d);
    let q = x / d;
    assert(d * q == q * d) by (nonlinear_arith);
    assert(q >= 1) by (nonlinear_arith)
        requires
            q * d == x,
            x > 0,
            d > 0,
    ;
}

/// `k * d` is a multiple of `d`, and `k` is its quotient by `d`.
pub proof fn lemma_multiple_join(k: int, d: int)
    requires
        d > 0,
    ensures
        (k * d) % d == 0,
        (k * d) / d == k,
{
    vstd::arithmetic::div_mod::lemma_mod_multiples_basic(k, d);
    vstd::arithmetic::div_mod::lemma_div_multiples_vanish(k, d);
    assert(d * k == k * d) by (nonlinear_arith);
}

/// In a well-formed plan every block size is a multiple of the first.
pub proof fn lemma_first_divides(plan: Seq<(usize, usize)>, i: int)
    requires
        well_formed(plan),
        0 <= i < plan.len(),
    ensures
        plan[i].0 as int % plan[0].0 as int == 0,
        avail_of(plan, i) >= 1,
        avail_of(plan, i) * plan[0].0 == plan[i].0,
    decreases i,
{
    let first = plan[0].0 as int;
    assert(plan[0].0 > 0);
    if i == 0 {
        lemma_multiple_join(1, first);
    } else {
        lemma_first_divides(plan, i - 1);
        let prev = plan[i - 1].0 as int;
        let cur = plan[i].0 as int;
        assert(plan[i - 1].0 < plan[i].0 && plan[i].0 % plan[i - 1].0 == 0);
        assert(plan[i - 1].0 > 0);
        lemma_multiple_split(prev, first);
        lemma_multiple_split(cur, prev);
        let a = prev / first;
        let b = cur / prev;
        assert(cur == (b * a) * first) by (nonlinear_arith)
            requires
                cur == b * prev,
                prev == a * first,
        ;
        lemma_multiple_join(b * a, first);
        assert(b * a >= 1) by (nonlinear_arith)
            requires
                a >= 1,
                b >= 1,
        ;
    }
}

/// The samples before a partition make a whole number of real-time blocks:
/// the offset of a partition, in samples, is where its part of the impulse
/// response starts.
pub proof fn lemma_offset_exact(plan: Seq<(usize, usize)>, i: int)
    requires
        well_formed(plan),
        0 <= i < plan.len(),
    ensures
        offset_of(plan, i) * plan[0].0 == samples_before(plan, i),
        offset_of(plan, i) >= 0,
    decreases i,
{
    let first = plan[0].0 as int;
    assert(plan[0].0 > 0);
    if i == 0 {
        lemma_multiple_join(0, first);
        assert(samples_before(plan, 0) == 0);
        assert(0 * first == 0);
    } else {
        lemma_offset_exact(plan, i - 1);
        lemma_first_divides(plan, i - 1);
        let before = offset_of(plan, i - 1);
        let a = avail_of(plan, i - 1);
        let taps = plan[i - 1].1 as int;
        assert(samples_before(plan, i) == (before + a * taps) * first) by (nonlinear_arith)
            requires
                samples_before(plan, i) == samples_before(plan, i - 1) + plan[i - 1].0
                    * plan[i - 1].1,
                before * first == samples_before(plan, i - 1),
                a * first == plan[i - 1].0,
                taps == plan[i - 1].1,
        ;
        lemma_multiple_join(before + a * taps, first);
        assert(a * taps >= 0) by (nonlinear_arith)
            requires
                a >= 1,
                taps >= 0,
        ;
    }
}

/// The cycle in which the output for the block that partition `i` was handed
/// in cycle `k` is collected.
pub open spec fn due_cycle(plan: Seq<(usize, usize)>, i: int, k: int) -> int {
    k - avail_of(plan, i) + offset_of(plan, i)
}

/// The bookkeeping of latency is exact. A partition is handed a block in
/// every cycle `k` that its cadence divides. Its output for that block, which
/// starts `samples_before` the partition after the block's first sample, is
/// due in a cycle of collection, it lies one real-time block ahead of the
/// block put out in that cycle, and where the partitions before this one hold
/// at least one of its blocks, that cycle is not before `k`.
pub proof fn lemma_due_cycle(plan: Seq<(usize, usize)>, i: int, k: int)
    requires
        well_formed(plan),
        0 < i < plan.len(),
        k >= avail_of(plan, i),
        k % avail_of(plan, i) == 0,
    ensures
        due_cycle(plan, i, k) >= offset_of(plan, i),
        (due_cycle(plan, i, k) - offset_of(plan, i)) % avail_of(plan, i) == 0,
        due_cycle(plan, i, k) * plan[0].0 == k * plan[0].0 - plan[i].0 + samples_before(plan, i),
        samples_before(plan, i) >= plan[i].0 ==> due_cycle(plan, i, k) >= k,
{
    lemma_first_divides(plan, i);
    lemma_offset_exact(plan, i);
    let a = avail_of(plan, i);
    let o = offset_of(plan, i);
    let first = plan[0].0 as int;
    assert(plan[0].0 > 0);
    lemma_multiple_split(k, a);
    lemma_multiple_join(k / a - 1, a);
    assert(k - a == (k / a - 1) * a) by (nonlinear_arith)
        requires
            k == (k / a) * a,
    ;
    assert((k - a + o) * first == k * first - a * first + o * first) by (nonlinear_arith);
    if samples_before(plan, i) >= plan[i].0 {
        assert(o >= a) by (nonlinear_arith)
            requires
                o * first >= a * first,
                first > 0,
        ;
    }
}

/// Once an entry is faulty, the verdict on every longer prefix is that fault.
pub proof fn lemma_shape_fault_sticks(plan: Seq<(usize, usize)>, i: int, n: int)
    requires
        0 <= i <= n,
        shape_fault(plan, i) is Some,
    ensures
        shape_fault(plan, n) == shape_fault(plan, i),
    decreases n,
{
    if i < n {
        lemma_shape_fault_sticks(plan, i, n - 1);
    }
}

/// The factors of a partition's bin count are bounded by the count.
pub proof fn lemma_bin_factors(block: int, taps: int, channels: int)
    requires
        block >= 0,
        taps >= 1,
        channels >= 1,
    ensures
        block + 1 <= (block + 1) * taps,
        (block + 1) * taps <= (block + 1) * taps * channels,
        block * taps <= (block + 1) * taps,
{
    assert(block + 1 <= (block + 1) * taps) by (nonlinear_arith)
        requires
            block >= 0,
            taps >= 1,
    ;
    assert((block + 1) * taps <= (block + 1) * taps * channels) by (nonlinear_arith)
        requires
            block >= 0,
            taps >= 1,
            channels >= 1,
    ;
    assert(block * taps <= (block + 1) * taps) by (nonlinear_arith)
        requires
            block >= 0,
            taps >= 1,
    ;
}

/// Judges a plan for an engine with `channels` channels: `Ok` when the plan is
/// usable, else the first reason against it.
pub fn check_partition(partition: &[(usize, usize)], channels: usize) -> (r: Result<
    (),
    PlanError,
>)
    ensures
        r == verdict(partition@, channels as int),
        r is Ok <==> usable(partition@, channels as int),
{
    let n: usize = partition.len();
    proof {
        lemma_verdict_ok(partition@, channels as int);
    }
    if n == 0 {
        return Err(PlanError::Empty);
    }
    if channels == 0 {
        return Err(PlanError::NoChannels);
    }
    let mut i: usize = 0;
    while i < n
        invariant
            0 <= i <= n,
            n == partition.len(),
            channels >= 1,
            shape_fault(partition@, i as int) is None,
        decreases n - i,
    {
        let part = partition[i];
        let mut fault: Option<PlanError> = None;
        if part.0 == 0 {
            fault = Some(PlanError::ZeroBlockSize);
        } else if part.1 == 0 {
            fault = Some(PlanError::ZeroTapCount);
        } else if i > 0 {
            let prev = partition[i - 1];
            proof {
                lemma_shape_fault_none(partition@, i as int);
                assert(partition@[i - 1].0 > 0);
            }
            if part.0 <= prev.0 {
                fault = Some(PlanError::NotAscending);
            } else if part.0 % prev.0 != 0 {
                fault = Some(PlanError::NotDivisible);
            }
        }
        assert(fault == entry_fault(partition@, i as int));
        match fault {
            Some(e) => {
                proof {
                    assert(shape_fault(partition@, i + 1) == Some(e));
                    lemma_shape_fault_sticks(partition@, i + 1, n as int);
                }
                return Err(e);
            },
            None => {},
        }
        i += 1;
    }
    proof {
        lemma_shape_fault_none(partition@, n as int);
        assert(well_formed(partition@));
    }
    let last: usize = partition[n - 1].0;
    assert(last == partition@.last().0);
    if last > usize::MAX / 2 {
        return Err(PlanError::TooLarge);
    }
    let mut total: usize = 0;
    let mut k: usize = 0;
    while k < n
        invariant
            0 <= k <= n,
            n == partition.len(),
            channels >= 1,
            well_formed(partition@),
            shape_fault(partition@, n as int) is None,
            total == bins_before(partition@, channels as int, k as int),
        decreases n - k,
    {
        let part = partition[k];
        proof {
            lemma_bin_factors(part.0 as int, part.1 as int, channels as int);
            lemma_bins_before_grows(partition@, channels as int, k as int, k as int);
            lemma_bins_before_grows(partition@, channels as int, k + 1, n as int);
            assert(bins_before(partition@, channels as int, k + 1) == total + partition_bins(
                part,
                channels as int,
            ));
        }
        let bins: Option<usize> = match part.0.checked_add(1) {
            Some(width) => match width.checked_mul(part.1) {
                Some(per_channel) => per_channel.checked_mul(channels),
                None => None,
            },
            None => None,
        };
        let next: Option<usize> = match bins {
            Some(b) => total.checked_add(b),
            None => None,
        };
        match next {
            Some(t) => {
                total = t;
            },
            None => {
                assert(bins_before(partition@, channels as int, k + 1) > usize::MAX);
                return Err(PlanError::TooLarge);
            },
        }
        k += 1;
    }
    Ok(())
}

/// The number of impulse-response samples that the partitions before
/// partition `i` consume.
pub fn samples_up_to(partition: &[(usize, usize)], channels: usize, i: usize) -> (r: usize)
    requires
        usable(partition@, channels as int),
        i <= partition.len(),
    ensures
        r == samples_before(partition@, i as int),
{
    let mut total: usize = 0;
    let mut k: usize = 0;
    while k < i
        invariant
            0 <= k <= i <= partition.len(),
            usable(partition@, channels as int),
            total == samples_before(partition@, k as int),
        decreases i - k,
    {
        let part = partition[k];
        proof {
            lemma_bin_factors(part.0 as int, part.1 as int, channels as int);
            lemma_samples_within_bins(partition@, channels as int, k + 1);
            lemma_bins_before_grows(partition@, channels as int, k + 1, partition.len() as int);
            lemma_samples_before_grows(partition@, k as int, k as int);
            assert(part.0 * part.1 >= 0) by (nonlinear_arith);
        }
        total = total + part.0 * part.1;
        k += 1;
    }
    total
}

/// Where the filter spectra of partition `i` start in the flat layout of a
/// whole plan's spectra; for `i` the plan's length, the layout's length.
pub fn spectrum_start(partition: &[(usize, usize)], channels: usize, i: usize) -> (r: usize)
    requires
        usable(partition@, channels as int),
        i <= partition.len(),
    ensures
        r == bins_before(partition@, channels as int, i as int),
{
    let mut total: usize = 0;
    let mut k: usize = 0;
    while k < i
        invariant
            0 <= k <= i <= partition.len(),
            usable(partition@, channels as int),
            total == bins_before(partition@, channels as int, k as int),
        decreases i - k,
    {
        let part = partition[k];
        proof {
            lemma_bin_factors(part.0 as int, part.1 as int, channels as int);
            lemma_bins_before_grows(partition@, channels as int, k as int, k as int);
            lemma_bins_before_grows(partition@, channels as int, k + 1, partition.len() as int);
        }
        total = total + (part.0 + 1) * part.1 * channels;
        k += 1;
    }
    total
}

/// How many real-time blocks make one block of partition `i`: the cadence at
/// which that partition exchanges blocks with the real-time thread.
pub fn segment_avail(partition: &[(usize, usize)], i: usize) -> (r: usize)
    requires
        well_formed(partition@),
        i < partition.len(),
    ensures
        r == avail_of(partition@, i as int),
        r >= 1,
        r * partition@[0].0 == partition@[i as int].0,
{
    proof {
        lemma_first_divides(partition@, i as int);
        assert(partition@[0].0 > 0);
    }
    partition[i].0 / partition[0].0
}

/// How many real-time blocks pass before partition `i` first contributes: the
/// samples of all partitions before it, in real-time blocks.
pub fn segment_offset(partition: &[(usize, usize)], channels: usize, i: usize) -> (r: usize)
    requires
        usable(partition@, channels as int),
        i < partition.len(),
    ensures
        r == offset_of(partition@, i as int),
{
    assert(partition@[0].0 > 0);
    samples_up_to(partition, channels, i) / partition[0].0
}

/// Plans are not derived from a length: whatever impulse-response length `n`
/// and block size are given, the result is the empty plan, which no engine
/// accepts.
pub fn generate_partition(n: usize, block_size: usize) -> (plan: Vec<(usize, usize)>)
    ensures
        plan@.len() == 0,
        verdict(plan@, 1) == Err::<(), PlanError>(PlanError::Empty),
{
    Vec::new()
}

} // verus!
