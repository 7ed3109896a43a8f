//! Moving samples and bins between buffers.

use vstd::prelude::*;

verus! {

/// A buffer of `n` copies of `value`.
pub fn filled<T: Copy>(n: usize, value: T) -> (v: Vec<T>)
    ensures
        v@ == Seq::new(n as nat, |i: int| value),
{
    let mut v: Vec<T> = Vec::new();
    let mut i: usize = 0;
    while i < n
        invariant
            0 <= i <= n,
            v@ == Seq::new(i as nat, |j: int| value),
        decreases n - i,
    {
        v.push(value);
        i += 1;
        assert(v@ =~= Seq::new(i as nat, |j: int| value));
    }
    v
}

/// `n` buffers of `len` copies of `value` each.
pub fn rows<T: Copy>(n: usize, len: usize, value: T) -> (v: Vec<Vec<T>>)
    ensures
        v.len() == n,
        forall|c: int| 0 <= c < n ==> (#[trigger] v[c])@ == Seq::new(len as nat, |i: int| value),
{
    let mut v: Vec<Vec<T>> = Vec::new();
    let mut c: usize = 0;
    while c < n
        invariant
            0 <= c <= n,
            v.len() == c,
            forall|d: int| 0 <= d < c ==> (#[trigger] v[d])@ == Seq::new(len as nat, |i: int| value),
        decreases n - c,
    {
        v.push(filled(len, value));
        c += 1;
    }
    v
}

/// Overwrites every element of `v` with `value`.
pub fn fill<T: Copy>(v: &mut Vec<T>, value: T)
    ensures
        final(v)@ == Seq::new(old(v).len() as nat, |i: int| value),
{
    let n: usize = v.len();
    let mut i: usize = 0;
    while i < n
        invariant
            0 <= i <= n,
            v.len() == n,
            forall|j: int| 0 <= j < i ==> v[j] == value,
        decreases n - i,
    {
        v[i] = value;
        i += 1;
    }
    assert(v@ =~= Seq::new(n as nat, |j: int| value));
}

/// The elements `start..end` of `src`, as a buffer of their own.
pub fn copy_range<T: Copy>(src: &[T], start: usize, end: usize) -> (v: Vec<T>)
    requires
        start <= end <= src.len(),
    ensures
        v@ == src@.subrange(start as int, end as int),
{
    let mut v: Vec<T> = Vec::new();
    let mut i: usize = start;
    while i < end
        invariant
            start <= i <= end <= src.len(),
            v@ == src@.subrange(start as int, i as int),
        decreases end - i,
    {
        v.push(src[i]);
        i += 1;
        assert(v@ =~= src@.subrange(start as int, i as int));
    }
    v
}

/// Appends the elements of `src` to `out`.
pub fn append<T: Copy>(out: &mut Vec<T>, src: &[T])
    ensures
        final(out)@ == old(out)@ + src@,
{
    let n: usize = src.len();
    let mut i: usize = 0;
    while i < n
        invariant
            0 <= i <= n,
            n == src.len(),
            out@ == old(out)@ + src@.take(i as int),
        decreases n - i,
    {
        out.push(src[i]);
        i += 1;
        assert(out@ =~= old(out)@ + src@.take(i as int));
    }
    assert(src@.take(n as int) =~= src@);
}

/// Appends `n` copies of `value` to `out`.
pub fn append_filled<T: Copy>(out: &mut Vec<T>, n: usize, value: T)
    ensures
        final(out)@ == old(out)@ + Seq::new(n as nat, |i: int| value),
{
    let mut i: usize = 0;
    while i < n
        invariant
            0 <= i <= n,
            out@ == old(out)@ + Seq::new(i as nat, |j: int| value),
        decreases n - i,
    {
        out.push(value);
        i += 1;
        assert(out@ =~= old(out)@ + Seq::new(i as nat, |j: int| value));
    }
}

/// Overwrites all of `dst` with the elements of `src` from `from` on.
pub fn copy_block<T: Copy>(dst: &mut Vec<T>, src: &[T], from: usize)
    requires
        from + old(dst).len() <= src.len(),
    ensures
        final(dst)@ == src@.subrange(from as int, from + old(dst).len()),
{
    let n: usize = dst.len();
    let mut i: usize = 0;
    while i < n
        invariant
            0 <= i <= n,
            dst.len() == n,
            n == old(dst).len(),
            from + n <= src.len(),
            forall|j: int| 0 <= j < i ==> dst[j] == src[from + j],
        decreases n - i,
    {
        dst[i] = src[from + i];
        i += 1;
    }
    assert(dst@ =~= src@.subrange(from as int, from + old(dst).len()));
}

/// Overwrites the elements of `dst` from `at` on with `src`.
pub fn write_at<T: Copy>(dst: &mut Vec<T>, at: usize, src: &[T])
    requires
        at + src.len() <= old(dst).len(),
    ensures
        final(dst)@ == old(dst)@.take(at as int) + src@ + old(dst)@.skip(at + src.len()),
{
    let n: usize = src.len();
    let mut i: usize = 0;
    while i < n
        invariant
            0 <= i <= n,
            n == src.len(),
            dst.len() == old(dst).len(),
            at + n <= dst.len(),
            forall|j: int| 0 <= j < at ==> dst[j] == old(dst)[j],
            forall|j: int| 0 <= j < i ==> dst[at + j] == src[j],
            forall|j: int| at + i <= j < dst.len() ==> dst[j] == old(dst)[j],
        decreases n - i,
    {
        dst[at + i] = src[i];
        i += 1;
    }
    assert(dst@ =~= old(dst)@.take(at as int) + src@ + old(dst)@.skip(at + src.len()));
}

/// Rolls `window` towards its front by the length of `block` and puts `block`
/// at its end: the oldest elements leave, the newest are last.
pub fn slide_in<T: Copy>(window: &mut Vec<T>, block: &[T])
    requires
        block.len() <= old(window).len(),
    ensures
        final(window)@ == old(window)@.skip(block.len() as int) + block@,
{
    let n: usize = window.len();
    let b: usize = block.len();
    let keep: usize = n - b;
    let mut i: usize = 0;
    while i < keep
        invariant
            0 <= i <= keep,
            keep + b == n,
            window.len() == n,
            n == old(window).len(),
            forall|j: int| 0 <= j < i ==> window[j] == old(window)[j + b],
            forall|j: int| i <= j < n ==> window[j] == old(window)[j],
        decreases keep - i,
    {
        window[i] = window[i + b];
        i += 1;
    }
    let mut k: usize = 0;
    while k < b
        invariant
            0 <= k <= b,
            b == block.len(),
            keep + b == n,
            window.len() == n,
            n == old(window).len(),
            forall|j: int| 0 <= j < keep ==> window[j] == old(window)[j + b],
            forall|j: int| 0 <= j < k ==> window[keep + j] == block[j],
        decreases b - k,
    {
        window[keep + k] = block[k];
        k += 1;
    }
    assert(window@ =~= old(window)@.skip(block.len() as int) + block@);
}

/// Moves the elements of `row` towards its end by the length of `front` and
/// puts `front` at its start: the newest elements are first, the oldest leave.
pub fn shift_in<T: Copy>(row: &mut Vec<T>, front: &[T])
    requires
        front.len() <= old(row).len(),
    ensures
        final(row)@ == front@ + old(row)@.take(old(row).len() - front.len()),
{
    let n: usize = row.len();
    let w: usize = front.len();
    let mut i: usize = n;
    while i > w
        invariant
            w <= i <= n,
            row.len() == n,
            n == old(row).len(),
            forall|j: int| i <= j < n ==> row[j] == old(row)[j - w],
            forall|j: int| 0 <= j < i ==> row[j] == old(row)[j],
        decreases i,
    {
        i -= 1;
        row[i] = row[i - w];
    }
    let mut k: usize = 0;
    while k < w
        invariant
            0 <= k <= w,
            w == front.len(),
            w <= n,
            row.len() == n,
            n == old(row).len(),
            forall|j: int| w <= j < n ==> row[j] == old(row)[j - w],
            forall|j: int| 0 <= j < k ==> row[j] == front[j],
        decreases w - k,
    {
        row[k] = front[k];
        k += 1;
    }
    assert(row@ =~= front@ + old(row)@.take(old(row).len() - front.len()));
}

/// `sums` holds, for each position, a value that `plus` may give for the
/// element of `olds` and the element of `terms` at that position.
pub open spec fn summed<S, P: Fn(S, S) -> S>(
    plus: &P,
    olds: Seq<S>,
    terms: Seq<S>,
    sums: Seq<S>,
) -> bool {
    &&& sums.len() == olds.len()
    &&& terms.len() == olds.len()
    &&& forall|i: int| 0 <= i < olds.len() ==> plus.ensures((olds[i], terms[i]), #[trigger] sums[i])
}

/// Adds `terms` onto the elements of `acc` from `at` on; the rest of `acc`
/// stays as it is.
pub fn add_at<S: Copy, P: Fn(S, S) -> S>(acc: &mut Vec<S>, at: usize, terms: &[S], plus: &P)
    requires
        at + terms.len() <= old(acc).len(),
        crate::kernel::plus_total(plus),
    ensures
        final(acc).len() == old(acc).len(),
        final(acc)@.take(at as int) == old(acc)@.take(at as int),
        final(acc)@.skip(at + terms.len()) == old(acc)@.skip(at + terms.len()),
        summed(
            plus,
            old(acc)@.subrange(at as int, at + terms.len()),
            terms@,
            final(acc)@.subrange(at as int, at + terms.len()),
        ),
{
    let n: usize = terms.len();
    let mut i: usize = 0;
    while i < n
        invariant
            0 <= i <= n,
            n == terms.len(),
            acc.len() == old(acc).len(),
            at + n <= acc.len(),
            crate::kernel::plus_total(plus),
            forall|j: int| 0 <= j < at ==> acc[j] == old(acc)[j],
            forall|j: int| 0 <= j < i ==> plus.ensures((old(acc)[at + j], terms[j]), #[trigger] acc[at + j]),
            forall|j: int| at + i <= j < acc.len() ==> acc[j] == old(acc)[j],
        decreases n - i,
    {
        let sum = plus(acc[at + i], terms[i]);
        acc[at + i] = sum;
        i += 1;
    }
    assert(acc@.take(at as int) =~= old(acc)@.take(at as int));
    assert(acc@.skip(at + terms.len()) =~= old(acc)@.skip(at + terms.len()));
    let ghost sums = acc@.subrange(at as int, at + terms.len());
    assert forall|i: int| 0 <= i < n implies plus.ensures(
        (old(acc)@.subrange(at as int, at + terms.len())[i], terms@[i]),
        #[trigger] sums[i],
    ) by {
        assert(sums[i] == acc[at + i]);
    }
}

/// The block of channel `c` in `flat`, which holds one block of `b` samples
/// per channel, channel after channel.
pub open spec fn channel_block<S>(flat: Seq<S>, b: int, c: int) -> Seq<S> {
    flat.subrange(c * b, (c + 1) * b)
}

/// `flat` holds, channel after channel, the newest `b` samples of each
/// channel's history.
pub open spec fn gathered<S>(flat: Seq<S>, hist: Seq<Seq<S>>, b: int) -> bool {
    &&& flat.len() == b * hist.len()
    &&& forall|c: int|
        0 <= c < hist.len() ==> #[trigger] channel_block(flat, b, c) == hist[c].skip(
            hist[c].len() - b,
        )
}

/// The views of the rows of a buffer.
pub open spec fn row_views<S>(rows: Seq<Vec<S>>) -> Seq<Seq<S>> {
    Seq::new(rows.len(), |c: int| rows[c]@)
}

/// `rows` holds the blocks of `flat`, one row per channel.
pub open spec fn scattered<S>(rows: Seq<Vec<S>>, flat: Seq<S>, b: int) -> bool {
    forall|c: int| 0 <= c < rows.len() ==> (#[trigger] rows[c])@ == channel_block(flat, b, c)
}

/// Gathers the newest `b` samples of every channel's history into `flat`.
pub fn gather<S: Copy>(flat: &mut Vec<S>, hist: &Vec<Vec<S>>, b: usize)
    requires
        old(flat).len() == b * hist.len(),
        forall|c: int| 0 <= c < hist.len() ==> (#[trigger] hist[c]).len() >= b,
    ensures
        gathered(final(flat)@, row_views(hist@), b as int),
{
    let n: usize = hist.len();
    let mut base: usize = 0;
    let mut c: usize = 0;
    while c < n
        invariant
            0 <= c <= n,
            n == hist.len(),
            flat.len() == b * n,
            base == c * b,
            forall|d: int| 0 <= d < n ==> (#[trigger] hist[d]).len() >= b,
            forall|d: int|
                0 <= d < c ==> #[trigger] channel_block(flat@, b as int, d) == hist[d]@.skip(
                    hist[d].len() - b,
                ),
        decreases n - c,
    {
        proof {
            assert((c + 1) * b == c * b + b && (c + 1) * b <= n * b && b * n == n * b)
                by (nonlinear_arith)
                requires
                    0 <= c < n,
                    b >= 0,
            ;
        }
        let ghost before = flat@;
        let row = &hist[c];
        let tail = vstd::slice::slice_subrange(row.as_slice(), row.len() - b, row.len());
        write_at(flat, base, tail);
        proof {
            assert(channel_block(flat@, b as int, c as int) =~= hist[c as int]@.skip(
                hist[c as int].len() - b,
            ));
            assert forall|d: int| 0 <= d < c implies #[trigger] channel_block(flat@, b as int, d)
                == hist[d]@.skip(hist[d].len() - b) by {
                assert((d + 1) * b == d * b + b && (d + 1) * b <= c * b && d * b >= 0)
                    by (nonlinear_arith)
                    requires
                        0 <= d < c,
                        b >= 0,
                ;
                assert(channel_block(flat@, b as int, d) =~= channel_block(before, b as int, d));
            }
        }
        base = base + b;
        c += 1;
    }
    proof {
        assert forall|d: int| 0 <= d < n implies #[trigger] channel_block(flat@, b as int, d)
            == row_views(hist@)[d].skip(row_views(hist@)[d].len() - b) by {
            assert(row_views(hist@)[d] == hist[d]@);
        }
    }
}

/// Cuts `flat`, which holds `b` samples per channel, into one row per
/// channel.
pub fn scatter<S: Copy>(rows: &mut Vec<Vec<S>>, flat: &Vec<S>, b: usize)
    requires
        flat.len() == b * old(rows).len(),
        forall|c: int| 0 <= c < old(rows).len() ==> (#[trigger] old(rows)[c]).len() == b,
    ensures
        final(rows).len() == old(rows).len(),
        forall|c: int| 0 <= c < final(rows).len() ==> (#[trigger] final(rows)[c]).len() == b,
        scattered(final(rows)@, flat@, b as int),
{
    let n: usize = rows.len();
    let mut base: usize = 0;
    let mut c: usize = 0;
    while c < n
        invariant
            0 <= c <= n,
            rows.len() == n,
            n == old(rows).len(),
            flat.len() == b * n,
            base == c * b,
            forall|d: int| 0 <= d < n ==> (#[trigger] rows[d]).len() == b,
            forall|d: int| 0 <= d < c ==> (#[trigger] rows[d])@ == channel_block(flat@, b as int, d),
        decreases n - c,
    {
        proof {
            assert((c + 1) * b == c * b + b && (c + 1) * b <= n * b && b * n == n * b)
                by (nonlinear_arith)
                requires
                    0 <= c < n,
                    b >= 0,
            ;
        }
        copy_block(&mut rows[c], flat.as_slice(), base);
        base = base + b;
        c += 1;
    }
}

} // verus!
