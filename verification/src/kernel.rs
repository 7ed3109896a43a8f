//! What the engine asks of the function values that it is handed: the two
//! transforms and the arithmetic on samples and bins.
//!
//! A function value may give different results for equal arguments, so the
//! contracts of the engine state of each computed value that it is a result
//! which the function may give, through the predicates below.

use vstd::prelude::*;

verus! {

/// The transform `f` accepts every input of length `n` and gives an output of
/// length `m` for it.
pub open spec fn transform_fits<A, B, F: Fn(&Vec<A>) -> Vec<B>>(f: &F, n: int, m: int) -> bool {
    &&& forall|x: &Vec<A>| x.len() == n ==> #[trigger] f.requires((x,))
    &&& forall|x: &Vec<A>, y: Vec<B>|
        x.len() == n && #[trigger] f.ensures((x,), y) ==> y.len() == m
}

/// `ys` is an output that the transform `f` may give for the input `xs`.
pub open spec fn maps_to<A, B, F: Fn(&Vec<A>) -> Vec<B>>(f: &F, xs: Seq<A>, ys: Seq<B>) -> bool {
    exists|x: Vec<A>, y: Vec<B>| x@ == xs && y@ == ys && #[trigger] f.ensures((&x,), y)
}

/// Every element of `xs` is `x`.
pub open spec fn all_are<T>(xs: Seq<T>, x: T) -> bool {
    forall|i: int| 0 <= i < xs.len() ==> #[trigger] xs[i] == x
}

/// The transform `f` gives one output for one input: whatever it may give for
/// two inputs that hold the same holds the same.
pub open spec fn single_valued<A, B, F: Fn(&Vec<A>) -> Vec<B>>(f: &F) -> bool {
    forall|x1: &Vec<A>, x2: &Vec<A>, y1: Vec<B>, y2: Vec<B>|
        x1@ == x2@ && #[trigger] f.ensures((x1,), y1) && #[trigger] f.ensures((x2,), y2) ==> y1@
            == y2@
}

/// Two outputs that a single-valued transform may give for one input are the
/// same.
pub proof fn lemma_maps_to_one<A, B, F: Fn(&Vec<A>) -> Vec<B>>(
    f: &F,
    xs: Seq<A>,
    ys1: Seq<B>,
    ys2: Seq<B>,
)
    requires
        single_valued(f),
        maps_to(f, xs, ys1),
        maps_to(f, xs, ys2),
    ensures
        ys1 == ys2,
{
    let (x1, y1) = choose|x: Vec<A>, y: Vec<B>|
        x@ == xs && y@ == ys1 && #[trigger] f.ensures((&x,), y);
    let (x2, y2) = choose|x: Vec<A>, y: Vec<B>|
        x@ == xs && y@ == ys2 && #[trigger] f.ensures((&x,), y);
    assert(f.ensures((&x1,), y1) && f.ensures((&x2,), y2));
}

/// The multiply-accumulate `mac`, called as `mac(sum, a, b)` for `sum + a * b`,
/// accepts all arguments.
pub open spec fn mac_total<C, M: Fn(C, C, C) -> C>(mac: &M) -> bool {
    forall|sum: C, a: C, b: C| #[trigger] mac.requires((sum, a, b))
}

/// The addition `plus` accepts all arguments.
pub open spec fn plus_total<S, P: Fn(S, S) -> S>(plus: &P) -> bool {
    forall|a: S, b: S| #[trigger] plus.requires((a, b))
}

/// The crossfade `mix`, called as `mix(leaving, entering, out_weight,
/// in_weight, size)` for `(leaving * out_weight + entering * in_weight) /
/// size`, accepts all samples with weights that add up to `size`.
pub open spec fn mix_total<S, X: Fn(S, S, usize, usize, usize) -> S>(mix: &X) -> bool {
    forall|leaving: S, entering: S, out_weight: usize, in_weight: usize, size: usize|
        out_weight + in_weight == size ==> #[trigger] mix.requires(
            (leaving, entering, out_weight, in_weight, size),
        )
}

/// `sums` are the running values of an accumulation by `mac` of bin `k` of the
/// first `n` blocks of `a` times bin `k` of the same block of `b`, in the order
/// of the blocks. Both hold blocks of `width` bins back to back.
pub open spec fn running_sums<C, M: Fn(C, C, C) -> C>(
    mac: &M,
    a: Seq<C>,
    b: Seq<C>,
    width: int,
    k: int,
    n: int,
    sums: Seq<C>,
) -> bool {
    &&& sums.len() == n + 1
    &&& forall|j: int|
        0 <= j < n ==> mac.ensures((sums[j], a[j * width + k], b[j * width + k]), #[trigger] sums[j + 1])
}

/// `end` is a value that `mac` may reach from `start` by accumulating bin `k`
/// of the first `n` blocks of `a` times bin `k` of the same block of `b`.
pub open spec fn accumulates<C, M: Fn(C, C, C) -> C>(
    mac: &M,
    a: Seq<C>,
    b: Seq<C>,
    width: int,
    k: int,
    n: int,
    start: C,
    end: C,
) -> bool {
    exists|sums: Seq<C>| #[trigger]
        running_sums(mac, a, b, width, k, n, sums) && sums[0] == start && sums[n] == end
}

/// One more block: running sums over `n` blocks, with one more value that
/// `mac` may give for the last of them and block `n`, are running sums over
/// `n + 1` blocks.
pub proof fn lemma_running_sums_step<C, M: Fn(C, C, C) -> C>(
    mac: &M,
    a: Seq<C>,
    b: Seq<C>,
    width: int,
    k: int,
    n: int,
    sums: Seq<C>,
    next: C,
)
    requires
        n >= 0,
        running_sums(mac, a, b, width, k, n, sums),
        mac.ensures((sums[n], a[n * width + k], b[n * width + k]), next),
    ensures
        running_sums(mac, a, b, width, k, n + 1, sums.push(next)),
        sums.push(next)[0] == sums[0],
        sums.push(next)[n + 1] == next,
{
    let longer = sums.push(next);
    assert forall|j: int| 0 <= j < n + 1 implies mac.ensures(
        (longer[j], a[j * width + k], b[j * width + k]),
        #[trigger] longer[j + 1],
    ) by {
        if j < n {
            assert(longer[j + 1] == sums[j + 1]);
            assert(longer[j] == sums[j]);
        } else {
            assert(longer[j] == sums[n]);
        }
    }
}

} // verus!
