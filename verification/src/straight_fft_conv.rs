//! Convolution in one piece: both sequences are transformed whole, the
//! spectra multiplied, and the product transformed back. It is what the
//! partitioned engine is measured against.

use crate::buffers::{filled, write_at};
use crate::kernel::{mac_total, maps_to, transform_fits};
use vstd::prelude::*;

verus! {

/// The length of the transform for a signal and a filter: twice the longer
/// of the two.
pub open spec fn straight_len(signal: int, filter: int) -> int {
    if filter > signal {
        2 * filter
    } else {
        2 * signal
    }
}

/// `xs` followed by silence up to the length `n`.
pub open spec fn padded<S>(xs: Seq<S>, n: int, silence: S) -> Seq<S> {
    xs + Seq::new((n - xs.len()) as nat, |i: int| silence)
}

/// `products` holds, bin by bin, a value that `mac` may give for `zero` and
/// the two bins.
pub open spec fn multiplied<C, M: Fn(C, C, C) -> C>(
    mac: &M,
    zero: C,
    a: Seq<C>,
    b: Seq<C>,
    products: Seq<C>,
) -> bool {
    &&& a.len() == products.len()
    &&& b.len() == products.len()
    &&& forall|k: int|
        0 <= k < products.len() ==> mac.ensures((zero, a[k], b[k]), #[trigger] products[k])
}

/// `out` is a result that the convolution in one piece may give: the
/// transform back of the products of the spectra of the padded signal and
/// the padded filter.
pub open spec fn straight_convolved<
    S,
    C,
    F: Fn(&Vec<S>) -> Vec<C>,
    M: Fn(C, C, C) -> C,
    I: Fn(&Vec<C>) -> Vec<S>,
>(
    fft: &F,
    mac: &M,
    ifft: &I,
    silence: S,
    zero: C,
    signal: Seq<S>,
    filter: Seq<S>,
    out: Seq<S>,
) -> bool {
    let n = straight_len(signal.len() as int, filter.len() as int);
    exists|signal_spectrum: Seq<C>, filter_spectrum: Seq<C>, products: Seq<C>|
        #![trigger multiplied(mac, zero, signal_spectrum, filter_spectrum, products)]
        {
            &&& maps_to(fft, padded(signal, n, silence), signal_spectrum)
            &&& maps_to(fft, padded(filter, n, silence), filter_spectrum)
            &&& multiplied(mac, zero, signal_spectrum, filter_spectrum, products)
            &&& maps_to(ifft, products, out)
        }
}

/// Convolves `signal` with `filter` in one piece. The result is as long as
/// the transform, twice the longer of the two.
pub fn straight_fft_conv<
    S: Copy,
    C: Copy,
    F: Fn(&Vec<S>) -> Vec<C>,
    M: Fn(C, C, C) -> C,
    I: Fn(&Vec<C>) -> Vec<S>,
>(signal: &Vec<S>, filter: &Vec<S>, silence: S, zero: C, fft: &F, mac: &M, ifft: &I) -> (out: Vec<
    S,
>)
    requires
        2 * signal.len() <= usize::MAX,
        2 * filter.len() <= usize::MAX,
        transform_fits(
            fft,
            straight_len(signal.len() as int, filter.len() as int),
            straight_len(signal.len() as int, filter.len() as int) / 2 + 1,
        ),
        transform_fits(
            ifft,
            straight_len(signal.len() as int, filter.len() as int) / 2 + 1,
            straight_len(signal.len() as int, filter.len() as int),
        ),
        mac_total(mac),
    ensures
        out.len() == straight_len(signal.len() as int, filter.len() as int),
        straight_convolved(fft, mac, ifft, silence, zero, signal@, filter@, out@),
{
    let fft_len: usize = if filter.len() > signal.len() {
        2 * filter.len()
    } else {
        2 * signal.len()
    };
    let mut fft_input_buff = filled(fft_len, silence);
    write_at(&mut fft_input_buff, 0, signal.as_slice());
    assert(fft_input_buff@ =~= padded(signal@, fft_len as int, silence));
    let signal_spectrum = fft(&fft_input_buff);
    let mut fft_input_buff = filled(fft_len, silence);
    write_at(&mut fft_input_buff, 0, filter.as_slice());
    assert(fft_input_buff@ =~= padded(filter@, fft_len as int, silence));
    let filter_spectrum = fft(&fft_input_buff);
    let bins: usize = signal_spectrum.len();
    let mut ifft_input_buff = filled(bins, zero);
    let mut k: usize = 0;
    while k < bins
        invariant
            0 <= k <= bins,
            bins == signal_spectrum.len(),
            bins == filter_spectrum.len(),
            ifft_input_buff.len() == bins,
            mac_total(mac),
            forall|j: int| k <= j < bins ==> ifft_input_buff[j] == zero,
            forall|j: int|
                0 <= j < k ==> mac.ensures(
                    (zero, signal_spectrum[j], filter_spectrum[j]),
                    #[trigger] ifft_input_buff[j],
                ),
        decreases bins - k,
    {
        let product = mac(ifft_input_buff[k], signal_spectrum[k], filter_spectrum[k]);
        ifft_input_buff[k] = product;
        k += 1;
    }
    let out = ifft(&ifft_input_buff);
    proof {
        assert(multiplied(mac, zero, signal_spectrum@, filter_spectrum@, ifft_input_buff@));
        assert(maps_to(ifft, ifft_input_buff@, out@));
    }
    out
}

} // verus!
