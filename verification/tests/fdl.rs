use convrs::envelopes::{linear_envelope, FadeDirection};
use convrs::fdl::Fdl;
use convrs::upconv::{FdlKey, UPConv};
use convrs::worker::Station;

// Integer stand-ins for the transforms and the arithmetic, so that every
// expected value is exact.

fn forward(window: &Vec<i64>) -> Vec<i64> {
    let b = window.len() / 2;
    (0..=b).map(|k| window[k] + 10 * window[(k + b) % window.len()]).collect()
}

fn inverse(bins: &Vec<i64>) -> Vec<i64> {
    let b = bins.len() - 1;
    (0..2 * b).map(|i| bins[i % (b + 1)] + i as i64).collect()
}

fn mac(sum: i64, a: i64, b: i64) -> i64 {
    sum + a * b
}

fn mix(leaving: i64, entering: i64, out_weight: usize, in_weight: usize, size: usize) -> i64 {
    assert_eq!(out_weight + in_weight, size);
    leaving * out_weight as i64 + entering * in_weight as i64
}

#[test]
fn new_delay_line_is_empty() {
    let fdl: Fdl<i64, i64> = Fdl::new(2, 3, 2, 0, 0);
    assert_eq!(fdl.block_size(), 2);
    assert_eq!(fdl.num_blocks(), 3);
    assert_eq!(fdl.channels(), 2);
    assert_eq!(fdl.get_channel(0), &[0i64; 9][..]);
    assert_eq!(fdl.get_channel(1), &[0i64; 9][..]);
}

#[test]
fn set_buffer_cuts_the_spectra_by_channel() {
    let mut fdl: Fdl<i64, i64> = Fdl::new(1, 2, 2, 0, 0);
    fdl.set_buffer(&[1, 2, 3, 4, 5, 6, 7, 8]);
    assert_eq!(fdl.get_channel(0), &[1i64, 2, 3, 4][..]);
    assert_eq!(fdl.get_channel(1), &[5i64, 6, 7, 8][..]);
}

#[test]
fn push_block_slides_the_window_and_shifts_the_spectra() {
    let mut fdl: Fdl<i64, i64> = Fdl::new(2, 3, 2, 0, 0);
    fdl.push_block(&[1, 2], &forward, true, 0);
    // window [0, 0, 1, 2]: bins 0 + 10 * 1, 0 + 10 * 2, 1 + 10 * 0
    assert_eq!(fdl.get_channel(0), &[10i64, 20, 1, 0, 0, 0, 0, 0, 0][..]);
    fdl.push_block(&[3, 4], &forward, true, 0);
    // window [1, 2, 3, 4]: bins 1 + 30, 2 + 40, 3 + 10
    assert_eq!(fdl.get_channel(0), &[31i64, 42, 13, 10, 20, 1, 0, 0, 0][..]);
    fdl.push_block(&[5, 6], &forward, true, 0);
    fdl.push_block(&[7, 8], &forward, true, 0);
    // the first spectrum has left, the other channel was never touched
    assert_eq!(fdl.get_channel(0), &[75i64, 86, 57, 53, 64, 35, 31, 42, 13][..]);
    assert_eq!(fdl.get_channel(1), &[0i64; 9][..]);
}

#[test]
fn push_block_without_sliding_pads_with_silence() {
    let mut fdl: Fdl<i64, i64> = Fdl::new(2, 2, 1, -1, 0);
    fdl.push_block(&[1, 2], &forward, true, 0);
    fdl.push_block(&[3, 4], &forward, false, 0);
    // first window [-1, -1, 1, 2]: bins -1 + 10, -1 + 20, 1 - 10
    // then window [3, 4, -1, -1]: bins 3 - 10, 4 - 10, -1 + 30
    assert_eq!(fdl.get_channel(0), &[-7i64, -6, 29, 9, 19, -9][..]);
}

#[test]
fn mul_blocks_accumulates_block_by_block() {
    let mut signal: Fdl<i64, i64> = Fdl::new(1, 2, 2, 0, 0);
    let mut filter: Fdl<i64, i64> = Fdl::new(1, 2, 2, 0, 0);
    signal.set_buffer(&[1, 2, 3, 4, 5, 6, 7, 8]);
    filter.set_buffer(&[10, 20, 30, 40, 50, 60, 70, 80]);
    let mut acc = vec![100i64, 200, 300];
    signal.mul_blocks(&filter, &mut acc, 1, &mac);
    // bin 0: 100 + 5 * 50 + 7 * 70, bin 1: 200 + 6 * 60 + 8 * 80, the rest stays
    assert_eq!(acc, vec![840i64, 1200, 300]);
    let mut short = vec![0i64];
    signal.mul_blocks(&filter, &mut short, 0, &mac);
    assert_eq!(short, vec![1 * 10 + 3 * 30]);
}

#[test]
fn linear_envelope_counts_the_weight() {
    assert_eq!(linear_envelope(0, 128, FadeDirection::FadeIn), 0);
    assert_eq!(linear_envelope(32, 128, FadeDirection::FadeIn), 32);
    assert_eq!(linear_envelope(128, 128, FadeDirection::FadeIn), 128);
    assert_eq!(linear_envelope(0, 128, FadeDirection::FadeOut), 128);
    assert_eq!(linear_envelope(32, 128, FadeDirection::FadeOut), 96);
    assert_eq!(linear_envelope(128, 128, FadeDirection::FadeOut), 0);
    for i in 0..=128 {
        assert_eq!(
            linear_envelope(i, 128, FadeDirection::FadeIn)
                + linear_envelope(i, 128, FadeDirection::FadeOut),
            128
        );
    }
}

#[test]
fn convolver_computes_the_second_half_of_the_transform_back() {
    let mut conv: UPConv<i64, i64> = UPConv::new(2, 1, 2, 0, 0);
    assert_eq!(conv.block_size(), 2);
    assert_eq!(conv.channels(), 1);
    assert_eq!(conv.num_blocks(), 2);
    // filter taps [1, 2, 3] and [4, 5, 6]
    conv.set_filter(&[1, 2, 3, 4, 5, 6]);
    conv.push_chunk(FdlKey::Signal, &[vec![1, 2]], true, &forward);
    // signal spectra [10, 20, 1] and [0, 0, 0]: sums 10, 40, 3
    // back: [10, 41, 5, 13, 44, 8], second half from index 2: [5, 13]
    let out = conv.process(&mac, &inverse, &mix);
    assert_eq!(out, &vec![vec![5i64, 13]]);
    let out = conv.process_block(&[vec![3, 4]], &forward, &mac, &inverse, &mix);
    // signal spectra [31, 42, 13] and [10, 20, 1]: sums 31 + 40, 84 + 100, 39 + 6
    assert_eq!(out, &vec![vec![45i64 + 2, 71 + 3]]);
    assert_eq!(conv.output(), &vec![vec![47i64, 74]]);
}

#[test]
fn convolver_without_filter_gives_the_transform_of_nothing() {
    let mut conv: UPConv<i64, i64> = UPConv::new(2, 2, 2, 0, 0);
    let out = conv.process_block(&[vec![1, 2], vec![3, 4]], &forward, &mac, &inverse, &mix);
    assert_eq!(out, &vec![vec![2i64, 3], vec![2, 3]]);
}

#[test]
fn replaced_filter_fades_over_one_block() {
    let mut conv: UPConv<i64, i64> = UPConv::new(2, 1, 1, 0, 0);
    conv.set_filter(&[1, 1, 1]);
    let first = conv.process_block(&[vec![1, 2]], &forward, &mac, &inverse, &mix).clone();
    // spectrum [10, 20, 1], filter of ones: back [10, 21, 3, 13], out [3, 13]
    assert_eq!(first, vec![vec![3i64, 13]]);
    conv.set_filter(&[2, 2, 2]);
    let faded = conv.process_block(&[vec![0, 0]], &forward, &mac, &inverse, &mix).clone();
    // window [1, 2, 0, 0]: spectrum [1, 2, 10]
    // leaving: back [1, 3, 12, 4], out [12, 4]; entering: back [2, 5, 22, 5], out [22, 5]
    // weights (2, 0) and (1, 1): 12 * 2 + 0, 4 * 1 + 5 * 1
    assert_eq!(faded, vec![vec![24i64, 9]]);
    let settled = conv.process_block(&[vec![0, 0]], &forward, &mac, &inverse, &mix).clone();
    // window of nothing: back [0, 1, 2, 3], out [2, 3], no fade any more
    assert_eq!(settled, vec![vec![2i64, 3]]);
}

#[test]
fn first_filter_is_installed_without_a_fade() {
    let mut conv: UPConv<i64, i64> = UPConv::new(2, 1, 1, 0, 0);
    conv.set_fdl_buff(&[3, 3, 3], FdlKey::Filter);
    let out = conv.process_block(&[vec![1, 0]], &forward, &mac, &inverse, &mix).clone();
    // window [0, 0, 1, 0]: spectrum [10, 0, 1], times 3: back [30, 1, 5, 33], out [5, 33]
    assert_eq!(out, vec![vec![5i64, 33]]);
}

#[test]
fn signal_spectra_can_be_installed() {
    let mut conv: UPConv<i64, i64> = UPConv::new(1, 1, 2, 0, 0);
    conv.set_fdl_buff(&[1, 2, 3, 4], FdlKey::Signal);
    conv.set_fdl_buff(&[5, 6, 7, 8], FdlKey::Filter);
    let out = conv.process(&mac, &inverse, &mix);
    // sums 5 + 21, 12 + 32: back [26, 45], out [45]
    assert_eq!(out, &vec![vec![45i64]]);
}

#[test]
fn station_takes_flat_blocks_and_gives_flat_blocks() {
    let mut station: Station<i64, i64> = Station::new(2, 2, 1, 0, 0);
    assert_eq!(station.block_size(), 2);
    assert_eq!(station.output(), &vec![0i64; 4]);
    // one tap of three bins per channel: ones for the first, twos for the second
    station.install(&[1, 1, 1, 2, 2, 2], FdlKey::Filter);
    assert_eq!(station.output(), &vec![0i64; 4]);
    // channel 0 gets [1, 2], channel 1 gets [3, 4]
    station.convolve(&vec![1, 2, 3, 4], true, &forward, &mac, &inverse, &mix);
    // channel 0: window [0, 0, 1, 2], spectrum [10, 20, 1], back [10, 21, 3, 13], out [3, 13]
    // channel 1: window [0, 0, 3, 4], spectrum [30, 40, 3], doubled [60, 80, 6],
    // back [60, 81, 8, 63], out [8, 63]
    assert_eq!(station.output(), &vec![3i64, 13, 8, 63]);
}

#[test]
fn station_pushes_blocks_into_either_delay_line() {
    let mut plain: UPConv<i64, i64> = UPConv::new(2, 2, 1, 0, 0);
    let mut station: Station<i64, i64> = Station::new(2, 2, 1, 0, 0);
    plain.push_chunk(FdlKey::Filter, &[vec![1, 2], vec![3, 4]], false, &forward);
    station.push(&vec![1, 2, 3, 4], FdlKey::Filter, false, &forward);
    let want = plain
        .process_block(&[vec![5, 6], vec![7, 8]], &forward, &mac, &inverse, &mix)
        .clone();
    station.convolve(&vec![5, 6, 7, 8], true, &forward, &mac, &inverse, &mix);
    assert_eq!(station.output(), &vec![want[0][0], want[0][1], want[1][0], want[1][1]]);
    // the filter's line holds the spectrum of [1, 2, 0, 0]: [1, 2, 10]
    // channel 0: window [0, 0, 5, 6], spectrum [50, 60, 5], products [50, 120, 50],
    // back [50, 121, 52, 53], out [52, 53]
    assert_eq!(&station.output()[0..2], &[52i64, 53]);
}
