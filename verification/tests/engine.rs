use convrs::conv::Conv;
use convrs::helpers::process_filter;
use convrs::moving_conv::MovingConv;
use convrs::non_thread::NoThreadConv;
use convrs::partition::PlanError;
use convrs::scheduler::{FdlConfig, Scheduler};
use convrs::worker::{Worker, WorkerEvent};
use convrs::straight_fft_conv::straight_fft_conv;
use convrs::upconv::{FdlKey, UPConv};
use realfft::num_complex::Complex;
use realfft::RealFftPlanner;

type Bin = Complex<f32>;

fn forward(window: &Vec<f32>) -> Vec<Bin> {
    let mut planner = RealFftPlanner::<f32>::new();
    let fft = planner.plan_fft_forward(window.len());
    let mut input = window.clone();
    let mut output = fft.make_output_vec();
    fft.process(&mut input, &mut output).unwrap();
    output
}

fn inverse(spectrum: &Vec<Bin>) -> Vec<f32> {
    let n = (spectrum.len() - 1) * 2;
    let mut planner = RealFftPlanner::<f32>::new();
    let ifft = planner.plan_fft_inverse(n);
    let mut input = spectrum.clone();
    let mut output = ifft.make_output_vec();
    ifft.process(&mut input, &mut output).unwrap();
    output.iter().map(|s| s / n as f32).collect()
}

fn mac(sum: Bin, a: Bin, b: Bin) -> Bin {
    sum + a * b
}

fn plus(a: f32, b: f32) -> f32 {
    a + b
}

fn mix(leaving: f32, entering: f32, out_weight: usize, in_weight: usize, size: usize) -> f32 {
    (leaving * out_weight as f32 + entering * in_weight as f32) / size as f32
}

fn zero() -> Bin {
    Complex { re: 0.0, im: 0.0 }
}

fn direct(signal: &[f32], ir: &[f32]) -> Vec<f32> {
    let mut out = vec![0.0f32; signal.len()];
    for n in 0..signal.len() {
        let mut sum = 0.0f32;
        for (j, h) in ir.iter().enumerate() {
            if j <= n {
                sum += h * signal[n - j];
            }
        }
        out[n] = sum;
    }
    out
}

fn noise(n: usize, seed: u32) -> Vec<f32> {
    let mut state = seed;
    let mut out = Vec::with_capacity(n);
    for _ in 0..n {
        state = state.wrapping_mul(1664525).wrapping_add(1013904223);
        out.push(((state >> 8) as f32 / (1u32 << 24) as f32) * 2.0 - 1.0);
    }
    out
}

fn drain(workers: &mut Vec<Worker<f32, Bin>>) {
    for worker in workers.iter_mut() {
        loop {
            match worker.step(&forward, &mac, &inverse, &mix) {
                WorkerEvent::Idle | WorkerEvent::Closed => break,
                _ => {}
            }
        }
    }
}

fn run(plan: &[(usize, usize)], irs: &[Vec<f32>], signals: &[Vec<f32>]) -> Vec<Vec<f32>> {
    let channels = irs.len();
    let block = plan[0].0;
    let (mut conv, mut workers) = Conv::new(plan, channels, 0.0f32, zero()).unwrap();
    let spectra = process_filter(irs, plan, 0.0f32, zero(), &forward).unwrap();
    assert_eq!(spectra.len(), conv.spectrum_len());
    conv.set_filter(&spectra);
    drain(&mut workers);
    let mut outs = vec![Vec::new(); channels];
    for start in (0..signals[0].len()).step_by(block) {
        let blocks: Vec<Vec<f32>> =
            signals.iter().map(|s| s[start..start + block].to_vec()).collect();
        let out = conv.process_block(&blocks, &forward, &mac, &inverse, &mix, &plus);
        for c in 0..channels {
            outs[c].extend_from_slice(&out[c]);
        }
        drain(&mut workers);
    }
    for i in 0..conv.segments() {
        assert_eq!(conv.overruns(i), 0);
        assert_eq!(conv.underruns(i), 0);
    }
    outs
}

fn assert_close(got: &[f32], want: &[f32]) {
    assert_eq!(got.len(), want.len());
    for i in 0..got.len() {
        assert!((got[i] - want[i]).abs() < 1e-4, "sample {}: {} against {}", i, got[i], want[i]);
    }
}

#[test]
fn single_partition_matches_direct_convolution() {
    let plan = [(8usize, 3usize)];
    let ir = noise(24, 1);
    let signal = noise(8 * 12, 2);
    let outs = run(&plan, &[ir.clone()], &[signal.clone()]);
    assert_close(&outs[0], &direct(&signal, &ir));
}

#[test]
fn two_partitions_match_direct_convolution() {
    let plan = [(4usize, 4usize), (8, 2)];
    let ir = noise(32, 3);
    let signal = noise(4 * 40, 4);
    let outs = run(&plan, &[ir.clone()], &[signal.clone()]);
    assert_close(&outs[0], &direct(&signal, &ir));
}

#[test]
fn three_partitions_two_channels_match_direct_convolution() {
    let plan = [(4usize, 4usize), (8, 4), (32, 2)];
    let ir_l = noise(16 + 32 + 64, 5);
    let ir_r = noise(100, 6);
    let signal_l = noise(4 * 64, 7);
    let signal_r = noise(4 * 64, 8);
    let outs = run(&plan, &[ir_l.clone(), ir_r.clone()], &[signal_l.clone(), signal_r.clone()]);
    assert_close(&outs[0], &direct(&signal_l, &ir_l));
    assert_close(&outs[1], &direct(&signal_r, &ir_r));
}

#[test]
fn two_plans_give_the_same_output() {
    let ir = noise(64, 9);
    let signal = noise(4 * 48, 10);
    let one = run(&[(4, 16)], &[ir.clone()], &[signal.clone()]);
    let two = run(&[(4, 8), (16, 2)], &[ir.clone()], &[signal.clone()]);
    let three = run(&[(4, 4), (8, 4), (32, 1)], &[ir.clone()], &[signal.clone()]);
    assert_close(&one[0], &two[0]);
    assert_close(&one[0], &three[0]);
}

#[test]
fn unit_impulse_response_gives_the_signal_back() {
    let signal: Vec<f32> = (0..64).map(|i| 0.5f32 / (1 << (i % 5)) as f32 * if i % 2 == 0 { 1.0 } else { -1.0 }).collect();
    assert_eq!(&signal[0..3], &[0.5, -0.25, 0.125]);
    let outs = run(&[(8, 4), (16, 1)], &[vec![1.0]], &[signal.clone()]);
    for i in 0..signal.len() {
        assert!((outs[0][i] - signal[i]).abs() < 1e-6);
    }
}

#[test]
fn impulse_through_constant_response_matches_the_fir_sum() {
    let ir = vec![0.1f32; 512];
    let mut signal = vec![0.0f32; 128 * 6];
    signal[0] = 1.0;
    let outs = run(&[(128, 4)], &[ir], &[signal]);
    for n in 0..512 {
        assert!((outs[0][n] - 0.1).abs() < 1e-6, "sample {}: {}", n, outs[0][n]);
    }
    for n in 512..128 * 6 {
        assert!(outs[0][n].abs() < 1e-6, "sample {}: {}", n, outs[0][n]);
    }
}

#[test]
fn silence_in_gives_silence_out_after_the_response_has_passed() {
    let ir = noise(32, 11);
    let mut signal = noise(4 * 10, 12);
    signal.extend(vec![0.0f32; 4 * 30]);
    let outs = run(&[(4, 4), (8, 2)], &[ir], &[signal]);
    for n in (40 + 32 + 8)..outs[0].len() {
        assert!(outs[0][n].abs() < 1e-6, "sample {}: {}", n, outs[0][n]);
    }
}

#[test]
fn filter_of_nothing_gives_silence() {
    let signal = noise(4 * 20, 13);
    let outs = run(&[(4, 4), (8, 2)], &[vec![0.0f32; 32]], &[signal.clone()]);
    assert!(outs[0].iter().all(|s| *s == 0.0));
    // no filter installed at all
    let (mut conv, _workers) = Conv::new(&[(4, 4)], 1, 0.0f32, zero()).unwrap();
    let out = conv.process_block(&[signal[0..4].to_vec()], &forward, &mac, &inverse, &mix, &plus);
    assert_eq!(out, &vec![vec![0.0f32; 4]]);
}

#[test]
fn process_filter_is_the_same_twice() {
    let plan = [(4usize, 4usize), (8, 4), (32, 2)];
    let irs = [noise(100, 14), noise(112, 15)];
    let first = process_filter(&irs, &plan, 0.0f32, zero(), &forward).unwrap();
    let second = process_filter(&irs, &plan, 0.0f32, zero(), &forward).unwrap();
    assert_eq!(first.len(), (5 * 4 + 9 * 4 + 33 * 2) * 2);
    assert_eq!(first.len(), second.len());
    for (a, b) in first.iter().zip(second.iter()) {
        assert_eq!(a.re.to_bits(), b.re.to_bits());
        assert_eq!(a.im.to_bits(), b.im.to_bits());
    }
}

#[test]
fn process_filter_lays_the_taps_out_by_partition_channel_and_tap() {
    let plan = [(2usize, 2usize), (4, 1)];
    let irs = [vec![1.0f32, 2.0, 3.0, 4.0, 5.0], vec![6.0f32]];
    let spectra = process_filter(&irs, &plan, 0.0f32, zero(), &forward).unwrap();
    assert_eq!(spectra.len(), 3 * 2 * 2 + 5 * 1 * 2);
    let tap = |chunk: &[f32], block: usize| {
        let mut window = vec![0.0f32; 2 * block];
        window[..chunk.len()].copy_from_slice(chunk);
        forward(&window)
    };
    assert_eq!(&spectra[0..3], &tap(&[1.0, 2.0], 2)[..]);
    assert_eq!(&spectra[3..6], &tap(&[3.0, 4.0], 2)[..]);
    assert_eq!(&spectra[6..9], &tap(&[6.0], 2)[..]);
    assert_eq!(&spectra[9..12], &vec![zero(); 3][..]);
    assert_eq!(&spectra[12..17], &tap(&[5.0], 4)[..]);
    assert_eq!(&spectra[17..22], &vec![zero(); 5][..]);
}

#[test]
fn process_filter_rejects_a_plan_that_no_engine_accepts() {
    let irs = [vec![1.0f32; 8]];
    assert_eq!(process_filter(&irs, &[], 0.0f32, zero(), &forward), Err(PlanError::Empty));
    assert_eq!(
        process_filter(&irs, &[(4, 2), (6, 1)], 0.0f32, zero(), &forward),
        Err(PlanError::NotDivisible)
    );
    let none: [Vec<f32>; 0] = [];
    assert_eq!(
        process_filter(&none, &[(4, 2)], 0.0f32, zero(), &forward),
        Err(PlanError::NoChannels)
    );
}

#[test]
fn engine_rejects_what_cannot_be_built() {
    assert!(matches!(Conv::<f32, Bin>::new(&[], 2, 0.0, zero()), Err(PlanError::Empty)));
    assert!(matches!(Conv::<f32, Bin>::new(&[(4, 2)], 0, 0.0, zero()), Err(PlanError::NoChannels)));
    assert!(matches!(
        Conv::<f32, Bin>::new(&[(0, 2)], 1, 0.0, zero()),
        Err(PlanError::ZeroBlockSize)
    ));
    assert!(matches!(
        Conv::<f32, Bin>::new(&[(4, 0)], 1, 0.0, zero()),
        Err(PlanError::ZeroTapCount)
    ));
    assert!(matches!(
        Conv::<f32, Bin>::new(&[(8, 2), (4, 2)], 1, 0.0, zero()),
        Err(PlanError::NotAscending)
    ));
    assert!(matches!(
        Conv::<f32, Bin>::new(&[(4, 2), (10, 2)], 1, 0.0, zero()),
        Err(PlanError::NotDivisible)
    ));
    // the plan can be addressed, a queue of a thousand of its blocks cannot
    assert!(matches!(
        Conv::<f32, Bin>::new(&[(4, 1), (1usize << 58, 1)], 1, 0.0, zero()),
        Err(PlanError::TooLarge)
    ));
}

#[test]
fn worker_reports_what_it_did() {
    let plan = [(4usize, 4usize), (8, 2)];
    let ir = noise(32, 16);
    let (mut conv, mut workers) = Conv::new(&plan, 1, 0.0f32, zero()).unwrap();
    assert_eq!(workers.len(), 1);
    assert_eq!(workers[0].block_size(), 8);
    assert_eq!(workers[0].step(&forward, &mac, &inverse, &mix), WorkerEvent::Idle);
    let spectra = process_filter(&[ir], &plan, 0.0f32, zero(), &forward).unwrap();
    conv.set_filter(&spectra);
    assert_eq!(
        workers[0].step(&forward, &mac, &inverse, &mix),
        WorkerEvent::Installed(FdlKey::Filter)
    );
    assert_eq!(workers[0].step(&forward, &mac, &inverse, &mix), WorkerEvent::Idle);
    conv.process_block(&[vec![1.0; 4]], &forward, &mac, &inverse, &mix, &plus);
    assert_eq!(workers[0].step(&forward, &mac, &inverse, &mix), WorkerEvent::Idle);
    conv.process_block(&[vec![1.0; 4]], &forward, &mac, &inverse, &mix, &plus);
    assert_eq!(workers[0].step(&forward, &mac, &inverse, &mix), WorkerEvent::Processed(true));
    assert_eq!(workers[0].step(&forward, &mac, &inverse, &mix), WorkerEvent::Idle);
    assert_eq!(workers[0].dropped(), 0);
    assert_eq!(conv.processed(), 2);
    drop(conv);
    assert_eq!(workers[0].step(&forward, &mac, &inverse, &mix), WorkerEvent::Closed);
}

#[test]
fn starved_segment_contributes_silence_and_is_counted() {
    let plan = [(4usize, 4usize), (8, 2)];
    let ir = noise(32, 17);
    let signal = noise(4 * 10, 18);
    let (mut conv, _workers) = Conv::new(&plan, 1, 0.0f32, zero()).unwrap();
    let spectra = process_filter(&[ir.clone()], &plan, 0.0f32, zero(), &forward).unwrap();
    conv.set_filter(&spectra);
    let mut out = Vec::new();
    for start in (0..signal.len()).step_by(4) {
        let block = vec![signal[start..start + 4].to_vec()];
        out.extend_from_slice(
            &conv.process_block(&block, &forward, &mac, &inverse, &mix, &plus)[0],
        );
    }
    // collections were due in the cycles 4, 6, 8 and 10
    assert_eq!(conv.underruns(0), 4);
    assert_eq!(conv.overruns(0), 0);
    assert_close(&out, &direct(&signal, &ir[0..16]));
}

#[test]
fn full_queue_is_counted() {
    let plan = [(4usize, 4usize), (8, 2)];
    let (mut conv, _workers) = Conv::new(&plan, 1, 0.0f32, zero()).unwrap();
    let spectra = vec![zero(); conv.spectrum_len()];
    conv.set_filter(&spectra);
    conv.set_filter(&spectra);
    assert_eq!(conv.overruns(0), 0);
    conv.set_filter(&spectra);
    assert_eq!(conv.overruns(0), 1);
    for _ in 0..2000 {
        conv.process_block(&[vec![0.0; 4]], &forward, &mac, &inverse, &mix, &plus);
    }
    assert_eq!(conv.overruns(0), 1);
    for _ in 0..10 {
        conv.process_block(&[vec![0.0; 4]], &forward, &mac, &inverse, &mix, &plus);
    }
    assert_eq!(conv.overruns(0), 6);
}

#[test]
fn swapped_filter_fades_in_without_a_jump() {
    let plan = [(64usize, 2usize)];
    let ir_a: Vec<f32> = (0..128).map(|i| 0.5f32 / (1.0 + i as f32)).collect();
    let ir_b: Vec<f32> = ir_a.iter().map(|h| -h).collect();
    let signal: Vec<f32> = (0..64 * 8).map(|n| (n as f32 * 0.05).sin()).collect();
    let spectra_a = process_filter(&[ir_a.clone()], &plan, 0.0f32, zero(), &forward).unwrap();
    let spectra_b = process_filter(&[ir_b.clone()], &plan, 0.0f32, zero(), &forward).unwrap();
    let (mut conv, _workers) = Conv::new(&plan, 1, 0.0f32, zero()).unwrap();
    conv.set_filter(&spectra_a);
    let mut out = Vec::new();
    for (k, start) in (0..signal.len()).step_by(64).enumerate() {
        if k == 4 {
            conv.set_filter(&spectra_b);
        }
        let block = vec![signal[start..start + 64].to_vec()];
        out.extend_from_slice(
            &conv.process_block(&block, &forward, &mac, &inverse, &mix, &plus)[0],
        );
    }
    let kept = direct(&signal, &ir_a);
    let other = direct(&signal, &ir_b);
    // before the swap the old filter, after the fade the new one
    assert_close(&out[0..256], &kept[0..256]);
    assert_close(&out[320..], &other[320..]);
    // the fade starts at the old filter's output and moves linearly to the new one's
    assert!((out[256] - kept[256]).abs() < 1e-5);
    for i in 0..64 {
        let w = i as f32 / 64.0;
        let want = kept[256 + i] * (1.0 - w) + other[256 + i] * w;
        assert!((out[256 + i] - want).abs() < 1e-4);
    }
    // no step in the output is larger than the steps of the two signals and of the window
    let step = |x: &[f32]| x.windows(2).map(|p| (p[1] - p[0]).abs()).fold(0.0f32, f32::max);
    let peak = kept.iter().map(|s| s.abs()).fold(0.0f32, f32::max);
    assert!(step(&out[250..330]) <= step(&kept) + 2.0 * peak / 64.0 + 1e-4);
    // an instantaneous swap at a peak would have jumped by twice the peak
    assert!(2.0 * peak > 10.0 * step(&out[250..330]));
}

#[test]
fn engine_on_one_thread_matches_direct_convolution() {
    // the second partition is due in the very cycle in which its block is handed over
    let plan = [(4usize, 2usize), (8, 2)];
    let ir = noise(24, 19);
    let signal = noise(4 * 30, 20);
    let mut conv = NoThreadConv::new(&plan, 1, 0.0f32, zero()).unwrap();
    let spectra = process_filter(&[ir.clone()], &plan, 0.0f32, zero(), &forward).unwrap();
    assert_eq!(spectra.len(), conv.spectrum_len());
    conv.set_filter(&spectra, &forward, &mac, &inverse, &mix);
    let mut out = Vec::new();
    for start in (0..signal.len()).step_by(4) {
        let block = vec![signal[start..start + 4].to_vec()];
        out.extend_from_slice(
            &conv.process_block(&block, &forward, &mac, &inverse, &mix, &plus)[0],
        );
    }
    assert_close(&out, &direct(&signal, &ir));
}

#[test]
fn straight_fft_conv_matches_direct_convolution() {
    let signal = noise(50, 21);
    let filter = noise(20, 22);
    let out = straight_fft_conv(&signal, &filter, 0.0f32, zero(), &forward, &mac, &inverse);
    assert_eq!(out.len(), 100);
    let mut padded = signal.clone();
    padded.resize(100, 0.0);
    assert_close(&out, &direct(&padded, &filter));
    let longer = straight_fft_conv(&filter, &signal, 0.0f32, zero(), &forward, &mac, &inverse);
    assert_close(&longer, &out);
}

#[test]
fn scheduler_feeds_follow_the_configuration() {
    let plan = [(4usize, 4usize), (8, 2)];
    let configs = [
        FdlConfig { name: FdlKey::Signal, complex_ringbuff: true, real_ringbuff: false, moving: false },
        FdlConfig { name: FdlKey::Filter, complex_ringbuff: true, real_ringbuff: false, moving: false },
        FdlConfig { name: FdlKey::Signal, complex_ringbuff: false, real_ringbuff: true, moving: true },
    ];
    assert_eq!(convrs::scheduler::resolve(&configs, FdlKey::Signal), configs[2]);
    assert_eq!(convrs::scheduler::resolve(&configs, FdlKey::Filter), configs[1]);
    assert_eq!(
        convrs::scheduler::resolve(&configs[0..1], FdlKey::Filter),
        FdlConfig { name: FdlKey::Filter, complex_ringbuff: false, real_ringbuff: false, moving: false }
    );
    let (mut scheduler, mut workers) =
        Scheduler::<f32, Bin>::new(&plan, &configs, 1, 0.0, zero()).unwrap();
    assert_eq!(scheduler.block_size(), 4);
    assert_eq!(scheduler.channels(), 1);
    assert_eq!(scheduler.segments(), 1);
    assert_eq!(scheduler.spectrum_len(), 5 * 4 + 9 * 2);
    let ir = noise(32, 23);
    let signal = noise(4 * 20, 24);
    let spectra = process_filter(&[ir.clone()], &plan, 0.0f32, zero(), &forward).unwrap();
    scheduler.set(FdlKey::Filter, &spectra);
    drain(&mut workers);
    let mut out = Vec::new();
    for start in (0..signal.len()).step_by(4) {
        let block = vec![signal[start..start + 4].to_vec()];
        scheduler.push(&block, FdlKey::Signal, true, &forward);
        drain(&mut workers);
        out.extend_from_slice(&scheduler.process(&mac, &inverse, &mix, &plus)[0]);
        assert_eq!(scheduler.front()[0].len(), 4);
    }
    assert_eq!(scheduler.pushed(FdlKey::Signal), 20);
    assert_eq!(scheduler.pushed(FdlKey::Filter), 0);
    assert_eq!(scheduler.processed(), 20);
    assert_close(&out, &direct(&signal, &ir));
}

#[test]
fn queue_sizes_and_fault_counts() {
    assert_eq!(convrs::scheduler::queue_slots(8, 2, 1000, 4), Some(16000));
    assert_eq!(convrs::scheduler::queue_slots(usize::MAX, 2, 1, 4), None);
    assert_eq!(convrs::scheduler::queue_slots(usize::MAX, 2, 0, 4), Some(0));
    assert_eq!(convrs::scheduler::queue_slots(1 << 40, 1 << 20, 1, 16), None);
    assert_eq!(convrs::scheduler::count_fault(3, true), 3);
    assert_eq!(convrs::scheduler::count_fault(3, false), 4);
    assert_eq!(convrs::scheduler::count_fault(usize::MAX, false), usize::MAX);
    assert!(convrs::scheduler::check_queues::<f32, Bin>(&[(4, 4), (8, 2)], 2));
    assert!(!convrs::scheduler::check_queues::<f32, Bin>(&[(4, 4), (1 << 58, 1)], 1));
    let mut acc = vec![vec![0.0f32; 6], vec![1.0; 6]];
    convrs::scheduler::mix_in(&mut acc, &vec![1.0, 2.0, 3.0, 4.0], 2, 1, &plus);
    assert_eq!(acc, vec![vec![0.0, 1.0, 2.0, 0.0, 0.0, 0.0], vec![1.0, 4.0, 5.0, 1.0, 1.0, 1.0]]);
}

#[test]
fn main_test() {
    // two convolvers side by side: blocks of 128 for the first 4096 samples of the
    // response, blocks of 512 for the rest, whose output lies 4096 samples later
    let filter_samples = noise(4096 + 1024, 25);
    let signal_samples_left = noise(128 * 48, 26);
    let signal_samples_right = noise(128 * 48, 27);
    let first = &filter_samples[0..4096];
    let second = &filter_samples[4096..];
    let first_plan = [(128usize, 32usize)];
    let second_plan = [(512usize, 2usize)];
    let first_spectra =
        process_filter(&[first.to_vec()], &first_plan, 0.0f32, zero(), &forward).unwrap();
    let second_spectra =
        process_filter(&[second.to_vec()], &second_plan, 0.0f32, zero(), &forward).unwrap();
    let mut outs = Vec::new();
    for signal in [&signal_samples_left, &signal_samples_right] {
        let mut first_conv: UPConv<f32, Bin> = UPConv::new(128, 1, 32, 0.0, zero());
        let mut second_conv: UPConv<f32, Bin> = UPConv::new(512, 1, 2, 0.0, zero());
        first_conv.set_filter(&first_spectra);
        second_conv.set_filter(&second_spectra);
        let mut out = vec![0.0f32; signal.len() + 4096];
        let mut i = 0;
        for chunk in signal.chunks_exact(128) {
            let block = first_conv.process_block(&[chunk.to_vec()], &forward, &mac, &inverse, &mix);
            for j in 0..128 {
                out[j + i] += block[0][j];
            }
            i += 128;
        }
        i = 4096;
        for chunk in signal.chunks_exact(512) {
            let block = second_conv.process_block(&[chunk.to_vec()], &forward, &mac, &inverse, &mix);
            for j in 0..512 {
                out[j + i] += block[0][j];
            }
            i += 512;
        }
        outs.push(out);
    }
    let want_left = direct(&signal_samples_left, &filter_samples);
    let want_right = direct(&signal_samples_right, &filter_samples);
    for n in 0..want_left.len() {
        assert!((outs[0][n] - want_left[n]).abs() < 1e-3);
        assert!((outs[1][n] - want_right[n]).abs() < 1e-3);
    }
}

#[test]
fn correctness() {
    // a filter that moves: one block of it is pushed before every block of the signal
    let partition = [(128usize, 22usize)];
    let signal = (noise(128 * 30, 28), noise(128 * 30, 29));
    let long = [noise(128 * 22, 30), noise(128 * 22, 31)];
    let (mut conv, workers) = MovingConv::new(2, &partition, 0.0f32, zero()).unwrap();
    assert!(workers.is_empty());
    let mut test_l_out = vec![];
    let mut test_r_out = vec![];
    let mut l_filter_iter = long[0].chunks_exact(128);
    let mut r_filter_iter = long[1].chunks_exact(128);
    let mut pushed = 0;
    for (l_block, r_block) in signal.0.chunks_exact(128).zip(signal.1.chunks_exact(128)) {
        match (l_filter_iter.next(), r_filter_iter.next()) {
            (Some(l_chunk), Some(r_chunk)) => {
                conv.push_filter_chunk(&[l_chunk.to_vec(), r_chunk.to_vec()], &forward);
                pushed += 1;
            }
            _ => {}
        }
        let out = conv.process_block(
            &[l_block.to_vec(), r_block.to_vec()],
            &forward,
            &mac,
            &inverse,
            &mix,
            &plus,
        );
        test_l_out.extend_from_slice(&out[0]);
        test_r_out.extend_from_slice(&out[1]);
    }
    assert_eq!(pushed, 22);
    assert_eq!(test_l_out.len(), 128 * 30);
    assert_eq!(test_r_out.len(), 128 * 30);
    assert!(test_l_out.iter().all(|s| s.is_finite()));
    assert!(test_l_out.iter().any(|s| *s != 0.0));
    assert!(test_r_out.iter().any(|s| *s != 0.0));
}

#[test]
fn worker_without_queues_is_closed() {
    let plan = [(4usize, 4usize), (8, 2)];
    let (scheduler, mut workers) = Scheduler::<f32, Bin>::new(&plan, &[], 1, 0.0, zero()).unwrap();
    assert_eq!(scheduler.segments(), 1);
    assert_eq!(workers[0].step(&forward, &mac, &inverse, &mix), WorkerEvent::Closed);
    assert_eq!(workers[0].step(&forward, &mac, &inverse, &mix), WorkerEvent::Closed);
    assert_eq!(workers[0].dropped(), 0);
}
