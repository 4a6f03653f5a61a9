//! Tests of the single stages, in double precision with a plain Fourier sum.

use std::f64::consts::PI;

use swipe_rs::fold::{dot, sum};
use swipe_rs::frame::{find_peak, Analyzer};
use swipe_rs::kernel::{
    add_lobe, build_candidates, build_harmonics, build_kernels, centre_row, scale_row,
};
use swipe_rs::mel::{
    build_mel_axis, build_mel_interp, f_min, hz_to_mel, mel_fmax, mel_to_hz,
};
use swipe_rs::windows::{build_hann, build_window_interp, find_reaching, next_power_of_two};
use swipe_rs::{
    is_swipe_prime, windows_for_max, Backend, Complex, Error, Swipe, DEFAULT_MAX_WINDOW,
    HOP_SAMPLES, MEL_FREQS, MIN_WINDOW, NUM_CANDIDATES, SAMPLE_RATE,
};

/// A plain Fourier sum.
const PLAIN: u8 = 0;
/// A cheap stand-in for the spectrum that fails on samples of a million and more.
const FUSED: u8 = 1;
/// A transform that leaves a bin out.
const SHORT: u8 = 2;

/// Double-precision arithmetic with one of three transforms.
struct F64<const MODE: u8>;

impl<const MODE: u8> Backend for F64<MODE> {
    type Num = f64;
    type Plan = usize;

    fn whole(n: u64) -> f64 {
        n as f64
    }
    fn ratio(num: u64, den: u64) -> f64 {
        num as f64 / den as f64
    }
    fn pi() -> f64 {
        PI
    }
    fn lowest() -> f64 {
        f64::NEG_INFINITY
    }
    fn plus(x: f64, y: f64) -> f64 {
        x + y
    }
    fn minus(x: f64, y: f64) -> f64 {
        x - y
    }
    fn times(x: f64, y: f64) -> f64 {
        x * y
    }
    fn over(x: f64, y: f64) -> f64 {
        x / y
    }
    fn negated(x: f64) -> f64 {
        -x
    }
    fn abs(x: f64) -> f64 {
        x.abs()
    }
    fn sqrt(x: f64) -> f64 {
        x.sqrt()
    }
    fn cos(x: f64) -> f64 {
        x.cos()
    }
    fn ln(x: f64) -> f64 {
        x.ln()
    }
    fn exp(x: f64) -> f64 {
        x.exp()
    }
    fn log2(x: f64) -> f64 {
        x.log2()
    }
    fn pow(x: f64, y: f64) -> f64 {
        x.powf(y)
    }
    fn larger(x: f64, y: f64) -> f64 {
        x.max(y)
    }
    fn clamped(x: f64, lo: f64, hi: f64) -> f64 {
        x.clamp(lo, hi)
    }
    fn less(x: f64, y: f64) -> bool {
        x < y
    }
    fn at_most(x: f64, y: f64) -> bool {
        x <= y
    }
    fn floor_index(x: f64) -> isize {
        x.floor() as isize
    }
    fn plan_fft_forward(len: usize) -> usize {
        len
    }
    fn transform(plan: &usize, input: &Vec<f64>) -> Result<Vec<Complex<f64>>, String> {
        let n = *plan;
        assert_eq!(input.len(), n);
        if MODE == PLAIN {
            let turn: Vec<(f64, f64)> = (0..n)
                .map(|i| (2.0 * PI * i as f64 / n as f64).sin_cos())
                .collect();
            return Ok((0..n / 2 + 1)
                .map(|k| {
                    let (mut re, mut im) = (0.0, 0.0);
                    for (i, &x) in input.iter().enumerate() {
                        let (s, c) = turn[i * k % n];
                        re += x * c;
                        im -= x * s;
                    }
                    Complex { re, im }
                })
                .collect());
        }
        if input.iter().any(|x| x.abs() >= 1e6) {
            return Err(String::from("overload"));
        }
        let bins = if MODE == SHORT { n / 2 } else { n / 2 + 1 };
        Ok((0..bins)
            .map(|k| Complex { re: input[k], im: input[n - 1 - k] })
            .collect())
    }
}

type Plain = F64<PLAIN>;
type Fused = F64<FUSED>;
type Short = F64<SHORT>;

fn close(x: f64, y: f64) -> bool {
    (x - y).abs() < 1e-9 * y.abs().max(1.0)
}

/// A tone with a little structure, different at every sample.
fn wave(n: usize) -> Vec<f64> {
    (0..n)
        .map(|i| (i as f64 * 0.05).sin() + 0.25 * (i as f64 * 0.013).cos())
        .collect()
}

#[test]
fn kept_harmonics_are_one_and_the_primes() {
    let kept: Vec<usize> = (0..40).filter(|&h| is_swipe_prime(h)).collect();
    assert_eq!(kept, vec![1, 2, 3, 5, 7, 11, 13, 17, 19, 23, 29, 31, 37]);
    assert!(!is_swipe_prime(0));
    assert!(!is_swipe_prime(49));
    assert!(!is_swipe_prime(121));
    assert!(is_swipe_prime(7919));
    assert!(!is_swipe_prime(7919 * 7919));
    assert!(is_swipe_prime(2_147_483_647));
}

#[test]
fn bank_is_powers_of_two_up_to_the_longest() {
    assert_eq!(windows_for_max(0), vec![1024]);
    assert_eq!(windows_for_max(1023), vec![1024]);
    assert_eq!(windows_for_max(1024), vec![1024]);
    assert_eq!(windows_for_max(2047), vec![1024]);
    assert_eq!(windows_for_max(2048), vec![1024, 2048]);
    assert_eq!(windows_for_max(DEFAULT_MAX_WINDOW), vec![1024, 2048, 4096, 8192]);
    assert_eq!(windows_for_max(20_000), vec![1024, 2048, 4096, 8192, 16384]);
}

#[test]
fn powers_of_two_round_up() {
    let up: Vec<usize> = [0, 1, 2, 3, 4, 5, 1000, 1024, 1025, 8191]
        .iter()
        .map(|&n| next_power_of_two(n))
        .collect();
    assert_eq!(up, vec![1, 1, 2, 4, 4, 8, 1024, 1024, 2048, 8192]);
}

#[test]
fn mel_scale_is_linear_then_logarithmic() {
    assert!(close(hz_to_mel::<Plain>(0.0), 0.0));
    assert!(close(hz_to_mel::<Plain>(500.0), 7.5));
    assert!(close(hz_to_mel::<Plain>(1000.0), 15.0));
    assert!(close(hz_to_mel::<Plain>(6400.0), 42.0));
    assert!(close(mel_to_hz::<Plain>(7.5), 500.0));
    assert!(close(mel_to_hz::<Plain>(15.0), 1000.0));
    assert!(close(mel_to_hz::<Plain>(42.0), 6400.0));
}

#[test]
fn mel_axis_spans_its_range_in_even_steps() {
    assert!(close(f_min::<Plain>(), 27.5));
    assert!(close(mel_fmax::<Plain>(), 10068.75));
    let axis = build_mel_axis::<Plain>();
    assert_eq!(axis.len(), MEL_FREQS);
    assert!(close(axis[0], 6.875));
    assert!(close(axis[MEL_FREQS - 1], 10068.75));
    let step = hz_to_mel::<Plain>(axis[1]) - hz_to_mel::<Plain>(axis[0]);
    for j in 1..MEL_FREQS {
        let here = hz_to_mel::<Plain>(axis[j]) - hz_to_mel::<Plain>(axis[j - 1]);
        assert!((here - step).abs() < 1e-9);
    }
}

#[test]
fn mel_interpolation_stays_inside_the_spectrum() {
    let bin = SAMPLE_RATE as f64 / 2048.0;
    let freqs = vec![-5.0, 0.0, 2.25 * bin, 1023.5 * bin, 1024.0 * bin, 5000.0 * bin];
    let (lo, alpha) = build_mel_interp::<Plain>(&freqs, 2048);
    assert_eq!(lo, vec![0, 0, 2, 1023, 1023, 1023]);
    let expected = [0.0, 0.0, 0.25, 0.5, 1.0, 1.0];
    for (a, e) in alpha.iter().zip(expected.iter()) {
        assert!(close(*a, *e));
    }
}

#[test]
fn candidates_are_36_per_octave() {
    let candidates = build_candidates::<Plain>();
    assert_eq!(candidates.len(), NUM_CANDIDATES);
    assert!(close(candidates[0], 27.5));
    assert!(close(candidates[36], 55.0));
    assert!(close(candidates[144], 440.0));
    assert!(close(candidates[1] / candidates[0], 2.0_f64.powf(1.0 / 36.0)));
}

#[test]
fn hann_window_rises_and_falls() {
    let hann = build_hann::<Plain>(5);
    let expected = [0.0, 0.5, 1.0, 0.5, 0.0];
    assert_eq!(hann.len(), 5);
    for (a, e) in hann.iter().zip(expected.iter()) {
        assert!((a - e).abs() < 1e-12);
    }
}

#[test]
fn windows_flank_the_ideal_length() {
    // Eight periods at 187.5 Hz are 2048 samples, at 93.75 Hz they are 4096.
    let windows = vec![1024, 2048, 4096, 8192];
    let between = 93.75 * 2.0_f64.sqrt();
    let candidates = vec![10_000.0, 375.0, 187.5, between, 20.0];
    let (minus, plus, alpha) = build_window_interp::<Plain>(&candidates, &windows);
    assert_eq!(minus, vec![0, 0, 0, 1, 2]);
    assert_eq!(plus, vec![1, 1, 1, 2, 3]);
    let expected = [0.0, 0.0, 1.0, 0.5, 1.0];
    for (a, e) in alpha.iter().zip(expected.iter()) {
        assert!((a - e).abs() < 1e-9);
    }
}

#[test]
fn a_bank_of_one_window_serves_every_candidate() {
    let (minus, plus, alpha) =
        build_window_interp::<Plain>(&vec![27.5, 375.0, 8000.0], &vec![1024]);
    assert_eq!(minus, vec![0, 0, 0]);
    assert_eq!(plus, vec![0, 0, 0]);
    assert_eq!(alpha, vec![1.0, 0.0, 0.0]);
}

#[test]
fn a_bank_of_two_windows_is_blended_throughout() {
    let (minus, plus, _) =
        build_window_interp::<Plain>(&vec![27.5, 300.0, 8000.0], &vec![1024, 2048]);
    assert_eq!(minus, vec![0, 0, 0]);
    assert_eq!(plus, vec![1, 1, 1]);
}

#[test]
fn search_finds_the_first_that_reaches() {
    let logs = vec![10.0, 11.0, 12.0];
    assert_eq!(find_reaching::<Plain>(&logs, 9.0), 0);
    assert_eq!(find_reaching::<Plain>(&logs, 10.5), 1);
    assert_eq!(find_reaching::<Plain>(&logs, 11.0), 1);
    assert_eq!(find_reaching::<Plain>(&logs, 99.0), 2);
}

#[test]
fn sums_run_over_all_entries() {
    assert!(close(sum::<Plain>(&vec![1.0, 2.0, 4.5]), 7.5));
    assert!(close(sum::<Plain>(&Vec::new()), 0.0));
    assert!(close(dot::<Plain>(&vec![1.0, 2.0, 3.0], &vec![4.0, 5.0, 6.0]), 32.0));
}

#[test]
fn lobe_is_a_raised_cosine() {
    let freqs = vec![40.0, 50.0, 75.0, 100.0, 125.0, 150.0, 160.0];
    let mut row = vec![1.0; 7];
    add_lobe::<Plain>(&mut row, &freqs, 100.0, 100.0, 2.0);
    let expected = [1.0, 1.0, 2.0, 3.0, 2.0, 1.0, 1.0];
    for (a, e) in row.iter().zip(expected.iter()) {
        assert!((a - e).abs() < 1e-12);
    }
}

#[test]
fn harmonics_peak_at_primes_and_dip_between_them() {
    let fc = 2000.0;
    let freqs: Vec<f64> = vec![2000.0, 3000.0, 4000.0, 5000.0, 6000.0, 8000.0, 10_000.0];
    let row = build_harmonics::<Plain>(fc, &freqs);
    let w = |h: f64| 1.0 / h.sqrt();
    // 8000 Hz is the fourth harmonic: not a prime, and half way between the third and the fifth.
    let expected = [
        w(1.0),
        -0.5 * w(2.0),
        w(2.0),
        -0.5 * w(3.0),
        w(3.0),
        -0.5 * w(5.0),
        w(5.0),
    ];
    for (a, e) in row.iter().zip(expected.iter()) {
        assert!((a - e).abs() < 1e-9, "{a} {e}");
    }
}

#[test]
fn rows_are_centred_and_scaled() {
    let centred = centre_row::<Plain>(&vec![1.0, 2.0, 6.0]);
    assert_eq!(centred, vec![-2.0, -1.0, 3.0]);
    let unit = scale_row::<Plain>(vec![3.0, 0.0, -4.0]);
    assert!(close(unit[0], 0.6) && close(unit[1], 0.0) && close(unit[2], -0.8));
    // A negligible row is left alone.
    assert_eq!(scale_row::<Plain>(vec![0.0, 0.0]), vec![0.0, 0.0]);
}

#[test]
fn kernels_have_zero_mean_and_unit_norm() {
    let axis = build_mel_axis::<Plain>();
    let kernel = build_kernels::<Plain>(&vec![27.5, 440.0, 8000.0], &axis);
    assert_eq!(kernel.len(), 3);
    for row in &kernel {
        assert_eq!(row.len(), MEL_FREQS);
        assert!(row.iter().sum::<f64>().abs() < 1e-9);
        assert!(close(row.iter().map(|v| v * v).sum::<f64>(), 1.0));
    }
}

#[test]
fn kernels_depend_on_their_own_candidate_alone() {
    let axis = build_mel_axis::<Plain>();
    let mut apart = build_kernels::<Plain>(&vec![100.0, 440.0], &axis);
    apart.extend(build_kernels::<Plain>(&vec![3000.0], &axis));
    assert_eq!(build_kernels::<Plain>(&vec![100.0, 440.0, 3000.0], &axis), apart);
}

#[test]
fn analysing_a_frame_again_gives_the_same() {
    let analyzer = Analyzer::<Plain>::new(vec![1024, 2048]);
    let buf = wave(2100);
    let first = analyzer.one_frame(&buf, 2080).unwrap();
    analyzer.one_frame(&buf, 2048).unwrap();
    assert_eq!(analyzer.one_frame(&buf, 2080).unwrap(), first);
}

#[test]
fn a_frame_stands_alone() {
    let audio = wave(2048 + 4 * HOP_SAMPLES);
    let mut s = Swipe::<Fused>::with_max_window(2048).unwrap();
    let frames = s.process(&audio).unwrap();
    for k in 0..5 {
        let mut t = Swipe::<Fused>::with_max_window(2048).unwrap();
        let alone = t.process(&audio[k * HOP_SAMPLES..k * HOP_SAMPLES + 2048]).unwrap();
        assert_eq!(alone.len(), 1);
        assert_eq!(alone[0].pitch_hz, frames[k].pitch_hz);
        assert_eq!(alone[0].confidence, frames[k].confidence);
    }
}

#[test]
fn a_reset_estimator_is_as_good_as_a_new_one() {
    let audio = wave(4096 + 3 * HOP_SAMPLES);
    let mut used = Swipe::<Fused>::with_max_window(3000).unwrap();
    used.process(&wave(5000)).unwrap();
    used.reset();
    used.reset();
    let mut new = Swipe::<Fused>::with_max_window(4096).unwrap();
    assert_eq!(used.process(&audio).unwrap(), new.process(&audio).unwrap());
    // No audio, no frames, and nothing changes.
    assert_eq!(used.process(&[]).unwrap(), vec![]);
    let more = wave(HOP_SAMPLES);
    assert_eq!(used.process(&more).unwrap(), new.process(&more).unwrap());
}

#[test]
fn peak_is_the_first_greatest_score() {
    assert_eq!(find_peak::<Plain>(&vec![0.1, 0.7, 0.3, 0.7]), (1, 0.7));
    assert_eq!(find_peak::<Plain>(&vec![-3.0, -2.0]), (1, -2.0));
    // What does not compare is passed over.
    assert_eq!(find_peak::<Plain>(&vec![f64::NAN, 0.2, f64::NAN]), (1, 0.2));
    let (at, value) = find_peak::<Plain>(&vec![f64::NAN, f64::NAN]);
    assert_eq!((at, value), (0, f64::NEG_INFINITY));
}

#[test]
fn silence_scores_zero() {
    let analyzer = Analyzer::<Plain>::new(vec![1024, 2048]);
    assert_eq!(analyzer.fft_size(), 2048);
    let buf = vec![0.0; 2048];
    let mag = analyzer.mel_mag(&buf, 2048, 0).unwrap();
    assert_eq!(mag, vec![0.0; MEL_FREQS]);
    assert_eq!(analyzer.score_window(&mag), vec![0.0; NUM_CANDIDATES]);
    let (confidence, pitch) = analyzer.one_frame(&buf, 2048).unwrap();
    assert_eq!(confidence, 0.0);
    assert!(close(pitch, 27.5));
}

#[test]
fn samples_before_the_buffer_count_as_zero() {
    let analyzer = Analyzer::<Plain>::new(vec![1024, 2048]);
    let tail = wave(300);
    let mut padded = vec![0.0; 2048 - 300];
    padded.extend_from_slice(&tail);
    for i in 0..2 {
        let short = analyzer.mel_mag(&tail, 300, i).unwrap();
        let long = analyzer.mel_mag(&padded, 2048, i).unwrap();
        assert_eq!(short, long);
    }
}

#[test]
fn a_tone_is_found_within_a_bin() {
    let mut swipe = Swipe::<Plain>::with_max_window(2048).unwrap();
    let tone: Vec<f64> = (0..2048)
        .map(|i| (2.0 * PI * 1000.0 * i as f64 / SAMPLE_RATE as f64).sin())
        .collect();
    let frames = swipe.process(&tone).unwrap();
    assert_eq!(frames.len(), 1);
    let cents = 1200.0 * (frames[0].pitch_hz / 1000.0).log2();
    assert!(cents.abs() < 34.0, "{cents}");
    assert!(frames[0].confidence > 0.3 && frames[0].confidence <= 1.0);
}

#[test]
fn max_window_is_rounded_up_to_a_power_of_two() {
    // The first frame comes when the longest window is full.
    for (max_window, longest) in [
        (0, 1024),
        (600, 1024),
        (1024, 1024),
        (1025, 2048),
        (2048, 2048),
        (3000, 4096),
    ] {
        let mut swipe = Swipe::<Fused>::with_max_window(max_window).unwrap();
        assert_eq!(swipe.process(&wave(longest - 1)).unwrap().len(), 0);
        assert_eq!(swipe.process(&[0.5]).unwrap().len(), 1);
    }
}

#[test]
fn default_window_is_8192() {
    let mut swipe = Swipe::<Fused>::new().unwrap();
    assert_eq!(swipe.process(&wave(8191)).unwrap().len(), 0);
    assert_eq!(swipe.process(&[0.5]).unwrap().len(), 1);
    assert!(DEFAULT_MAX_WINDOW > MIN_WINDOW);
}

#[test]
fn one_frame_per_hop() {
    let mut swipe = Swipe::<Fused>::with_max_window(2048).unwrap();
    assert!(swipe.has_room_for(1_000_000));
    assert_eq!(swipe.process(&[]).unwrap().len(), 0);
    assert_eq!(swipe.process(&wave(2048)).unwrap().len(), 1);
    assert_eq!(swipe.process(&wave(HOP_SAMPLES - 1)).unwrap().len(), 0);
    assert_eq!(swipe.process(&wave(1)).unwrap().len(), 1);
    assert_eq!(swipe.process(&[]).unwrap().len(), 0);
    assert_eq!(swipe.process(&wave(10 * HOP_SAMPLES)).unwrap().len(), 10);
}

#[test]
fn frames_carry_their_index_and_time() {
    let mut swipe = Swipe::<Fused>::with_max_window(2048).unwrap();
    let mut frames = swipe.process(&wave(2048 + 2 * HOP_SAMPLES)).unwrap();
    frames.extend(swipe.process(&wave(HOP_SAMPLES)).unwrap());
    let indices: Vec<u64> = frames.iter().map(|f| f.frame_index).collect();
    assert_eq!(indices, vec![0, 1, 2, 3]);
    for (k, f) in frames.iter().enumerate() {
        assert!(close(f.time_s, k as f64 * 0.01));
    }
}

#[test]
fn any_chunking_gives_the_frames_of_the_whole() {
    let audio = wave(2048 + 7 * HOP_SAMPLES + 100);
    let mut whole = Swipe::<Fused>::with_max_window(2048).unwrap();
    let expected = whole.process(&audio).unwrap();
    assert_eq!(expected.len(), 8);
    for size in [1, 7, 137, 480, 481, 2048, 3000] {
        let mut swipe = Swipe::<Fused>::with_max_window(2048).unwrap();
        let mut frames = Vec::new();
        for chunk in audio.chunks(size) {
            swipe.process_into(chunk, &mut frames).unwrap();
        }
        assert_eq!(frames, expected, "chunks of {size}");
    }
}

#[test]
fn frames_are_appended_to_what_is_there() {
    let audio = wave(2048 + 5 * HOP_SAMPLES);
    let mut a = Swipe::<Fused>::with_max_window(2048).unwrap();
    let frames = a.process(&audio).unwrap();
    assert_eq!(frames.len(), 6);
    let mut out = frames.clone();
    let mut b = Swipe::<Fused>::with_max_window(2048).unwrap();
    b.process_into(&audio, &mut out).unwrap();
    assert_eq!(out.len(), 12);
    assert_eq!(&out[..6], &frames[..]);
    assert_eq!(&out[6..], &frames[..]);
}

#[test]
fn a_tone_is_found_with_one_window() {
    let mut swipe = Swipe::<Plain>::with_max_window(1024).unwrap();
    let tone: Vec<f64> = (0..1024)
        .map(|i| (2.0 * PI * 1000.0 * i as f64 / SAMPLE_RATE as f64).sin())
        .collect();
    let frames = swipe.process(&tone).unwrap();
    assert_eq!(frames.len(), 1);
    let cents = 1200.0 * (frames[0].pitch_hz / 1000.0).log2();
    assert!(cents.abs() < 50.0, "{cents}");
}

#[test]
fn a_window_sees_only_its_own_samples() {
    let analyzer = Analyzer::<Plain>::new(vec![1024, 2048]);
    let mut buf = wave(3000);
    let before = analyzer.mel_mag(&buf, 2500, 0).unwrap();
    for i in (0..2500 - 1024).chain(2500..3000) {
        buf[i] = 7.0;
    }
    assert_eq!(analyzer.mel_mag(&buf, 2500, 0).unwrap(), before);
    buf[2000] += 1.0;
    assert_ne!(analyzer.mel_mag(&buf, 2500, 0).unwrap(), before);
}

#[test]
fn frames_depend_on_the_latest_window_alone() {
    let mut audio = wave(2048 + 3 * HOP_SAMPLES);
    let mut a = Swipe::<Fused>::with_max_window(2048).unwrap();
    let before = a.process(&audio).unwrap();
    for x in audio[..3 * HOP_SAMPLES].iter_mut() {
        *x = 9.0;
    }
    let mut b = Swipe::<Fused>::with_max_window(2048).unwrap();
    let after = b.process(&audio).unwrap();
    assert_eq!(before[3], after[3]);
    assert_ne!(before[0], after[0]);
}

#[test]
fn reset_starts_over() {
    let audio = wave(2048 + 2 * HOP_SAMPLES + 17);
    let mut swipe = Swipe::<Fused>::with_max_window(2048).unwrap();
    let first = swipe.process(&audio).unwrap();
    swipe.reset();
    let second = swipe.process(&audio).unwrap();
    assert_eq!(first, second);
    assert_eq!(second[0].frame_index, 0);
}

#[test]
fn failed_transform_is_reported() {
    let mut swipe = Swipe::<Fused>::with_max_window(2048).unwrap();
    let mut audio = wave(2048);
    audio[1500] = 1e9;
    let e = swipe.process(&audio).unwrap_err();
    assert!(matches!(&e, Error::Fft(reason) if reason == "overload"));
    assert_eq!(e.to_string(), "fft error: overload");
}

#[test]
fn incomplete_spectrum_is_reported() {
    let mut swipe = Swipe::<Short>::with_max_window(2048).unwrap();
    let e = swipe.process(&wave(2048)).unwrap_err();
    assert_eq!(e.to_string(), "fft error: wrong number of frequency bins");
}

#[test]
fn failure_keeps_the_frames_before_it() {
    let mut audio = wave(2048 + 4 * HOP_SAMPLES);
    // Inside the third frame and those after it only.
    audio[2048 + 2 * HOP_SAMPLES - 200] = 1e9;
    let mut swipe = Swipe::<Fused>::with_max_window(2048).unwrap();
    let mut frames = Vec::new();
    assert!(swipe.process_into(&audio, &mut frames).is_err());
    assert_eq!(frames.len(), 2);
    // The next call meets the same frame again.
    assert!(swipe.process_into(&[], &mut frames).is_err());
    assert_eq!(frames.len(), 2);
    swipe.reset();
    assert_eq!(swipe.process(&wave(2048)).unwrap().len(), 1);
}

#[test]
fn failure_is_met_at_the_same_frame_in_chunks() {
    let mut audio = wave(2048 + 4 * HOP_SAMPLES);
    audio[2048 + 2 * HOP_SAMPLES - 200] = 1e9;
    let mut whole = Swipe::<Fused>::with_max_window(2048).unwrap();
    let mut expected = Vec::new();
    assert!(whole.process_into(&audio, &mut expected).is_err());
    let mut swipe = Swipe::<Fused>::with_max_window(2048).unwrap();
    let mut frames = Vec::new();
    let mut failed = false;
    for chunk in audio.chunks(333) {
        if swipe.process_into(chunk, &mut frames).is_err() {
            failed = true;
        }
    }
    assert!(failed);
    assert_eq!(frames, expected);
}
