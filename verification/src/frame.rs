//! The analysis of one frame: spectra, scores and the pitch estimate.
use vstd::prelude::*;
use vstd::string::StringExecFns;

use crate::backend::{deterministic, Backend, Complex};
use crate::error::Error;
use crate::fold::{dot, dot_upto, sum, sum_upto};
use crate::kernel::{build_candidates, build_kernels, candidates_of, kernels_of, rows};
use crate::mel::{
    bin_count, build_mel_axis, build_mel_interp, mel_alpha_of, mel_axis_of, mel_lo_of,
};
use crate::windows::{
    build_hann, build_window_interp, hann_of, lower_window, upper_window, window_alpha_of,
};
use crate::{MEL_FREQS, NUM_CANDIDATES};

verus! {

/// Everything about an analyzer that its results depend on.
pub struct Model<B: Backend> {
    /// Candidate pitches.
    pub candidates: Seq<B::Num>,
    /// One kernel per candidate, sampled on the mel axis.
    pub kernel: Seq<Seq<B::Num>>,
    /// The shorter of the two windows that serve each candidate.
    pub cand_idx_minus: Seq<usize>,
    /// The longer of the two windows that serve each candidate.
    pub cand_idx_plus: Seq<usize>,
    /// The weight of the longer window for each candidate.
    pub cand_alpha: Seq<B::Num>,
    /// The transform bin at or below each frequency of the mel axis.
    pub mel_lo: Seq<usize>,
    /// How far each frequency of the mel axis lies towards the next bin.
    pub mel_alpha: Seq<B::Num>,
    /// One Hann window per window length.
    pub hann: Seq<Seq<B::Num>>,
    /// Window lengths in samples.
    pub windows: Seq<usize>,
    /// Length of the Fourier transform.
    pub fft_size: usize,
    /// The prepared Fourier transform.
    pub fft: B::Plan,
}

/// The model of the analyzer for a bank of windows. The Fourier transform is as long as the last
/// of them.
pub open spec fn model_of<B: Backend>(windows: Seq<usize>) -> Model<B> {
    let fft_size = windows.last();
    let candidates = candidates_of::<B>();
    let axis = mel_axis_of::<B>();
    Model {
        candidates,
        kernel: kernels_of::<B>(candidates, axis),
        cand_idx_minus: candidates.map_values(
            |fc: B::Num| lower_window::<B>(windows, fc) as usize,
        ),
        cand_idx_plus: candidates.map_values(
            |fc: B::Num| upper_window::<B>(windows, fc) as usize,
        ),
        cand_alpha: candidates.map_values(|fc: B::Num| window_alpha_of::<B>(windows, fc)),
        mel_lo: axis.map_values(|mf: B::Num| mel_lo_of::<B>(mf, fft_size)),
        mel_alpha: axis.map_values(|mf: B::Num| mel_alpha_of::<B>(mf, fft_size)),
        hann: windows.map_values(|w: usize| hann_of::<B>(w)),
        windows,
        fft_size,
        fft: B::plan_fft_forward_of(fft_size),
    }
}

impl<B: Backend> Model<B> {
    /// The tables fit together: they have the right sizes and every index they hold is valid.
    pub open spec fn wf(self) -> bool {
        &&& self.candidates.len() == NUM_CANDIDATES
        &&& self.kernel.len() == NUM_CANDIDATES
        &&& forall|c: int|
            0 <= c < NUM_CANDIDATES ==> (#[trigger] self.kernel[c]).len() == MEL_FREQS
        &&& self.cand_idx_minus.len() == NUM_CANDIDATES
        &&& self.cand_idx_plus.len() == NUM_CANDIDATES
        &&& self.cand_alpha.len() == NUM_CANDIDATES
        &&& forall|c: int|
            0 <= c < NUM_CANDIDATES ==> (#[trigger] self.cand_idx_minus[c]) < self.windows.len()
        &&& forall|c: int|
            0 <= c < NUM_CANDIDATES ==> (#[trigger] self.cand_idx_plus[c]) < self.windows.len()
        &&& self.windows.len() > 1 ==> forall|c: int|
            0 <= c < NUM_CANDIDATES ==> (#[trigger] self.cand_idx_minus[c]) + 1
                == self.cand_idx_plus[c]
        &&& self.mel_lo.len() == MEL_FREQS
        &&& self.mel_alpha.len() == MEL_FREQS
        &&& self.fft_size >= 2
        &&& forall|j: int|
            0 <= j < MEL_FREQS ==> (#[trigger] self.mel_lo[j]) + 1 < bin_count(
                self.fft_size as int,
            )
        &&& self.hann.len() == self.windows.len()
        &&& forall|i: int|
            0 <= i < self.windows.len() ==> (#[trigger] self.hann[i]).len() == self.windows[i]
        &&& forall|i: int|
            0 <= i < self.windows.len() ==> (#[trigger] self.windows[i]) <= self.fft_size
    }

    /// The transform's input for window `i` of the bank: the samples of `buf` that end at `end`,
    /// shaped by the window and followed by zeros. Samples outside `buf` count as zero.
    pub open spec fn fft_input(self, buf: Seq<B::Num>, end: int, i: int) -> Seq<B::Num> {
        let start = end - self.windows[i];
        Seq::new(
            self.fft_size as nat,
            |k: int|
                if k < self.windows[i] && 0 <= start + k < buf.len() {
                    B::times_of(buf[start + k], self.hann[i][k])
                } else {
                    B::whole_of(0)
                },
        )
    }

    /// The spectrum of `input`, or the reason why there is none.
    pub open spec fn spectrum(self, input: Seq<B::Num>) -> Result<Seq<Complex<B::Num>>, Seq<char>> {
        match B::transform_of(self.fft, input) {
            Ok(bins) => if bins.len() == bin_count(self.fft_size as int) {
                Ok(bins)
            } else {
                Err("wrong number of frequency bins"@)
            },
            Err(reason) => Err(reason),
        }
    }

    /// The magnitude of a spectrum at each frequency of the mel axis, interpolated between the
    /// neighbouring bins.
    pub open spec fn on_mel_axis(self, bins: Seq<Complex<B::Num>>) -> Seq<B::Num> {
        Seq::new(
            MEL_FREQS as nat,
            |j: int|
                B::plus_of(
                    B::times_of(
                        magnitude_of::<B>(bins[self.mel_lo[j] as int]),
                        B::minus_of(B::whole_of(1), self.mel_alpha[j]),
                    ),
                    B::times_of(magnitude_of::<B>(bins[self.mel_lo[j] + 1]), self.mel_alpha[j]),
                ),
        )
    }

    /// The mel magnitudes seen through window `i` of the bank.
    pub open spec fn mel_mag(self, buf: Seq<B::Num>, end: int, i: int) -> Result<
        Seq<B::Num>,
        Seq<char>,
    > {
        match self.spectrum(self.fft_input(buf, end, i)) {
            Ok(bins) => Ok(self.on_mel_axis(bins)),
            Err(reason) => Err(reason),
        }
    }

    /// The score of every candidate: the inner product of its kernel with the square roots of
    /// the magnitudes, over the square root of their sum.
    pub open spec fn scores(self, mag_mel: Seq<B::Num>) -> Seq<B::Num> {
        let roots = mag_mel.map_values(|m: B::Num| B::sqrt_of(m));
        let denom = B::larger_of(
            B::sqrt_of(sum_upto::<B>(mag_mel, mag_mel.len() as int)),
            B::ratio_of(1, 1_000_000_000_000),
        );
        Seq::new(
            NUM_CANDIDATES as nat,
            |c: int| B::over_of(dot_upto::<B>(self.kernel[c], roots, MEL_FREQS as int), denom),
        )
    }

    /// The scores under the first `n` windows of the bank, or the first failure among them.
    pub open spec fn window_scores(self, buf: Seq<B::Num>, end: int, n: int) -> Result<
        Seq<Seq<B::Num>>,
        Seq<char>,
    >
        decreases n,
    {
        if n <= 0 {
            Ok(Seq::empty())
        } else {
            match self.window_scores(buf, end, n - 1) {
                Ok(zs) => match self.mel_mag(buf, end, n - 1) {
                    Ok(mag) => Ok(zs.push(self.scores(mag))),
                    Err(reason) => Err(reason),
                },
                Err(reason) => Err(reason),
            }
        }
    }

    /// For every candidate, the scores under its two windows blended by its weight.
    pub open spec fn blended(self, zs: Seq<Seq<B::Num>>) -> Seq<B::Num> {
        Seq::new(
            NUM_CANDIDATES as nat,
            |c: int|
                B::plus_of(
                    B::times_of(
                        B::minus_of(B::whole_of(1), self.cand_alpha[c]),
                        zs[self.cand_idx_minus[c] as int][c],
                    ),
                    B::times_of(self.cand_alpha[c], zs[self.cand_idx_plus[c] as int][c]),
                ),
        )
    }

    /// The pitch at the peak of `z`, refined by a parabola through the neighbouring scores.
    pub open spec fn pitch(self, z: Seq<B::Num>) -> B::Num {
        let p = peak_upto::<B>(z, NUM_CANDIDATES as int).0;
        if 0 < p && p + 1 < NUM_CANDIDATES {
            B::times_of(
                self.candidates[p],
                B::pow_of(
                    B::whole_of(2),
                    B::over_of(shift_of::<B>(z[p - 1], z[p], z[p + 1]), B::whole_of(36)),
                ),
            )
        } else {
            self.candidates[p]
        }
    }

    /// The confidence and the pitch of the frame of `buf` that ends at `end`, or the reason why
    /// it could not be analysed.
    pub open spec fn estimate(self, buf: Seq<B::Num>, end: int) -> Result<
        (B::Num, B::Num),
        Seq<char>,
    > {
        match self.window_scores(buf, end, self.windows.len() as int) {
            Ok(zs) => {
                let z = self.blended(zs);
                let top = peak_upto::<B>(z, NUM_CANDIDATES as int).1;
                Ok((B::clamped_of(top, B::whole_of(0), B::whole_of(1)), self.pitch(z)))
            },
            Err(reason) => Err(reason),
        }
    }
}

/// The absolute value of a complex number.
pub open spec fn magnitude_of<B: Backend>(c: Complex<B::Num>) -> B::Num {
    B::sqrt_of(B::plus_of(B::times_of(c.re, c.re), B::times_of(c.im, c.im)))
}

/// The index and the value of the first greatest among the first `n` entries of `z`; index 0
/// and the lowest number where no entry exceeds that.
pub open spec fn peak_upto<B: Backend>(z: Seq<B::Num>, n: int) -> (int, B::Num)
    decreases n,
{
    if n <= 0 {
        (0, B::lowest_of())
    } else {
        let (p, v) = peak_upto::<B>(z, n - 1);
        if B::less_of(v, z[n - 1]) {
            (n - 1, z[n - 1])
        } else {
            (p, v)
        }
    }
}

/// The offset from `y_0` of the vertex of the parabola through three neighbouring scores, at
/// most half a step either way; 0 where the scores lie on a line.
pub open spec fn shift_of<B: Backend>(y_m: B::Num, y_0: B::Num, y_p: B::Num) -> B::Num {
    let denom = B::plus_of(B::minus_of(y_m, B::times_of(B::whole_of(2), y_0)), y_p);
    let raw = if B::less_of(B::ratio_of(1, 1_000_000_000_000), B::abs_of(denom)) {
        B::over_of(B::times_of(B::ratio_of(1, 2), B::minus_of(y_m, y_p)), denom)
    } else {
        B::whole_of(0)
    };
    B::clamped_of(raw, B::negated_of(B::ratio_of(1, 2)), B::ratio_of(1, 2))
}

/// `r` is what the analysis of the frame of `buf` that ends at `end` may return.
pub open spec fn reports<B: Backend>(
    m: Model<B>,
    buf: Seq<B::Num>,
    end: int,
    r: Result<(B::Num, B::Num), Error>,
) -> bool {
    deterministic::<B>() ==> match m.estimate(buf, end) {
        Ok(found) => r matches Ok(v) && v == found,
        Err(reason) => r matches Err(e) && e.reason() == reason,
    }
}

/// `r` is what may be seen of the samples of `buf` that end at `end` through window `i`.
pub open spec fn shows<B: Backend>(
    m: Model<B>,
    buf: Seq<B::Num>,
    end: int,
    i: int,
    r: Result<Vec<B::Num>, Error>,
) -> bool {
    &&& r matches Ok(mag) ==> mag@.len() == MEL_FREQS
    &&& deterministic::<B>() ==> match m.mel_mag(buf, end, i) {
        Ok(mag) => r matches Ok(v) && v@ == mag,
        Err(reason) => r matches Err(e) && e.reason() == reason,
    }
}

/// Analyses single frames of audio.
pub struct Analyzer<B: Backend> {
    candidates: Vec<B::Num>,
    kernel: Vec<Vec<B::Num>>,
    cand_idx_minus: Vec<usize>,
    cand_idx_plus: Vec<usize>,
    cand_alpha: Vec<B::Num>,
    mel_lo: Vec<usize>,
    mel_alpha: Vec<B::Num>,
    hann: Vec<Vec<B::Num>>,
    windows: Vec<usize>,
    fft_size: usize,
    fft: B::Plan,
}

impl<B: Backend> View for Analyzer<B> {
    type V = Model<B>;

    closed spec fn view(&self) -> Model<B> {
        Model {
            candidates: self.candidates@,
            kernel: rows(self.kernel@),
            cand_idx_minus: self.cand_idx_minus@,
            cand_idx_plus: self.cand_idx_plus@,
            cand_alpha: self.cand_alpha@,
            mel_lo: self.mel_lo@,
            mel_alpha: self.mel_alpha@,
            hann: rows(self.hann@),
            windows: self.windows@,
            fft_size: self.fft_size,
            fft: self.fft,
        }
    }
}

impl<B: Backend> Analyzer<B> {
    /// Builds the tables for a bank of windows, given in ascending order. The Fourier transform
    /// is as long as the last of them.
    pub fn new(windows: Vec<usize>) -> (analyzer: Self)
        requires
            windows@.len() >= 1,
            windows@.last() >= 2,
            forall|i: int| 0 <= i < windows@.len() ==> (#[trigger] windows@[i]) <= windows@.last(),
        ensures
            analyzer@.wf(),
            analyzer@.windows == windows@,
            analyzer@.fft_size == windows@.last(),
            deterministic::<B>() ==> analyzer@ == model_of::<B>(windows@),
    {
        let fft_size: usize = windows[windows.len() - 1];
        let candidates = build_candidates::<B>();
        let mel_freqs = build_mel_axis::<B>();
        let kernel = build_kernels::<B>(&candidates, &mel_freqs);
        let (cand_idx_minus, cand_idx_plus, cand_alpha) = build_window_interp::<B>(
            &candidates,
            &windows,
        );
        let (mel_lo, mel_alpha) = build_mel_interp::<B>(&mel_freqs, fft_size);
        let mut hann: Vec<Vec<B::Num>> = Vec::with_capacity(windows.len());
        for i in 0..windows.len()
            invariant
                hann@.len() == i,
                forall|k: int| 0 <= k < i ==> (#[trigger] hann@[k])@.len() == windows@[k],
                deterministic::<B>() ==> forall|k: int|
                    0 <= k < i ==> (#[trigger] hann@[k])@ == hann_of::<B>(windows@[k]),
        {
            hann.push(build_hann::<B>(windows[i]));
        }
        let fft = B::plan_fft_forward(fft_size);
        let analyzer = Analyzer {
            candidates,
            kernel,
            cand_idx_minus,
            cand_idx_plus,
            cand_alpha,
            mel_lo,
            mel_alpha,
            hann,
            windows,
            fft_size,
            fft,
        };
        proof {
            assert forall|c: int| 0 <= c < NUM_CANDIDATES implies (
            #[trigger] analyzer@.cand_idx_minus[c]) < windows@.len() by {
                assert(analyzer@.cand_idx_plus[c] < windows@.len());
                assert(cand_idx_minus@[c] <= cand_idx_plus@[c]);
            }
            if deterministic::<B>() {
                let m = model_of::<B>(windows@);
                assert(analyzer@.candidates == m.candidates);
                assert(analyzer@.kernel == m.kernel);
                assert(analyzer@.cand_idx_minus == m.cand_idx_minus);
                assert(analyzer@.cand_idx_plus == m.cand_idx_plus);
                assert(analyzer@.cand_alpha == m.cand_alpha);
                assert(analyzer@.mel_lo == m.mel_lo);
                assert(analyzer@.mel_alpha == m.mel_alpha);
                assert(analyzer@.hann == m.hann);
            }
        }
        analyzer
    }

    /// Length of the Fourier transform, in samples.
    pub fn fft_size(&self) -> (n: usize)
        ensures
            n == self@.fft_size,
    {
        self.fft_size
    }

    /// The mel magnitudes of the samples of `buf` that end at `audio_end`, seen through window
    /// `i` of the bank.
    pub fn mel_mag(&self, buf: &Vec<B::Num>, audio_end: usize, i: usize) -> (r: Result<
        Vec<B::Num>,
        Error,
    >)
        requires
            self@.wf(),
            i < self@.windows.len(),
        ensures
            shows::<B>(self@, buf@, audio_end as int, i as int, r),
    {
        let input = self.fft_input(buf, audio_end, i);
        let bins = match B::transform(&self.fft, &input) {
            Ok(bins) => bins,
            Err(reason) => {
                return Err(Error::Fft(reason));
            },
        };
        if bins.len() != self.fft_size / 2 + 1 {
            return Err(Error::Fft(String::from_str("wrong number of frequency bins")));
        }
        Ok(self.to_mel_axis(&bins))
    }

    /// The samples of `buf` that end at `audio_end`, shaped by window `i` and padded with zeros.
    fn fft_input(&self, buf: &Vec<B::Num>, audio_end: usize, i: usize) -> (input: Vec<B::Num>)
        requires
            self@.wf(),
            i < self@.windows.len(),
        ensures
            input@.len() == self@.fft_size,
            deterministic::<B>() ==> input@ == self@.fft_input(buf@, audio_end as int, i as int),
    {
        let w_len: usize = self.windows[i];
        let zero = B::whole(0);
        let mut input: Vec<B::Num> = Vec::with_capacity(self.fft_size);
        assert(self@.hann[i as int] == self.hann@[i as int]@);
        for k in 0..self.fft_size
            invariant
                self@.wf(),
                i < self@.windows.len(),
                w_len == self@.windows[i as int],
                self.hann@[i as int]@ == self@.hann[i as int],
                self.hann@.len() == self@.windows.len(),
                self.hann@[i as int]@.len() == w_len,
                input@.len() == k,
                deterministic::<B>() ==> {
                    &&& zero == B::whole_of(0)
                    &&& forall|j: int|
                        0 <= j < k ==> #[trigger] input@[j] == self@.fft_input(
                            buf@,
                            audio_end as int,
                            i as int,
                        )[j]
                },
        {
            let mut v = zero;
            if k < w_len {
                if audio_end >= w_len {
                    let b: usize = audio_end - w_len + k;
                    if b < buf.len() {
                        v = B::times(buf[b], self.hann[i][k]);
                    }
                } else if k >= w_len - audio_end {
                    let b: usize = k - (w_len - audio_end);
                    if b < buf.len() {
                        v = B::times(buf[b], self.hann[i][k]);
                    }
                }
            }
            input.push(v);
        }
        input
    }

    /// The magnitudes of a spectrum on the mel axis.
    fn to_mel_axis(&self, bins: &Vec<Complex<B::Num>>) -> (mag_mel: Vec<B::Num>)
        requires
            self@.wf(),
            bins@.len() == bin_count(self@.fft_size as int),
        ensures
            mag_mel@.len() == MEL_FREQS,
            deterministic::<B>() ==> mag_mel@ == self@.on_mel_axis(bins@),
    {
        let mut mag: Vec<B::Num> = Vec::with_capacity(bins.len());
        for i in 0..bins.len()
            invariant
                mag@.len() == i,
                deterministic::<B>() ==> forall|k: int|
                    0 <= k < i ==> #[trigger] mag@[k] == magnitude_of::<B>(bins@[k]),
        {
            let re = bins[i].re;
            let im = bins[i].im;
            mag.push(B::sqrt(B::plus(B::times(re, re), B::times(im, im))));
        }
        let one = B::whole(1);
        let mut mag_mel: Vec<B::Num> = Vec::with_capacity(MEL_FREQS);
        for j in 0..MEL_FREQS
            invariant
                self@.wf(),
                mag@.len() == bins@.len(),
                bins@.len() == bin_count(self@.fft_size as int),
                mag_mel@.len() == j,
                deterministic::<B>() ==> {
                    &&& one == B::whole_of(1)
                    &&& forall|k: int|
                        0 <= k < mag@.len() ==> #[trigger] mag@[k] == magnitude_of::<B>(bins@[k])
                    &&& forall|k: int|
                        0 <= k < j ==> #[trigger] mag_mel@[k] == self@.on_mel_axis(bins@)[k]
                },
        {
            let i: usize = self.mel_lo[j];
            let a = self.mel_alpha[j];
            assert(self@.mel_lo[j as int] == i);
            mag_mel.push(B::plus(B::times(mag[i], B::minus(one, a)), B::times(mag[i + 1], a)));
        }
        mag_mel
    }

    /// The score of every candidate against one set of mel magnitudes.
    pub fn score_window(&self, mag_mel: &Vec<B::Num>) -> (z: Vec<B::Num>)
        requires
            self@.wf(),
            mag_mel@.len() == MEL_FREQS,
        ensures
            z@.len() == NUM_CANDIDATES,
            deterministic::<B>() ==> z@ == self@.scores(mag_mel@),
    {
        let mut roots: Vec<B::Num> = Vec::with_capacity(mag_mel.len());
        for i in 0..mag_mel.len()
            invariant
                roots@.len() == i,
                deterministic::<B>() ==> forall|k: int|
                    0 <= k < i ==> #[trigger] roots@[k] == B::sqrt_of(mag_mel@[k]),
        {
            roots.push(B::sqrt(mag_mel[i]));
        }
        assert(deterministic::<B>() ==> roots@ == mag_mel@.map_values(
            |m: B::Num| B::sqrt_of(m),
        ));
        let denom = B::larger(B::sqrt(sum::<B>(mag_mel)), B::ratio(1, 1_000_000_000_000));
        let mut z: Vec<B::Num> = Vec::with_capacity(NUM_CANDIDATES);
        for c in 0..NUM_CANDIDATES
            invariant
                self@.wf(),
                mag_mel@.len() == MEL_FREQS,
                roots@.len() == MEL_FREQS,
                z@.len() == c,
                deterministic::<B>() ==> {
                    &&& roots@ == mag_mel@.map_values(|m: B::Num| B::sqrt_of(m))
                    &&& denom == B::larger_of(
                        B::sqrt_of(sum_upto::<B>(mag_mel@, mag_mel@.len() as int)),
                        B::ratio_of(1, 1_000_000_000_000),
                    )
                    &&& forall|k: int| 0 <= k < c ==> #[trigger] z@[k] == self@.scores(mag_mel@)[k]
                },
        {
            assert(self@.kernel[c as int] == self.kernel@[c as int]@);
            z.push(B::over(dot::<B>(&self.kernel[c], &roots), denom));
        }
        z
    }

    /// The scores of every candidate under every window of the bank.
    fn score_windows(&self, buf: &Vec<B::Num>, audio_end: usize) -> (r: Result<
        Vec<Vec<B::Num>>,
        Error,
    >)
        requires
            self@.wf(),
        ensures
            r matches Ok(zs) ==> zs@.len() == self@.windows.len() && forall|i: int|
                0 <= i < zs@.len() ==> (#[trigger] zs@[i])@.len() == NUM_CANDIDATES,
            deterministic::<B>() ==> match self@.window_scores(
                buf@,
                audio_end as int,
                self@.windows.len() as int,
            ) {
                Ok(zs) => r matches Ok(v) && rows(v@) == zs,
                Err(reason) => r matches Err(e) && e.reason() == reason,
            },
    {
        let mut zs: Vec<Vec<B::Num>> = Vec::with_capacity(self.windows.len());
        assert(rows(zs@) == Seq::<Seq<B::Num>>::empty());
        for i in 0..self.windows.len()
            invariant
                self@.wf(),
                self@.windows == self.windows@,
                zs@.len() == i,
                forall|k: int| 0 <= k < i ==> (#[trigger] zs@[k])@.len() == NUM_CANDIDATES,
                deterministic::<B>() ==> self@.window_scores(buf@, audio_end as int, i as int)
                    == Ok::<Seq<Seq<B::Num>>, Seq<char>>(rows(zs@)),
        {
            match self.mel_mag(buf, audio_end, i) {
                Ok(mag) => {
                    let z = self.score_window(&mag);
                    let ghost before = rows(zs@);
                    zs.push(z);
                    assert(rows(zs@) == before.push(z@));
                },
                Err(e) => {
                    proof {
                        if deterministic::<B>() {
                            lemma_failure_persists::<B>(
                                self@,
                                buf@,
                                audio_end as int,
                                i + 1,
                                self@.windows.len() as int,
                            );
                        }
                    }
                    return Err(e);
                },
            }
        }
        Ok(zs)
    }

    /// The confidence and the pitch in Hz of the frame of `buf` that ends at `audio_end`.
    pub fn one_frame(&self, buf: &Vec<B::Num>, audio_end: usize) -> (r: Result<
        (B::Num, B::Num),
        Error,
    >)
        requires
            self@.wf(),
        ensures
            reports::<B>(self@, buf@, audio_end as int, r),
    {
        let zs = match self.score_windows(buf, audio_end) {
            Ok(zs) => zs,
            Err(e) => {
                return Err(e);
            },
        };
        let one = B::whole(1);
        let mut z: Vec<B::Num> = Vec::with_capacity(NUM_CANDIDATES);
        for c in 0..NUM_CANDIDATES
            invariant
                self@.wf(),
                zs@.len() == self@.windows.len(),
                forall|i: int| 0 <= i < zs@.len() ==> (#[trigger] zs@[i])@.len() == NUM_CANDIDATES,
                z@.len() == c,
                deterministic::<B>() ==> {
                    &&& one == B::whole_of(1)
                    &&& forall|k: int|
                        0 <= k < c ==> #[trigger] z@[k] == self@.blended(rows(zs@))[k]
                },
        {
            let lo: usize = self.cand_idx_minus[c];
            let hi: usize = self.cand_idx_plus[c];
            let a = self.cand_alpha[c];
            assert(lo == self@.cand_idx_minus[c as int]);
            assert(hi == self@.cand_idx_plus[c as int]);
            assert(zs@[lo as int]@ == rows(zs@)[lo as int]);
            assert(zs@[hi as int]@ == rows(zs@)[hi as int]);
            z.push(B::plus(B::times(B::minus(one, a), zs[lo][c]), B::times(a, zs[hi][c])));
        }
        assert(deterministic::<B>() ==> z@ == self@.blended(rows(zs@)));
        let (peak_c, peak_v) = find_peak::<B>(&z);
        let f0 = self.refine(&z, peak_c);
        Ok((B::clamped(peak_v, B::whole(0), one), f0))
    }

    /// The pitch at candidate `peak_c`, refined by a parabola where it has two neighbours.
    fn refine(&self, z: &Vec<B::Num>, peak_c: usize) -> (f0: B::Num)
        requires
            self@.wf(),
            z@.len() == NUM_CANDIDATES,
            peak_c < NUM_CANDIDATES,
        ensures
            deterministic::<B>() && peak_c == peak_upto::<B>(z@, NUM_CANDIDATES as int).0 ==> f0
                == self@.pitch(z@),
    {
        if peak_c > 0 && peak_c + 1 < NUM_CANDIDATES {
            let half = B::ratio(1, 2);
            let y_m = z[peak_c - 1];
            let y_0 = z[peak_c];
            let y_p = z[peak_c + 1];
            let denom = B::plus(B::minus(y_m, B::times(B::whole(2), y_0)), y_p);
            let raw = if B::less(B::ratio(1, 1_000_000_000_000), B::abs(denom)) {
                B::over(B::times(half, B::minus(y_m, y_p)), denom)
            } else {
                B::whole(0)
            };
            let shift = B::clamped(raw, B::negated(half), half);
            B::times(self.candidates[peak_c], B::pow(B::whole(2), B::over(shift, B::whole(36))))
        } else {
            self.candidates[peak_c]
        }
    }
}

/// The index and the value of the first greatest entry of `z`.
pub fn find_peak<B: Backend>(z: &Vec<B::Num>) -> (r: (usize, B::Num))
    requires
        z@.len() > 0,
    ensures
        r.0 < z@.len(),
        deterministic::<B>() ==> r.0 == peak_upto::<B>(z@, z@.len() as int).0,
        deterministic::<B>() ==> r.1 == peak_upto::<B>(z@, z@.len() as int).1,
{
    let mut peak_c: usize = 0;
    let mut peak_v = B::lowest();
    for c in 0..z.len()
        invariant
            z@.len() > 0,
            peak_c < z@.len(),
            deterministic::<B>() ==> peak_upto::<B>(z@, c as int) == (peak_c as int, peak_v),
    {
        if B::less(peak_v, z[c]) {
            peak_v = z[c];
            peak_c = c;
        }
    }
    (peak_c, peak_v)
}

/// Once a window has failed, adding further windows changes nothing.
proof fn lemma_failure_persists<B: Backend>(
    m: Model<B>,
    buf: Seq<B::Num>,
    end: int,
    i: int,
    n: int,
)
    requires
        0 <= i <= n,
        m.window_scores(buf, end, i) is Err,
    ensures
        m.window_scores(buf, end, n) == m.window_scores(buf, end, i),
    decreases n,
{
    if i < n {
        lemma_failure_persists::<B>(m, buf, end, i, n - 1);
    }
}

} // verus!
