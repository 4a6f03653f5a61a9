//! From samples to an estimate: what each step of the analysis of a frame means.
use vstd::prelude::*;

use crate::backend::{deterministic, Backend, Complex};
use crate::error::Error;
use crate::exact::{
    clamp_real, lemma_total_equal, lemma_total_nonnegative, lemma_total_scaled, max_real, total,
    Meaning,
};
use crate::fold::{dot_upto, sum_upto};
use crate::frame::{magnitude_of, model_of, peak_upto, reports, shift_of, shows, Model};
use crate::kernel::{candidates_of, kernel_row_of};
use crate::meaning::comb::{law_inner_product_adds_every_product, law_sum_adds_every_entry};
use crate::meaning::scale::{law_candidates_ascend, lemma_candidate};
use crate::mel::{mel_alpha_of, mel_axis_of, mel_lo_of};
use crate::windows::{hann_of, lower_window, upper_window, window_alpha_of};

verus! {

/// Every table entry of an analyzer belongs to the candidate, the frequency or the window that
/// it stands beside.
pub proof fn law_tables_belong_together<B: Backend>(windows: Seq<usize>, c: int, j: int, i: int)
    requires
        windows.len() > 0,
        0 <= c < 295,
        0 <= j < 1024,
        0 <= i < windows.len(),
    ensures
        ({
            let md = model_of::<B>(windows);
            let fc = candidates_of::<B>()[c];
            let mf = mel_axis_of::<B>()[j];
            &&& md.windows == windows
            &&& md.fft_size == windows[windows.len() - 1]
            &&& md.fft == B::plan_fft_forward_of(windows[windows.len() - 1])
            &&& md.candidates.len() == 295
            &&& md.candidates[c] == fc
            &&& md.kernel[c] == kernel_row_of::<B>(fc, mel_axis_of::<B>())
            &&& md.cand_idx_minus[c] == lower_window::<B>(windows, fc) as usize
            &&& md.cand_idx_plus[c] == upper_window::<B>(windows, fc) as usize
            &&& md.cand_alpha[c] == window_alpha_of::<B>(windows, fc)
            &&& md.mel_lo[j] == mel_lo_of::<B>(mf, windows[windows.len() - 1])
            &&& md.mel_alpha[j] == mel_alpha_of::<B>(mf, windows[windows.len() - 1])
            &&& md.hann.len() == windows.len()
            &&& md.hann[i] == hann_of::<B>(windows[i])
        }),
{
}

/// The transform sees each of the last samples of its window once, weighted by the window at its
/// place, the last one at the window's end. What lies before the samples counts as zero, and so
/// does what fills the transform up.
pub proof fn law_window_weighs_the_last_samples<B: Backend>(
    md: Model<B>,
    buf: Seq<B::Num>,
    end: int,
    i: int,
    t: int,
)
    requires
        md.wf(),
        0 <= i < md.windows.len(),
        end - md.windows[i] <= t < end - md.windows[i] + md.fft_size,
    ensures
        ({
            let input = md.fft_input(buf, end, i);
            let k = t - (end - md.windows[i]);
            &&& input.len() == md.fft_size
            &&& t < end && 0 <= t < buf.len() ==> input[k] == B::times_of(buf[t], md.hann[i][k])
            &&& end <= t || t < 0 || buf.len() <= t ==> input[k] == B::whole_of(0)
        }),
{
}

/// The spectrum is the transform's own, with half as many bins as samples and one more. A
/// transform that fails, or returns another number of bins, leaves no spectrum.
pub proof fn law_spectrum_is_the_transform<B: Backend>(
    md: Model<B>,
    input: Seq<B::Num>,
    bins: Seq<Complex<B::Num>>,
    reason: Seq<char>,
)
    requires
        md.fft_size >= 2,
    ensures
        md.spectrum(input) == Ok::<Seq<Complex<B::Num>>, Seq<char>>(bins) <==> (B::transform_of(
            md.fft,
            input,
        ) == Ok::<Seq<Complex<B::Num>>, Seq<char>>(bins) && (bins.len() == md.fft_size / 2 + 1)),
        B::transform_of(md.fft, input) == Err::<Seq<Complex<B::Num>>, Seq<char>>(reason)
            ==> md.spectrum(input) == Err::<Seq<Complex<B::Num>>, Seq<char>>(reason),
        B::transform_of(md.fft, input) is Ok && md.spectrum(input) is Err ==> md.spectrum(input)
            == Err::<Seq<Complex<B::Num>>, Seq<char>>("wrong number of frequency bins"@),
{
}

/// An error keeps the reason that it was made with.
pub proof fn law_error_keeps_its_reason(reason: String)
    ensures
        Error::Fft(reason).reason() == reason@,
{
}

/// A magnitude is the length of its complex number.
pub proof fn law_magnitude_is_a_length<B: Backend>(m: Meaning<B>, c: Complex<B::Num>)
    requires
        m.is_exact(),
    ensures
        m.of(magnitude_of::<B>(c)) >= 0real,
        m.of(magnitude_of::<B>(c)) * m.of(magnitude_of::<B>(c)) == m.of(c.re) * m.of(c.re) + m.of(
            c.im,
        ) * m.of(c.im),
{
    let (x, y) = (m.of(c.re), m.of(c.im));
    assert(x * x >= 0real) by (nonlinear_arith);
    assert(y * y >= 0real) by (nonlinear_arith);
}

/// On the mel axis a magnitude lies on the straight line from that of the lower bin to that of
/// the upper bin, as far along it as the frequency lies between the two.
pub proof fn law_magnitude_lies_between_its_bins<B: Backend>(
    m: Meaning<B>,
    md: Model<B>,
    bins: Seq<Complex<B::Num>>,
    j: int,
)
    requires
        m.is_exact(),
        0 <= j < 1024,
    ensures
        md.on_mel_axis(bins).len() == 1024,
        ({
            let lower = m.of(magnitude_of::<B>(bins[md.mel_lo[j] as int]));
            let upper = m.of(magnitude_of::<B>(bins[md.mel_lo[j] + 1]));
            let share = m.of(md.mel_alpha[j]);
            let found = m.of(md.on_mel_axis(bins)[j]);
            &&& found == lower + share * (upper - lower)
            &&& share == 0real ==> found == lower
            &&& share == 1real ==> found == upper
            &&& 0real <= share <= 1real ==> found >= 0real
        }),
{
    law_magnitude_is_a_length::<B>(m, bins[md.mel_lo[j] as int]);
    law_magnitude_is_a_length::<B>(m, bins[md.mel_lo[j] + 1]);
    let lower = m.of(magnitude_of::<B>(bins[md.mel_lo[j] as int]));
    let upper = m.of(magnitude_of::<B>(bins[md.mel_lo[j] + 1]));
    let share = m.of(md.mel_alpha[j]);
    assert(lower * (1real - share) + upper * share == lower + share * (upper - lower))
        by (nonlinear_arith);
    assert(share == 0real ==> lower + share * (upper - lower) == lower) by (nonlinear_arith);
    assert(share == 1real ==> lower + share * (upper - lower) == upper) by (nonlinear_arith);
    if 0real <= share && share <= 1real {
        assert(lower * (1real - share) + upper * share >= 0real) by (nonlinear_arith)
            requires
                0real <= share <= 1real,
                lower >= 0real,
                upper >= 0real,
        ;
    }
}

/// Whatever the backend, a score is the inner product of the kernel with the square roots of the
/// magnitudes over the square root of their sum, wherever that is not replaced by 1e-12.
pub proof fn law_score_is_relative_to_the_magnitudes<B: Backend>(
    md: Model<B>,
    mag: Seq<B::Num>,
    roots: Seq<B::Num>,
    c: int,
)
    requires
        md.wf(),
        mag.len() == 1024,
        roots.len() == 1024,
        forall|j: int| 0 <= j < 1024 ==> #[trigger] roots[j] == B::sqrt_of(mag[j]),
        0 <= c < 295,
    ensures
        md.scores(mag).len() == 295,
        ({
            let root = B::sqrt_of(sum_upto::<B>(mag, 1024));
            let floor = B::ratio_of(1, 1_000_000_000_000);
            let fit = dot_upto::<B>(md.kernel[c], roots, 1024);
            &&& B::larger_of(root, floor) == root ==> md.scores(mag)[c] == B::over_of(fit, root)
            &&& B::larger_of(root, floor) == floor ==> md.scores(mag)[c] == B::over_of(fit, floor)
        }),
{
    assert(mag.map_values(|v: B::Num| B::sqrt_of(v)) =~= roots);
}

/// What the kernel of candidate `c` makes of the square roots of the magnitudes.
pub open spec fn fit<B: Backend>(m: Meaning<B>, md: Model<B>, mag: Seq<B::Num>, c: int) -> real {
    total(|j: int| m.of(md.kernel[c][j]) * m.of(B::sqrt_of(mag[j])), 1024)
}

/// A score times the root of the summed magnitudes, which counts as no less than 1e-12, is the
/// inner product of the kernel with the square roots of the magnitudes.
pub proof fn law_score_measures_the_fit<B: Backend>(
    m: Meaning<B>,
    md: Model<B>,
    mag: Seq<B::Num>,
    c: int,
)
    requires
        m.is_exact(),
        md.wf(),
        mag.len() == 1024,
        forall|j: int| 0 <= j < 1024 ==> m.of(#[trigger] mag[j]) >= 0real,
        0 <= c < 295,
    ensures
        ({
            let root = m.of(B::sqrt_of(sum_upto::<B>(mag, 1024)));
            let floor = 1real / 1000000000000real;
            &&& root >= 0real
            &&& root * root == total(|j: int| m.of(mag[j]), 1024)
            &&& m.of(md.scores(mag)[c]) * max_real(root, floor) == fit::<B>(m, md, mag, c)
        }),
{
    let roots = mag.map_values(|v: B::Num| B::sqrt_of(v));
    let g = |j: int| m.of(mag[j]);
    law_sum_adds_every_entry::<B>(m, mag, 1024);
    assert forall|j: int| 0 <= j < 1024 implies #[trigger] g(j) >= 0real by {
        assert(m.of(mag[j]) >= 0real);
    }
    lemma_total_nonnegative(g, 1024);
    law_inner_product_adds_every_product::<B>(m, md.kernel[c], roots, 1024);
    lemma_total_equal(
        |j: int| m.of(md.kernel[c][j]) * m.of(roots[j]),
        |j: int| m.of(md.kernel[c][j]) * m.of(B::sqrt_of(mag[j])),
        1024,
    );
    let root = m.of(B::sqrt_of(sum_upto::<B>(mag, 1024)));
    assert(m.of(B::ratio_of(1, 1_000_000_000_000)) == 1real / 1000000000000real);
    let d = max_real(root, 1real / 1000000000000real);
    let x = fit::<B>(m, md, mag, c);
    assert(x / d * d == x) by (nonlinear_arith)
        requires
            d > 0real,
    ;
}

/// Loudness does not change a score: magnitudes that are all `k` times as large score the same,
/// as long as neither sum is negligible.
pub proof fn law_score_ignores_loudness<B: Backend>(
    m: Meaning<B>,
    md: Model<B>,
    mag: Seq<B::Num>,
    louder: Seq<B::Num>,
    k: real,
    c: int,
)
    requires
        m.is_exact(),
        md.wf(),
        mag.len() == 1024,
        louder.len() == 1024,
        k > 0real,
        forall|j: int| 0 <= j < 1024 ==> m.of(#[trigger] mag[j]) >= 0real,
        forall|j: int| 0 <= j < 1024 ==> m.of(#[trigger] louder[j]) == k * m.of(mag[j]),
        m.of(B::sqrt_of(sum_upto::<B>(mag, 1024))) >= 1real / 1000000000000real,
        m.of(B::sqrt_of(sum_upto::<B>(louder, 1024))) >= 1real / 1000000000000real,
        0 <= c < 295,
    ensures
        m.of(md.scores(louder)[c]) == m.of(md.scores(mag)[c]),
{
    assert forall|j: int| 0 <= j < 1024 implies m.of(#[trigger] louder[j]) >= 0real by {
        let x = m.of(mag[j]);
        assert(k * x >= 0real) by (nonlinear_arith)
            requires
                k > 0real,
                x >= 0real,
        ;
    }
    law_score_measures_the_fit::<B>(m, md, mag, c);
    law_score_measures_the_fit::<B>(m, md, louder, c);
    let r0 = m.of(B::sqrt_of(sum_upto::<B>(mag, 1024)));
    let r1 = m.of(B::sqrt_of(sum_upto::<B>(louder, 1024)));
    let f0 = |j: int| m.of(mag[j]);
    let f1 = |j: int| m.of(louder[j]);
    assert forall|j: int| 0 <= j < 1024 implies #[trigger] f1(j) == k * f0(j) by {
        assert(m.of(louder[j]) == k * m.of(mag[j]));
    }
    lemma_total_scaled(f1, f0, k, 1024);
    // The root of the factor is the ratio of the roots.
    let s = r1 / r0;
    assert(s > 0real && s * s == k && s * r0 == r1) by (nonlinear_arith)
        requires
            r0 > 0real,
            r1 > 0real,
            r1 * r1 == k * (r0 * r0),
            s == r1 / r0,
    ;
    let g0 = |j: int| m.of(md.kernel[c][j]) * m.of(B::sqrt_of(mag[j]));
    let g1 = |j: int| m.of(md.kernel[c][j]) * m.of(B::sqrt_of(louder[j]));
    assert forall|j: int| 0 <= j < 1024 implies #[trigger] g1(j) == s * g0(j) by {
        assert(m.of(mag[j]) >= 0real);
        assert(m.of(louder[j]) >= 0real);
        let (q, x, y) = (
            m.of(md.kernel[c][j]),
            m.of(B::sqrt_of(mag[j])),
            m.of(B::sqrt_of(louder[j])),
        );
        let v = m.of(mag[j]);
        assert(s * x >= 0real) by (nonlinear_arith)
            requires
                s > 0real,
                x >= 0real,
        ;
        assert(y * y == (s * x) * (s * x)) by (nonlinear_arith)
            requires
                y * y == k * v,
                x * x == v,
                s * s == k,
        ;
        lemma_roots_agree(y, s * x);
        assert(q * (s * x) == s * (q * x)) by (nonlinear_arith);
    }
    lemma_total_scaled(g1, g0, s, 1024);
    let (a, b) = (m.of(md.scores(mag)[c]), m.of(md.scores(louder)[c]));
    assert(a == b) by (nonlinear_arith)
        requires
            b * r1 == s * (a * r0),
            s * r0 == r1,
            r1 > 0real,
    ;
}

proof fn lemma_roots_agree(x: real, y: real)
    by (nonlinear_arith)
    requires
        x >= 0real,
        y >= 0real,
        x * x == y * y,
    ensures
        x == y,
{
}

/// Every window of the bank contributes the scores of what is seen through it. Where one fails,
/// the first that does gives the reason.
pub proof fn law_every_window_is_scored<B: Backend>(
    md: Model<B>,
    buf: Seq<B::Num>,
    end: int,
    n: int,
)
    requires
        0 <= n <= md.windows.len(),
    ensures
        match md.window_scores(buf, end, n) {
            Ok(zs) => zs.len() == n && forall|i: int|
                0 <= i < n ==> {
                    &&& #[trigger] md.mel_mag(buf, end, i) is Ok
                    &&& zs[i] == md.scores(md.mel_mag(buf, end, i)->Ok_0)
                },
            Err(reason) => exists|i: int|
                {
                    &&& 0 <= i < n
                    &&& #[trigger] md.mel_mag(buf, end, i) == Err::<Seq<B::Num>, Seq<char>>(reason)
                    &&& forall|k: int| 0 <= k < i ==> #[trigger] md.mel_mag(buf, end, k) is Ok
                },
        },
    decreases n,
{
    if n > 0 {
        law_every_window_is_scored::<B>(md, buf, end, n - 1);
        if md.window_scores(buf, end, n - 1) is Ok {
            assert(md.mel_mag(buf, end, n - 1) is Ok || md.mel_mag(buf, end, n - 1) is Err);
        }
    }
}

/// What is seen through a window is the spectrum of its input on the mel axis, and the failure
/// to get a spectrum is a failure to see anything.
pub proof fn law_window_shows_its_spectrum<B: Backend>(
    md: Model<B>,
    buf: Seq<B::Num>,
    end: int,
    i: int,
)
    ensures
        match md.spectrum(md.fft_input(buf, end, i)) {
            Ok(bins) => md.mel_mag(buf, end, i) == Ok::<Seq<B::Num>, Seq<char>>(
                md.on_mel_axis(bins),
            ),
            Err(reason) => md.mel_mag(buf, end, i) == Err::<Seq<B::Num>, Seq<char>>(reason),
        },
{
}

/// A blended score lies on the straight line from the score under the shorter of the candidate's
/// windows to that under the longer one, as far along it as the share of the longer one.
pub proof fn law_blend_lies_between_the_windows<B: Backend>(
    m: Meaning<B>,
    md: Model<B>,
    zs: Seq<Seq<B::Num>>,
    c: int,
)
    requires
        m.is_exact(),
        0 <= c < 295,
    ensures
        md.blended(zs).len() == 295,
        ({
            let short = m.of(zs[md.cand_idx_minus[c] as int][c]);
            let long = m.of(zs[md.cand_idx_plus[c] as int][c]);
            let share = m.of(md.cand_alpha[c]);
            let found = m.of(md.blended(zs)[c]);
            &&& found == short + share * (long - short)
            &&& share == 0real ==> found == short
            &&& share == 1real ==> found == long
            &&& short == long ==> found == short
        }),
{
    let short = m.of(zs[md.cand_idx_minus[c] as int][c]);
    let long = m.of(zs[md.cand_idx_plus[c] as int][c]);
    let share = m.of(md.cand_alpha[c]);
    assert((1real - share) * short + share * long == short + share * (long - short))
        by (nonlinear_arith);
    assert(share == 0real ==> short + share * (long - short) == short) by (nonlinear_arith);
    assert(share == 1real ==> short + share * (long - short) == long) by (nonlinear_arith);
    assert(short == long ==> short + share * (long - short) == short) by (nonlinear_arith);
}

/// `p` is the first of the greatest among the first `n` entries of `z`, all of which lie above
/// the lowest number.
pub open spec fn is_first_greatest<B: Backend>(
    m: Meaning<B>,
    z: Seq<B::Num>,
    n: int,
    p: int,
) -> bool {
    &&& 0 <= p < n <= z.len()
    &&& forall|i: int| 0 <= i < n ==> m.of(#[trigger] z[i]) <= m.of(z[p])
    &&& forall|i: int| 0 <= i < p ==> m.of(#[trigger] z[i]) < m.of(z[p])
    &&& forall|i: int| 0 <= i < n ==> m.of(B::lowest_of()) < m.of(#[trigger] z[i])
}

/// The peak is the first of the greatest entries.
pub proof fn law_peak_is_the_first_greatest<B: Backend>(
    m: Meaning<B>,
    z: Seq<B::Num>,
    n: int,
    p: int,
)
    requires
        m.is_exact(),
        is_first_greatest::<B>(m, z, n, p),
    ensures
        peak_upto::<B>(z, n) == (p, z[p]),
{
    lemma_peak::<B>(m, z, n);
    let q = peak_upto::<B>(z, n).0;
    assert(m.of(z[q]) <= m.of(z[p]));
    assert(m.of(z[p]) <= m.of(z[q]));
    if p < q {
        assert(m.of(z[p]) < m.of(z[q]));
    } else if q < p {
        assert(m.of(z[q]) < m.of(z[p]));
    }
}

proof fn lemma_peak<B: Backend>(m: Meaning<B>, z: Seq<B::Num>, n: int)
    requires
        m.is_exact(),
        0 < n <= z.len(),
        forall|i: int| 0 <= i < n ==> m.of(B::lowest_of()) < m.of(#[trigger] z[i]),
    ensures
        ({
            let (q, v) = peak_upto::<B>(z, n);
            &&& 0 <= q < n
            &&& v == z[q]
            &&& forall|i: int| 0 <= i < n ==> m.of(#[trigger] z[i]) <= m.of(v)
            &&& forall|i: int| 0 <= i < q ==> m.of(#[trigger] z[i]) < m.of(v)
        }),
    decreases n,
{
    assert(m.of(B::lowest_of()) < m.of(z[n - 1]));
    if n == 1 {
        assert(peak_upto::<B>(z, 0) == (0int, B::lowest_of()));
    } else {
        lemma_peak::<B>(m, z, n - 1);
    }
}

/// Scores none of which exceeds the lowest number have their peak at the first candidate.
pub proof fn law_no_score_peaks_at_the_start<B: Backend>(z: Seq<B::Num>, n: int)
    requires
        n <= z.len(),
        forall|i: int| 0 <= i < n ==> !B::less_of(B::lowest_of(), #[trigger] z[i]),
    ensures
        peak_upto::<B>(z, n) == (0int, B::lowest_of()),
    decreases n,
{
    if n > 0 {
        law_no_score_peaks_at_the_start::<B>(z, n - 1);
        assert(!B::less_of(B::lowest_of(), z[n - 1]));
    }
}

/// The value at `t` of the parabola through `y_m` at -1, `y_0` at 0 and `y_p` at 1.
pub open spec fn parabola(y_m: real, y_0: real, y_p: real, t: real) -> real {
    y_0 + (y_p - y_m) / 2real * t + (y_m - 2real * y_0 + y_p) / 2real * (t * t)
}

/// The refinement is the place of the vertex of the parabola through the three scores, held to
/// half a step either way, and none where the scores lie on a line.
pub proof fn law_refinement_is_a_vertex<B: Backend>(
    m: Meaning<B>,
    y_m: B::Num,
    y_0: B::Num,
    y_p: B::Num,
)
    requires
        m.is_exact(),
    ensures
        ({
            let (a, b, c) = (m.of(y_m), m.of(y_0), m.of(y_p));
            let bend = a - 2real * b + c;
            let shift = m.of(shift_of::<B>(y_m, y_0, y_p));
            let least = 1real / 1000000000000real;
            &&& -(1real / 2real) <= shift <= 1real / 2real
            &&& -least <= bend <= least ==> shift == 0real
            &&& bend < -least || least < bend ==> shift == clamp_real(
                (a - c) / 2real / bend,
                -(1real / 2real),
                1real / 2real,
            )
        }),
{
    let (a, b, c) = (m.of(y_m), m.of(y_0), m.of(y_p));
    let bend = a - 2real * b + c;
    let denom = B::plus_of(B::minus_of(y_m, B::times_of(B::whole_of(2), y_0)), y_p);
    assert(m.of(denom) == bend);
    assert(m.of(B::ratio_of(1, 1_000_000_000_000)) == 1real / 1000000000000real);
    assert(m.of(B::ratio_of(1, 2)) == 1real / 2real);
    assert(m.of(B::whole_of(0)) == 0real);
    assert(1real / 2real * (a - c) == (a - c) / 2real) by (nonlinear_arith);
}

/// At a peak that is not flat the refinement goes to the highest point of the parabola.
pub proof fn law_refinement_finds_the_summit<B: Backend>(
    m: Meaning<B>,
    y_m: B::Num,
    y_0: B::Num,
    y_p: B::Num,
    t: real,
)
    requires
        m.is_exact(),
        m.of(y_m) <= m.of(y_0),
        m.of(y_p) <= m.of(y_0),
        m.of(y_m) - 2real * m.of(y_0) + m.of(y_p) < -(1real / 1000000000000real),
    ensures
        parabola(m.of(y_m), m.of(y_0), m.of(y_p), -1real) == m.of(y_m),
        parabola(m.of(y_m), m.of(y_0), m.of(y_p), 0real) == m.of(y_0),
        parabola(m.of(y_m), m.of(y_0), m.of(y_p), 1real) == m.of(y_p),
        parabola(m.of(y_m), m.of(y_0), m.of(y_p), t) <= parabola(
            m.of(y_m),
            m.of(y_0),
            m.of(y_p),
            m.of(shift_of::<B>(y_m, y_0, y_p)),
        ),
{
    law_refinement_is_a_vertex::<B>(m, y_m, y_0, y_p);
    let (a, b, c) = (m.of(y_m), m.of(y_0), m.of(y_p));
    let bend = a - 2real * b + c;
    let raw = (a - c) / 2real / bend;
    assert(raw * bend == (a - c) / 2real) by (nonlinear_arith)
        requires
            raw == (a - c) / 2real / bend,
            bend < 0real,
    ;
    assert(-(1real / 2real) <= raw <= 1real / 2real) by (nonlinear_arith)
        requires
            raw * bend == (a - c) / 2real,
            bend == a - 2real * b + c,
            bend < 0real,
            a <= b,
            c <= b,
    ;
    let s = m.of(shift_of::<B>(y_m, y_0, y_p));
    assert(s == raw);
    lemma_parabola_ends(a, b, c);
    assert(parabola(a, b, c, t) <= parabola(a, b, c, s)) by {
        let p = (c - a) / 2real;
        let q = bend / 2real;
        assert(p == -2real * (s * q)) by (nonlinear_arith)
            requires
                s * bend == (a - c) / 2real,
                q == bend / 2real,
                p == (c - a) / 2real,
        ;
        assert(p * t + q * (t * t) <= p * s + q * (s * s)) by (nonlinear_arith)
            requires
                q < 0real,
                p == -2real * (s * q),
        ;
    }
}

proof fn lemma_parabola_ends(a: real, b: real, c: real)
    ensures
        parabola(a, b, c, -1real) == a,
        parabola(a, b, c, 0real) == b,
        parabola(a, b, c, 1real) == c,
{
    let (p, q) = ((c - a) / 2real, (a - 2real * b + c) / 2real);
    assert(p * (-1real) == -p) by (nonlinear_arith);
    assert(p * 0real == 0real) by (nonlinear_arith);
    assert(p * 1real == p) by (nonlinear_arith);
    assert(q * ((-1real) * (-1real)) == q) by (nonlinear_arith);
    assert(q * (0real * 0real) == 0real) by (nonlinear_arith);
    assert(q * (1real * 1real) == q) by (nonlinear_arith);
}

/// Whatever the backend, the pitch is the candidate at the peak, moved by no more than a number
/// held to half a step either way, and not at all at either end of the candidates.
pub proof fn law_pitch_belongs_to_the_peak<B: Backend>(md: Model<B>, z: Seq<B::Num>, p: int)
    requires
        p == peak_upto::<B>(z, 295).0,
    ensures
        0 < p < 294 ==> exists|s: B::Num|
            md.pitch(z) == B::times_of(
                md.candidates[p],
                B::pow_of(
                    B::whole_of(2),
                    B::over_of(
                        #[trigger] B::clamped_of(
                            s,
                            B::negated_of(B::ratio_of(1, 2)),
                            B::ratio_of(1, 2),
                        ),
                        B::whole_of(36),
                    ),
                ),
            ),
        p <= 0 || p >= 294 ==> md.pitch(z) == md.candidates[p],
{
    if 0 < p < 294 {
        let (y_m, y_0, y_p) = (z[p - 1], z[p], z[p + 1]);
        let half = B::ratio_of(1, 2);
        let denom = B::plus_of(B::minus_of(y_m, B::times_of(B::whole_of(2), y_0)), y_p);
        let raw = if B::less_of(B::ratio_of(1, 1_000_000_000_000), B::abs_of(denom)) {
            B::over_of(B::times_of(half, B::minus_of(y_m, y_p)), denom)
        } else {
            B::whole_of(0)
        };
        assert(shift_of::<B>(y_m, y_0, y_p) == B::clamped_of(raw, B::negated_of(half), half));
    }
}

/// The pitch is the candidate with the first of the greatest scores, moved along the scale of 36
/// steps per octave by the refinement from the scores on both sides of it.
pub proof fn law_pitch_is_the_refined_peak<B: Backend>(
    m: Meaning<B>,
    md: Model<B>,
    z: Seq<B::Num>,
    p: int,
)
    requires
        m.is_exact(),
        is_first_greatest::<B>(m, z, 295, p),
    ensures
        p == 0 || p == 294 ==> md.pitch(z) == md.candidates[p],
        0 < p < 294 ==> m.of(md.pitch(z)) == m.of(md.candidates[p]) * (m.exp2)(
            m.of(shift_of::<B>(z[p - 1], z[p], z[p + 1])) / 36real,
        ),
{
    law_peak_is_the_first_greatest::<B>(m, z, 295, p);
}

/// The pitch stays within half a step of the candidate with the first of the greatest scores,
/// and so between the candidates on both sides of it.
pub proof fn law_pitch_stays_near_its_candidate<B: Backend>(
    m: Meaning<B>,
    windows: Seq<usize>,
    z: Seq<B::Num>,
    p: int,
)
    requires
        m.is_exact(),
        windows.len() > 0,
        is_first_greatest::<B>(m, z, 295, p),
    ensures
        ({
            let md = model_of::<B>(windows);
            let found = m.of(md.pitch(z));
            let at_peak = m.of(candidates_of::<B>()[p]);
            let half_a_step = 1real / 72real;
            &&& at_peak * (m.exp2)(-half_a_step) <= found <= at_peak * (m.exp2)(half_a_step)
            &&& p > 0 ==> m.of(candidates_of::<B>()[p - 1]) < found
            &&& p < 294 ==> found < m.of(candidates_of::<B>()[p + 1])
        }),
{
    let md = model_of::<B>(windows);
    let h = 1real / 72real;
    let e = m.exp2;
    law_tables_belong_together::<B>(windows, p, 0, 0);
    law_pitch_is_the_refined_peak::<B>(m, md, z, p);
    assert(-h < 0real && 0real < h);
    assert(e(-h) < e(0real) && e(0real) < e(h));
    let x = m.of(candidates_of::<B>()[p]);
    if p < 294 {
        law_candidates_ascend::<B>(m, p, p + 1);
    }
    if p > 0 {
        law_candidates_ascend::<B>(m, p - 1, p);
    }
    assert(x > 0real);
    assert(x * e(-h) <= x <= x * e(h)) by (nonlinear_arith)
        requires
            x > 0real,
            e(-h) <= 1real <= e(h),
    ;
    if 0 < p < 294 {
        law_refinement_is_a_vertex::<B>(m, z[p - 1], z[p], z[p + 1]);
        let s = m.of(shift_of::<B>(z[p - 1], z[p], z[p + 1])) / 36real;
        assert(-h <= s <= h);
        if s < h {
            assert(e(s) < e(h));
        }
        if -h < s {
            assert(e(-h) < e(s));
        }
        let v = e(s);
        assert(x * e(-h) <= x * v <= x * e(h)) by (nonlinear_arith)
            requires
                x > 0real,
                e(-h) <= v <= e(h),
        ;
        // The neighbours are a whole step away.
        let (a, b) = ((p - 1) as real / 36real, (p + 1) as real / 36real);
        let c = p as real / 36real;
        assert(c + s < b && a < c + s);
        assert(e(c + s) == e(c) * e(s));
        assert(e(a) < e(c + s) && e(c + s) < e(b));
        let q = 55real / 2real;
        let ec = e(c);
        assert(q * ec * v == q * (ec * v)) by (nonlinear_arith);
        lemma_candidate::<B>(m, p - 1);
        lemma_candidate::<B>(m, p);
        lemma_candidate::<B>(m, p + 1);
    }
}

/// A frame all of whose windows can be seen through has an estimate: the first of the greatest
/// blended scores, held between 0 and 1, as its confidence, and the pitch at that peak.
pub proof fn law_estimate_reports_the_peak<B: Backend>(
    m: Meaning<B>,
    md: Model<B>,
    buf: Seq<B::Num>,
    end: int,
    zs: Seq<Seq<B::Num>>,
    p: int,
)
    requires
        m.is_exact(),
        zs.len() == md.windows.len(),
        forall|i: int|
            0 <= i < zs.len() ==> #[trigger] md.mel_mag(buf, end, i) is Ok && zs[i] == md.scores(
                md.mel_mag(buf, end, i)->Ok_0,
            ),
        is_first_greatest::<B>(m, md.blended(zs), 295, p),
    ensures
        md.estimate(buf, end) matches Ok((confidence, pitch)) && {
            &&& m.of(confidence) == clamp_real(m.of(md.blended(zs)[p]), 0real, 1real)
            &&& pitch == md.pitch(md.blended(zs))
        },
{
    let n = md.windows.len() as int;
    law_every_window_is_scored::<B>(md, buf, end, n);
    if md.window_scores(buf, end, n) is Err {
        let i = choose|i: int|
            0 <= i < n && #[trigger] md.mel_mag(buf, end, i) == Err::<Seq<B::Num>, Seq<char>>(
                md.window_scores(buf, end, n)->Err_0,
            );
        assert(md.mel_mag(buf, end, i) is Ok);
    }
    let found = md.window_scores(buf, end, n)->Ok_0;
    assert forall|i: int| 0 <= i < n implies #[trigger] found[i] == zs[i] by {
        assert(md.mel_mag(buf, end, i) is Ok);
    }
    assert(found =~= zs);
    law_peak_is_the_first_greatest::<B>(m, md.blended(zs), 295, p);
    assert(m.of(B::whole_of(0)) == 0real && m.of(B::whole_of(1)) == 1real);
}

/// A frame has no estimate exactly if one of its windows cannot be seen through, and then the
/// first such window gives the reason.
pub proof fn law_estimate_fails_with_its_first_window<B: Backend>(
    md: Model<B>,
    buf: Seq<B::Num>,
    end: int,
    i: int,
)
    requires
        0 <= i < md.windows.len(),
        md.mel_mag(buf, end, i) is Err,
        forall|k: int| 0 <= k < i ==> #[trigger] md.mel_mag(buf, end, k) is Ok,
    ensures
        md.estimate(buf, end) == Err::<(B::Num, B::Num), Seq<char>>(
            md.mel_mag(buf, end, i)->Err_0,
        ),
{
    let n = md.windows.len() as int;
    law_every_window_is_scored::<B>(md, buf, end, n);
    if md.window_scores(buf, end, n) is Err {
        let reason = md.window_scores(buf, end, n)->Err_0;
        let k = choose|k: int|
            {
                &&& 0 <= k < n
                &&& #[trigger] md.mel_mag(buf, end, k) == Err::<Seq<B::Num>, Seq<char>>(reason)
                &&& forall|l: int| 0 <= l < k ==> #[trigger] md.mel_mag(buf, end, l) is Ok
            };
        if k < i {
            assert(md.mel_mag(buf, end, k) is Ok);
        } else if i < k {
            assert(md.mel_mag(buf, end, i) is Ok);
        }
    }
}

/// The analysis of a frame returns its estimate, or the reason why it has none.
pub proof fn law_analysis_returns_the_estimate<B: Backend>(
    md: Model<B>,
    buf: Seq<B::Num>,
    end: int,
    i: int,
    frame: Result<(B::Num, B::Num), Error>,
    seen: Result<Vec<B::Num>, Error>,
)
    requires
        deterministic::<B>(),
        reports::<B>(md, buf, end, frame),
        shows::<B>(md, buf, end, i, seen),
    ensures
        frame matches Ok(found) ==> md.estimate(buf, end) == Ok::<(B::Num, B::Num), Seq<char>>(
            found,
        ),
        frame matches Err(Error::Fft(why)) ==> md.estimate(buf, end) == Err::<
            (B::Num, B::Num),
            Seq<char>,
        >(why@),
        seen matches Ok(mag) ==> md.mel_mag(buf, end, i) == Ok::<Seq<B::Num>, Seq<char>>(mag@),
        seen matches Err(Error::Fft(why)) ==> md.mel_mag(buf, end, i) == Err::<
            Seq<B::Num>,
            Seq<char>,
        >(why@),
{
}

} // verus!
