//! The same steps on a backend that rounds: which operations lead to each result, and in which
//! order. These laws take nothing for granted about the arithmetic.
use vstd::prelude::*;

use crate::backend::{Backend, Complex};
use crate::fold::{dot_upto, sum_upto};
use crate::frame::{magnitude_of, peak_upto, shift_of, Model};
use crate::kernel::{centred_of, harmonics_below, unit_of, with_lobe};
use crate::meaning::comb::lemma_last_kept;
use crate::mel::{hz_to_mel_of, mel_alpha_of, mel_axis_of, mel_lo_of, mel_to_hz_of};
use crate::primes::is_kept;
use crate::windows::{
    first_reaching, hann_of, lemma_first_reaching, log_ideal_of, log_windows_of, lower_window,
    upper_window, window_alpha_of,
};

verus! {

/// A sum starts from zero, and one more entry is added to it last.
pub proof fn law_sum_grows_by_its_last_entry<B: Backend>(s: Seq<B::Num>, x: B::Num)
    ensures
        sum_upto::<B>(Seq::empty(), 0) == B::whole_of(0),
        sum_upto::<B>(s.push(x), s.push(x).len() as int) == B::plus_of(
            sum_upto::<B>(s, s.len() as int),
            x,
        ),
{
    lemma_sum_of_prefix::<B>(s, x, s.len() as int);
}

proof fn lemma_sum_of_prefix<B: Backend>(s: Seq<B::Num>, x: B::Num, n: int)
    requires
        n <= s.len(),
    ensures
        sum_upto::<B>(s.push(x), n) == sum_upto::<B>(s, n),
    decreases n,
{
    if n > 0 {
        lemma_sum_of_prefix::<B>(s, x, n - 1);
    }
}

/// An inner product starts from zero, and one more product is added to it last.
pub proof fn law_inner_product_grows_by_its_last_product<B: Backend>(
    s: Seq<B::Num>,
    t: Seq<B::Num>,
    x: B::Num,
    y: B::Num,
)
    requires
        s.len() == t.len(),
    ensures
        dot_upto::<B>(Seq::empty(), Seq::empty(), 0) == B::whole_of(0),
        dot_upto::<B>(s.push(x), t.push(y), s.push(x).len() as int) == B::plus_of(
            dot_upto::<B>(s, t, s.len() as int),
            B::times_of(x, y),
        ),
{
    lemma_product_of_prefixes::<B>(s, t, x, y, s.len() as int);
}

proof fn lemma_product_of_prefixes<B: Backend>(
    s: Seq<B::Num>,
    t: Seq<B::Num>,
    x: B::Num,
    y: B::Num,
    n: int,
)
    requires
        s.len() == t.len(),
        n <= s.len(),
    ensures
        dot_upto::<B>(s.push(x), t.push(y), n) == dot_upto::<B>(s, t, n),
    decreases n,
{
    if n > 0 {
        lemma_product_of_prefixes::<B>(s, t, x, y, n - 1);
    }
}

/// The mel scale turns from linear to logarithmic at 1000 Hz in one direction, and at the mel
/// value of 1000 Hz in the other.
pub proof fn law_mel_scale_in_operations<B: Backend>(x: B::Num)
    ensures
        ({
            let width = B::over_of(B::whole_of(200), B::whole_of(3));
            let turn = B::over_of(B::whole_of(1000), width);
            let step = B::over_of(B::ln_of(B::ratio_of(32, 5)), B::whole_of(27));
            &&& B::less_of(x, B::whole_of(1000)) ==> hz_to_mel_of::<B>(x) == B::over_of(x, width)
            &&& !B::less_of(x, B::whole_of(1000)) ==> hz_to_mel_of::<B>(x) == B::plus_of(
                turn,
                B::over_of(B::ln_of(B::over_of(x, B::whole_of(1000))), step),
            )
            &&& B::less_of(x, turn) ==> mel_to_hz_of::<B>(x) == B::times_of(width, x)
            &&& !B::less_of(x, turn) ==> mel_to_hz_of::<B>(x) == B::times_of(
                B::whole_of(1000),
                B::exp_of(B::times_of(B::minus_of(x, turn), step)),
            )
        }),
{
}

/// Frequency `j` of the axis stands `j` equal steps in mel above the axis's lower end.
pub proof fn law_axis_in_operations<B: Backend>(j: int)
    requires
        0 <= j < 1024,
    ensures
        ({
            let lo = hz_to_mel_of::<B>(B::times_of(B::ratio_of(1, 4), B::ratio_of(55, 2)));
            let hi = hz_to_mel_of::<B>(B::times_of(B::ratio_of(5, 4), B::whole_of(8055)));
            let gaps = B::minus_of(B::whole_of(1024), B::whole_of(1));
            let step = B::over_of(B::minus_of(hi, lo), gaps);
            mel_axis_of::<B>()[j] == mel_to_hz_of::<B>(
                B::plus_of(lo, B::times_of(B::whole_of(j as u64), step)),
            )
        }),
{
}

/// The share of the upper bin is what a position exceeds the lower bin by, held between 0 and 1.
pub proof fn law_bin_share_in_operations<B: Backend>(mf: B::Num, fft_size: usize)
    ensures
        ({
            let bin_hz = B::over_of(B::whole_of(48000), B::whole_of(fft_size as u64));
            let lower = B::whole_of(mel_lo_of::<B>(mf, fft_size) as u64);
            mel_alpha_of::<B>(mf, fft_size) == B::clamped_of(
                B::minus_of(B::over_of(mf, bin_hz), lower),
                B::whole_of(0),
                B::whole_of(1),
            )
        }),
{
}

/// A window at place `i` is a half less half of the cosine of `i` steps, of which a full turn has
/// one less than the window has samples.
pub proof fn law_window_in_operations<B: Backend>(w: usize, i: int)
    requires
        0 <= i < w,
    ensures
        hann_of::<B>(w).len() == w,
        ({
            let half = B::ratio_of(1, 2);
            let turn = B::times_of(B::whole_of(2), B::pi_of());
            let steps = B::minus_of(B::whole_of(w as u64), B::whole_of(1));
            let angle = B::over_of(B::times_of(turn, B::whole_of(i as u64)), steps);
            hann_of::<B>(w)[i] == B::minus_of(half, B::times_of(half, B::cos_of(angle)))
        }),
{
}

/// The longer window is the first one whose logarithm reaches that of eight periods, and its
/// share is the part of the way that eight periods are from the shorter one to it.
pub proof fn law_window_choice_in_operations<B: Backend>(windows: Seq<usize>, fc: B::Num, k: int)
    requires
        windows.len() > 0,
        0 <= k < windows.len(),
    ensures
        ({
            let ideal = B::log2_of(
                B::over_of(B::times_of(B::whole_of(8), B::whole_of(48000)), fc),
            );
            let hi = upper_window::<B>(windows, fc);
            let lo = lower_window::<B>(windows, fc);
            let short = B::log2_of(B::whole_of(windows[lo] as u64));
            let long = B::log2_of(B::whole_of(windows[hi] as u64));
            let reaches = B::at_most_of(ideal, B::log2_of(B::whole_of(windows[k] as u64)));
            &&& 0 <= lo <= hi < windows.len()
            &&& windows.len() > 1 ==> hi == lo + 1
            &&& k < hi && hi > 1 ==> !reaches
            &&& k == hi && 1 < hi < windows.len() - 1 ==> reaches
            &&& k == hi && hi == 1 && hi < windows.len() - 1 ==> reaches || B::at_most_of(
                ideal,
                short,
            )
            &&& window_alpha_of::<B>(windows, fc) == B::clamped_of(
                B::over_of(
                    B::minus_of(ideal, short),
                    B::larger_of(B::minus_of(long, short), B::ratio_of(1, 1_000_000)),
                ),
                B::whole_of(0),
                B::whole_of(1),
            )
        }),
{
    let logs = log_windows_of::<B>(windows);
    let ideal = log_ideal_of::<B>(fc);
    lemma_first_reaching::<B>(logs, ideal, 0);
    let r = first_reaching::<B>(logs, ideal, 0);
    assert(logs[k] == B::log2_of(B::whole_of(windows[k] as u64)));
    assert(logs[0] == B::log2_of(B::whole_of(windows[0] as u64)));
    assert(logs[r] == B::log2_of(B::whole_of(windows[r] as u64)));
}

/// Within its width a lobe adds its height times a raised cosine.
pub proof fn law_lobe_in_operations<B: Backend>(
    row: Seq<B::Num>,
    mel_freqs: Seq<B::Num>,
    centre: B::Num,
    fc: B::Num,
    amp: B::Num,
    j: int,
)
    requires
        row.len() == mel_freqs.len(),
        0 <= j < row.len(),
    ensures
        ({
            let mf = mel_freqs[j];
            let reach = B::over_of(fc, B::whole_of(2));
            let within = B::at_most_of(B::minus_of(centre, reach), mf) && B::at_most_of(
                mf,
                B::plus_of(centre, reach),
            );
            let turn = B::times_of(B::whole_of(2), B::pi_of());
            let angle = B::over_of(B::times_of(turn, B::minus_of(mf, centre)), fc);
            let height = B::times_of(
                B::ratio_of(1, 2),
                B::plus_of(B::whole_of(1), B::cos_of(angle)),
            );
            within ==> with_lobe::<B>(row, mel_freqs, centre, fc, amp)[j] == B::plus_of(
                row[j],
                B::times_of(amp, height),
            )
        }),
{
}

/// A kept harmonic adds its lobe, and then, above the fundamental, the valley half way down to
/// the kept harmonic before it. Any other harmonic adds nothing.
pub proof fn law_harmonic_in_operations<B: Backend>(
    mel_freqs: Seq<B::Num>,
    fc: B::Num,
    h: int,
    before: int,
)
    requires
        1 <= h,
        0 <= before < h,
        before == 0 || is_kept(before),
        forall|k: int| before < k < h ==> !#[trigger] is_kept(k),
    ensures
        ({
            let row = harmonics_below::<B>(mel_freqs, fc, h);
            let next = harmonics_below::<B>(mel_freqs, fc, h + 1);
            let centre = B::times_of(B::whole_of(h as u64), fc);
            let weight = B::over_of(B::whole_of(1), B::sqrt_of(B::whole_of(h as u64)));
            let peaked = with_lobe::<B>(row, mel_freqs, centre, fc, weight);
            let both = B::plus_of(B::whole_of(before as u64), B::whole_of(h as u64));
            let mid = B::times_of(B::times_of(both, B::ratio_of(1, 2)), fc);
            let dip = B::times_of(B::negated_of(weight), B::ratio_of(1, 2));
            &&& !is_kept(h) ==> next == row
            &&& h == 1 ==> next == peaked
            &&& h > 1 && is_kept(h) ==> next == with_lobe::<B>(peaked, mel_freqs, mid, fc, dip)
        }),
{
    lemma_last_kept(h, before);
    if before == 0 && h > 1 {
        assert(is_kept(1));
    }
}

/// Centring takes the mean away from every entry.
pub proof fn law_centring_in_operations<B: Backend>(row: Seq<B::Num>, j: int)
    requires
        0 <= j < row.len(),
    ensures
        centred_of::<B>(row).len() == row.len(),
        centred_of::<B>(row)[j] == B::minus_of(
            row[j],
            B::over_of(sum_upto::<B>(row, row.len() as int), B::whole_of(row.len() as u64)),
        ),
{
}

/// Scaling divides every entry by the norm, where that exceeds 1e-12, and else does nothing.
pub proof fn law_scaling_in_operations<B: Backend>(row: Seq<B::Num>, j: int)
    requires
        0 <= j < row.len(),
    ensures
        ({
            let norm = B::sqrt_of(dot_upto::<B>(row, row, row.len() as int));
            let exceeds = B::less_of(B::ratio_of(1, 1_000_000_000_000), norm);
            &&& unit_of::<B>(row).len() == row.len()
            &&& exceeds ==> unit_of::<B>(row)[j] == B::over_of(row[j], norm)
            &&& !exceeds ==> unit_of::<B>(row)[j] == row[j]
        }),
{
}

/// A magnitude on the mel axis mixes those of its two bins by the share of the upper one.
pub proof fn law_magnitude_in_operations<B: Backend>(
    md: Model<B>,
    bins: Seq<Complex<B::Num>>,
    c: Complex<B::Num>,
    j: int,
)
    requires
        0 <= j < 1024,
    ensures
        magnitude_of::<B>(c) == B::sqrt_of(
            B::plus_of(B::times_of(c.re, c.re), B::times_of(c.im, c.im)),
        ),
        ({
            let lower = magnitude_of::<B>(bins[md.mel_lo[j] as int]);
            let upper = magnitude_of::<B>(bins[md.mel_lo[j] + 1]);
            let share = md.mel_alpha[j];
            md.on_mel_axis(bins)[j] == B::plus_of(
                B::times_of(lower, B::minus_of(B::whole_of(1), share)),
                B::times_of(upper, share),
            )
        }),
{
}

/// A blended score mixes those under the candidate's two windows by the share of the longer one.
pub proof fn law_blend_in_operations<B: Backend>(md: Model<B>, zs: Seq<Seq<B::Num>>, c: int)
    requires
        0 <= c < 295,
    ensures
        ({
            let short = zs[md.cand_idx_minus[c] as int][c];
            let long = zs[md.cand_idx_plus[c] as int][c];
            let share = md.cand_alpha[c];
            md.blended(zs)[c] == B::plus_of(
                B::times_of(B::minus_of(B::whole_of(1), share), short),
                B::times_of(share, long),
            )
        }),
{
}

/// The peak so far gives way only to an entry that is greater.
pub proof fn law_peak_gives_way_to_the_greater<B: Backend>(z: Seq<B::Num>, n: int)
    requires
        n >= 0,
    ensures
        peak_upto::<B>(z, 0) == (0int, B::lowest_of()),
        B::less_of(peak_upto::<B>(z, n).1, z[n]) ==> peak_upto::<B>(z, n + 1) == (n, z[n]),
        !B::less_of(peak_upto::<B>(z, n).1, z[n]) ==> peak_upto::<B>(z, n + 1) == peak_upto::<B>(
            z,
            n,
        ),
{
}

/// The refinement is half the difference of the outer scores over the second difference of all
/// three, or none where that is no larger than 1e-12, held to half a step either way.
pub proof fn law_refinement_in_operations<B: Backend>(y_m: B::Num, y_0: B::Num, y_p: B::Num)
    ensures
        ({
            let half = B::ratio_of(1, 2);
            let bend = B::plus_of(B::minus_of(y_m, B::times_of(B::whole_of(2), y_0)), y_p);
            let bent = B::less_of(B::ratio_of(1, 1_000_000_000_000), B::abs_of(bend));
            let vertex = B::over_of(B::times_of(half, B::minus_of(y_m, y_p)), bend);
            let shift = shift_of::<B>(y_m, y_0, y_p);
            &&& bent ==> shift == B::clamped_of(vertex, B::negated_of(half), half)
            &&& !bent ==> shift == B::clamped_of(B::whole_of(0), B::negated_of(half), half)
        }),
{
}

/// The confidence is the score at the peak, held between 0 and 1. The pitch is the candidate at
/// the peak, times two to the power of the refinement in octaves where the peak has neighbours
/// on both sides.
pub proof fn law_estimate_in_operations<B: Backend>(
    md: Model<B>,
    buf: Seq<B::Num>,
    end: int,
    zs: Seq<Seq<B::Num>>,
)
    requires
        md.window_scores(buf, end, md.windows.len() as int) == Ok::<
            Seq<Seq<B::Num>>,
            Seq<char>,
        >(zs),
    ensures
        md.estimate(buf, end) matches Ok((confidence, pitch)) && {
            let z = md.blended(zs);
            let (p, top) = peak_upto::<B>(z, 295);
            &&& confidence == B::clamped_of(top, B::whole_of(0), B::whole_of(1))
            &&& 0 < p < 294 ==> pitch == B::times_of(
                md.candidates[p],
                B::pow_of(
                    B::whole_of(2),
                    B::over_of(shift_of::<B>(z[p - 1], z[p], z[p + 1]), B::whole_of(36)),
                ),
            )
            &&& p <= 0 || p >= 294 ==> pitch == md.candidates[p]
        },
{
}

} // verus!
