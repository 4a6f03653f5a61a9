//! The mel-spaced frequency axis and its mapping onto the bins of a Fourier transform.
use vstd::prelude::*;

use crate::backend::{deterministic, Backend};
use crate::{MEL_FREQS, SAMPLE_RATE};

verus! {

/// Lowest candidate pitch: 27.5 Hz.
pub open spec fn f_min_of<B: Backend>() -> B::Num {
    B::ratio_of(55, 2)
}

/// Lower end of the mel axis: a quarter of the lowest candidate.
pub open spec fn mel_fmin_of<B: Backend>() -> B::Num {
    B::times_of(B::ratio_of(1, 4), f_min_of::<B>())
}

/// Upper end of the mel axis: five quarters of 8055 Hz.
pub open spec fn mel_fmax_of<B: Backend>() -> B::Num {
    B::times_of(B::ratio_of(5, 4), B::whole_of(8055))
}

/// Hz per mel on the linear part of the scale.
pub open spec fn f_sp_of<B: Backend>() -> B::Num {
    B::over_of(B::whole_of(200), B::whole_of(3))
}

/// The mel value at 1 kHz, where the scale turns from linear to logarithmic.
pub open spec fn min_log_mel_of<B: Backend>() -> B::Num {
    B::over_of(B::whole_of(1000), f_sp_of::<B>())
}

/// Natural logarithm of the frequency ratio of one mel on the logarithmic part of the scale.
pub open spec fn log_step_of<B: Backend>() -> B::Num {
    B::over_of(B::ln_of(B::ratio_of(32, 5)), B::whole_of(27))
}

/// The mel value of a frequency.
pub open spec fn hz_to_mel_of<B: Backend>(hz: B::Num) -> B::Num {
    if B::less_of(hz, B::whole_of(1000)) {
        B::over_of(hz, f_sp_of::<B>())
    } else {
        B::plus_of(
            min_log_mel_of::<B>(),
            B::over_of(B::ln_of(B::over_of(hz, B::whole_of(1000))), log_step_of::<B>()),
        )
    }
}

/// The frequency of a mel value.
pub open spec fn mel_to_hz_of<B: Backend>(mel: B::Num) -> B::Num {
    if B::less_of(mel, min_log_mel_of::<B>()) {
        B::times_of(f_sp_of::<B>(), mel)
    } else {
        B::times_of(
            B::whole_of(1000),
            B::exp_of(
                B::times_of(B::minus_of(mel, min_log_mel_of::<B>()), log_step_of::<B>()),
            ),
        )
    }
}

/// Distance in mel between neighbours on the axis.
pub open spec fn mel_step_of<B: Backend>() -> B::Num {
    B::over_of(
        B::minus_of(
            hz_to_mel_of::<B>(mel_fmax_of::<B>()),
            hz_to_mel_of::<B>(mel_fmin_of::<B>()),
        ),
        B::minus_of(B::whole_of(MEL_FREQS as u64), B::whole_of(1)),
    )
}

/// The frequencies of the mel axis: evenly spaced in mel from its lower to its upper end.
pub open spec fn mel_axis_of<B: Backend>() -> Seq<B::Num> {
    Seq::new(
        MEL_FREQS as nat,
        |i: int|
            mel_to_hz_of::<B>(
                B::plus_of(
                    hz_to_mel_of::<B>(mel_fmin_of::<B>()),
                    B::times_of(B::whole_of(i as u64), mel_step_of::<B>()),
                ),
            ),
    )
}

/// Width in Hz of one bin of a Fourier transform of `fft_size` samples.
pub open spec fn bin_hz_of<B: Backend>(fft_size: usize) -> B::Num {
    B::over_of(B::whole_of(SAMPLE_RATE as u64), B::whole_of(fft_size as u64))
}

/// Number of bins of a real Fourier transform of `fft_size` samples.
pub open spec fn bin_count(fft_size: int) -> int {
    fft_size / 2 + 1
}

/// The bin at or below position `i`, moved so that it and the bin above it both exist.
pub open spec fn lower_bin(i: int, fft_size: int) -> int {
    if i < 0 {
        0
    } else if i > bin_count(fft_size) - 2 {
        bin_count(fft_size) - 2
    } else {
        i
    }
}

/// The bin at or below frequency `mf`.
pub open spec fn mel_lo_of<B: Backend>(mf: B::Num, fft_size: usize) -> usize {
    lower_bin(
        B::floor_index_of(B::over_of(mf, bin_hz_of::<B>(fft_size))) as int,
        fft_size as int,
    ) as usize
}

/// How far frequency `mf` lies from the bin below it to the bin above it, from 0 to 1.
pub open spec fn mel_alpha_of<B: Backend>(mf: B::Num, fft_size: usize) -> B::Num {
    B::clamped_of(
        B::minus_of(
            B::over_of(mf, bin_hz_of::<B>(fft_size)),
            B::whole_of(mel_lo_of::<B>(mf, fft_size) as u64),
        ),
        B::whole_of(0),
        B::whole_of(1),
    )
}

/// Lowest candidate pitch in Hz.
pub fn f_min<B: Backend>() -> (hz: B::Num)
    ensures
        deterministic::<B>() ==> hz == f_min_of::<B>(),
{
    B::ratio(55, 2)
}

/// Upper end of the mel axis in Hz.
pub fn mel_fmax<B: Backend>() -> (hz: B::Num)
    ensures
        deterministic::<B>() ==> hz == mel_fmax_of::<B>(),
{
    B::times(B::ratio(5, 4), B::whole(8055))
}

/// Slaney-style mel scale: linear up to 1 kHz, logarithmic above.
pub fn hz_to_mel<B: Backend>(hz: B::Num) -> (mel: B::Num)
    ensures
        deterministic::<B>() ==> mel == hz_to_mel_of::<B>(hz),
{
    let f_sp = B::over(B::whole(200), B::whole(3));
    let min_log_hz = B::whole(1000);
    let min_log_mel = B::over(min_log_hz, f_sp);
    let log_step = B::over(B::ln(B::ratio(32, 5)), B::whole(27));
    if B::less(hz, min_log_hz) {
        B::over(hz, f_sp)
    } else {
        B::plus(min_log_mel, B::over(B::ln(B::over(hz, min_log_hz)), log_step))
    }
}

/// The frequency in Hz that stands at `mel` on the scale of [`hz_to_mel`].
pub fn mel_to_hz<B: Backend>(mel: B::Num) -> (hz: B::Num)
    ensures
        deterministic::<B>() ==> hz == mel_to_hz_of::<B>(mel),
{
    let f_sp = B::over(B::whole(200), B::whole(3));
    let min_log_hz = B::whole(1000);
    let min_log_mel = B::over(min_log_hz, f_sp);
    let log_step = B::over(B::ln(B::ratio(32, 5)), B::whole(27));
    if B::less(mel, min_log_mel) {
        B::times(f_sp, mel)
    } else {
        B::times(min_log_hz, B::exp(B::times(B::minus(mel, min_log_mel), log_step)))
    }
}

/// The frequencies of the mel axis, in Hz.
pub fn build_mel_axis<B: Backend>() -> (axis: Vec<B::Num>)
    ensures
        axis@.len() == MEL_FREQS,
        deterministic::<B>() ==> axis@ == mel_axis_of::<B>(),
{
    let m_lo = hz_to_mel::<B>(B::times(B::ratio(1, 4), f_min::<B>()));
    let m_hi = hz_to_mel::<B>(mel_fmax::<B>());
    let step = B::over(B::minus(m_hi, m_lo), B::minus(B::whole(MEL_FREQS as u64), B::whole(1)));
    let mut axis: Vec<B::Num> = Vec::with_capacity(MEL_FREQS);
    for i in 0..MEL_FREQS
        invariant
            axis@.len() == i,
            deterministic::<B>() ==> m_lo == hz_to_mel_of::<B>(mel_fmin_of::<B>()),
            deterministic::<B>() ==> step == mel_step_of::<B>(),
            deterministic::<B>() ==> forall|k: int|
                0 <= k < i ==> #[trigger] axis@[k] == mel_axis_of::<B>()[k],
    {
        axis.push(mel_to_hz::<B>(B::plus(m_lo, B::times(B::whole(i as u64), step))));
    }
    axis
}

/// For each frequency of `mel_freqs`, the bin of a transform of `fft_size` samples at or below
/// it, and how far it lies towards the next bin.
pub fn build_mel_interp<B: Backend>(mel_freqs: &Vec<B::Num>, fft_size: usize) -> (r: (
    Vec<usize>,
    Vec<B::Num>,
))
    requires
        fft_size >= 2,
    ensures
        r.0@.len() == mel_freqs@.len(),
        r.1@.len() == mel_freqs@.len(),
        forall|j: int|
            0 <= j < r.0@.len() ==> (#[trigger] r.0@[j]) + 1 < bin_count(fft_size as int),
        deterministic::<B>() ==> r.0@ == mel_freqs@.map_values(|mf| mel_lo_of::<B>(mf, fft_size)),
        deterministic::<B>() ==> r.1@ == mel_freqs@.map_values(
            |mf| mel_alpha_of::<B>(mf, fft_size),
        ),
{
    let bin_hz = B::over(B::whole(SAMPLE_RATE as u64), B::whole(fft_size as u64));
    let zero = B::whole(0);
    let one = B::whole(1);
    let top: usize = fft_size / 2 - 1;
    let mut lo: Vec<usize> = Vec::with_capacity(mel_freqs.len());
    let mut alpha: Vec<B::Num> = Vec::with_capacity(mel_freqs.len());
    for j in 0..mel_freqs.len()
        invariant
            fft_size >= 2,
            top == bin_count(fft_size as int) - 2,
            lo@.len() == j,
            alpha@.len() == j,
            forall|k: int| 0 <= k < j ==> (#[trigger] lo@[k]) + 1 < bin_count(fft_size as int),
            deterministic::<B>() ==> {
                &&& bin_hz == bin_hz_of::<B>(fft_size)
                &&& zero == B::whole_of(0)
                &&& one == B::whole_of(1)
                &&& forall|k: int|
                    0 <= k < j ==> #[trigger] lo@[k] == mel_lo_of::<B>(mel_freqs@[k], fft_size)
                &&& forall|k: int|
                    0 <= k < j ==> #[trigger] alpha@[k] == mel_alpha_of::<B>(
                        mel_freqs@[k],
                        fft_size,
                    )
            },
    {
        let pos = B::over(mel_freqs[j], bin_hz);
        let at: isize = B::floor_index(pos);
        let i: usize = if at < 0 {
            0
        } else if at as usize > top {
            top
        } else {
            at as usize
        };
        let a = B::clamped(B::minus(pos, B::whole(i as u64)), zero, one);
        lo.push(i);
        alpha.push(a);
    }
    (lo, alpha)
}

} // verus!
