//! Properties of the estimator as a whole.
use vstd::arithmetic::power2::{lemma2_to64, lemma_pow2_strictly_increases, lemma_pow2_unfold, pow2};
use vstd::prelude::*;

use crate::backend::{deterministic, Backend};
use crate::error::Error;
use crate::frame::{model_of, peak_upto, reports, shows, Model};
use crate::kernel::{candidates_of, first_beyond, harmonics_below, kernels_of, last_kept};
use crate::primes::is_kept;
use crate::stream::{
    advances, failure_of, first_failure, frame_at, frame_count, frame_end, frames_between,
    lemma_estimate_is_local, lemma_frame_count, lemma_frame_count_grows, lemma_valid_state,
    PitchFrame, Swipe,
};
use crate::windows::{
    bank_of, lemma_bank_ends_with_longest, lemma_doubled_up_to, lemma_doublings,
    lemma_first_reaching, log_ideal_of, log_windows_of, longest_window,
};
use crate::{HOP_SAMPLES, MIN_WINDOW, NUM_CANDIDATES, SAMPLE_RATE};

verus! {

/// The entries of a sequence of chunks, in order.
pub open spec fn concat<N>(chunks: Seq<Seq<N>>) -> Seq<N>
    decreases chunks.len(),
{
    if chunks.len() == 0 {
        Seq::empty()
    } else {
        concat(chunks.drop_last()) + chunks.last()
    }
}

/// A frame that is due stays the same whatever audio follows.
pub proof fn law_later_audio_changes_no_frame<B: Backend>(
    m: Model<B>,
    a: Seq<B::Num>,
    b: Seq<B::Num>,
    k: int,
)
    requires
        m.wf(),
        0 <= k < frame_count(m.fft_size as int, a.len() as int),
    ensures
        frame_at::<B>(m, a + b, k) == frame_at::<B>(m, a, k),
{
    let fft_size = m.fft_size as int;
    let end = frame_end(fft_size, k);
    lemma_frame_count(fft_size, a.len() as int, k);
    assert((a + b).subrange(end - fft_size, end) == a.subrange(end - fft_size, end));
    lemma_estimate_is_local::<B>(m, a + b, end, a, end);
}

/// Sample `k` of the window of `w` samples that ends at position `end` of `buf`. Samples outside
/// `buf` count as zero.
pub open spec fn sample_heard<B: Backend>(buf: Seq<B::Num>, end: int, w: int, k: int) -> B::Num {
    if is_present::<B>(buf, end, w, k) {
        buf[end - w + k]
    } else {
        B::whole_of(0)
    }
}

/// Sample `k` of the window of `w` samples that ends at position `end` lies inside `buf`.
pub open spec fn is_present<B: Backend>(buf: Seq<B::Num>, end: int, w: int, k: int) -> bool {
    0 <= end - w + k < buf.len()
}

/// What is seen through window `i` of the bank depends on nothing but the samples of that window
/// just before the right edge, missing ones counting as zero. A sample that is missing on one
/// side only can be replaced by a zero on the other where zero times the window's weight there
/// is zero.
pub proof fn law_window_sees_only_its_samples<B: Backend>(
    m: Model<B>,
    b1: Seq<B::Num>,
    e1: int,
    b2: Seq<B::Num>,
    e2: int,
    i: int,
)
    requires
        m.wf(),
        0 <= i < m.windows.len(),
        forall|k: int|
            0 <= k < m.windows[i] ==> #[trigger] sample_heard::<B>(b1, e1, m.windows[i] as int, k)
                == sample_heard::<B>(b2, e2, m.windows[i] as int, k),
        forall|k: int|
            0 <= k < m.windows[i] ==> #[trigger] is_present::<B>(b1, e1, m.windows[i] as int, k)
                == is_present::<B>(b2, e2, m.windows[i] as int, k) || B::times_of(
                B::whole_of(0),
                m.hann[i][k],
            ) == B::whole_of(0),
    ensures
        m.fft_input(b1, e1, i) == m.fft_input(b2, e2, i),
        m.mel_mag(b1, e1, i) == m.mel_mag(b2, e2, i),
{
    let w = m.windows[i] as int;
    let in1 = m.fft_input(b1, e1, i);
    let in2 = m.fft_input(b2, e2, i);
    assert forall|k: int| 0 <= k < m.fft_size implies #[trigger] in1[k] == in2[k] by {
        if k < w {
            assert(sample_heard::<B>(b1, e1, w, k) == sample_heard::<B>(b2, e2, w, k));
            assert(is_present::<B>(b1, e1, w, k) == is_present::<B>(b2, e2, w, k) || B::times_of(
                B::whole_of(0),
                m.hann[i][k],
            ) == B::whole_of(0));
        }
    }
    assert(in1 == in2);
}

/// Two looks through window `i`, by analyzers with the same tables at samples that agree as
/// [`law_window_sees_only_its_samples`] asks, show the same.
pub proof fn law_equal_samples_look_the_same<B: Backend>(
    m: Model<B>,
    b1: Seq<B::Num>,
    e1: int,
    r1: Result<Vec<B::Num>, Error>,
    b2: Seq<B::Num>,
    e2: int,
    r2: Result<Vec<B::Num>, Error>,
    i: int,
)
    requires
        deterministic::<B>(),
        m.wf(),
        0 <= i < m.windows.len(),
        shows::<B>(m, b1, e1, i, r1),
        shows::<B>(m, b2, e2, i, r2),
        forall|k: int|
            0 <= k < m.windows[i] ==> #[trigger] sample_heard::<B>(b1, e1, m.windows[i] as int, k)
                == sample_heard::<B>(b2, e2, m.windows[i] as int, k),
        forall|k: int|
            0 <= k < m.windows[i] ==> #[trigger] is_present::<B>(b1, e1, m.windows[i] as int, k)
                == is_present::<B>(b2, e2, m.windows[i] as int, k) || B::times_of(
                B::whole_of(0),
                m.hann[i][k],
            ) == B::whole_of(0),
    ensures
        failure_of(r1) == failure_of(r2),
        r1 is Ok ==> r1->Ok_0@ == r2->Ok_0@,
{
    law_window_sees_only_its_samples::<B>(m, b1, e1, b2, e2, i);
}

/// Analysing the same frame again gives the same confidence and pitch, or the same failure.
pub proof fn law_repeated_analysis_agrees<B: Backend>(
    m: Model<B>,
    buf: Seq<B::Num>,
    end: int,
    r1: Result<(B::Num, B::Num), Error>,
    r2: Result<(B::Num, B::Num), Error>,
)
    requires
        deterministic::<B>(),
        reports::<B>(m, buf, end, r1),
        reports::<B>(m, buf, end, r2),
    ensures
        failure_of(r1) == failure_of(r2),
        r1 is Ok ==> r1->Ok_0 == r2->Ok_0,
{
}

/// Each kernel is a function of its own candidate and the axis alone, with one entry per
/// frequency of the axis: the kernels of two lists of candidates together are those of the first
/// followed by those of the second.
pub proof fn law_kernels_are_independent<B: Backend>(
    a: Seq<B::Num>,
    b: Seq<B::Num>,
    mel_freqs: Seq<B::Num>,
)
    ensures
        kernels_of::<B>(a + b, mel_freqs) == kernels_of::<B>(a, mel_freqs) + kernels_of::<B>(
            b,
            mel_freqs,
        ),
        kernels_of::<B>(a, mel_freqs).len() == a.len(),
        forall|c: int|
            0 <= c < a.len() ==> (#[trigger] kernels_of::<B>(a, mel_freqs)[c]).len()
                == mel_freqs.len(),
{
    assert forall|c: int| 0 <= c < a.len() implies (
    #[trigger] kernels_of::<B>(a, mel_freqs)[c]).len() == mel_freqs.len() by {
        lemma_harmonics_len::<B>(mel_freqs, a[c], first_beyond::<B>(a[c], 1));
    }
    assert(kernels_of::<B>(a + b, mel_freqs) == kernels_of::<B>(a, mel_freqs) + kernels_of::<B>(
        b,
        mel_freqs,
    ));
}

/// Adding harmonics keeps the length of a row.
proof fn lemma_harmonics_len<B: Backend>(mel_freqs: Seq<B::Num>, fc: B::Num, n: int)
    ensures
        harmonics_below::<B>(mel_freqs, fc, n).len() == mel_freqs.len(),
    decreases n,
{
    if n > 1 {
        lemma_harmonics_len::<B>(mel_freqs, fc, n - 1);
    }
}

/// Frames are right-aligned: frame `k` is what the latest samples before its right edge, one
/// longest window of them, give on their own.
pub proof fn law_frames_are_right_aligned<B: Backend>(m: Model<B>, stream: Seq<B::Num>, k: int)
    requires
        m.wf(),
        0 <= k < frame_count(m.fft_size as int, stream.len() as int),
    ensures
        m.estimate(stream, frame_end(m.fft_size as int, k)) == m.estimate(
            stream.subrange(HOP_SAMPLES * k, frame_end(m.fft_size as int, k)),
            m.fft_size as int,
        ),
{
    let fft_size = m.fft_size as int;
    let end = frame_end(fft_size, k);
    lemma_frame_count(fft_size, stream.len() as int, k);
    let latest = stream.subrange(HOP_SAMPLES * k, end);
    assert(latest.subrange(0, fft_size) == stream.subrange(end - fft_size, end));
    lemma_estimate_is_local::<B>(m, stream, end, latest, fft_size);
}

/// Feeding `a` and then `b` gives the frames, and meets the failure if there is one, that
/// feeding both at once does. `from` is the number of frames emitted before.
pub proof fn law_two_chunks_match_one<B: Backend>(
    m: Model<B>,
    a: Seq<B::Num>,
    b: Seq<B::Num>,
    from: int,
)
    requires
        m.wf(),
        0 <= from <= frame_count(m.fft_size as int, a.len() as int),
    ensures
        ({
            let mid = frame_count(m.fft_size as int, a.len() as int);
            let end = frame_count(m.fft_size as int, (a + b).len() as int);
            let stop_a = first_failure::<B>(m, a, from, mid);
            let stop_ab = first_failure::<B>(m, a + b, from, end);
            &&& stop_a == mid ==> stop_ab == first_failure::<B>(m, a + b, mid, end)
                && frames_between::<B>(m, a + b, from, stop_ab) == frames_between::<B>(
                m,
                a,
                from,
                mid,
            ) + frames_between::<B>(m, a + b, mid, stop_ab)
            &&& stop_a < mid ==> stop_ab == stop_a && frames_between::<B>(m, a + b, from, stop_ab)
                == frames_between::<B>(m, a, from, stop_a) && frame_at::<B>(m, a + b, stop_ab)
                == frame_at::<B>(m, a, stop_a)
        }),
{
    let fft_size = m.fft_size as int;
    let mid = frame_count(fft_size, a.len() as int);
    let end = frame_count(fft_size, (a + b).len() as int);
    lemma_frame_count_grows(fft_size, a.len() as int, (a + b).len() as int);
    lemma_failure_in_prefix::<B>(m, a, b, from);
    let stop_a = first_failure::<B>(m, a, from, mid);
    let stop_ab = first_failure::<B>(m, a + b, from, end);
    lemma_first_failure::<B>(m, a, from, mid);
    lemma_first_failure::<B>(m, a + b, mid, end);
    if stop_a == mid {
        assert forall|i: int| 0 <= i < mid - from implies frame_at::<B>(m, a + b, from + i)
            == #[trigger] frame_at::<B>(m, a, from + i) by {
            law_later_audio_changes_no_frame::<B>(m, a, b, from + i);
        }
        assert(frames_between::<B>(m, a + b, from, stop_ab) == frames_between::<B>(m, a, from, mid)
            + frames_between::<B>(m, a + b, mid, stop_ab));
    } else {
        assert forall|i: int| 0 <= i <= stop_a - from implies frame_at::<B>(m, a + b, from + i)
            == #[trigger] frame_at::<B>(m, a, from + i) by {
            law_later_audio_changes_no_frame::<B>(m, a, b, from + i);
        }
        assert(frame_at::<B>(m, a, from + (stop_a - from)) == frame_at::<B>(m, a + b, stop_a));
        assert(frames_between::<B>(m, a + b, from, stop_ab) == frames_between::<B>(
            m,
            a,
            from,
            stop_a,
        ));
    }
}

/// The first failure lies in the range that is searched, and no frame before it fails.
pub proof fn lemma_first_failure<B: Backend>(
    m: Model<B>,
    stream: Seq<B::Num>,
    from: int,
    to: int,
)
    requires
        from <= to,
    ensures
        from <= first_failure::<B>(m, stream, from, to) <= to,
        forall|k: int|
            from <= k < first_failure::<B>(m, stream, from, to) ==> #[trigger] frame_at::<B>(
                m,
                stream,
                k,
            ) is Ok,
        first_failure::<B>(m, stream, from, to) < to ==> frame_at::<B>(
            m,
            stream,
            first_failure::<B>(m, stream, from, to),
        ) is Err,
    decreases to - from,
{
    if from < to && frame_at::<B>(m, stream, from) is Ok {
        lemma_first_failure::<B>(m, stream, from + 1, to);
    }
}

/// The search for a failure in a longer stream goes through the frames of the shorter one first.
proof fn lemma_failure_in_prefix<B: Backend>(
    m: Model<B>,
    a: Seq<B::Num>,
    b: Seq<B::Num>,
    from: int,
)
    requires
        m.wf(),
        0 <= from <= frame_count(m.fft_size as int, a.len() as int),
    ensures
        ({
            let mid = frame_count(m.fft_size as int, a.len() as int);
            let end = frame_count(m.fft_size as int, (a + b).len() as int);
            let stop_a = first_failure::<B>(m, a, from, mid);
            first_failure::<B>(m, a + b, from, end) == if stop_a == mid {
                first_failure::<B>(m, a + b, mid, end)
            } else {
                stop_a
            }
        }),
    decreases frame_count(m.fft_size as int, a.len() as int) - from,
{
    let mid = frame_count(m.fft_size as int, a.len() as int);
    lemma_frame_count_grows(m.fft_size as int, a.len() as int, (a + b).len() as int);
    if from < mid {
        law_later_audio_changes_no_frame::<B>(m, a, b, from);
        if frame_at::<B>(m, a, from) is Ok {
            lemma_failure_in_prefix::<B>(m, a, b, from + 1);
        }
    }
}

/// No frame comes before the longest window is full; the first comes with it, and every hop of
/// further audio brings exactly one more.
pub proof fn law_one_frame_per_hop(fft_size: int, n: int)
    requires
        0 < fft_size,
        0 <= n,
    ensures
        frame_count(fft_size, n) == 0 <==> n < fft_size,
        frame_count(fft_size, fft_size) == 1,
        n >= fft_size ==> frame_count(fft_size, n + HOP_SAMPLES) == frame_count(fft_size, n) + 1,
{
}

/// What the estimator holds on to between calls is always less than one longest window.
pub proof fn law_held_samples_are_bounded<N>(fft_size: int, stream: Seq<N>)
    requires
        fft_size >= MIN_WINDOW,
    ensures
        HOP_SAMPLES * frame_count(fft_size, stream.len() as int) <= stream.len(),
        stream.skip(HOP_SAMPLES * frame_count(fft_size, stream.len() as int)).len() < fft_size,
{
}

/// The longest window is the smallest power of two that is at least `max_window` and at least
/// the smallest window.
pub proof fn law_longest_window_is_next_power_of_two(max_window: int)
    ensures
        exists|k: nat| longest_window(max_window) == #[trigger] pow2(k),
        longest_window(max_window) >= max_window,
        longest_window(max_window) >= MIN_WINDOW,
        forall|k: nat| #[trigger]
            pow2(k) >= max_window && pow2(k) >= MIN_WINDOW ==> longest_window(max_window) <= pow2(
                k,
            ),
{
    lemma2_to64();
    let k = lemma_doubled_up_to(1, max_window);
    let top = longest_window(max_window);
    let e: nat = if top == MIN_WINDOW {
        10
    } else {
        k
    };
    assert(top == pow2(e));
    assert forall|j: nat| #[trigger]
        pow2(j) >= max_window && pow2(j) >= MIN_WINDOW implies top <= pow2(j) by {
        if j < e {
            lemma_half_of_power(j, e);
        } else if e < j {
            lemma_pow2_strictly_increases(e, j);
        }
    }
}

/// A smaller power of two is at most half of a larger one.
proof fn lemma_half_of_power(j: nat, e: nat)
    requires
        j < e,
    ensures
        2 * pow2(j) <= pow2(e),
{
    lemma_pow2_unfold(e);
    if j < e - 1 {
        lemma_pow2_strictly_increases(j, (e - 1) as nat);
    }
}

/// The bank made for `max_window` holds every power of two from the smallest window to the
/// longest, in ascending order, and nothing else.
pub proof fn law_bank_is_powers_of_two(max_window: int)
    requires
        longest_window(max_window) <= usize::MAX,
    ensures
        ({
            let top = longest_window(max_window);
            let bank = bank_of(top);
            &&& forall|i: int|
                0 <= i < bank.len() ==> (#[trigger] bank[i]) == MIN_WINDOW * pow2(i as nat)
            &&& bank.len() > 0
            &&& bank.first() == MIN_WINDOW
            &&& bank.last() == top
        }),
{
    lemma2_to64();
    let top = longest_window(max_window);
    lemma_doublings(MIN_WINDOW as int, top);
    lemma_bank_ends_with_longest(max_window);
    let bank = bank_of(top);
    assert(bank.first() == MIN_WINDOW * pow2(0));
}

/// For every candidate the two windows that are blended are neighbours in the bank (or the only
/// window of it). Of the windows from the second on, the longer is the first that reaches the
/// candidate's ideal length. Where it does not reach it, either the very first window does, or
/// it is the last and no window does.
pub proof fn law_blend_uses_flanking_windows<B: Backend>(windows: Seq<usize>, c: int)
    requires
        1 <= windows.len() <= usize::MAX,
        0 <= c < NUM_CANDIDATES,
    ensures
        ({
            let m = model_of::<B>(windows);
            let logs = log_windows_of::<B>(windows);
            let ideal = log_ideal_of::<B>(m.candidates[c]);
            let lo = m.cand_idx_minus[c] as int;
            let hi = m.cand_idx_plus[c] as int;
            &&& hi < windows.len()
            &&& windows.len() == 1 ==> lo == 0 && hi == 0
            &&& windows.len() > 1 ==> lo + 1 == hi
            &&& forall|i: int| 1 <= i < hi ==> !B::at_most_of(ideal, #[trigger] logs[i])
            &&& hi > 1 ==> !B::at_most_of(ideal, logs[0])
            &&& {
                ||| B::at_most_of(ideal, logs[hi])
                ||| hi == 1 && B::at_most_of(ideal, logs[0])
                ||| hi == windows.len() - 1 && forall|i: int|
                    0 <= i < windows.len() ==> !B::at_most_of(ideal, #[trigger] logs[i])
            }
        }),
{
    let fc = candidates_of::<B>()[c];
    lemma_first_reaching::<B>(log_windows_of::<B>(windows), log_ideal_of::<B>(fc), 0);
}

/// The kept harmonic that a valley is measured from is the closest one below: a kept harmonic
/// (the fundamental or a prime), with none between.
pub proof fn law_valleys_join_neighbours(h: int)
    requires
        h > 1,
    ensures
        1 <= last_kept(h) < h,
        is_kept(last_kept(h)),
        forall|j: int| last_kept(h) < j < h ==> !#[trigger] is_kept(j),
    decreases h,
{
    if !is_kept(h - 1) {
        law_valleys_join_neighbours(h - 1);
    }
}

/// `less` orders the entries of `z` and the lowest number: it is a strict weak order on them,
/// and the lowest number lies below every entry.
pub open spec fn orders<B: Backend>(z: Seq<B::Num>) -> bool {
    let among = |x: B::Num| x == B::lowest_of() || z.contains(x);
    &&& forall|x: B::Num| among(x) ==> !#[trigger] B::less_of(x, x)
    &&& forall|x: B::Num, y: B::Num, v: B::Num|
        #![trigger B::less_of(x, y), B::less_of(y, v)]
        among(x) && among(y) && among(v) && B::less_of(x, y) && B::less_of(y, v) ==> B::less_of(
            x,
            v,
        )
    &&& forall|x: B::Num, y: B::Num, v: B::Num|
        #![trigger B::less_of(x, y), B::less_of(y, v)]
        #![trigger B::less_of(x, v), B::less_of(x, y)]
        #![trigger B::less_of(x, v), B::less_of(y, v)]
        among(x) && among(y) && among(v) && !B::less_of(x, y) && !B::less_of(y, v) ==> !B::less_of(
            x,
            v,
        )
    &&& forall|i: int| 0 <= i < z.len() ==> B::less_of(B::lowest_of(), #[trigger] z[i])
}

/// The peak is the argmax: no score exceeds it, and every earlier one lies below it.
pub proof fn law_peak_is_first_maximum<B: Backend>(z: Seq<B::Num>, n: int)
    requires
        0 < n <= z.len(),
        orders::<B>(z),
    ensures
        ({
            let (p, v) = peak_upto::<B>(z, n);
            &&& 0 <= p < n
            &&& v == z[p]
            &&& forall|i: int| 0 <= i < n ==> !B::less_of(v, #[trigger] z[i])
            &&& forall|i: int| 0 <= i < p ==> B::less_of(#[trigger] z[i], v)
        }),
    decreases n,
{
    let x = z[n - 1];
    assert(z.contains(x));
    if n == 1 {
        assert(peak_upto::<B>(z, 0) == (0int, B::lowest_of()));
    } else {
        law_peak_is_first_maximum::<B>(z, n - 1);
        let (p, v) = peak_upto::<B>(z, n - 1);
        assert(z.contains(v));
        if B::less_of(v, x) {
            assert forall|i: int| 0 <= i < n - 1 implies B::less_of(#[trigger] z[i], x) by {
                assert(z.contains(z[i]));
                assert(!B::less_of(v, z[i]));
                if !B::less_of(z[i], x) {
                    assert(!B::less_of(v, x));
                }
            }
            assert forall|i: int| 0 <= i < n implies !B::less_of(x, #[trigger] z[i]) by {
                assert(z.contains(z[i]));
                if i < n - 1 && B::less_of(x, z[i]) {
                    assert(B::less_of(z[i], x));
                    assert(B::less_of(x, x));
                }
            }
        }
    }
}

/// Confidence lies between 0 and 1, provided that the backend's `clamped` puts every number that
/// is the lowest, or exceeds some number, between those bounds.
pub proof fn law_confidence_is_in_range<B: Backend>(m: Model<B>, buf: Seq<B::Num>, end: int)
    requires
        forall|x: B::Num|
            x == B::lowest_of() || (exists|y: B::Num| B::less_of(y, x)) ==> {
                let c = #[trigger] B::clamped_of(x, B::whole_of(0), B::whole_of(1));
                B::at_most_of(B::whole_of(0), c) && B::at_most_of(c, B::whole_of(1))
            },
        m.estimate(buf, end) is Ok,
    ensures
        B::at_most_of(B::whole_of(0), m.estimate(buf, end)->Ok_0.0),
        B::at_most_of(m.estimate(buf, end)->Ok_0.0, B::whole_of(1)),
{
    let zs = m.window_scores(buf, end, m.windows.len() as int)->Ok_0;
    lemma_peak_exceeds::<B>(m.blended(zs), NUM_CANDIDATES as int);
}

/// The peak is the lowest number or exceeds some number.
proof fn lemma_peak_exceeds<B: Backend>(z: Seq<B::Num>, n: int)
    ensures
        peak_upto::<B>(z, n).1 == B::lowest_of() || exists|y: B::Num|
            B::less_of(y, peak_upto::<B>(z, n).1),
    decreases n,
{
    if n > 0 {
        lemma_peak_exceeds::<B>(z, n - 1);
    }
}

/// The two sequences hold equally many frames, with the same indices.
pub open spec fn same_indices<N>(f: Seq<PitchFrame<N>>, g: Seq<PitchFrame<N>>) -> bool {
    &&& f.len() == g.len()
    &&& forall|i: int| 0 <= i < f.len() ==> (#[trigger] f[i]).frame_index == g[i].frame_index
}

/// The two estimators agree in everything that their behaviour depends on.
pub open spec fn same_state<B: Backend>(s: Swipe<B>, t: Swipe<B>) -> bool {
    &&& s.model() == t.model()
    &&& s.stream() == t.stream()
    &&& s.held() == t.held()
    &&& s.emitted() == t.emitted()
}

/// Whatever the call and whatever came before, estimators in the same state that are fed the
/// same audio emit the same frames, meet the same failure and end in the same state. So
/// [`Swipe::process`] and [`Swipe::process_into`] give the same frames. Where neither fails, the
/// number of frames, their indices and the end state agree on any backend.
pub proof fn law_same_audio_same_frames<B: Backend>(
    s: Swipe<B>,
    s_after: Swipe<B>,
    t: Swipe<B>,
    t_after: Swipe<B>,
    audio: Seq<B::Num>,
    s_frames: Seq<PitchFrame<B::Num>>,
    t_frames: Seq<PitchFrame<B::Num>>,
    s_failure: Option<Seq<char>>,
    t_failure: Option<Seq<char>>,
)
    requires
        same_state::<B>(s, t),
        advances::<B>(s, s_after, audio, s_frames, s_failure),
        advances::<B>(t, t_after, audio, t_frames, t_failure),
    ensures
        s_after.stream() == t_after.stream(),
        s_failure is None && t_failure is None ==> same_state::<B>(s_after, t_after)
            && same_indices(s_frames, t_frames),
        deterministic::<B>() ==> s_frames == t_frames && s_failure == t_failure && same_state::<B>(
            s_after,
            t_after,
        ),
{
}

/// Streaming is the same as one-shot processing, call by call: feeding `a` without a failure and
/// then `b` emits the frames and meets the failure that feeding both at once does, and leaves the
/// estimator at the same point of the stream. Where nothing fails, the number of frames, their
/// indices and the end state agree on any backend.
pub proof fn law_streaming_matches_one_shot<B: Backend>(
    start: Swipe<B>,
    half_way: Swipe<B>,
    end: Swipe<B>,
    at_once: Swipe<B>,
    a: Seq<B::Num>,
    b: Seq<B::Num>,
    frames_a: Seq<PitchFrame<B::Num>>,
    frames_b: Seq<PitchFrame<B::Num>>,
    frames_ab: Seq<PitchFrame<B::Num>>,
    failure_b: Option<Seq<char>>,
    failure_ab: Option<Seq<char>>,
)
    requires
        start.wf(),
        advances::<B>(start, half_way, a, frames_a, None),
        advances::<B>(half_way, end, b, frames_b, failure_b),
        advances::<B>(start, at_once, a + b, frames_ab, failure_ab),
    ensures
        at_once.stream() == end.stream(),
        failure_b is None && failure_ab is None ==> same_state::<B>(at_once, end) && same_indices(
            frames_ab,
            frames_a + frames_b,
        ),
        deterministic::<B>() ==> {
            &&& frames_ab == frames_a + frames_b
            &&& failure_ab == failure_b
            &&& at_once.emitted() == end.emitted()
        },
{
    lemma_valid_state::<B>(start);
    lemma_valid_state::<B>(half_way);
    let m = start.model();
    let s1 = start.stream() + a;
    assert(start.stream() + (a + b) == s1 + b);
    law_two_chunks_match_one::<B>(m, s1, b, start.emitted());
    if failure_b is None {
        law_calls_compose::<B>(start, half_way, end, a, b, frames_a, frames_b);
    }
}

/// A failure that feeding `a` meets is the one that feeding `a` and more at once meets, at the
/// same frame and after the same frames.
pub proof fn law_failure_comes_at_the_same_frame<B: Backend>(
    start: Swipe<B>,
    failed: Swipe<B>,
    at_once: Swipe<B>,
    a: Seq<B::Num>,
    b: Seq<B::Num>,
    frames_a: Seq<PitchFrame<B::Num>>,
    frames_ab: Seq<PitchFrame<B::Num>>,
    reason: Seq<char>,
    failure_ab: Option<Seq<char>>,
)
    requires
        deterministic::<B>(),
        start.wf(),
        advances::<B>(start, failed, a, frames_a, Some(reason)),
        advances::<B>(start, at_once, a + b, frames_ab, failure_ab),
    ensures
        frames_ab == frames_a,
        failure_ab == Some(reason),
        at_once.emitted() == failed.emitted(),
{
    lemma_valid_state::<B>(start);
    lemma_valid_state::<B>(failed);
    let m = start.model();
    let s1 = start.stream() + a;
    assert(start.stream() + (a + b) == s1 + b);
    law_two_chunks_match_one::<B>(m, s1, b, start.emitted());
}

/// Calls compose: two successful calls in a row do what one call with both chunks does.
pub proof fn law_calls_compose<B: Backend>(
    start: Swipe<B>,
    half_way: Swipe<B>,
    end: Swipe<B>,
    a: Seq<B::Num>,
    b: Seq<B::Num>,
    frames_a: Seq<PitchFrame<B::Num>>,
    frames_b: Seq<PitchFrame<B::Num>>,
)
    requires
        start.wf(),
        advances::<B>(start, half_way, a, frames_a, None),
        advances::<B>(half_way, end, b, frames_b, None),
    ensures
        advances::<B>(start, end, a + b, frames_a + frames_b, None),
{
    lemma_valid_state::<B>(start);
    lemma_valid_state::<B>(half_way);
    let s1 = start.stream() + a;
    let frames = frames_a + frames_b;
    assert(start.stream() + (a + b) == s1 + b);
    assert forall|i: int| 0 <= i < frames.len() implies (#[trigger] frames[i]).frame_index
        == start.emitted() + i by {
        if i < frames_a.len() {
            assert(frames[i] == frames_a[i]);
        } else {
            assert(frames[i] == frames_b[i - frames_a.len()]);
        }
    }
    if deterministic::<B>() {
        law_two_chunks_match_one::<B>(start.model(), s1, b, start.emitted());
    }
}

/// Call `i` of a run takes one state to the next and ends with `failure`.
pub open spec fn is_call<B: Backend>(
    states: Seq<Swipe<B>>,
    chunks: Seq<Seq<B::Num>>,
    frames: Seq<Seq<PitchFrame<B::Num>>>,
    i: int,
    failure: Option<Seq<char>>,
) -> bool {
    advances::<B>(states[i], states[i + 1], chunks[i], frames[i], failure)
}

/// `states` is what an estimator goes through when it is fed `chunks` one call at a time, call
/// `i` emitting `frames[i]`. No call before the last fails; the last ends with `failure`.
pub open spec fn is_run<B: Backend>(
    states: Seq<Swipe<B>>,
    chunks: Seq<Seq<B::Num>>,
    frames: Seq<Seq<PitchFrame<B::Num>>>,
    failure: Option<Seq<char>>,
) -> bool {
    &&& chunks.len() > 0
    &&& states.len() == chunks.len() + 1
    &&& frames.len() == chunks.len()
    &&& states[0].wf()
    &&& forall|i: int|
        0 <= i < chunks.len() - 1 ==> #[trigger] is_call::<B>(states, chunks, frames, i, None)
    &&& is_call::<B>(states, chunks, frames, chunks.len() - 1, failure)
}

/// Any number of successful calls do what one call with all their chunks does.
pub proof fn law_run_composes<B: Backend>(
    states: Seq<Swipe<B>>,
    chunks: Seq<Seq<B::Num>>,
    frames: Seq<Seq<PitchFrame<B::Num>>>,
)
    requires
        is_run::<B>(states, chunks, frames, None),
    ensures
        advances::<B>(states[0], states.last(), concat(chunks), concat(frames), None),
    decreases chunks.len(),
{
    let n = chunks.len() as int;
    if n == 1 {
        assert(concat(chunks.drop_last()) == Seq::<B::Num>::empty());
        assert(concat(frames.drop_last()) == Seq::<PitchFrame<B::Num>>::empty());
        assert(concat(chunks) == chunks[0]);
        assert(concat(frames) == frames[0]);
    } else {
        let before = states.drop_last();
        lemma_run_prefix::<B>(states, chunks, frames, None);
        law_run_composes::<B>(before, chunks.drop_last(), frames.drop_last());
        law_calls_compose::<B>(
            states[0],
            before.last(),
            states.last(),
            concat(chunks.drop_last()),
            chunks.last(),
            concat(frames.drop_last()),
            frames.last(),
        );
    }
}

/// All calls of a run but the last are a run without a failure.
proof fn lemma_run_prefix<B: Backend>(
    states: Seq<Swipe<B>>,
    chunks: Seq<Seq<B::Num>>,
    frames: Seq<Seq<PitchFrame<B::Num>>>,
    failure: Option<Seq<char>>,
)
    requires
        is_run::<B>(states, chunks, frames, failure),
        chunks.len() > 1,
    ensures
        is_run::<B>(states.drop_last(), chunks.drop_last(), frames.drop_last(), None),
{
    let before = states.drop_last();
    let c = chunks.drop_last();
    let f = frames.drop_last();
    assert forall|i: int| 0 <= i < c.len() implies #[trigger] is_call::<B>(
        before,
        c,
        f,
        i,
        None,
    ) by {
        assert(is_call::<B>(states, chunks, frames, i, None));
    }
}

/// However a stream is cut into chunks, the calls together emit the frames, and meet the failure
/// if there is one, that a single call with the whole stream does; without a failure they end in
/// the same state. Where nothing fails, the number of frames, their indices and the end state
/// agree on any backend.
pub proof fn law_chunking_is_irrelevant<B: Backend>(
    states: Seq<Swipe<B>>,
    chunks: Seq<Seq<B::Num>>,
    frames: Seq<Seq<PitchFrame<B::Num>>>,
    failure: Option<Seq<char>>,
    at_once: Swipe<B>,
    frames_at_once: Seq<PitchFrame<B::Num>>,
    failure_at_once: Option<Seq<char>>,
)
    requires
        is_run::<B>(states, chunks, frames, failure),
        advances::<B>(
            states[0],
            at_once,
            concat(chunks),
            frames_at_once,
            failure_at_once,
        ),
    ensures
        at_once.stream() == states.last().stream(),
        failure is None && failure_at_once is None ==> same_state::<B>(at_once, states.last())
            && same_indices(frames_at_once, concat(frames)),
        deterministic::<B>() ==> {
            &&& frames_at_once == concat(frames)
            &&& failure_at_once == failure
            &&& at_once.emitted() == states.last().emitted()
        },
{
    let n = chunks.len() as int;
    if n == 1 {
        assert(concat(chunks.drop_last()) == Seq::<B::Num>::empty());
        assert(concat(frames.drop_last()) == Seq::<PitchFrame<B::Num>>::empty());
        assert(concat(chunks) == chunks[0]);
        assert(concat(frames) == frames[0]);
        law_same_audio_same_frames::<B>(
            states[0],
            states.last(),
            states[0],
            at_once,
            chunks[0],
            frames[0],
            frames_at_once,
            failure,
            failure_at_once,
        );
    } else {
        let before = states.drop_last();
        lemma_run_prefix::<B>(states, chunks, frames, failure);
        law_run_composes::<B>(before, chunks.drop_last(), frames.drop_last());
        law_streaming_matches_one_shot::<B>(
            states[0],
            before.last(),
            states.last(),
            at_once,
            concat(chunks.drop_last()),
            chunks.last(),
            concat(frames.drop_last()),
            frames.last(),
            frames_at_once,
            failure,
            failure_at_once,
        );
    }
}

/// The frames of a call are numbered on from those before, and each carries the time of its
/// index: index times hop over sample rate.
pub proof fn law_frames_are_numbered_and_timed<B: Backend>(
    before: Swipe<B>,
    after: Swipe<B>,
    audio: Seq<B::Num>,
    frames: Seq<PitchFrame<B::Num>>,
    failure: Option<Seq<char>>,
)
    requires
        advances::<B>(before, after, audio, frames, failure),
    ensures
        forall|i: int|
            0 <= i < frames.len() ==> (#[trigger] frames[i]).frame_index == before.emitted() + i,
        deterministic::<B>() ==> forall|i: int|
            0 <= i < frames.len() ==> (#[trigger] frames[i]).time_s == B::times_of(
                B::whole_of(frames[i].frame_index),
                B::over_of(B::whole_of(HOP_SAMPLES as u64), B::whole_of(SAMPLE_RATE as u64)),
            ),
{
    if deterministic::<B>() {
        let first = before.emitted();
        lemma_first_failure::<B>(after.model(), after.stream(), first, after.due());
        assert forall|i: int| 0 <= i < frames.len() implies (#[trigger] frames[i]).time_s
            == B::times_of(
            B::whole_of(frames[i].frame_index),
            B::over_of(B::whole_of(HOP_SAMPLES as u64), B::whole_of(SAMPLE_RATE as u64)),
        ) by {
            assert(frame_at::<B>(after.model(), after.stream(), first + i) is Ok);
            assert(frames[i].frame_index == first + i);
        }
    }
}

/// An estimator is settled when it is new or reset and after every call that succeeds.
pub proof fn law_estimator_settles<B: Backend>(
    before: Swipe<B>,
    after: Swipe<B>,
    audio: Seq<B::Num>,
    frames: Seq<PitchFrame<B::Num>>,
)
    requires
        before.wf(),
    ensures
        before.is_fresh() ==> before.is_settled(),
        advances::<B>(before, after, audio, frames, None) ==> after.is_settled(),
{
    lemma_valid_state::<B>(before);
    assert(Seq::<B::Num>::empty().skip(0) == Seq::<B::Num>::empty());
}

/// Feeding no audio to a settled estimator emits nothing, fails nowhere and changes nothing.
pub proof fn law_empty_audio_changes_nothing<B: Backend>(
    before: Swipe<B>,
    after: Swipe<B>,
    frames: Seq<PitchFrame<B::Num>>,
    failure: Option<Seq<char>>,
)
    requires
        before.is_settled(),
        advances::<B>(before, after, Seq::empty(), frames, failure),
    ensures
        frames == Seq::<PitchFrame<B::Num>>::empty(),
        failure is None,
        same_state::<B>(before, after),
{
    assert(before.stream() + Seq::<B::Num>::empty() == before.stream());
}

/// A frame depends on its own window alone: frame `k` of a stream has the pitch and the
/// confidence of the one frame that a new estimator emits when it is fed just the samples up to
/// the frame's right edge, one longest window of them.
pub proof fn law_frame_stands_alone<B: Backend>(
    s: Swipe<B>,
    s_after: Swipe<B>,
    t: Swipe<B>,
    t_after: Swipe<B>,
    audio: Seq<B::Num>,
    frames: Seq<PitchFrame<B::Num>>,
    alone: Seq<PitchFrame<B::Num>>,
    k: int,
)
    requires
        s.is_fresh(),
        t.is_fresh(),
        s.model() == t.model(),
        0 <= k < frame_count(s.model().fft_size as int, audio.len() as int),
        advances::<B>(s, s_after, audio, frames, None),
        advances::<B>(
            t,
            t_after,
            audio.subrange(HOP_SAMPLES * k, frame_end(s.model().fft_size as int, k)),
            alone,
            None,
        ),
    ensures
        frames.len() == frame_count(s.model().fft_size as int, audio.len() as int),
        alone.len() == 1,
        deterministic::<B>() ==> frames[k].pitch_hz == alone[0].pitch_hz && frames[k].confidence
            == alone[0].confidence,
{
    lemma_valid_state::<B>(s_after);
    let m = s.model();
    let fft_size = m.fft_size as int;
    let end = frame_end(fft_size, k);
    lemma_frame_count(fft_size, audio.len() as int, k);
    let latest = audio.subrange(HOP_SAMPLES * k, end);
    assert(Seq::<B::Num>::empty() + audio == audio);
    assert(Seq::<B::Num>::empty() + latest == latest);
    law_one_frame_per_hop(fft_size, fft_size);
    if deterministic::<B>() {
        law_frames_are_right_aligned::<B>(m, audio, k);
        lemma_first_failure::<B>(m, audio, 0, s_after.due());
        lemma_first_failure::<B>(m, latest, 0, t_after.due());
        assert(frame_at::<B>(m, audio, k) is Ok);
        assert(frame_at::<B>(m, latest, 0) is Ok);
        assert(frames[k] == frame_at::<B>(m, audio, k)->Ok_0);
        assert(alone[0] == frame_at::<B>(m, latest, 0)->Ok_0);
    }
}

/// Rounding up a length that has been rounded up changes nothing.
pub proof fn law_longest_window_is_stable(max_window: int)
    ensures
        longest_window(longest_window(max_window)) == longest_window(max_window),
{
    law_longest_window_is_next_power_of_two(max_window);
    let top = longest_window(max_window);
    law_longest_window_is_next_power_of_two(top);
    let e = choose|e: nat| top == #[trigger] pow2(e);
    assert(longest_window(top) <= pow2(e));
}

/// A reset estimator is as good as a new one. Estimators that nothing has been fed since
/// construction or reset, with the same tables, are in the same state; and the tables of a new
/// estimator made for the transform length of another are those of that other.
pub proof fn law_reset_is_as_good_as_new<B: Backend>(
    reset: Swipe<B>,
    max_window: int,
    new: Swipe<B>,
)
    requires
        reset.is_fresh(),
        new.is_fresh(),
        reset.model().fft_size == longest_window(max_window),
    ensures
        reset.model() == new.model() ==> same_state::<B>(reset, new),
        reset.model() == model_of::<B>(bank_of(longest_window(max_window))) && new.model()
            == model_of::<B>(bank_of(longest_window(reset.model().fft_size as int)))
            ==> same_state::<B>(reset, new),
{
    law_longest_window_is_stable(max_window);
}

} // verus!
