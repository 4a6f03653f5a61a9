//! The stream: which frames come, where they stand, and what they hold.
use vstd::arithmetic::power2::{
    lemma2_to64, lemma_pow2_strictly_increases, lemma_pow2_unfold, pow2,
};
use vstd::prelude::*;

use crate::backend::{deterministic, outcome, Backend, Complex};
use crate::error::Error;
use crate::exact::Meaning;
use crate::frame::Model;
use crate::stream::{
    advances, failure_of, first_failure, frame_at, frame_count, frame_end, frames_between,
    lemma_valid_state, time_of, PitchFrame, Swipe,
};
use crate::windows::{bank_of, doubled_up_to, doublings, lemma_doubled_up_to, lemma_doublings};

verus! {

/// A backend is deterministic as soon as each of its operations returns what its companion names.
pub proof fn law_named_results_are_deterministic<B: Backend>()
    requires
        forall|n: u64, r: B::Num| #[trigger]
            call_ensures(B::whole, (n,), r) ==> r == B::whole_of(n),
        forall|num: u64, den: u64, r: B::Num| #[trigger]
            call_ensures(B::ratio, (num, den), r) ==> r == B::ratio_of(num, den),
        forall|r: B::Num| #[trigger] call_ensures(B::pi, (), r) ==> r == B::pi_of(),
        forall|r: B::Num| #[trigger] call_ensures(B::lowest, (), r) ==> r == B::lowest_of(),
        forall|x: B::Num, y: B::Num, r: B::Num| #[trigger]
            call_ensures(B::plus, (x, y), r) ==> r == B::plus_of(x, y),
        forall|x: B::Num, y: B::Num, r: B::Num| #[trigger]
            call_ensures(B::minus, (x, y), r) ==> r == B::minus_of(x, y),
        forall|x: B::Num, y: B::Num, r: B::Num| #[trigger]
            call_ensures(B::times, (x, y), r) ==> r == B::times_of(x, y),
        forall|x: B::Num, y: B::Num, r: B::Num| #[trigger]
            call_ensures(B::over, (x, y), r) ==> r == B::over_of(x, y),
        forall|x: B::Num, r: B::Num| #[trigger]
            call_ensures(B::negated, (x,), r) ==> r == B::negated_of(x),
        forall|x: B::Num, r: B::Num| #[trigger] call_ensures(B::abs, (x,), r) ==> r == B::abs_of(x),
        forall|x: B::Num, r: B::Num| #[trigger]
            call_ensures(B::sqrt, (x,), r) ==> r == B::sqrt_of(x),
        forall|x: B::Num, r: B::Num| #[trigger] call_ensures(B::cos, (x,), r) ==> r == B::cos_of(x),
        forall|x: B::Num, r: B::Num| #[trigger] call_ensures(B::ln, (x,), r) ==> r == B::ln_of(x),
        forall|x: B::Num, r: B::Num| #[trigger] call_ensures(B::exp, (x,), r) ==> r == B::exp_of(x),
        forall|x: B::Num, r: B::Num| #[trigger]
            call_ensures(B::log2, (x,), r) ==> r == B::log2_of(x),
        forall|x: B::Num, y: B::Num, r: B::Num| #[trigger]
            call_ensures(B::pow, (x, y), r) ==> r == B::pow_of(x, y),
        forall|x: B::Num, y: B::Num, r: B::Num| #[trigger]
            call_ensures(B::larger, (x, y), r) ==> r == B::larger_of(x, y),
        forall|x: B::Num, lo: B::Num, hi: B::Num, r: B::Num| #[trigger]
            call_ensures(B::clamped, (x, lo, hi), r) ==> r == B::clamped_of(x, lo, hi),
        forall|x: B::Num, y: B::Num, r: bool| #[trigger]
            call_ensures(B::less, (x, y), r) ==> r == B::less_of(x, y),
        forall|x: B::Num, y: B::Num, r: bool| #[trigger]
            call_ensures(B::at_most, (x, y), r) ==> r == B::at_most_of(x, y),
        forall|x: B::Num, r: isize| #[trigger]
            call_ensures(B::floor_index, (x,), r) ==> r == B::floor_index_of(x),
        forall|len: usize, r: B::Plan| #[trigger]
            call_ensures(B::plan_fft_forward, (len,), r) ==> r == B::plan_fft_forward_of(len),
        forall|plan: B::Plan, v: Vec<B::Num>, r: Result<Vec<Complex<B::Num>>, String>| #[trigger]
            call_ensures(B::transform, (&plan, &v), r) ==> outcome(r) == B::transform_of(plan, v@),
    ensures
        deterministic::<B>(),
{
}

/// The outcome of a transform is what its containers hold.
pub proof fn law_outcome_is_what_was_returned<N>(bins: Vec<Complex<N>>, reason: String)
    ensures
        outcome::<N>(Ok(bins)) == Ok::<Seq<Complex<N>>, Seq<char>>(bins@),
        outcome::<N>(Err(reason)) == Err::<Seq<Complex<N>>, Seq<char>>(reason@),
{
}

/// An estimator that was just made or reset has heard nothing, holds nothing and has returned
/// nothing.
pub proof fn law_fresh_estimator_has_heard_nothing<B: Backend>(swipe: Swipe<B>)
    ensures
        swipe.is_fresh() <==> swipe.stream().len() == 0 && swipe.held().len() == 0
            && swipe.emitted() == 0,
{
    assert(swipe.stream().len() == 0 ==> swipe.stream() == Seq::<B::Num>::empty());
    assert(swipe.held().len() == 0 ==> swipe.held() == Seq::<B::Num>::empty());
}

/// A stream has frame `k` exactly if it holds the longest window and `k` hops of 480 samples.
pub proof fn law_frames_are_a_hop_apart(fft_size: int, n: int, k: int)
    requires
        fft_size > 0,
        n >= 0,
        k >= 0,
    ensures
        k < frame_count(fft_size, n) <==> fft_size + 480 * k <= n,
        frame_count(fft_size, n) >= 0,
        frame_end(fft_size, k) == fft_size + 480 * k,
{
}

/// A hundred frames make a second.
pub proof fn law_time_is_a_hundredth_per_frame<B: Backend>(m: Meaning<B>, k: int)
    requires
        m.is_exact(),
        0 <= k <= u64::MAX,
    ensures
        m.of(time_of::<B>(k)) == k as real / 100real,
{
    assert(480real / 48000real == 1real / 100real);
    let x = k as real;
    assert(x * (1real / 100real) == x / 100real) by (nonlinear_arith);
    assert(m.of(B::whole_of(k as u64)) == x);
}

/// A call that succeeds returns every frame whose right edge lies within the stream and that was
/// not returned before, in order, each with the estimate at its own edge. A call that fails
/// stops at the first frame without an estimate, and gives the reason of that frame.
pub proof fn law_call_returns_every_due_frame<B: Backend>(
    before: Swipe<B>,
    after: Swipe<B>,
    audio: Seq<B::Num>,
    frames: Seq<PitchFrame<B::Num>>,
    failure: Option<Seq<char>>,
    i: int,
)
    requires
        deterministic::<B>(),
        before.wf(),
        advances::<B>(before, after, audio, frames, failure),
        0 <= i,
    ensures
        ({
            let md = after.model();
            let stream = before.stream() + audio;
            let fft = md.fft_size as int;
            let k = before.emitted() + i;
            &&& md == before.model()
            &&& after.stream() == stream
            &&& after.emitted() == before.emitted() + frames.len()
            &&& i < frames.len() ==> {
                &&& fft + 480 * k <= stream.len()
                &&& frames[i].frame_index == k
                &&& frames[i].time_s == B::times_of(
                    B::whole_of(k as u64),
                    B::over_of(B::whole_of(480), B::whole_of(48000)),
                )
                &&& md.estimate(stream, fft + 480 * k) == Ok::<(B::Num, B::Num), Seq<char>>(
                    (frames[i].confidence, frames[i].pitch_hz),
                )
            }
            &&& failure is None ==> fft + 480 * after.emitted() > stream.len()
            &&& failure matches Some(reason) ==> {
                &&& fft + 480 * after.emitted() <= stream.len()
                &&& md.estimate(stream, fft + 480 * after.emitted()) == Err::<
                    (B::Num, B::Num),
                    Seq<char>,
                >(reason)
            }
        }),
{
    let md = after.model();
    let fft = md.fft_size as int;
    let (from, to) = (before.emitted(), after.emitted());
    let n = after.stream().len() as int;
    lemma_valid_state::<B>(before);
    lemma_valid_state::<B>(after);
    law_frames_are_a_hop_apart(fft, n, after.emitted());
    if i < frames.len() {
        law_frames_are_a_hop_apart(fft, n, from + i);
        lemma_before_failure::<B>(md, after.stream(), from, after.due(), from + i);
        assert(frames[i] == frames_between::<B>(md, after.stream(), from, to)[i]);
        assert(frame_at::<B>(md, after.stream(), from + i) is Ok);
    }
}

proof fn lemma_before_failure<B: Backend>(
    md: Model<B>,
    stream: Seq<B::Num>,
    from: int,
    to: int,
    k: int,
)
    requires
        from <= k < first_failure::<B>(md, stream, from, to),
    ensures
        frame_at::<B>(md, stream, k) is Ok,
    decreases to - from,
{
    if from < k {
        lemma_before_failure::<B>(md, stream, from + 1, to, k);
    }
}

/// A call that succeeds leaves the estimator holding the end of the stream, from the first sample
/// of the next frame on: less than one longest window. A call that fails lets go of nothing.
pub proof fn law_call_holds_what_the_next_frame_needs<B: Backend>(
    before: Swipe<B>,
    after: Swipe<B>,
    audio: Seq<B::Num>,
    frames: Seq<PitchFrame<B::Num>>,
    failure: Option<Seq<char>>,
)
    requires
        before.wf(),
        advances::<B>(before, after, audio, frames, failure),
    ensures
        ({
            let stream = before.stream() + audio;
            let from = 480 * after.emitted();
            &&& failure is None ==> 0 <= from <= stream.len()
            &&& failure is None ==> after.held() == stream.subrange(from, stream.len() as int)
            &&& failure is None ==> after.held().len() < after.model().fft_size
            &&& failure is Some ==> after.held() == before.held() + audio
        }),
{
    lemma_valid_state::<B>(before);
    lemma_valid_state::<B>(after);
    let stream = before.stream() + audio;
    let from = 480 * after.emitted();
    if failure is None {
        assert(0 <= from <= stream.len());
        assert(stream.skip(from) == stream.subrange(from, stream.len() as int));
    }
}

/// A call fails with the reason of its error, and succeeds with none.
pub proof fn law_failure_is_the_reason<T>(value: T, why: String)
    ensures
        failure_of::<T>(Ok(value)) is None,
        failure_of::<T>(Err(Error::Fft(why))) == Some(why@),
{
}

/// There is room for any number of samples that leaves the next frame's right edge countable in
/// 64 bits, and for no more.
pub proof fn law_room_ends_with_the_count<B: Backend>(swipe: Swipe<B>, n: int, next: int)
    requires
        swipe.model().fft_size > 0,
        n >= 0,
        next >= 0,
        next == 0 || swipe.model().fft_size + 480 * (next - 1) <= swipe.stream().len() + n,
        swipe.model().fft_size + 480 * next > swipe.stream().len() + n,
    ensures
        swipe.room_for(n) <==> swipe.model().fft_size + 480 * next <= u64::MAX,
{
    let fft = swipe.model().fft_size as int;
    let len = swipe.stream().len() + n;
    law_frames_are_a_hop_apart(fft, len, next);
    if next > 0 {
        law_frames_are_a_hop_apart(fft, len, next - 1);
    }
}

/// The windows of a bank are 1024 samples and every doubling of that up to the longest allowed,
/// or 1024 samples alone where not even that is allowed.
pub proof fn law_bank_holds_every_doubling(max: int, i: nat)
    requires
        max <= usize::MAX,
    ensures
        bank_of(max).len() > 0,
        i < bank_of(max).len() ==> bank_of(max)[i as int] == 1024 * pow2(i),
        max >= 1024 ==> (i < bank_of(max).len() <==> 1024 * pow2(i) <= max),
        max < 1024 ==> bank_of(max).len() == 1,
{
    lemma2_to64();
    if max >= 1024 {
        lemma_doublings(1024, max);
        let bank = bank_of(max);
        assert(bank == doublings(1024, max));
        let last = (bank.len() - 1) as nat;
        assert(bank[last as int] == 1024 * pow2(last));
        if i < bank.len() {
            assert(bank[i as int] == 1024 * pow2(i));
        } else {
            lemma_pow2_unfold(last + 1);
            if last + 1 < i {
                lemma_pow2_strictly_increases(last + 1, i);
            }
        }
    }
}

/// Rounding up to a power of two gives the first one that is not smaller.
pub proof fn law_next_power_is_the_first(n: int)
    ensures
        exists|k: nat| doubled_up_to(1, n) == #[trigger] pow2(k),
        n <= doubled_up_to(1, n),
        n >= 2 ==> doubled_up_to(1, n) < 2 * n,
        n <= 1 ==> doubled_up_to(1, n) == 1,
{
    let k = lemma_doubled_up_to(1, n);
    assert(1 * pow2(k) == pow2(k));
}

} // verus!
