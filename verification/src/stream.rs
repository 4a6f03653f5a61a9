//! The streaming estimator: which frames a stream of samples yields, and when.
use vstd::prelude::*;

use crate::backend::{deterministic, Backend};
use crate::error::Error;
use crate::frame::{model_of, Analyzer, Model};
use crate::windows::{
    bank_of, lemma_bank_ends_with_longest, lemma_doubled_up_to, lemma_doublings, longest_window,
    next_power_of_two, windows_for_max,
};
use crate::{DEFAULT_MAX_WINDOW, HOP_SAMPLES, MIN_WINDOW, SAMPLE_RATE};

verus! {

/// One emitted pitch frame.
#[derive(Debug, Clone, Copy, PartialEq)]
pub struct PitchFrame<N> {
    /// Frame index since the last [`Swipe::reset`] (or stream start).
    pub frame_index: u64,
    /// Time of this frame in seconds (`frame_index * HOP_SAMPLES / SAMPLE_RATE`).
    pub time_s: N,
    /// Estimated fundamental frequency in Hz.
    pub pitch_hz: N,
    /// Peak score, from 0 to 1. Treat 0.3 and more as voiced.
    pub confidence: N,
}

/// The number of frames that a stream of `n` samples yields: one as soon as the longest window
/// is full, and one more per hop.
pub open spec fn frame_count(fft_size: int, n: int) -> int {
    if n < fft_size {
        0
    } else {
        (n - fft_size) / HOP_SAMPLES as int + 1
    }
}

/// The position in the stream of the right edge of frame `k`.
pub open spec fn frame_end(fft_size: int, k: int) -> int {
    fft_size + HOP_SAMPLES * k
}

/// The time of frame `k` in seconds.
pub open spec fn time_of<B: Backend>(k: int) -> B::Num {
    B::times_of(
        B::whole_of(k as u64),
        B::over_of(B::whole_of(HOP_SAMPLES as u64), B::whole_of(SAMPLE_RATE as u64)),
    )
}

/// Frame `k` of a stream, or the reason why it could not be analysed.
pub open spec fn frame_at<B: Backend>(m: Model<B>, stream: Seq<B::Num>, k: int) -> Result<
    PitchFrame<B::Num>,
    Seq<char>,
> {
    match m.estimate(stream, frame_end(m.fft_size as int, k)) {
        Ok((confidence, pitch_hz)) => Ok(
            PitchFrame { frame_index: k as u64, time_s: time_of::<B>(k), pitch_hz, confidence },
        ),
        Err(reason) => Err(reason),
    }
}

/// Frames `from` to `to - 1` of a stream.
pub open spec fn frames_between<B: Backend>(
    m: Model<B>,
    stream: Seq<B::Num>,
    from: int,
    to: int,
) -> Seq<PitchFrame<B::Num>> {
    Seq::new((to - from) as nat, |i: int| frame_at::<B>(m, stream, from + i)->Ok_0)
}

/// The first frame from `from` on that cannot be analysed, or `to` where all frames before that
/// can.
pub open spec fn first_failure<B: Backend>(
    m: Model<B>,
    stream: Seq<B::Num>,
    from: int,
    to: int,
) -> int
    decreases to - from,
{
    if from >= to || frame_at::<B>(m, stream, from) is Err {
        from
    } else {
        first_failure::<B>(m, stream, from + 1, to)
    }
}

/// A frame depends on nothing but the samples of the longest window before its right edge.
pub proof fn lemma_estimate_is_local<B: Backend>(
    m: Model<B>,
    b1: Seq<B::Num>,
    e1: int,
    b2: Seq<B::Num>,
    e2: int,
)
    requires
        m.wf(),
        m.fft_size <= e1 <= b1.len(),
        m.fft_size <= e2 <= b2.len(),
        b1.subrange(e1 - m.fft_size, e1) == b2.subrange(e2 - m.fft_size, e2),
    ensures
        m.estimate(b1, e1) == m.estimate(b2, e2),
{
    lemma_scores_are_local::<B>(m, b1, e1, b2, e2, m.windows.len() as int);
}

proof fn lemma_scores_are_local<B: Backend>(
    m: Model<B>,
    b1: Seq<B::Num>,
    e1: int,
    b2: Seq<B::Num>,
    e2: int,
    n: int,
)
    requires
        m.wf(),
        m.fft_size <= e1 <= b1.len(),
        m.fft_size <= e2 <= b2.len(),
        b1.subrange(e1 - m.fft_size, e1) == b2.subrange(e2 - m.fft_size, e2),
        0 <= n <= m.windows.len(),
    ensures
        m.window_scores(b1, e1, n) == m.window_scores(b2, e2, n),
    decreases n,
{
    if n > 0 {
        lemma_scores_are_local::<B>(m, b1, e1, b2, e2, n - 1);
        let i = n - 1;
        let w = m.windows[i] as int;
        let t1 = b1.subrange(e1 - m.fft_size, e1);
        let t2 = b2.subrange(e2 - m.fft_size, e2);
        let in1 = m.fft_input(b1, e1, i);
        let in2 = m.fft_input(b2, e2, i);
        assert forall|k: int| 0 <= k < m.fft_size implies #[trigger] in1[k] == in2[k] by {
            if k < w {
                assert(t1[m.fft_size - w + k] == b1[e1 - w + k]);
                assert(t2[m.fft_size - w + k] == b2[e2 - w + k]);
            }
        }
        assert(in1 == in2);
    }
}

/// A frame belongs to a stream exactly if its right edge does.
pub proof fn lemma_frame_count(fft_size: int, n: int, k: int)
    requires
        fft_size > 0,
        0 <= n,
        0 <= k,
    ensures
        k < frame_count(fft_size, n) <==> frame_end(fft_size, k) <= n,
        0 <= frame_count(fft_size, n),
{
}

/// Streaming SWIPE pitch estimator.
///
/// Operates at [`SAMPLE_RATE`] (48 kHz) on mono audio. Use [`Swipe::new`] for the default
/// preset (longest window 8192 samples) or [`Swipe::with_max_window`] to trade latency for
/// low-pitch coverage.
pub struct Swipe<B: Backend> {
    analyzer: Analyzer<B>,
    buffer: Vec<B::Num>,
    next_frame_index: u64,
    /// Position of `buffer[0]` in the stream.
    buffer_origin: u64,
    /// Position in the stream of the next frame's right edge.
    next_frame_end: u64,
    /// Every sample since the last reset.
    history: Ghost<Seq<B::Num>>,
}

impl<B: Backend> Swipe<B> {
    /// The tables of the estimator.
    pub closed spec fn model(self) -> Model<B> {
        self.analyzer@
    }

    /// Every sample since the last reset.
    pub closed spec fn stream(self) -> Seq<B::Num> {
        self.history@
    }

    /// The number of frames emitted since the last reset.
    pub closed spec fn emitted(self) -> int {
        self.next_frame_index as int
    }

    /// The samples that the estimator holds on to.
    pub closed spec fn held(self) -> Seq<B::Num> {
        self.buffer@
    }

    /// The number of frames that the stream so far yields.
    pub open spec fn due(self) -> int {
        frame_count(self.model().fft_size as int, self.stream().len() as int)
    }

    /// Nothing has been fed since construction or the last reset.
    pub open spec fn is_fresh(self) -> bool {
        &&& self.stream() == Seq::<B::Num>::empty()
        &&& self.held() == Seq::<B::Num>::empty()
        &&& self.emitted() == 0
    }

    /// Every frame that the stream yields has been emitted, and no sample is held that no later
    /// frame needs.
    pub open spec fn is_settled(self) -> bool {
        &&& self.emitted() == self.due()
        &&& self.held() == self.stream().skip(HOP_SAMPLES * self.emitted())
    }

    /// `n` more samples would leave every position in the stream within 64 bits.
    pub open spec fn room_for(self, n: int) -> bool {
        let fft_size = self.model().fft_size as int;
        frame_end(fft_size, frame_count(fft_size, self.stream().len() + n)) <= u64::MAX
    }

    /// The estimator is in a valid state: it holds on to every sample that a frame still to be
    /// emitted can need, and it knows where in the stream they stand.
    pub closed spec fn wf(self) -> bool {
        &&& self.model().wf()
        &&& self.model().fft_size >= MIN_WINDOW
        &&& self.room_for(0)
        &&& self.buffer_origin <= HOP_SAMPLES * self.next_frame_index
        &&& self.buffer_origin <= self.stream().len()
        &&& self.buffer@ == self.stream().skip(self.buffer_origin as int)
        &&& self.next_frame_index <= self.due()
        &&& self.next_frame_end == frame_end(
            self.model().fft_size as int,
            self.next_frame_index as int,
        )
    }

    /// Construct with a custom `max_window`. The window bank is every power of two from
    /// [`MIN_WINDOW`] up to `max_window` (rounded up to the next power of two) inclusive; the
    /// transform is as long as the largest window. Smaller `max_window` means lower latency and
    /// less compute, but the lowest detectable pitch rises to roughly
    /// `8 * SAMPLE_RATE / max_window`.
    ///
    /// With `max_window` at most [`MIN_WINDOW`] the bank is that one window, and there is nothing
    /// to blend.
    pub fn with_max_window(max_window: usize) -> (r: Result<Self, Error>)
        requires
            max_window <= usize::MAX / 4 + 1,
        ensures
            r matches Ok(swipe) && {
                &&& swipe.wf()
                &&& swipe.model().fft_size == longest_window(max_window as int)
                &&& swipe.model().windows == bank_of(longest_window(max_window as int))
                &&& swipe.model().wf()
                &&& swipe.is_fresh()
                &&& deterministic::<B>() ==> swipe.model() == model_of::<B>(
                    bank_of(longest_window(max_window as int)),
                )
            },
    {
        let mut mw: usize = next_power_of_two(max_window);
        if mw < MIN_WINDOW {
            mw = MIN_WINDOW;
        }
        proof {
            let k = lemma_doubled_up_to(1, max_window as int);
            lemma_bank_ends_with_longest(max_window as int);
            lemma_doublings(MIN_WINDOW as int, mw as int);
        }
        let windows = windows_for_max(mw);
        let analyzer = Analyzer::<B>::new(windows);
        let fft_size: usize = analyzer.fft_size();
        assert(Seq::<B::Num>::empty().skip(0) == Seq::<B::Num>::empty());
        Ok(
            Swipe {
                analyzer,
                buffer: Vec::new(),
                next_frame_index: 0,
                buffer_origin: 0,
                next_frame_end: fft_size as u64,
                history: Ghost(Seq::empty()),
            },
        )
    }

    /// Default: `max_window = DEFAULT_MAX_WINDOW`. Balanced preset that covers the human voice
    /// range.
    pub fn new() -> (r: Result<Self, Error>)
        ensures
            r matches Ok(swipe) && {
                &&& swipe.wf()
                &&& swipe.model().fft_size == DEFAULT_MAX_WINDOW
                &&& swipe.model().windows == bank_of(DEFAULT_MAX_WINDOW as int)
                &&& swipe.model().wf()
                &&& swipe.is_fresh()
                &&& deterministic::<B>() ==> swipe.model() == model_of::<B>(
                    bank_of(DEFAULT_MAX_WINDOW as int),
                )
            },
    {
        proof {
            reveal_with_fuel(crate::windows::doubled_up_to, 15);
        }
        Self::with_max_window(DEFAULT_MAX_WINDOW)
    }

    /// Reset the streaming state: clears the buffer and frame counter. The tables are kept.
    pub fn reset(&mut self)
        requires
            old(self).wf(),
        ensures
            final(self).wf(),
            final(self).model() == old(self).model(),
            final(self).is_fresh(),
    {
        self.buffer.clear();
        self.next_frame_index = 0;
        self.buffer_origin = 0;
        self.next_frame_end = self.analyzer.fft_size() as u64;
        self.history = Ghost(Seq::empty());
        assert(Seq::<B::Num>::empty().skip(0) == Seq::<B::Num>::empty());
    }

    /// Whether `n` more samples can be fed: positions in the stream are counted in 64 bits.
    pub fn has_room_for(&self, n: usize) -> (fits: bool)
        requires
            self.wf(),
        ensures
            fits == self.room_for(n as int),
    {
        let fft_size: u64 = self.analyzer.fft_size() as u64;
        let total: u64 = self.buffer_origin + self.buffer.len() as u64;
        if n as u64 > u64::MAX - total {
            return false;
        }
        let total: u64 = total + n as u64;
        if total < fft_size {
            return true;
        }
        (total - fft_size) / HOP_SAMPLES as u64 + 1 <= (u64::MAX - fft_size) / HOP_SAMPLES as u64
    }

    /// Feed audio. Returns every frame whose right edge has now landed inside the stream. May
    /// return zero frames if the input chunk was small. Drives one frame per [`HOP_SAMPLES`] of
    /// new audio.
    ///
    /// Where a frame fails, the frames of this call before it are lost, and the next call starts
    /// over with the frame that failed.
    pub fn process(&mut self, audio: &[B::Num]) -> (r: Result<Vec<PitchFrame<B::Num>>, Error>)
        requires
            old(self).wf(),
            old(self).room_for(audio@.len() as int),
        ensures
            exists|frames: Seq<PitchFrame<B::Num>>|
                advances::<B>(*old(self), *final(self), audio@, frames, failure_of(r)) && (
                r matches Ok(v) ==> v@ == frames),
    {
        let mut out: Vec<PitchFrame<B::Num>> = Vec::new();
        let done = self.process_into(audio, &mut out);
        proof {
            let frames = choose|frames: Seq<PitchFrame<B::Num>>|
                advances::<B>(*old(self), *self, audio@, frames, failure_of(done)) && out@
                    == Seq::<PitchFrame<B::Num>>::empty() + frames;
            assert(frames == out@);
        }
        match done {
            Ok(()) => Ok(out),
            Err(e) => Err(e),
        }
    }

    /// Same as [`Self::process`] but appends frames to a caller-provided buffer instead of
    /// allocating a new one.
    ///
    /// Frames are appended: `out` is not cleared first. Where a frame fails, the frames before
    /// it have been appended.
    pub fn process_into(
        &mut self,
        audio: &[B::Num],
        out: &mut Vec<PitchFrame<B::Num>>,
    ) -> (r: Result<(), Error>)
        requires
            old(self).wf(),
            old(self).room_for(audio@.len() as int),
        ensures
            exists|frames: Seq<PitchFrame<B::Num>>|
                advances::<B>(*old(self), *final(self), audio@, frames, failure_of(r))
                    && final(out)@ == old(out)@ + frames,
    {
        let ghost m = self.model();
        let ghost fft = m.fft_size as int;
        let ghost first = self.emitted();
        let ghost stream = self.stream() + audio@;
        let ghost due = frame_count(fft, stream.len() as int);
        proof {
            lemma_frame_count_grows(fft, self.stream().len() as int, stream.len() as int);
        }
        self.append(audio);
        let hop_s = B::over(B::whole(HOP_SAMPLES as u64), B::whole(SAMPLE_RATE as u64));
        let fft_size: u64 = self.analyzer.fft_size() as u64;
        let ghost mut frames = Seq::<PitchFrame<B::Num>>::empty();
        assert(frames == frames_between::<B>(m, stream, first, first));
        assert(out@ == old(out)@ + frames);
        loop
            invariant
                self.wf(),
                m == old(self).model(),
                stream == old(self).stream() + audio@,
                self.model() == m,
                self.stream() == stream,
                self.held() == old(self).held() + audio@,
                fft == m.fft_size,
                fft_size == fft,
                due == frame_count(fft, stream.len() as int),
                first == old(self).emitted(),
                first <= self.emitted() <= due,
                out@ == old(out)@ + frames,
                frames.len() == self.emitted() - first,
                forall|i: int|
                    0 <= i < frames.len() ==> (#[trigger] frames[i]).frame_index == first + i,
                deterministic::<B>() ==> {
                    &&& hop_s == B::over_of(
                        B::whole_of(HOP_SAMPLES as u64),
                        B::whole_of(SAMPLE_RATE as u64),
                    )
                    &&& first_failure::<B>(m, stream, first, due) == first_failure::<B>(
                        m,
                        stream,
                        self.emitted(),
                        due,
                    )
                    &&& frames == frames_between::<B>(m, stream, first, self.emitted())
                },
            ensures
                self.emitted() == due,
            decreases due - self.emitted(),
        {
            let buf_end: u64 = self.buffer_origin + self.buffer.len() as u64;
            proof {
                lemma_frame_count(fft, stream.len() as int, self.emitted());
            }
            if self.next_frame_end > buf_end {
                break;
            }
            let local_end: usize = (self.next_frame_end - self.buffer_origin) as usize;
            let ghost end = self.next_frame_end as int;
            proof {
                assert(self.buffer@.subrange(local_end - fft, local_end as int)
                    == stream.subrange(end - fft, end));
                lemma_estimate_is_local::<B>(m, self.buffer@, local_end as int, stream, end);
            }
            let (conf, f0) = match self.analyzer.one_frame(&self.buffer, local_end) {
                Ok(found) => found,
                Err(e) => {
                    let failed: Result<(), Error> = Err(e);
                    assert(advances::<B>(*old(self), *self, audio@, frames, failure_of(failed)));
                    return failed;
                },
            };
            let abs_idx: u64 = self.next_frame_index;
            let frame = PitchFrame {
                frame_index: abs_idx,
                time_s: B::times(B::whole(abs_idx), hop_s),
                pitch_hz: f0,
                confidence: conf,
            };
            out.push(frame);
            proof {
                assert(old(out)@ + frames.push(frame) == out@);
                if deterministic::<B>() {
                    assert(frame_at::<B>(m, stream, abs_idx as int) == Ok::<
                        PitchFrame<B::Num>,
                        Seq<char>,
                    >(frame));
                    assert(frames_between::<B>(m, stream, first, abs_idx + 1) == frames.push(
                        frame,
                    ));
                }
                frames = frames.push(frame);
                lemma_next_frame_fits(fft, abs_idx as int, due);
            }
            self.next_frame_index = self.next_frame_index + 1;
            self.next_frame_end = self.next_frame_end + HOP_SAMPLES as u64;
        }
        self.trim(fft_size);
        let done: Result<(), Error> = Ok(());
        assert(advances::<B>(*old(self), *self, audio@, frames, failure_of(done)));
        done
    }

    /// Appends samples to the stream.
    fn append(&mut self, audio: &[B::Num])
        requires
            old(self).wf(),
            old(self).room_for(audio@.len() as int),
        ensures
            final(self).wf(),
            final(self).model() == old(self).model(),
            final(self).stream() == old(self).stream() + audio@,
            final(self).held() == old(self).held() + audio@,
            final(self).emitted() == old(self).emitted(),
    {
        let ghost fft = self.model().fft_size as int;
        let ghost before = self.buffer@;
        proof {
            lemma_frame_count_grows(
                fft,
                self.stream().len() as int,
                (self.stream() + audio@).len() as int,
            );
        }
        for i in 0..audio.len()
            invariant
                self.buffer@ == before + audio@.take(i as int),
                self.analyzer == old(self).analyzer,
                self.next_frame_index == old(self).next_frame_index,
                self.buffer_origin == old(self).buffer_origin,
                self.next_frame_end == old(self).next_frame_end,
                self.history == old(self).history,
        {
            assert(before + audio@.take(i + 1) == (before + audio@.take(i as int)).push(
                audio@[i as int],
            ));
            self.buffer.push(audio[i]);
        }
        assert(audio@.take(audio@.len() as int) == audio@);
        self.history = Ghost(self.history@ + audio@);
        assert(self.history@.skip(self.buffer_origin as int) == before + audio@);
    }

    /// Lets go of the samples that no further frame can need.
    fn trim(&mut self, fft_size: u64)
        requires
            old(self).wf(),
            fft_size == old(self).model().fft_size,
            old(self).emitted() == old(self).due(),
        ensures
            final(self).wf(),
            final(self).model() == old(self).model(),
            final(self).stream() == old(self).stream(),
            final(self).emitted() == old(self).emitted(),
            final(self).held() == old(self).stream().skip(HOP_SAMPLES * old(self).emitted()),
    {
        proof {
            if self.emitted() > 0 {
                lemma_frame_count(fft_size as int, self.stream().len() as int, self.emitted() - 1);
            }
        }
        if self.next_frame_end > fft_size {
            let must_keep_from: u64 = self.next_frame_end - fft_size;
            if must_keep_from > self.buffer_origin {
                assert(must_keep_from - self.buffer_origin <= self.buffer.len());
                let drop_n: usize = (must_keep_from - self.buffer_origin) as usize;
                let kept = self.buffer.split_off(drop_n);
                self.buffer = kept;
                self.buffer_origin = self.buffer_origin + drop_n as u64;
            }
        }
        assert(self.buffer_origin == HOP_SAMPLES * self.emitted());
        assert(self.buffer@ == self.stream().skip(self.buffer_origin as int));
    }
}

/// What went wrong, if anything did.
pub open spec fn failure_of<T>(r: Result<T, Error>) -> Option<Seq<char>> {
    match r {
        Ok(_) => None,
        Err(e) => Some(e.reason()),
    }
}

/// Feeding `audio` to the estimator `before` makes it `after`, emits `frames`, and ends with
/// `failure`.
///
/// The stream grows by `audio`. Frames come out in order, without a gap, from the first that was
/// not emitted before to the last that is due, or up to the first that fails. After a success the
/// estimator lets go of all samples that no later frame needs; after a failure it holds on to
/// everything, and the failed frame is the next in line.
pub open spec fn advances<B: Backend>(
    before: Swipe<B>,
    after: Swipe<B>,
    audio: Seq<B::Num>,
    frames: Seq<PitchFrame<B::Num>>,
    failure: Option<Seq<char>>,
) -> bool {
    &&& after.wf()
    &&& after.model() == before.model()
    &&& after.stream() == before.stream() + audio
    &&& before.emitted() <= after.emitted() <= after.due()
    &&& failure is None <==> after.emitted() == after.due()
    &&& after.held() == if failure is None {
        after.stream().skip(HOP_SAMPLES * after.emitted())
    } else {
        before.held() + audio
    }
    &&& frames.len() == after.emitted() - before.emitted()
    &&& forall|i: int|
        0 <= i < frames.len() ==> (#[trigger] frames[i]).frame_index == before.emitted() + i
    &&& deterministic::<B>() ==> {
        &&& after.emitted() == first_failure::<B>(
            after.model(),
            after.stream(),
            before.emitted(),
            after.due(),
        )
        &&& frames == frames_between::<B>(
            after.model(),
            after.stream(),
            before.emitted(),
            after.emitted(),
        )
        &&& failure matches Some(reason) ==> frame_at::<B>(
            after.model(),
            after.stream(),
            after.emitted(),
        ) == Err::<PitchFrame<B::Num>, Seq<char>>(reason)
    }
}

/// What a valid state implies about the parts of it that contracts speak of.
pub proof fn lemma_valid_state<B: Backend>(swipe: Swipe<B>)
    requires
        swipe.wf(),
    ensures
        swipe.model().wf(),
        swipe.model().fft_size >= MIN_WINDOW,
        0 <= swipe.emitted() <= swipe.due(),
        swipe.room_for(0),
{
}

/// A longer stream yields at least as many frames.
pub proof fn lemma_frame_count_grows(fft_size: int, n: int, more: int)
    requires
        fft_size > 0,
        0 <= n <= more,
    ensures
        frame_count(fft_size, n) <= frame_count(fft_size, more),
{
}

/// The right edges up to the one after the last due frame stay within the bound of that one.
proof fn lemma_next_frame_fits(fft_size: int, k: int, due: int)
    requires
        0 < fft_size,
        0 <= k < due,
        frame_end(fft_size, due) <= u64::MAX,
    ensures
        frame_end(fft_size, k + 1) <= u64::MAX,
        k + 1 <= u64::MAX,
{
}

} // verus!
