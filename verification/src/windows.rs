//! The bank of analysis windows: their lengths, their shapes, and which two of them serve each
//! pitch candidate.
use vstd::arithmetic::power2::{lemma2_to64, lemma_pow2_unfold, pow2};
use vstd::prelude::*;

use crate::backend::{deterministic, Backend};
use crate::{MIN_WINDOW, SAMPLE_RATE};

verus! {

/// How far `p` lies below `n`, or 0 where it does not.
pub open spec fn distance(p: int, n: int) -> int {
    if p < n {
        n - p
    } else {
        0
    }
}

/// The first of `p`, `2 * p`, `4 * p`, ... that is at least `n`.
pub open spec fn doubled_up_to(p: int, n: int) -> int
    decreases distance(p, n),
{
    if p <= 0 || p >= n {
        p
    } else {
        doubled_up_to(2 * p, n)
    }
}

/// The sequence `w`, `2 * w`, `4 * w`, ... as far as it does not exceed `max`.
pub open spec fn doublings(w: int, max: int) -> Seq<usize>
    decreases distance(w, max + 1),
{
    if w <= 0 || w > max {
        Seq::empty()
    } else {
        seq![w as usize] + doublings(2 * w, max)
    }
}

/// The window lengths of the bank whose longest window is at most `max`.
pub open spec fn bank_of(max: int) -> Seq<usize> {
    if max < MIN_WINDOW {
        seq![MIN_WINDOW]
    } else {
        doublings(MIN_WINDOW as int, max)
    }
}

/// The longest window of the bank that is made for `max_window`: the next power of two, and
/// never less than the smallest window.
pub open spec fn longest_window(max_window: int) -> int {
    let p = doubled_up_to(1, max_window);
    if p < MIN_WINDOW {
        MIN_WINDOW as int
    } else {
        p
    }
}

/// What doubling reaches is a power of two times the start; it is at least `n` and, if it has
/// moved at all, less than twice `n`.
pub proof fn lemma_doubled_up_to(p: int, n: int) -> (k: nat)
    requires
        p > 0,
    ensures
        doubled_up_to(p, n) == p * pow2(k),
        doubled_up_to(p, n) >= n,
        doubled_up_to(p, n) >= p,
        doubled_up_to(p, n) == p || doubled_up_to(p, n) < 2 * n,
    decreases distance(p, n),
{
    lemma2_to64();
    if p >= n {
        assert(p * pow2(0) == p) by (nonlinear_arith)
            requires
                pow2(0) == 1,
        ;
        0
    } else {
        let j = lemma_doubled_up_to(2 * p, n);
        lemma_pow2_unfold(j + 1);
        assert(2 * p * pow2(j) == p * pow2(j + 1)) by (nonlinear_arith)
            requires
                pow2(j + 1) == 2 * pow2(j),
        ;
        j + 1
    }
}

/// Every entry of a run of doublings is the start times a power of two, none exceeds the
/// maximum, and the run stops only where the next doubling would exceed it.
pub proof fn lemma_doublings(w: int, max: int)
    requires
        0 < w <= max <= usize::MAX,
    ensures
        doublings(w, max).len() > 0,
        forall|i: int|
            0 <= i < doublings(w, max).len() ==> (#[trigger] doublings(w, max)[i]) == w * pow2(
                i as nat,
            ),
        forall|i: int|
            0 <= i < doublings(w, max).len() ==> w <= (#[trigger] doublings(w, max)[i]) <= max,
        2 * doublings(w, max).last() > max,
    decreases distance(w, max + 1),
{
    lemma2_to64();
    let rest = doublings(2 * w, max);
    let all = doublings(w, max);
    assert(all == seq![w as usize] + rest);
    if 2 * w <= max {
        lemma_doublings(2 * w, max);
        assert forall|i: int| 0 <= i < all.len() implies (#[trigger] all[i]) == w * pow2(
            i as nat,
        ) by {
            if i > 0 {
                assert(all[i] == rest[i - 1]);
                lemma_pow2_unfold(i as nat);
                let half = pow2((i - 1) as nat);
                assert(2 * w * half == w * (2 * half)) by (nonlinear_arith);
            } else {
                assert(w * pow2(0) == w) by (nonlinear_arith)
                    requires
                        pow2(0) == 1,
                ;
            }
        }
        assert forall|i: int| 0 <= i < all.len() implies w <= (#[trigger] all[i]) <= max by {
            if i > 0 {
                assert(all[i] == rest[i - 1]);
            }
        }
        assert(all.last() == rest.last());
    } else {
        assert(rest.len() == 0);
        assert(w * pow2(0) == w) by (nonlinear_arith)
            requires
                pow2(0) == 1,
        ;
    }
}

/// A run of doublings up to a value that doubling reaches ends with that value.
proof fn lemma_doublings_end(w: int, n: int)
    requires
        0 < w,
        doubled_up_to(w, n) <= usize::MAX,
    ensures
        doublings(w, doubled_up_to(w, n)).len() > 0,
        doublings(w, doubled_up_to(w, n)).last() == doubled_up_to(w, n),
    decreases distance(w, n),
{
    let top = doubled_up_to(w, n);
    let k = lemma_doubled_up_to(w, n);
    let rest = doublings(2 * w, top);
    assert(doublings(w, top) == seq![w as usize] + rest);
    if w >= n {
        assert(rest.len() == 0);
    } else {
        lemma_doublings_end(2 * w, n);
        assert(doublings(w, top).last() == rest.last());
    }
}

/// The bank that is made for `max_window` ends with its longest window.
pub proof fn lemma_bank_ends_with_longest(max_window: int)
    requires
        longest_window(max_window) <= usize::MAX,
    ensures
        bank_of(longest_window(max_window)).len() > 0,
        bank_of(longest_window(max_window)).last() == longest_window(max_window),
{
    let top = longest_window(max_window);
    if max_window <= MIN_WINDOW {
        let k = lemma_doubled_up_to(1, max_window);
        assert(top == MIN_WINDOW) by {
            lemma_reaches_min_window(max_window);
        }
        reveal_with_fuel(doublings, 2);
    } else {
        reveal_with_fuel(doubled_up_to, 11);
        assert(doubled_up_to(1, max_window) == doubled_up_to(MIN_WINDOW as int, max_window));
        let k = lemma_doubled_up_to(MIN_WINDOW as int, max_window);
        lemma_doublings_end(MIN_WINDOW as int, max_window);
    }
}

/// Doubling from 1 towards at most the smallest window does not pass it.
proof fn lemma_reaches_min_window(n: int)
    requires
        n <= MIN_WINDOW,
    ensures
        doubled_up_to(1, n) <= MIN_WINDOW,
{
    reveal_with_fuel(doubled_up_to, 12);
}

/// The smallest power of two that is at least `n`.
pub fn next_power_of_two(n: usize) -> (p: usize)
    requires
        n <= usize::MAX / 2 + 1,
    ensures
        p == doubled_up_to(1, n as int),
{
    let mut p: usize = 1;
    while p < n
        invariant
            0 < p,
            n <= usize::MAX / 2 + 1,
            doubled_up_to(p as int, n as int) == doubled_up_to(1, n as int),
        decreases distance(p as int, n as int),
    {
        p = p * 2;
    }
    p
}

/// The window lengths for a longest window of at most `max_window`: every power of two from
/// the smallest window up, and the smallest window alone where `max_window` lies below it.
pub fn windows_for_max(max_window: usize) -> (windows: Vec<usize>)
    requires
        max_window <= usize::MAX / 2,
    ensures
        windows@ == bank_of(max_window as int),
{
    let mut out: Vec<usize> = Vec::new();
    let mut w: usize = MIN_WINDOW;
    while w <= max_window
        invariant
            0 < w,
            max_window <= usize::MAX / 2,
            out@ + doublings(w as int, max_window as int) == doublings(
                MIN_WINDOW as int,
                max_window as int,
            ),
        decreases distance(w as int, max_window + 1),
    {
        proof {
            let rest = doublings(2 * w, max_window as int);
            assert(doublings(w as int, max_window as int) == seq![w] + rest);
            assert(out@ + (seq![w] + rest) == out@.push(w) + rest);
        }
        out.push(w);
        w = w * 2;
    }
    assert(out@ + Seq::<usize>::empty() == out@);
    if out.len() == 0 {
        proof {
            if max_window >= MIN_WINDOW {
                lemma_doublings(MIN_WINDOW as int, max_window as int);
            }
        }
        out.push(MIN_WINDOW);
    } else {
        assert(max_window >= MIN_WINDOW);
    }
    out
}

/// The samples of a Hann window of length `w`.
pub open spec fn hann_of<B: Backend>(w: usize) -> Seq<B::Num> {
    Seq::new(
        w as nat,
        |i: int|
            B::minus_of(
                B::ratio_of(1, 2),
                B::times_of(
                    B::ratio_of(1, 2),
                    B::cos_of(
                        B::over_of(
                            B::times_of(
                                B::times_of(B::whole_of(2), B::pi_of()),
                                B::whole_of(i as u64),
                            ),
                            B::minus_of(B::whole_of(w as u64), B::whole_of(1)),
                        ),
                    ),
                ),
            ),
    )
}

/// Base-two logarithms of the window lengths.
pub open spec fn log_windows_of<B: Backend>(windows: Seq<usize>) -> Seq<B::Num> {
    windows.map_values(|w: usize| B::log2_of(B::whole_of(w as u64)))
}

/// Base-two logarithm of the window length that suits a pitch best: eight periods.
pub open spec fn log_ideal_of<B: Backend>(fc: B::Num) -> B::Num {
    B::log2_of(
        B::over_of(B::times_of(B::whole_of(8), B::whole_of(SAMPLE_RATE as u64)), fc),
    )
}

/// The first index from `i` on whose entry is at least `l`, or the last index where there is
/// none.
pub open spec fn first_reaching<B: Backend>(logs: Seq<B::Num>, l: B::Num, i: int) -> int
    decreases logs.len() - i,
{
    if i >= logs.len() {
        logs.len() - 1
    } else if B::at_most_of(l, logs[i]) {
        i
    } else {
        first_reaching::<B>(logs, l, i + 1)
    }
}

/// The longer of the two windows that serve a pitch: the first that reaches its ideal length, but
/// never the first of the bank, which has no shorter neighbour. A bank of one window has no
/// other choice.
pub open spec fn upper_window<B: Backend>(windows: Seq<usize>, fc: B::Num) -> int {
    let hi = first_reaching::<B>(log_windows_of::<B>(windows), log_ideal_of::<B>(fc), 0);
    if hi == 0 && windows.len() > 1 {
        1
    } else {
        hi
    }
}

/// The shorter of the two windows that serve a pitch: the one before the longer, or the same in a
/// bank of one window.
pub open spec fn lower_window<B: Backend>(windows: Seq<usize>, fc: B::Num) -> int {
    let hi = upper_window::<B>(windows, fc);
    if hi == 0 {
        0
    } else {
        hi - 1
    }
}

/// How far the ideal window of a pitch lies from the shorter to the longer of the two that
/// serve it, from 0 to 1 on the logarithmic scale.
pub open spec fn window_alpha_of<B: Backend>(windows: Seq<usize>, fc: B::Num) -> B::Num {
    let logs = log_windows_of::<B>(windows);
    let lo = lower_window::<B>(windows, fc);
    let hi = upper_window::<B>(windows, fc);
    B::clamped_of(
        B::over_of(
            B::minus_of(log_ideal_of::<B>(fc), logs[lo]),
            B::larger_of(B::minus_of(logs[hi], logs[lo]), B::ratio_of(1, 1_000_000)),
        ),
        B::whole_of(0),
        B::whole_of(1),
    )
}

/// The index that a search for the first reaching entry finds is one of the entries; every
/// entry it passed over falls short, and the entry found reaches unless none does.
pub proof fn lemma_first_reaching<B: Backend>(logs: Seq<B::Num>, l: B::Num, i: int)
    requires
        0 <= i <= logs.len(),
        logs.len() > 0,
    ensures
        0 <= first_reaching::<B>(logs, l, i) < logs.len(),
        forall|k: int|
            i <= k < first_reaching::<B>(logs, l, i) ==> !B::at_most_of(l, #[trigger] logs[k]),
        first_reaching::<B>(logs, l, i) < logs.len() - 1 ==> B::at_most_of(
            l,
            logs[first_reaching::<B>(logs, l, i)],
        ),
    decreases logs.len() - i,
{
    if i < logs.len() && !B::at_most_of(l, logs[i]) {
        lemma_first_reaching::<B>(logs, l, i + 1);
    }
}

/// The samples of a Hann window of length `w`.
pub fn build_hann<B: Backend>(w: usize) -> (hann: Vec<B::Num>)
    ensures
        hann@.len() == w,
        deterministic::<B>() ==> hann@ == hann_of::<B>(w),
{
    let half = B::ratio(1, 2);
    let two_pi = B::times(B::whole(2), B::pi());
    let span = B::minus(B::whole(w as u64), B::whole(1));
    let mut hann: Vec<B::Num> = Vec::with_capacity(w);
    for i in 0..w
        invariant
            hann@.len() == i,
            deterministic::<B>() ==> {
                &&& half == B::ratio_of(1, 2)
                &&& two_pi == B::times_of(B::whole_of(2), B::pi_of())
                &&& span == B::minus_of(B::whole_of(w as u64), B::whole_of(1))
                &&& forall|k: int| 0 <= k < i ==> #[trigger] hann@[k] == hann_of::<B>(w)[k]
            },
    {
        let angle = B::over(B::times(two_pi, B::whole(i as u64)), span);
        hann.push(B::minus(half, B::times(half, B::cos(angle))));
    }
    hann
}

/// The index of the first entry of `logs` that is at least `l`, or the last index where there is
/// none.
pub fn find_reaching<B: Backend>(logs: &Vec<B::Num>, l: B::Num) -> (hi: usize)
    requires
        logs@.len() > 0,
    ensures
        hi < logs@.len(),
        deterministic::<B>() ==> hi == first_reaching::<B>(logs@, l, 0),
{
    for i in 0..logs.len()
        invariant
            deterministic::<B>() ==> first_reaching::<B>(logs@, l, 0) == first_reaching::<B>(
                logs@,
                l,
                i as int,
            ),
    {
        if B::at_most(l, logs[i]) {
            return i;
        }
    }
    logs.len() - 1
}

/// For each candidate pitch, the two neighbouring windows that flank its ideal length of eight
/// periods, and the weight of the longer one. In a bank of one window that window is both.
pub fn build_window_interp<B: Backend>(candidates: &Vec<B::Num>, windows: &Vec<usize>) -> (r: (
    Vec<usize>,
    Vec<usize>,
    Vec<B::Num>,
))
    requires
        windows@.len() >= 1,
    ensures
        r.0@.len() == candidates@.len(),
        r.1@.len() == candidates@.len(),
        r.2@.len() == candidates@.len(),
        forall|c: int|
            0 <= c < candidates@.len() ==> (#[trigger] r.0@[c]) == if windows@.len() == 1 {
                0
            } else {
                r.1@[c] - 1
            },
        forall|c: int| 0 <= c < candidates@.len() ==> (#[trigger] r.1@[c]) < windows@.len(),
        deterministic::<B>() ==> r.0@ == candidates@.map_values(
            |fc: B::Num| lower_window::<B>(windows@, fc) as usize,
        ),
        deterministic::<B>() ==> r.1@ == candidates@.map_values(
            |fc: B::Num| upper_window::<B>(windows@, fc) as usize,
        ),
        deterministic::<B>() ==> r.2@ == candidates@.map_values(
            |fc: B::Num| window_alpha_of::<B>(windows@, fc),
        ),
{
    let mut logs: Vec<B::Num> = Vec::with_capacity(windows.len());
    for i in 0..windows.len()
        invariant
            logs@.len() == i,
            deterministic::<B>() ==> forall|k: int|
                0 <= k < i ==> #[trigger] logs@[k] == log_windows_of::<B>(windows@)[k],
    {
        logs.push(B::log2(B::whole(windows[i] as u64)));
    }
    assert(deterministic::<B>() ==> logs@ == log_windows_of::<B>(windows@));
    let zero = B::whole(0);
    let one = B::whole(1);
    let least = B::ratio(1, 1_000_000);
    let eight_fs = B::times(B::whole(8), B::whole(SAMPLE_RATE as u64));
    let mut idx_minus: Vec<usize> = Vec::with_capacity(candidates.len());
    let mut idx_plus: Vec<usize> = Vec::with_capacity(candidates.len());
    let mut alpha: Vec<B::Num> = Vec::with_capacity(candidates.len());
    for c in 0..candidates.len()
        invariant
            windows@.len() >= 1,
            logs@.len() == windows@.len(),
            idx_minus@.len() == c,
            idx_plus@.len() == c,
            alpha@.len() == c,
            forall|k: int|
                0 <= k < c ==> (#[trigger] idx_minus@[k]) == if windows@.len() == 1 {
                    0
                } else {
                    idx_plus@[k] - 1
                },
            forall|k: int| 0 <= k < c ==> (#[trigger] idx_plus@[k]) < windows@.len(),
            deterministic::<B>() ==> {
                &&& logs@ == log_windows_of::<B>(windows@)
                &&& zero == B::whole_of(0)
                &&& one == B::whole_of(1)
                &&& least == B::ratio_of(1, 1_000_000)
                &&& eight_fs == B::times_of(B::whole_of(8), B::whole_of(SAMPLE_RATE as u64))
                &&& forall|k: int|
                    0 <= k < c ==> #[trigger] idx_minus@[k] == lower_window::<B>(
                        windows@,
                        candidates@[k],
                    )
                &&& forall|k: int|
                    0 <= k < c ==> #[trigger] idx_plus@[k] == upper_window::<B>(
                        windows@,
                        candidates@[k],
                    )
                &&& forall|k: int|
                    0 <= k < c ==> #[trigger] alpha@[k] == window_alpha_of::<B>(
                        windows@,
                        candidates@[k],
                    )
            },
    {
        let l = B::log2(B::over(eight_fs, candidates[c]));
        let mut hi: usize = find_reaching::<B>(&logs, l);
        if hi == 0 && windows.len() > 1 {
            hi = 1;
        }
        let lo: usize = if hi == 0 {
            0
        } else {
            hi - 1
        };
        let denom = B::larger(B::minus(logs[hi], logs[lo]), least);
        let a = B::clamped(B::over(B::minus(l, logs[lo]), denom), zero, one);
        idx_minus.push(lo);
        idx_plus.push(hi);
        alpha.push(a);
    }
    (idx_minus, idx_plus, alpha)
}

} // verus!
