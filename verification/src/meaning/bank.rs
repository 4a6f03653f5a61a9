//! The shape of the windows, and the two windows that serve a candidate.
use vstd::prelude::*;

use crate::backend::Backend;
use crate::exact::{clamp_real, max_real, Meaning};
use crate::windows::{
    first_reaching, hann_of, lemma_first_reaching, log_ideal_of, log_windows_of, lower_window,
    upper_window, window_alpha_of,
};

verus! {

/// A window rises from zero at its first sample as half of one minus the cosine of a full turn
/// spread over its length, and falls back in the same way.
pub proof fn law_window_is_a_raised_cosine<B: Backend>(m: Meaning<B>, w: usize, i: int)
    requires
        m.is_exact(),
        w >= 2,
        0 <= i < w,
    ensures
        hann_of::<B>(w).len() == w,
        m.of(hann_of::<B>(w)[i]) == (1real - (m.cos)(2real * m.pi * i as real / (w - 1) as real))
            / 2real,
        m.of(hann_of::<B>(w)[0]) == 0real,
        m.of(hann_of::<B>(w)[w - 1 - i]) == m.of(hann_of::<B>(w)[i]),
        2 * i == w - 1 ==> m.of(hann_of::<B>(w)[i]) == 1real,
        0real <= m.of(hann_of::<B>(w)[i]) <= 1real,
{
    lemma_hann::<B>(m, w, 0);
    lemma_hann::<B>(m, w, i);
    lemma_hann::<B>(m, w, w - 1 - i);
    let (p, n, x) = (m.pi, (w - 1) as real, i as real);
    assert(2real * p * 0real / n == 0real) by (nonlinear_arith)
        requires
            n > 0real,
    ;
    let a = 2real * p * x / n;
    assert((w - 1 - i) as real == n - x);
    assert(2real * p * (n - x) / n == -a + 2real * p) by (nonlinear_arith)
        requires
            n > 0real,
            a == 2real * p * x / n,
    ;
    assert((m.cos)(-a + 2real * p) == (m.cos)(-a));
    assert((m.cos)(-a) == (m.cos)(a));
    if 2 * i == w - 1 {
        assert(a == p) by (nonlinear_arith)
            requires
                n > 0real,
                2real * x == n,
                a == 2real * p * x / n,
        ;
    }
}

proof fn lemma_hann<B: Backend>(m: Meaning<B>, w: usize, i: int)
    requires
        m.is_exact(),
        w >= 2,
        0 <= i < w,
    ensures
        m.of(hann_of::<B>(w)[i]) == (1real - (m.cos)(2real * m.pi * i as real / (w - 1) as real))
            / 2real,
{
    let c = (m.cos)(2real * m.pi * i as real / (w - 1) as real);
    assert(m.of(B::whole_of(w as u64)) == w as real);
    assert(m.of(B::whole_of(i as u64)) == i as real);
    assert(w as real - 1real == (w - 1) as real);
    assert(1real / 2real - 1real / 2real * c == (1real - c) / 2real) by (nonlinear_arith);
}

proof fn lemma_log2_ascends<B: Backend>(m: Meaning<B>, x: real, y: real)
    requires
        m.is_exact(),
        0real < x,
        0real < y,
    ensures
        x <= y <==> (m.log2)(x) <= (m.log2)(y),
        (m.log2)(2real * x) == (m.log2)(x) + 1real,
{
    let (u, v) = ((m.log2)(x), (m.log2)(y));
    assert((m.exp2)(u) == x);
    assert((m.exp2)(v) == y);
    if u < v {
        assert((m.exp2)(u) < (m.exp2)(v));
    }
    if v < u {
        assert((m.exp2)(v) < (m.exp2)(u));
    }
    let z = (m.log2)(2real * x);
    assert((m.exp2)(z) == 2real * x);
    assert((m.exp2)(u + 1real) == x * 2real);
    if z < u + 1real {
        assert((m.exp2)(z) < (m.exp2)(u + 1real));
    }
    if u + 1real < z {
        assert((m.exp2)(u + 1real) < (m.exp2)(z));
    }
}

/// The length that suits a candidate best: eight of its periods at 48 kHz.
pub open spec fn eight_periods<B: Backend>(m: Meaning<B>, fc: B::Num) -> real {
    8real * 48000real / m.of(fc)
}

proof fn lemma_logs<B: Backend>(m: Meaning<B>, windows: Seq<usize>, fc: B::Num)
    requires
        m.is_exact(),
        m.of(fc) > 0real,
        forall|i: int| 0 <= i < windows.len() ==> #[trigger] windows[i] > 0,
    ensures
        eight_periods::<B>(m, fc) > 0real,
        m.of(log_ideal_of::<B>(fc)) == (m.log2)(eight_periods::<B>(m, fc)),
        log_windows_of::<B>(windows).len() == windows.len(),
        forall|i: int|
            0 <= i < windows.len() ==> m.of(#[trigger] log_windows_of::<B>(windows)[i])
                == (m.log2)(windows[i] as real),
        forall|i: int|
            0 <= i < windows.len() ==> B::at_most_of(
                log_ideal_of::<B>(fc),
                #[trigger] log_windows_of::<B>(windows)[i],
            ) == (eight_periods::<B>(m, fc) <= windows[i] as real),
{
    let f = m.of(fc);
    assert(8real * 48000real == 384000real) by (nonlinear_arith);
    assert(384000real / f > 0real) by (nonlinear_arith)
        requires
            f > 0real,
    ;
    let logs = log_windows_of::<B>(windows);
    assert forall|i: int| 0 <= i < windows.len() implies m.of(#[trigger] logs[i]) == (m.log2)(
        windows[i] as real,
    ) by {
        assert(logs[i] == B::log2_of(B::whole_of(windows[i] as u64)));
        assert(windows[i] > 0);
    }
    assert forall|i: int| 0 <= i < windows.len() implies B::at_most_of(
        log_ideal_of::<B>(fc),
        #[trigger] logs[i],
    ) == (eight_periods::<B>(m, fc) <= windows[i] as real) by {
        assert(windows[i] > 0);
        lemma_log2_ascends::<B>(m, eight_periods::<B>(m, fc), windows[i] as real);
    }
}

/// The longer of a candidate's two windows is the first of the bank that holds eight of its
/// periods, though not the very first where there are two, and the last where none holds them.
/// The shorter one is the window before it. A bank of one window serves with that one.
pub proof fn law_windows_flank_eight_periods<B: Backend>(
    m: Meaning<B>,
    windows: Seq<usize>,
    fc: B::Num,
    first: int,
)
    requires
        m.is_exact(),
        m.of(fc) > 0real,
        windows.len() > 0,
        forall|i: int| 0 <= i < windows.len() ==> #[trigger] windows[i] > 0,
        0 <= first <= windows.len(),
        forall|i: int|
            0 <= i < first ==> eight_periods::<B>(m, fc) > (#[trigger] windows[i]) as real,
        first < windows.len() ==> eight_periods::<B>(m, fc) <= windows[first] as real,
    ensures
        0 < first < windows.len() ==> upper_window::<B>(windows, fc) == first,
        first == 0 && windows.len() > 1 ==> upper_window::<B>(windows, fc) == 1,
        first == windows.len() ==> upper_window::<B>(windows, fc) == windows.len() - 1,
        windows.len() > 1 ==> lower_window::<B>(windows, fc) == upper_window::<B>(windows, fc) - 1,
        windows.len() == 1 ==> upper_window::<B>(windows, fc) == 0 && lower_window::<B>(
            windows,
            fc,
        ) == 0,
{
    let logs = log_windows_of::<B>(windows);
    let ideal = log_ideal_of::<B>(fc);
    lemma_logs::<B>(m, windows, fc);
    lemma_first_reaching::<B>(logs, ideal, 0);
    let r = first_reaching::<B>(logs, ideal, 0);
    if r < first {
        assert(eight_periods::<B>(m, fc) > windows[r] as real);
        assert(!B::at_most_of(ideal, logs[r]));
    } else if first < r {
        assert(B::at_most_of(ideal, logs[first]));
    }
}

/// The share of the longer window says where eight periods stand between the two lengths, on a
/// logarithmic scale: the shorter length doubled `share` times over is eight periods, as far as
/// those lie between the two.
pub proof fn law_share_places_eight_periods<B: Backend>(
    m: Meaning<B>,
    windows: Seq<usize>,
    fc: B::Num,
    lo: int,
    hi: int,
)
    requires
        m.is_exact(),
        m.of(fc) > 0real,
        windows.len() > 0,
        forall|i: int| 0 <= i < windows.len() ==> #[trigger] windows[i] > 0,
        lo == lower_window::<B>(windows, fc),
        hi == upper_window::<B>(windows, fc),
    ensures
        ({
            let share = m.of(window_alpha_of::<B>(windows, fc));
            let ideal = eight_periods::<B>(m, fc);
            let (short, long) = (windows[lo] as real, windows[hi] as real);
            let room = max_real((m.log2)(long) - (m.log2)(short), 1real / 1000000real);
            &&& 0real <= share <= 1real
            &&& share == clamp_real(((m.log2)(ideal) - (m.log2)(short)) / room, 0real, 1real)
            &&& ideal <= short ==> share == 0real
            &&& long == 2real * short && long <= ideal ==> share == 1real
            &&& long == 2real * short && short <= ideal <= long ==> short * (m.exp2)(share)
                == ideal
        }),
{
    let logs = log_windows_of::<B>(windows);
    let ideal_num = log_ideal_of::<B>(fc);
    lemma_logs::<B>(m, windows, fc);
    lemma_first_reaching::<B>(logs, ideal_num, 0);
    let ideal = eight_periods::<B>(m, fc);
    assert(0 <= lo < windows.len());
    assert(0 <= hi < windows.len());
    assert(windows[lo] > 0 && windows[hi] > 0);
    let (short, long) = (windows[lo] as real, windows[hi] as real);
    let (a, b, l) = ((m.log2)(short), (m.log2)(long), (m.log2)(ideal));
    assert(m.of(logs[lo]) == a);
    assert(m.of(logs[hi]) == b);
    let room = max_real(b - a, 1real / 1000000real);
    assert(m.of(B::ratio_of(1, 1_000_000)) == 1real / 1000000real);
    assert(m.of(B::whole_of(0)) == 0real && m.of(B::whole_of(1)) == 1real);
    let share = m.of(window_alpha_of::<B>(windows, fc));
    assert(share == clamp_real((l - a) / room, 0real, 1real));
    lemma_log2_ascends::<B>(m, ideal, short);
    lemma_log2_ascends::<B>(m, short, ideal);
    lemma_log2_ascends::<B>(m, long, ideal);
    lemma_log2_ascends::<B>(m, ideal, long);
    if ideal <= short {
        assert((l - a) / room <= 0real) by (nonlinear_arith)
            requires
                l <= a,
                room > 0real,
        ;
    }
    if long == 2real * short {
        assert(b == a + 1real);
        assert(room == 1real);
        assert((l - a) / 1real == l - a);
        if short <= ideal && ideal <= long {
            assert(share == l - a);
            assert(a + (l - a) == l);
            assert((m.exp2)(a + (l - a)) == (m.exp2)(a) * (m.exp2)(l - a));
        }
    }
}

} // verus!
