//! The pitch candidates, the mel scale, the mel axis and the bins that it falls between.
use vstd::prelude::*;

use crate::backend::Backend;
use crate::exact::{clamp_real, is_floor, Meaning};
use crate::kernel::candidates_of;
use crate::mel::{
    f_min_of, hz_to_mel_of, mel_alpha_of, mel_axis_of, mel_fmax_of, mel_lo_of, mel_to_hz_of,
};

verus! {

/// The lowest candidate is 27.5 Hz, and the axis ends at five quarters of 8055 Hz.
pub proof fn law_range_has_fixed_ends<B: Backend>(m: Meaning<B>)
    requires
        m.is_exact(),
    ensures
        m.of(f_min_of::<B>()) == 55real / 2real,
        m.of(mel_fmax_of::<B>()) == 40275real / 4real,
{
    assert(5real / 4real * 8055real == 40275real / 4real) by (nonlinear_arith);
}

/// Every candidate stands at its own place on a scale of 36 steps per octave above 27.5 Hz.
pub proof fn law_candidate_follows_its_index<B: Backend>(c: int)
    requires
        0 <= c < 295,
    ensures
        candidates_of::<B>().len() == 295,
        candidates_of::<B>()[c] == B::times_of(
            B::ratio_of(55, 2),
            B::pow_of(B::whole_of(2), B::over_of(B::whole_of(c as u64), B::whole_of(36))),
        ),
{
}

/// The frequency of a candidate in real numbers.
pub proof fn lemma_candidate<B: Backend>(m: Meaning<B>, c: int)
    requires
        m.is_exact(),
        0 <= c < 295,
    ensures
        m.of(candidates_of::<B>()[c]) == 55real / 2real * (m.exp2)(c as real / 36real),
{
}

/// Equal steps between candidates are equal ratios of their frequencies.
pub proof fn law_candidates_are_evenly_spaced<B: Backend>(m: Meaning<B>, a: int, b: int, d: int)
    requires
        m.is_exact(),
        0 <= a,
        0 <= b,
        0 <= d,
        a + d < 295,
        b + d < 295,
    ensures
        m.of(candidates_of::<B>()[a + d]) * m.of(candidates_of::<B>()[b]) == m.of(
            candidates_of::<B>()[b + d],
        ) * m.of(candidates_of::<B>()[a]),
{
    lemma_candidate::<B>(m, a);
    lemma_candidate::<B>(m, b);
    lemma_candidate::<B>(m, a + d);
    lemma_candidate::<B>(m, b + d);
    let (ea, eb) = ((m.exp2)(a as real / 36real), (m.exp2)(b as real / 36real));
    let ed = (m.exp2)(d as real / 36real);
    assert((a + d) as real / 36real == a as real / 36real + d as real / 36real);
    assert((b + d) as real / 36real == b as real / 36real + d as real / 36real);
    let q = 55real / 2real;
    assert((q * (ea * ed)) * (q * eb) == (q * (eb * ed)) * (q * ea)) by (nonlinear_arith);
}

/// A candidate 36 steps above another has twice its frequency.
pub proof fn law_candidates_double_every_octave<B: Backend>(m: Meaning<B>, c: int)
    requires
        m.is_exact(),
        0 <= c,
        c + 36 < 295,
    ensures
        m.of(candidates_of::<B>()[c + 36]) == 2real * m.of(candidates_of::<B>()[c]),
{
    lemma_candidate::<B>(m, c);
    lemma_candidate::<B>(m, c + 36);
    let e = (m.exp2)(c as real / 36real);
    assert((c + 36) as real / 36real == c as real / 36real + 1real);
    assert(55real / 2real * (e * 2real) == 2real * (55real / 2real * e)) by (nonlinear_arith);
}

/// The candidates ascend.
pub proof fn law_candidates_ascend<B: Backend>(m: Meaning<B>, a: int, b: int)
    requires
        m.is_exact(),
        0 <= a < b < 295,
    ensures
        0real < m.of(candidates_of::<B>()[a]) < m.of(candidates_of::<B>()[b]),
{
    lemma_candidate::<B>(m, a);
    lemma_candidate::<B>(m, b);
    assert(a as real / 36real < b as real / 36real);
}

/// The candidates begin at 27.5 Hz and end between 7.9 kHz and 8055 Hz.
pub proof fn law_candidates_span_the_range<B: Backend>(m: Meaning<B>)
    requires
        m.is_exact(),
    ensures
        m.of(candidates_of::<B>()[0]) == 55real / 2real,
        7900real < m.of(candidates_of::<B>()[294]) < 8055real,
{
    lemma_candidate::<B>(m, 0);
    lemma_candidate::<B>(m, 6);
    law_candidates_double_every_octave::<B>(m, 6);
    law_candidates_double_every_octave::<B>(m, 42);
    law_candidates_double_every_octave::<B>(m, 78);
    law_candidates_double_every_octave::<B>(m, 114);
    law_candidates_double_every_octave::<B>(m, 150);
    law_candidates_double_every_octave::<B>(m, 186);
    law_candidates_double_every_octave::<B>(m, 222);
    law_candidates_double_every_octave::<B>(m, 258);
    let s = 6int as real / 36real;
    let x = (m.exp2)(s);
    let y = (m.exp2)(s + s);
    let z = (m.exp2)((s + s) + s);
    assert((m.exp2)(((s + s) + s) + ((s + s) + s)) == z * z);
    assert(((s + s) + s) + ((s + s) + s) == 1real);
    assert(x > 11222real / 10000real) by (nonlinear_arith)
        requires
            x > 0real,
            y == x * x,
            z == y * x,
            z * z == 2real,
    ;
    assert(x < 1144real / 1000real) by (nonlinear_arith)
        requires
            x > 0real,
            y == x * x,
            z == y * x,
            z * z == 2real,
    ;
}

/// Below 1 kHz a mel is two hundred thirds of a Hz.
pub proof fn law_mel_scale_is_linear_below<B: Backend>(m: Meaning<B>, hz: B::Num)
    requires
        m.is_exact(),
        m.of(hz) < 1000real,
    ensures
        m.of(hz_to_mel_of::<B>(hz)) == m.of(hz) * 3real / 200real,
        m.of(hz_to_mel_of::<B>(hz)) < 15real,
{
    lemma_scale_constants::<B>(m);
    let x = m.of(hz);
    assert(x / (200real / 3real) == x * 3real / 200real) by (nonlinear_arith);
}

/// From 1 kHz, which is 15 mel, every 27 mel multiply the frequency by 6.4, and equal ratios of
/// frequencies are equal distances in mel.
pub proof fn law_mel_scale_is_logarithmic_above<B: Backend>(
    m: Meaning<B>,
    hz: B::Num,
    k: B::Num,
    times: B::Num,
)
    requires
        m.is_exact(),
        m.of(hz) >= 1000real,
        m.of(k) >= 1000real,
        m.of(times) >= 1real,
    ensures
        m.of(hz) == 1000real ==> m.of(hz_to_mel_of::<B>(hz)) == 15real,
        m.of(k) == m.of(hz) * 32real / 5real ==> m.of(hz_to_mel_of::<B>(k)) == m.of(
            hz_to_mel_of::<B>(hz),
        ) + 27real,
        m.of(hz_to_mel_of::<B>(B::times_of(hz, times))) - m.of(hz_to_mel_of::<B>(hz)) == m.of(
            hz_to_mel_of::<B>(B::times_of(k, times)),
        ) - m.of(hz_to_mel_of::<B>(k)),
{
    lemma_scale_constants::<B>(m);
    lemma_mel_above::<B>(m, hz);
    lemma_mel_above::<B>(m, k);
    let (x, y, t) = (m.of(hz), m.of(k), m.of(times));
    let l = (m.ln)(32real / 5real);
    assert(x * t >= 1000real) by (nonlinear_arith)
        requires
            x >= 1000real,
            t >= 1real,
    ;
    assert(y * t >= 1000real) by (nonlinear_arith)
        requires
            y >= 1000real,
            t >= 1real,
    ;
    lemma_mel_above::<B>(m, B::times_of(hz, times));
    lemma_mel_above::<B>(m, B::times_of(k, times));
    let (u, v, w) = ((m.ln)(x / 1000real), (m.ln)(y / 1000real), (m.ln)(t));
    assert(x * t / 1000real == (x / 1000real) * t) by (nonlinear_arith);
    assert(y * t / 1000real == (y / 1000real) * t) by (nonlinear_arith);
    assert((m.ln)((x / 1000real) * t) == u + w);
    assert((m.ln)((y / 1000real) * t) == v + w);
    lemma_step(u, w, l);
    lemma_step(v, w, l);
    if y == x * 32real / 5real {
        assert(y / 1000real == (x / 1000real) * (32real / 5real));
        lemma_step(u, l, l);
        assert(27real * l / l == 27real) by (nonlinear_arith)
            requires
                l > 0real,
        ;
    }
    if x == 1000real {
        assert(27real * 0real / l == 0real) by (nonlinear_arith)
            requires
                l > 0real,
        ;
    }
}

proof fn lemma_step(u: real, w: real, l: real)
    requires
        l > 0real,
    ensures
        27real * (u + w) / l == 27real * u / l + 27real * w / l,
{
    assert(27real * (u + w) / l == 27real * u / l + 27real * w / l) by (nonlinear_arith)
        requires
            l > 0real,
    ;
}

proof fn lemma_scale_constants<B: Backend>(m: Meaning<B>)
    requires
        m.is_exact(),
    ensures
        m.of(B::over_of(B::whole_of(200), B::whole_of(3))) == 200real / 3real,
        m.of(
            B::over_of(B::whole_of(1000), B::over_of(B::whole_of(200), B::whole_of(3))),
        ) == 15real,
        (m.ln)(32real / 5real) > 0real,
        m.of(B::over_of(B::ln_of(B::ratio_of(32, 5)), B::whole_of(27))) == (m.ln)(32real / 5real)
            / 27real,
{
    assert((m.ln)(1real) < (m.ln)(32real / 5real));
}

proof fn lemma_mel_above<B: Backend>(m: Meaning<B>, hz: B::Num)
    requires
        m.is_exact(),
        m.of(hz) >= 1000real,
    ensures
        m.of(hz_to_mel_of::<B>(hz)) == 15real + 27real * (m.ln)(m.of(hz) / 1000real) / (m.ln)(
            32real / 5real,
        ),
{
    lemma_scale_constants::<B>(m);
    let l = (m.ln)(32real / 5real);
    let u = (m.ln)(m.of(hz) / 1000real);
    assert(u / (l / 27real) == 27real * u / l) by (nonlinear_arith)
        requires
            l > 0real,
    ;
}

/// The two directions of the mel scale undo each other.
pub proof fn law_mel_scale_round_trips<B: Backend>(m: Meaning<B>, x: B::Num)
    requires
        m.is_exact(),
    ensures
        m.of(mel_to_hz_of::<B>(hz_to_mel_of::<B>(x))) == m.of(x),
        m.of(hz_to_mel_of::<B>(mel_to_hz_of::<B>(x))) == m.of(x),
{
    lemma_scale_constants::<B>(m);
    let v = m.of(x);
    let l = (m.ln)(32real / 5real);
    assert(l > 0real);
    // From Hz to mel and back.
    if v < 1000real {
        law_mel_scale_is_linear_below::<B>(m, x);
    } else {
        lemma_mel_above::<B>(m, x);
        let u = (m.ln)(v / 1000real);
        assert(u >= 0real) by {
            if v > 1000real {
                assert((m.ln)(1real) < (m.ln)(v / 1000real));
            } else {
                assert(v / 1000real == 1real);
            }
        }
        assert(27real * u / l >= 0real) by (nonlinear_arith)
            requires
                u >= 0real,
                l > 0real,
        ;
        assert(27real * u / l * (l / 27real) == u) by (nonlinear_arith)
            requires
                l > 0real,
        ;
        assert((m.exp)(u) == v / 1000real);
    }
    // From mel to Hz and back.
    let hz = mel_to_hz_of::<B>(x);
    if v < 15real {
        assert(m.of(hz) == 200real / 3real * v);
        law_mel_scale_is_linear_below::<B>(m, hz);
    } else {
        let e = (v - 15real) * (l / 27real);
        assert(e >= 0real) by (nonlinear_arith)
            requires
                e == (v - 15real) * (l / 27real),
                v >= 15real,
                l > 0real,
        ;
        assert(m.of(hz) == 1000real * (m.exp)(e));
        assert((m.exp)(e) >= 1real) by {
            if (m.exp)(e) < 1real {
                assert((m.ln)((m.exp)(e)) < (m.ln)(1real));
            }
        }
        lemma_mel_above::<B>(m, hz);
        assert(m.of(hz) / 1000real == (m.exp)(e));
        assert(27real * e / l == v - 15real) by (nonlinear_arith)
            requires
                e == (v - 15real) * (l / 27real),
                l > 0real,
        ;
    }
}

/// The mel scale ascends with the frequency.
pub proof fn law_mel_scale_ascends<B: Backend>(m: Meaning<B>, x: B::Num, y: B::Num)
    requires
        m.is_exact(),
        m.of(x) < m.of(y),
    ensures
        m.of(hz_to_mel_of::<B>(x)) < m.of(hz_to_mel_of::<B>(y)),
        m.of(mel_to_hz_of::<B>(x)) < m.of(mel_to_hz_of::<B>(y)),
{
    lemma_hz_to_mel_ascends::<B>(m, x, y);
    // Were the way back not ascending, its inverse would not ascend either.
    let (a, b) = (mel_to_hz_of::<B>(x), mel_to_hz_of::<B>(y));
    law_mel_scale_round_trips::<B>(m, x);
    law_mel_scale_round_trips::<B>(m, y);
    if m.of(b) < m.of(a) {
        lemma_hz_to_mel_ascends::<B>(m, b, a);
    } else if m.of(b) == m.of(a) {
        lemma_mel_goes_by_value::<B>(m, a, b);
    }
}

proof fn lemma_mel_goes_by_value<B: Backend>(m: Meaning<B>, x: B::Num, y: B::Num)
    requires
        m.is_exact(),
        m.of(x) == m.of(y),
    ensures
        m.of(hz_to_mel_of::<B>(x)) == m.of(hz_to_mel_of::<B>(y)),
{
    if m.of(x) < 1000real {
        law_mel_scale_is_linear_below::<B>(m, x);
        law_mel_scale_is_linear_below::<B>(m, y);
    } else {
        lemma_mel_above::<B>(m, x);
        lemma_mel_above::<B>(m, y);
    }
}

proof fn lemma_hz_to_mel_ascends<B: Backend>(m: Meaning<B>, x: B::Num, y: B::Num)
    requires
        m.is_exact(),
        m.of(x) < m.of(y),
    ensures
        m.of(hz_to_mel_of::<B>(x)) < m.of(hz_to_mel_of::<B>(y)),
{
    lemma_scale_constants::<B>(m);
    let l = (m.ln)(32real / 5real);
    if m.of(x) < 1000real {
        law_mel_scale_is_linear_below::<B>(m, x);
    } else {
        lemma_mel_above::<B>(m, x);
    }
    if m.of(y) < 1000real {
        law_mel_scale_is_linear_below::<B>(m, y);
    } else {
        lemma_mel_above::<B>(m, y);
        let v = (m.ln)(m.of(y) / 1000real);
        if m.of(x) < 1000real {
            assert(v >= 0real) by {
                if m.of(y) > 1000real {
                    assert((m.ln)(1real) < (m.ln)(m.of(y) / 1000real));
                }
            }
            assert(27real * v / l >= 0real) by (nonlinear_arith)
                requires
                    v >= 0real,
                    l > 0real,
            ;
        } else {
            let u = (m.ln)(m.of(x) / 1000real);
            assert(m.of(x) / 1000real < m.of(y) / 1000real);
            assert(27real * u / l < 27real * v / l) by (nonlinear_arith)
                requires
                    u < v,
                    l > 0real,
            ;
        }
    }
}

/// The mel axis runs from a quarter of 27.5 Hz to five quarters of 8055 Hz, ascending.
pub proof fn law_axis_spans_the_range<B: Backend>(m: Meaning<B>, i: int, j: int)
    requires
        m.is_exact(),
        0 <= i < j < 1024,
    ensures
        mel_axis_of::<B>().len() == 1024,
        m.of(mel_axis_of::<B>()[0]) == 55real / 8real,
        m.of(mel_axis_of::<B>()[1023]) == 40275real / 4real,
        m.of(mel_axis_of::<B>()[i]) < m.of(mel_axis_of::<B>()[j]),
{
    let bottom = B::times_of(B::ratio_of(1, 4), B::ratio_of(55, 2));
    let top = B::times_of(B::ratio_of(5, 4), B::whole_of(8055));
    let (lo, hi) = (m.of(hz_to_mel_of::<B>(bottom)), m.of(hz_to_mel_of::<B>(top)));
    assert(1real / 4real * (55real / 2real) == 55real / 8real) by (nonlinear_arith);
    assert(5real / 4real * 8055real == 40275real / 4real) by (nonlinear_arith);
    assert(m.of(bottom) == 1real / 4real * (55real / 2real));
    assert(m.of(top) == 5real / 4real * 8055real);
    law_mel_scale_ascends::<B>(m, bottom, top);
    assert(mel_axis_of::<B>()[0] == mel_to_hz_of::<B>(axis_mel::<B>(0)));
    assert(mel_axis_of::<B>()[1023] == mel_to_hz_of::<B>(axis_mel::<B>(1023)));
    lemma_axis_mel::<B>(m, 0);
    lemma_axis_mel::<B>(m, 1023);
    lemma_axis_mel::<B>(m, i);
    lemma_axis_mel::<B>(m, j);
    law_mel_scale_round_trips::<B>(m, bottom);
    law_mel_scale_round_trips::<B>(m, top);
    let d = hi - lo;
    assert(0real * d / 1023real == 0real) by (nonlinear_arith);
    lemma_hz_goes_by_value::<B>(m, hz_to_mel_of::<B>(bottom), axis_mel::<B>(0));
    lemma_hz_goes_by_value::<B>(m, hz_to_mel_of::<B>(top), axis_mel::<B>(1023));
    assert(i as real * d / 1023real < j as real * d / 1023real) by (nonlinear_arith)
        requires
            i < j,
            d > 0real,
    ;
    law_mel_scale_ascends::<B>(m, axis_mel::<B>(i), axis_mel::<B>(j));
}

/// The place in mel of frequency `j` of the axis.
spec fn axis_mel<B: Backend>(j: int) -> B::Num {
    let lo = hz_to_mel_of::<B>(B::times_of(B::ratio_of(1, 4), B::ratio_of(55, 2)));
    let hi = hz_to_mel_of::<B>(B::times_of(B::ratio_of(5, 4), B::whole_of(8055)));
    let step = B::over_of(B::minus_of(hi, lo), B::minus_of(B::whole_of(1024), B::whole_of(1)));
    B::plus_of(lo, B::times_of(B::whole_of(j as u64), step))
}

proof fn lemma_axis_mel<B: Backend>(m: Meaning<B>, j: int)
    requires
        m.is_exact(),
        0 <= j < 1024,
    ensures
        mel_axis_of::<B>()[j] == mel_to_hz_of::<B>(axis_mel::<B>(j)),
        ({
            let bottom = B::times_of(B::ratio_of(1, 4), B::ratio_of(55, 2));
            let top = B::times_of(B::ratio_of(5, 4), B::whole_of(8055));
            let (lo, hi) = (m.of(hz_to_mel_of::<B>(bottom)), m.of(hz_to_mel_of::<B>(top)));
            m.of(axis_mel::<B>(j)) == lo + j as real * (hi - lo) / 1023real
        }),
{
    let bottom = B::times_of(B::ratio_of(1, 4), B::ratio_of(55, 2));
    let top = B::times_of(B::ratio_of(5, 4), B::whole_of(8055));
    let (lo, hi) = (m.of(hz_to_mel_of::<B>(bottom)), m.of(hz_to_mel_of::<B>(top)));
    let d = hi - lo;
    assert(j as real * (d / 1023real) == j as real * d / 1023real) by (nonlinear_arith);
}

proof fn lemma_hz_goes_by_value<B: Backend>(m: Meaning<B>, x: B::Num, y: B::Num)
    requires
        m.is_exact(),
        m.of(x) == m.of(y),
    ensures
        m.of(mel_to_hz_of::<B>(x)) == m.of(mel_to_hz_of::<B>(y)),
{
    lemma_scale_constants::<B>(m);
}

/// Equal steps along the axis are equal distances in mel.
pub proof fn law_axis_is_even_in_mel<B: Backend>(m: Meaning<B>, a: int, b: int, d: int)
    requires
        m.is_exact(),
        0 <= a,
        0 <= b,
        0 <= d,
        a + d < 1024,
        b + d < 1024,
    ensures
        m.of(hz_to_mel_of::<B>(mel_axis_of::<B>()[a + d])) - m.of(
            hz_to_mel_of::<B>(mel_axis_of::<B>()[a]),
        ) == m.of(hz_to_mel_of::<B>(mel_axis_of::<B>()[b + d])) - m.of(
            hz_to_mel_of::<B>(mel_axis_of::<B>()[b]),
        ),
{
    lemma_axis_mel::<B>(m, a);
    lemma_axis_mel::<B>(m, b);
    lemma_axis_mel::<B>(m, a + d);
    lemma_axis_mel::<B>(m, b + d);
    law_mel_scale_round_trips::<B>(m, axis_mel::<B>(a));
    law_mel_scale_round_trips::<B>(m, axis_mel::<B>(b));
    law_mel_scale_round_trips::<B>(m, axis_mel::<B>(a + d));
    law_mel_scale_round_trips::<B>(m, axis_mel::<B>(b + d));
    let bottom = B::times_of(B::ratio_of(1, 4), B::ratio_of(55, 2));
    let top = B::times_of(B::ratio_of(5, 4), B::whole_of(8055));
    let w = m.of(hz_to_mel_of::<B>(top)) - m.of(hz_to_mel_of::<B>(bottom));
    let (x, y, z) = (a as real, b as real, d as real);
    assert((x + z) * w / 1023real - x * w / 1023real == (y + z) * w / 1023real - y * w / 1023real)
        by (nonlinear_arith);
}

/// Whatever the length of the transform, the lower of a frequency's two bins is the one at the
/// whole part of its position, as long as that bin and the next both exist. A position below
/// them all is given the first two bins, one above them all the last two.
pub proof fn law_lower_bin_is_the_whole_part<B: Backend>(mf: B::Num, fft_size: usize)
    requires
        fft_size >= 2,
    ensures
        ({
            let bin_hz = B::over_of(B::whole_of(48000), B::whole_of(fft_size as u64));
            let at = B::floor_index_of(B::over_of(mf, bin_hz)) as int;
            let last = fft_size as int / 2 - 1;
            &&& 0 <= at <= last ==> mel_lo_of::<B>(mf, fft_size) == at
            &&& at < 0 ==> mel_lo_of::<B>(mf, fft_size) == 0
            &&& at > last ==> mel_lo_of::<B>(mf, fft_size) == last
        }),
{
}

/// A frequency that the transform covers lies between its two bins, as far from the lower one as
/// its share of the upper one says.
pub proof fn law_frequency_lies_between_its_bins<B: Backend>(
    m: Meaning<B>,
    mf: B::Num,
    fft_size: usize,
)
    requires
        m.is_exact(),
        fft_size >= 2,
    ensures
        ({
            let position = m.of(mf) * fft_size as real / 48000real;
            let lo = mel_lo_of::<B>(mf, fft_size) as real;
            let alpha = m.of(mel_alpha_of::<B>(mf, fft_size));
            let top = (fft_size as int / 2) as real;
            &&& 0real <= alpha <= 1real
            &&& 0real <= position <= top ==> lo <= position <= lo + 1real
            &&& 0real <= position <= top ==> lo + alpha == position
            &&& position < 0real ==> lo == 0real && alpha == 0real
            &&& position > top ==> lo + 1real == top && alpha == 1real
        }),
{
    let bin_hz = B::over_of(B::whole_of(48000), B::whole_of(fft_size as u64));
    let n = fft_size as real;
    assert(m.of(B::whole_of(fft_size as u64)) == n);
    assert(m.of(bin_hz) == 48000real / n);
    assert(48000real / n > 0real) by (nonlinear_arith)
        requires
            n >= 2real,
    ;
    let x = m.of(mf);
    assert(x / (48000real / n) == x * n / 48000real) by (nonlinear_arith)
        requires
            n >= 2real,
    ;
    let at = B::over_of(mf, bin_hz);
    assert(m.of(at) == x * n / 48000real);
    assert(is_floor(B::floor_index_of(at), m.of(at)));
    law_lower_bin_is_the_whole_part::<B>(mf, fft_size);
    let lo = mel_lo_of::<B>(mf, fft_size);
    let alpha = m.of(mel_alpha_of::<B>(mf, fft_size));
    assert(m.of(B::whole_of(0)) == 0real);
    assert(m.of(B::whole_of(1)) == 1real);
    assert(m.of(B::whole_of(lo as u64)) == lo as real);
    assert(alpha == clamp_real(m.of(at) - lo as real, 0real, 1real));
    lemma_between_bins(m.of(at), B::floor_index_of(at), lo, fft_size);
}

proof fn lemma_between_bins(position: real, at: isize, lo: usize, fft_size: usize)
    requires
        fft_size >= 2,
        is_floor(at, position),
        0 <= at <= fft_size as int / 2 - 1 ==> lo == at,
        at < 0 ==> lo == 0,
        at > fft_size as int / 2 - 1 ==> lo == fft_size as int / 2 - 1,
    ensures
        ({
            let alpha = clamp_real(position - lo as real, 0real, 1real);
            let top = (fft_size as int / 2) as real;
            &&& 0real <= alpha <= 1real
            &&& 0real <= position <= top ==> lo as real <= position <= lo as real + 1real
            &&& 0real <= position <= top ==> lo as real + alpha == position
            &&& position < 0real ==> lo == 0 && alpha == 0real
            &&& position > top ==> lo as real + 1real == top && alpha == 1real
        }),
{
}

} // verus!
