//! The kernels: which harmonics they hold, what each adds, and how they are centred and scaled.
use vstd::arithmetic::div_mod::{lemma_fundamental_div_mod, lemma_mod_multiples_basic};
use vstd::arithmetic::mul::lemma_mul_is_commutative;
use vstd::prelude::*;

use crate::backend::Backend;
use crate::exact::{
    lemma_total_nonnegative, lemma_total_scaled, lemma_total_shifted, total, Meaning,
};
use crate::fold::{dot_upto, sum_upto};
use crate::kernel::{
    centred_of, first_beyond, harmonics_below, kernel_row_of, kernels_of, last_kept, rows,
    unit_of, with_lobe,
};
use crate::primes::is_kept;

verus! {

/// A left-to-right sum stands for the sum of what its terms stand for.
pub proof fn law_sum_adds_every_entry<B: Backend>(m: Meaning<B>, s: Seq<B::Num>, n: int)
    requires
        m.is_exact(),
    ensures
        m.of(sum_upto::<B>(s, n)) == total(|i: int| m.of(s[i]), n),
    decreases n,
{
    if n > 0 {
        law_sum_adds_every_entry::<B>(m, s, n - 1);
    }
}

/// An inner product stands for the sum of the products of what its entries stand for.
pub proof fn law_inner_product_adds_every_product<B: Backend>(
    m: Meaning<B>,
    x: Seq<B::Num>,
    y: Seq<B::Num>,
    n: int,
)
    requires
        m.is_exact(),
    ensures
        m.of(dot_upto::<B>(x, y, n)) == total(|i: int| m.of(x[i]) * m.of(y[i]), n),
    decreases n,
{
    if n > 0 {
        law_inner_product_adds_every_product::<B>(m, x, y, n - 1);
    }
}

/// A harmonic above the fundamental is left out exactly if its number is a product of two
/// smaller ones.
pub proof fn law_kept_harmonics_have_no_factors(h: int)
    requires
        h >= 2,
    ensures
        is_kept(1),
        !is_kept(h) <==> exists|a: int, b: int| 2 <= a && 2 <= b && #[trigger] (a * b) == h,
{
    if !is_kept(h) {
        let d = choose|d: int| 1 < d < h && #[trigger] (h % d) == 0;
        lemma_fundamental_div_mod(h, d);
        let q = h / d;
        assert(q >= 2) by (nonlinear_arith)
            requires
                h == d * q,
                1 < d < h,
        ;
        assert(d * q == h);
    }
    if exists|a: int, b: int| 2 <= a && 2 <= b && #[trigger] (a * b) == h {
        let (a, b) = choose|a: int, b: int| 2 <= a && 2 <= b && #[trigger] (a * b) == h;
        assert(1 < a < h) by (nonlinear_arith)
            requires
                a * b == h,
                2 <= a,
                2 <= b,
        ;
        assert(h % a == 0) by {
            lemma_mod_multiples_basic(b, a);
            lemma_mul_is_commutative(a, b);
        }
    }
}

/// The harmonics of a candidate run as far as five quarters of 8055 Hz: none of those that count
/// lies beyond it, and the first that does not count lies beyond it.
pub proof fn law_harmonics_run_to_the_top<B: Backend>(fc: B::Num)
    ensures
        ({
            let top = B::times_of(B::ratio_of(5, 4), B::whole_of(8055));
            let n = first_beyond::<B>(fc, 1);
            &&& 1 <= n <= usize::MAX
            &&& forall|h: u64|
                1 <= h < n ==> !B::less_of(top, B::times_of(#[trigger] B::whole_of(h), fc))
            &&& n == usize::MAX || B::less_of(top, B::times_of(B::whole_of(n as u64), fc))
        }),
{
    lemma_first_beyond::<B>(fc, 1);
}

proof fn lemma_first_beyond<B: Backend>(fc: B::Num, from: int)
    requires
        1 <= from <= usize::MAX,
    ensures
        ({
            let top = B::times_of(B::ratio_of(5, 4), B::whole_of(8055));
            let n = first_beyond::<B>(fc, from);
            &&& from <= n <= usize::MAX
            &&& forall|h: u64|
                from <= h < n ==> !B::less_of(top, B::times_of(#[trigger] B::whole_of(h), fc))
            &&& n == usize::MAX || B::less_of(top, B::times_of(B::whole_of(n as u64), fc))
        }),
    decreases usize::MAX - from,
{
    let top = B::times_of(B::ratio_of(5, 4), B::whole_of(8055));
    if from < usize::MAX && !B::less_of(top, B::times_of(B::whole_of(from as u64), fc)) {
        lemma_first_beyond::<B>(fc, from + 1);
        assert forall|h: u64| from <= h < first_beyond::<B>(fc, from) implies !B::less_of(
            top,
            B::times_of(#[trigger] B::whole_of(h), fc),
        ) by {
            if h > from {
                assert(from + 1 <= h);
            }
        }
    }
}

/// A harmonic counts exactly if it does not lie beyond five quarters of 8055 Hz.
pub proof fn law_harmonic_counts_up_to_the_top<B: Backend>(m: Meaning<B>, fc: B::Num, h: int)
    requires
        m.is_exact(),
        m.of(fc) > 0real,
        1 <= h < usize::MAX,
    ensures
        h < first_beyond::<B>(fc, 1) <==> h as real * m.of(fc) <= 40275real / 4real,
{
    law_harmonics_run_to_the_top::<B>(fc);
    let n = first_beyond::<B>(fc, 1);
    let top = B::times_of(B::ratio_of(5, 4), B::whole_of(8055));
    assert(5real / 4real * 8055real == 40275real / 4real) by (nonlinear_arith);
    assert(m.of(top) == 5real / 4real * 8055real);
    let f = m.of(fc);
    assert(m.of(B::times_of(B::whole_of(h as u64), fc)) == h as real * f);
    if h < n {
        assert(!B::less_of(top, B::times_of(B::whole_of(h as u64), fc)));
    } else {
        let (x, y) = (n as real, h as real);
        assert(m.of(B::times_of(B::whole_of(n as u64), fc)) == x * f);
        assert(x * f <= y * f) by (nonlinear_arith)
            requires
                x <= y,
                f > 0real,
        ;
    }
}

/// The kernel of a candidate is made of all its harmonics up to the top of the axis: it is the
/// centred and scaled comb of every kept harmonic below the first one beyond the top.
pub proof fn law_kernel_holds_every_harmonic<B: Backend>(
    candidates: Seq<B::Num>,
    mel_freqs: Seq<B::Num>,
    c: int,
    n: int,
)
    requires
        0 <= c < candidates.len(),
        1 <= n <= usize::MAX,
        forall|h: u64|
            1 <= h < n ==> !B::less_of(
                B::times_of(B::ratio_of(5, 4), B::whole_of(8055)),
                B::times_of(#[trigger] B::whole_of(h), candidates[c]),
            ),
        n == usize::MAX || B::less_of(
            B::times_of(B::ratio_of(5, 4), B::whole_of(8055)),
            B::times_of(B::whole_of(n as u64), candidates[c]),
        ),
    ensures
        first_beyond::<B>(candidates[c], 1) == n,
        kernel_row_of::<B>(candidates[c], mel_freqs) == unit_of::<B>(
            centred_of::<B>(harmonics_below::<B>(mel_freqs, candidates[c], n)),
        ),
        kernels_of::<B>(candidates, mel_freqs).len() == candidates.len(),
        kernels_of::<B>(candidates, mel_freqs)[c] == kernel_row_of::<B>(candidates[c], mel_freqs),
{
    law_harmonics_run_to_the_top::<B>(candidates[c]);
    let k = first_beyond::<B>(candidates[c], 1);
    assert(B::whole_of(k as u64) == B::whole_of(k as u64));
    assert(B::whole_of(n as u64) == B::whole_of(n as u64));
    if k < n {
        assert(1 <= k as u64 && (k as u64) < n);
    }
    if n < k {
        assert(1 <= n as u64 && (n as u64) < k);
    }
}

/// Whatever the backend, a lobe changes nothing farther from its centre than half its width, and
/// each entry goes by its own frequency alone.
pub proof fn law_lobe_is_local<B: Backend>(
    row: Seq<B::Num>,
    mel_freqs: Seq<B::Num>,
    centre: B::Num,
    fc: B::Num,
    amp: B::Num,
    i: int,
    j: int,
)
    requires
        row.len() == mel_freqs.len(),
        0 <= i < row.len(),
        0 <= j < row.len(),
    ensures
        !B::at_most_of(B::minus_of(centre, B::over_of(fc, B::whole_of(2))), mel_freqs[j])
            ==> with_lobe::<B>(row, mel_freqs, centre, fc, amp)[j] == row[j],
        !B::at_most_of(mel_freqs[j], B::plus_of(centre, B::over_of(fc, B::whole_of(2))))
            ==> with_lobe::<B>(row, mel_freqs, centre, fc, amp)[j] == row[j],
        mel_freqs[i] == mel_freqs[j] && row[i] == row[j] ==> with_lobe::<B>(
            row,
            mel_freqs,
            centre,
            fc,
            amp,
        )[i] == with_lobe::<B>(row, mel_freqs, centre, fc, amp)[j],
{
}

/// A raised cosine of height 1 and width `width` about `centre`.
pub open spec fn bump<B: Backend>(m: Meaning<B>, x: real, centre: real, width: real) -> real {
    if centre - width / 2real <= x <= centre + width / 2real {
        (1real + (m.cos)(2real * m.pi * (x - centre) / width)) / 2real
    } else {
        0real
    }
}

/// Adding a lobe adds a raised cosine to every entry.
pub proof fn law_lobe_is_a_raised_cosine<B: Backend>(
    m: Meaning<B>,
    row: Seq<B::Num>,
    mel_freqs: Seq<B::Num>,
    centre: B::Num,
    fc: B::Num,
    amp: B::Num,
    j: int,
)
    requires
        m.is_exact(),
        m.of(fc) != 0real,
        row.len() == mel_freqs.len(),
        0 <= j < row.len(),
    ensures
        with_lobe::<B>(row, mel_freqs, centre, fc, amp).len() == row.len(),
        m.of(with_lobe::<B>(row, mel_freqs, centre, fc, amp)[j]) == m.of(row[j]) + m.of(amp)
            * bump::<B>(m, m.of(mel_freqs[j]), m.of(centre), m.of(fc)),
{
    let (x, c, w, a) = (m.of(mel_freqs[j]), m.of(centre), m.of(fc), m.of(amp));
    let s = (m.cos)(2real * m.pi * (x - c) / w);
    assert(1real / 2real * (1real + s) == (1real + s) / 2real) by (nonlinear_arith);
    assert(a * 0real == 0real) by (nonlinear_arith);
    assert(m.of(B::over_of(fc, B::whole_of(2))) == w / 2real);
    assert(m.of(B::ratio_of(1, 2)) == 1real / 2real);
}

/// A lobe adds its full height at its centre, nothing at its edges and beyond them, the same on
/// both sides of its centre, and never more than its height or less than nothing.
pub proof fn law_lobe_shape<B: Backend>(m: Meaning<B>, x: real, centre: real, width: real)
    requires
        m.is_exact(),
        width > 0real,
    ensures
        bump::<B>(m, centre, centre, width) == 1real,
        x <= centre - width / 2real ==> bump::<B>(m, x, centre, width) == 0real,
        centre + width / 2real <= x ==> bump::<B>(m, x, centre, width) == 0real,
        bump::<B>(m, centre + (centre - x), centre, width) == bump::<B>(m, x, centre, width),
        0real <= bump::<B>(m, x, centre, width) <= 1real,
{
    let (w, p) = (width, m.pi);
    assert(2real * p * (centre - centre) / w == 0real) by (nonlinear_arith)
        requires
            w > 0real,
    ;
    let hi = centre + w / 2real;
    let lo = centre - w / 2real;
    assert(hi - centre == w / 2real);
    assert(lo - centre == -(w / 2real));
    assert(2real * p * (w / 2real) / w == p) by (nonlinear_arith)
        requires
            w > 0real,
    ;
    assert(2real * p * (-(w / 2real)) / w == -p) by (nonlinear_arith)
        requires
            w > 0real,
    ;
    let d = x - centre;
    let y = centre + (centre - x);
    assert(y - centre == -d);
    assert(2real * p * (-d) / w == -(2real * p * d / w)) by (nonlinear_arith)
        requires
            w > 0real,
    ;
    assert((m.cos)(-(2real * p * d / w)) == (m.cos)(2real * p * d / w));
}

/// A harmonic that is left out adds nothing. The fundamental adds a lobe at its frequency. Every
/// other kept harmonic `h` adds a lobe of height one over the square root of `h`, and takes away
/// half of such a lobe half way down to the kept harmonic before it.
pub proof fn law_harmonic_adds_its_lobe_and_valley<B: Backend>(
    m: Meaning<B>,
    mel_freqs: Seq<B::Num>,
    fc: B::Num,
    h: int,
    before: int,
    j: int,
)
    requires
        m.is_exact(),
        m.of(fc) != 0real,
        1 <= h < usize::MAX,
        0 <= j < mel_freqs.len(),
        0 <= before < h,
        before == 0 || is_kept(before),
        forall|k: int| before < k < h ==> !#[trigger] is_kept(k),
    ensures
        harmonics_below::<B>(mel_freqs, fc, 1)[j] == B::whole_of(0),
        harmonics_below::<B>(mel_freqs, fc, h + 1).len() == mel_freqs.len(),
        ({
            let x = m.of(mel_freqs[j]);
            let f = m.of(fc);
            let old_value = m.of(harmonics_below::<B>(mel_freqs, fc, h)[j]);
            let new_value = m.of(harmonics_below::<B>(mel_freqs, fc, h + 1)[j]);
            let lobe = bump::<B>(m, x, h as real * f, f);
            let valley = bump::<B>(m, x, (before + h) as real * f / 2real, f);
            let root = m.of(B::sqrt_of(B::whole_of(h as u64)));
            &&& root > 0real && root * root == h as real
            &&& !is_kept(h) ==> harmonics_below::<B>(mel_freqs, fc, h + 1)
                == harmonics_below::<B>(mel_freqs, fc, h)
            &&& h == 1 ==> new_value == old_value + lobe
            &&& h > 1 && is_kept(h) ==> new_value == old_value + lobe / root - valley / 2real
                / root
        }),
{
    lemma_comb_len::<B>(mel_freqs, fc, h);
    lemma_comb_len::<B>(mel_freqs, fc, h + 1);
    lemma_last_kept(h, before);
    let x = m.of(mel_freqs[j]);
    let f = m.of(fc);
    let root_num = B::sqrt_of(B::whole_of(h as u64));
    let root = m.of(root_num);
    assert(m.of(B::whole_of(h as u64)) == h as real);
    assert(root > 0real) by (nonlinear_arith)
        requires
            root >= 0real,
            root * root == h as real,
            h as real > 0real,
    ;
    if is_kept(h) {
        let row = harmonics_below::<B>(mel_freqs, fc, h);
        let centre = B::times_of(B::whole_of(h as u64), fc);
        let weight = B::over_of(B::whole_of(1), root_num);
        assert(m.of(weight) == 1real / root);
        let peaked = with_lobe::<B>(row, mel_freqs, centre, fc, weight);
        law_lobe_is_a_raised_cosine::<B>(m, row, mel_freqs, centre, fc, weight, j);
        let lobe = bump::<B>(m, x, h as real * f, f);
        assert(1real / root * lobe == lobe / root) by (nonlinear_arith)
            requires
                root > 0real,
        ;
        if h == 1 {
            assert(last_kept(1) == 0);
            assert(harmonics_below::<B>(mel_freqs, fc, h + 1) == peaked);
            assert(root == 1real) by (nonlinear_arith)
                requires
                    root > 0real,
                    root * root == 1real,
            ;
            assert(lobe / root == lobe) by (nonlinear_arith)
                requires
                    root == 1real,
            ;
        } else {
            if before == 0 {
                assert(is_kept(1));
            }
            let mid = B::times_of(
                B::times_of(
                    B::plus_of(B::whole_of(before as u64), B::whole_of(h as u64)),
                    B::ratio_of(1, 2),
                ),
                fc,
            );
            let dip = B::times_of(B::negated_of(weight), B::ratio_of(1, 2));
            law_lobe_is_a_raised_cosine::<B>(m, peaked, mel_freqs, mid, fc, dip, j);
            assert(harmonics_below::<B>(mel_freqs, fc, h + 1) == with_lobe::<B>(
                peaked,
                mel_freqs,
                mid,
                fc,
                dip,
            ));
            let s = (before + h) as real;
            assert(m.of(B::plus_of(B::whole_of(before as u64), B::whole_of(h as u64))) == s);
            assert(s * (1real / 2real) * f == s * f / 2real) by (nonlinear_arith);
            let valley = bump::<B>(m, x, s * f / 2real, f);
            assert((-(1real / root)) * (1real / 2real) * valley == -(valley / 2real / root))
                by (nonlinear_arith)
                requires
                    root > 0real,
            ;
        }
    }
}

proof fn lemma_comb_len<B: Backend>(mel_freqs: Seq<B::Num>, fc: B::Num, n: int)
    ensures
        harmonics_below::<B>(mel_freqs, fc, n).len() == mel_freqs.len(),
    decreases n,
{
    if n > 1 {
        lemma_comb_len::<B>(mel_freqs, fc, n - 1);
    }
}

/// The last kept harmonic before `h` is the one with none between it and `h`.
pub proof fn lemma_last_kept(h: int, before: int)
    requires
        1 <= h,
        0 <= before < h,
        before == 0 || is_kept(before),
        forall|k: int| before < k < h ==> !#[trigger] is_kept(k),
    ensures
        last_kept(h) == before,
    decreases h,
{
    if h > 1 && before < h - 1 {
        assert(!is_kept(h - 1));
        lemma_last_kept(h - 1, before);
    }
}

/// Centring a row leaves a sum of zero and the distances between its entries.
pub proof fn law_centred_row_has_zero_mean<B: Backend>(
    m: Meaning<B>,
    row: Seq<B::Num>,
    i: int,
    j: int,
)
    requires
        m.is_exact(),
        0 <= i < row.len(),
        0 <= j < row.len(),
        row.len() <= usize::MAX,
    ensures
        centred_of::<B>(row).len() == row.len(),
        total(|k: int| m.of(centred_of::<B>(row)[k]), row.len() as int) == 0real,
        m.of(centred_of::<B>(row)[i]) - m.of(centred_of::<B>(row)[j]) == m.of(row[i]) - m.of(
            row[j],
        ),
{
    let n = row.len() as int;
    let f = |k: int| m.of(centred_of::<B>(row)[k]);
    let g = |k: int| m.of(row[k]);
    law_sum_adds_every_entry::<B>(m, row, n);
    let mean = total(g, n) / n as real;
    assert(m.of(B::whole_of(n as u64)) == n as real);
    assert forall|k: int| 0 <= k < n implies #[trigger] f(k) == g(k) + (-mean) by {
        assert(centred_of::<B>(row)[k] == B::minus_of(
            row[k],
            B::over_of(sum_upto::<B>(row, n), B::whole_of(n as u64)),
        ));
    }
    lemma_total_shifted(f, g, -mean, n);
    let (t, x) = (total(g, n), n as real);
    assert(t + x * (-(t / x)) == 0real) by (nonlinear_arith)
        requires
            x > 0real,
    ;
    assert(f(i) == g(i) + (-mean));
    assert(f(j) == g(j) + (-mean));
}

/// Scaling a row multiplies it by one positive number, so that the squares of its entries add up
/// to one. A row of negligible norm stays as it is.
pub proof fn law_scaled_row_has_unit_norm<B: Backend>(m: Meaning<B>, row: Seq<B::Num>, j: int)
    requires
        m.is_exact(),
        0 <= j < row.len(),
    ensures
        unit_of::<B>(row).len() == row.len(),
        ({
            let squares = total(|k: int| m.of(row[k]) * m.of(row[k]), row.len() as int);
            let norm = m.of(B::sqrt_of(dot_upto::<B>(row, row, row.len() as int)));
            let negligible = 1real / 1000000000000real;
            let scaled = unit_of::<B>(row);
            &&& norm >= 0real && norm * norm == squares
            &&& norm > negligible ==> m.of(scaled[j]) * norm == m.of(row[j])
            &&& norm > negligible ==> total(
                |k: int| m.of(scaled[k]) * m.of(scaled[k]),
                row.len() as int,
            ) == 1real
            &&& norm <= negligible ==> scaled == row
        }),
{
    let n = row.len() as int;
    let g = |k: int| m.of(row[k]) * m.of(row[k]);
    let scaled = unit_of::<B>(row);
    let f = |k: int| m.of(scaled[k]) * m.of(scaled[k]);
    let norm_num = B::sqrt_of(dot_upto::<B>(row, row, n));
    let norm = m.of(norm_num);
    law_inner_product_adds_every_product::<B>(m, row, row, n);
    assert forall|k: int| 0 <= k < n implies #[trigger] g(k) >= 0real by {
        let x = m.of(row[k]);
        assert(x * x >= 0real) by (nonlinear_arith);
    }
    lemma_total_nonnegative(g, n);
    assert(m.of(B::ratio_of(1, 1_000_000_000_000)) == 1real / 1000000000000real);
    if norm > 1real / 1000000000000real {
        let k2 = 1real / (norm * norm);
        assert forall|k: int| 0 <= k < n implies #[trigger] f(k) == k2 * g(k) by {
            assert(scaled[k] == B::over_of(row[k], norm_num));
            let x = m.of(row[k]);
            assert((x / norm) * (x / norm) == 1real / (norm * norm) * (x * x)) by (nonlinear_arith)
                requires
                    norm > 0real,
            ;
        }
        lemma_total_scaled(f, g, k2, n);
        assert(1real / (norm * norm) * (norm * norm) == 1real) by (nonlinear_arith)
            requires
                norm > 0real,
        ;
        let x = m.of(row[j]);
        assert(scaled[j] == B::over_of(row[j], norm_num));
        assert(x / norm * norm == x) by (nonlinear_arith)
            requires
                norm > 0real,
        ;
    }
}

/// A kernel has zero mean, and the squares of its entries add up to one, unless its comb is flat
/// along the whole axis.
pub proof fn law_kernel_is_balanced_and_normal<B: Backend>(
    m: Meaning<B>,
    fc: B::Num,
    mel_freqs: Seq<B::Num>,
)
    requires
        m.is_exact(),
        0 < mel_freqs.len() <= usize::MAX,
    ensures
        ({
            let row = kernel_row_of::<B>(fc, mel_freqs);
            let n = mel_freqs.len() as int;
            let squares = total(|k: int| m.of(row[k]) * m.of(row[k]), n);
            let negligible = 1real / 1000000000000real;
            &&& row.len() == n
            &&& total(|k: int| m.of(row[k]), n) == 0real
            &&& squares == 1real || squares <= negligible * negligible
        }),
{
    let n = mel_freqs.len() as int;
    let comb = harmonics_below::<B>(mel_freqs, fc, first_beyond::<B>(fc, 1));
    lemma_comb_len::<B>(mel_freqs, fc, first_beyond::<B>(fc, 1));
    let level = centred_of::<B>(comb);
    let row = kernel_row_of::<B>(fc, mel_freqs);
    assert(row == unit_of::<B>(level));
    law_centred_row_has_zero_mean::<B>(m, comb, 0, 0);
    law_scaled_row_has_unit_norm::<B>(m, level, 0);
    let norm = m.of(B::sqrt_of(dot_upto::<B>(level, level, n)));
    let negligible = 1real / 1000000000000real;
    let f = |k: int| m.of(row[k]);
    let g = |k: int| m.of(level[k]);
    if norm > negligible {
        assert forall|k: int| 0 <= k < n implies #[trigger] f(k) == (1real / norm) * g(k) by {
            law_scaled_row_has_unit_norm::<B>(m, level, k);
            let (x, y) = (m.of(row[k]), m.of(level[k]));
            assert(x == (1real / norm) * y) by (nonlinear_arith)
                requires
                    x * norm == y,
                    norm > 0real,
            ;
        }
        lemma_total_scaled(f, g, 1real / norm, n);
        assert((1real / norm) * 0real == 0real) by (nonlinear_arith);
    } else {
        assert(norm * norm <= negligible * negligible) by (nonlinear_arith)
            requires
                0real <= norm <= negligible,
        ;
    }
}

/// A table's rows are the contents of its vectors, in order.
pub proof fn law_table_keeps_its_rows<N>(table: Seq<Vec<N>>, i: int)
    requires
        0 <= i < table.len(),
    ensures
        rows(table).len() == table.len(),
        rows(table)[i] == table[i]@,
{
}

} // verus!
