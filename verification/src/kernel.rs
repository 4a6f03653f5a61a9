//! The pitch candidates and their spectral kernels.
//!
//! The kernel of a candidate is sampled on the mel axis. It has a raised-cosine lobe at every
//! kept harmonic, an inverted lobe half way between neighbouring kept harmonics, zero mean and
//! unit norm.
use vstd::prelude::*;

use crate::backend::{deterministic, Backend};
use crate::fold::{dot, dot_upto, sum, sum_upto};
use crate::mel::{f_min, f_min_of, mel_fmax, mel_fmax_of};
use crate::primes::{is_kept, is_swipe_prime};
use crate::NUM_CANDIDATES;

verus! {

/// The candidate pitches: 36 per octave from the lowest up.
pub open spec fn candidates_of<B: Backend>() -> Seq<B::Num> {
    Seq::new(
        NUM_CANDIDATES as nat,
        |c: int|
            B::times_of(
                f_min_of::<B>(),
                B::pow_of(B::whole_of(2), B::over_of(B::whole_of(c as u64), B::whole_of(36))),
            ),
    )
}

/// The height at `mf` of a raised cosine of width `fc` about `centre`.
pub open spec fn lobe_of<B: Backend>(mf: B::Num, centre: B::Num, fc: B::Num) -> B::Num {
    B::times_of(
        B::ratio_of(1, 2),
        B::plus_of(
            B::whole_of(1),
            B::cos_of(
                B::over_of(
                    B::times_of(
                        B::times_of(B::whole_of(2), B::pi_of()),
                        B::minus_of(mf, centre),
                    ),
                    fc,
                ),
            ),
        ),
    )
}

/// Whether `mf` lies within half of `fc` of `centre`.
pub open spec fn in_lobe<B: Backend>(mf: B::Num, centre: B::Num, fc: B::Num) -> bool {
    let half_lobe = B::over_of(fc, B::whole_of(2));
    B::at_most_of(B::minus_of(centre, half_lobe), mf) && B::at_most_of(
        mf,
        B::plus_of(centre, half_lobe),
    )
}

/// `row` with a lobe of height `amp` and width `fc` about `centre` added to it.
pub open spec fn with_lobe<B: Backend>(
    row: Seq<B::Num>,
    mel_freqs: Seq<B::Num>,
    centre: B::Num,
    fc: B::Num,
    amp: B::Num,
) -> Seq<B::Num> {
    Seq::new(
        row.len(),
        |j: int|
            if in_lobe::<B>(mel_freqs[j], centre, fc) {
                B::plus_of(row[j], B::times_of(amp, lobe_of::<B>(mel_freqs[j], centre, fc)))
            } else {
                row[j]
            },
    )
}

/// The frequency of harmonic `h` of `fc`.
pub open spec fn centre_of<B: Backend>(fc: B::Num, h: int) -> B::Num {
    B::times_of(B::whole_of(h as u64), fc)
}

/// The height of the lobe at harmonic `h`.
pub open spec fn weight_of<B: Backend>(h: int) -> B::Num {
    B::over_of(B::whole_of(1), B::sqrt_of(B::whole_of(h as u64)))
}

/// The frequency half way between harmonics `last` and `h` of `fc`.
pub open spec fn valley_centre_of<B: Backend>(fc: B::Num, last: int, h: int) -> B::Num {
    B::times_of(
        B::times_of(
            B::plus_of(B::whole_of(last as u64), B::whole_of(h as u64)),
            B::ratio_of(1, 2),
        ),
        fc,
    )
}

/// The height of the valley below harmonic `h`.
pub open spec fn valley_weight_of<B: Backend>(h: int) -> B::Num {
    B::times_of(B::negated_of(weight_of::<B>(h)), B::ratio_of(1, 2))
}

/// The largest kept harmonic below `h`, or 0 where there is none.
pub open spec fn last_kept(h: int) -> int
    decreases h,
{
    if h <= 1 {
        0
    } else if is_kept(h - 1) {
        h - 1
    } else {
        last_kept(h - 1)
    }
}

/// `row` with the lobe at harmonic `h` and, where a kept harmonic lies below it, the valley
/// between the two.
pub open spec fn with_harmonic<B: Backend>(
    row: Seq<B::Num>,
    mel_freqs: Seq<B::Num>,
    fc: B::Num,
    h: int,
) -> Seq<B::Num> {
    let peaked = with_lobe::<B>(row, mel_freqs, centre_of::<B>(fc, h), fc, weight_of::<B>(h));
    if last_kept(h) > 0 {
        with_lobe::<B>(
            peaked,
            mel_freqs,
            valley_centre_of::<B>(fc, last_kept(h), h),
            fc,
            valley_weight_of::<B>(h),
        )
    } else {
        peaked
    }
}

/// The lobes and valleys of all kept harmonics below `n`.
pub open spec fn harmonics_below<B: Backend>(
    mel_freqs: Seq<B::Num>,
    fc: B::Num,
    n: int,
) -> Seq<B::Num>
    decreases n,
{
    if n <= 1 {
        Seq::new(mel_freqs.len(), |j: int| B::whole_of(0))
    } else if is_kept(n - 1) {
        with_harmonic::<B>(harmonics_below::<B>(mel_freqs, fc, n - 1), mel_freqs, fc, n - 1)
    } else {
        harmonics_below::<B>(mel_freqs, fc, n - 1)
    }
}

/// The first harmonic from `h` on that lies beyond the top of the mel axis (or the largest
/// `usize`, where none below it does).
pub open spec fn first_beyond<B: Backend>(fc: B::Num, h: int) -> int
    decreases usize::MAX - h,
{
    if h >= usize::MAX || B::less_of(mel_fmax_of::<B>(), centre_of::<B>(fc, h)) {
        h
    } else {
        first_beyond::<B>(fc, h + 1)
    }
}

/// `row` with its mean subtracted from every entry.
pub open spec fn centred_of<B: Backend>(row: Seq<B::Num>) -> Seq<B::Num> {
    row.map_values(
        |v: B::Num|
            B::minus_of(
                v,
                B::over_of(sum_upto::<B>(row, row.len() as int), B::whole_of(row.len() as u64)),
            ),
    )
}

/// The Euclidean norm of `row`.
pub open spec fn norm_of<B: Backend>(row: Seq<B::Num>) -> B::Num {
    B::sqrt_of(dot_upto::<B>(row, row, row.len() as int))
}

/// `row` divided by its norm, or unchanged where the norm is negligible.
pub open spec fn unit_of<B: Backend>(row: Seq<B::Num>) -> Seq<B::Num> {
    if B::less_of(B::ratio_of(1, 1_000_000_000_000), norm_of::<B>(row)) {
        row.map_values(|v: B::Num| B::over_of(v, norm_of::<B>(row)))
    } else {
        row
    }
}

/// The kernel of one candidate.
pub open spec fn kernel_row_of<B: Backend>(fc: B::Num, mel_freqs: Seq<B::Num>) -> Seq<B::Num> {
    unit_of::<B>(
        centred_of::<B>(harmonics_below::<B>(mel_freqs, fc, first_beyond::<B>(fc, 1))),
    )
}

/// The kernels of all candidates, one row each.
pub open spec fn kernels_of<B: Backend>(
    candidates: Seq<B::Num>,
    mel_freqs: Seq<B::Num>,
) -> Seq<Seq<B::Num>> {
    candidates.map_values(|fc: B::Num| kernel_row_of::<B>(fc, mel_freqs))
}

/// The contents of the rows of a table.
pub open spec fn rows<N>(table: Seq<Vec<N>>) -> Seq<Seq<N>> {
    table.map_values(|row: Vec<N>| row@)
}

/// The candidate pitches, in Hz.
pub fn build_candidates<B: Backend>() -> (candidates: Vec<B::Num>)
    ensures
        candidates@.len() == NUM_CANDIDATES,
        deterministic::<B>() ==> candidates@ == candidates_of::<B>(),
{
    let lowest = f_min::<B>();
    let two = B::whole(2);
    let per_octave = B::whole(36);
    let mut candidates: Vec<B::Num> = Vec::with_capacity(NUM_CANDIDATES);
    for c in 0..NUM_CANDIDATES
        invariant
            candidates@.len() == c,
            deterministic::<B>() ==> {
                &&& lowest == f_min_of::<B>()
                &&& two == B::whole_of(2)
                &&& per_octave == B::whole_of(36)
                &&& forall|k: int|
                    0 <= k < c ==> #[trigger] candidates@[k] == candidates_of::<B>()[k]
            },
    {
        candidates.push(B::times(lowest, B::pow(two, B::over(B::whole(c as u64), per_octave))));
    }
    candidates
}

/// Adds a lobe of height `amp` and width `fc` about `centre` to `row`.
pub fn add_lobe<B: Backend>(
    row: &mut Vec<B::Num>,
    mel_freqs: &Vec<B::Num>,
    centre: B::Num,
    fc: B::Num,
    amp: B::Num,
)
    requires
        old(row)@.len() == mel_freqs@.len(),
    ensures
        final(row)@.len() == old(row)@.len(),
        deterministic::<B>() ==> final(row)@ == with_lobe::<B>(
            old(row)@,
            mel_freqs@,
            centre,
            fc,
            amp,
        ),
{
    let half_lobe = B::over(fc, B::whole(2));
    let lo = B::minus(centre, half_lobe);
    let hi = B::plus(centre, half_lobe);
    let half = B::ratio(1, 2);
    let one = B::whole(1);
    let two_pi = B::times(B::whole(2), B::pi());
    let ghost before = row@;
    for j in 0..mel_freqs.len()
        invariant
            row@.len() == mel_freqs@.len(),
            before.len() == row@.len(),
            forall|k: int| j <= k < before.len() ==> #[trigger] row@[k] == before[k],
            deterministic::<B>() ==> {
                &&& lo == B::minus_of(centre, B::over_of(fc, B::whole_of(2)))
                &&& hi == B::plus_of(centre, B::over_of(fc, B::whole_of(2)))
                &&& half == B::ratio_of(1, 2)
                &&& one == B::whole_of(1)
                &&& two_pi == B::times_of(B::whole_of(2), B::pi_of())
                &&& forall|k: int|
                    0 <= k < j ==> #[trigger] row@[k] == with_lobe::<B>(
                        before,
                        mel_freqs@,
                        centre,
                        fc,
                        amp,
                    )[k]
            },
    {
        let mf = mel_freqs[j];
        if B::at_most(lo, mf) && B::at_most(mf, hi) {
            let angle = B::over(B::times(two_pi, B::minus(mf, centre)), fc);
            let lobe = B::times(half, B::plus(one, B::cos(angle)));
            let v = B::plus(row[j], B::times(amp, lobe));
            row.set(j, v);
        }
    }
}

/// The lobes and valleys of one candidate, before centring and scaling.
pub fn build_harmonics<B: Backend>(fc: B::Num, mel_freqs: &Vec<B::Num>) -> (row: Vec<B::Num>)
    ensures
        row@.len() == mel_freqs@.len(),
        deterministic::<B>() ==> row@ == harmonics_below::<B>(
            mel_freqs@,
            fc,
            first_beyond::<B>(fc, 1),
        ),
{
    let top = mel_fmax::<B>();
    let zero = B::whole(0);
    let one = B::whole(1);
    let half = B::ratio(1, 2);
    let mut row: Vec<B::Num> = Vec::with_capacity(mel_freqs.len());
    for j in 0..mel_freqs.len()
        invariant
            row@.len() == j,
            forall|k: int| 0 <= k < j ==> #[trigger] row@[k] == zero,
    {
        row.push(zero);
    }
    assert(deterministic::<B>() ==> row@ == harmonics_below::<B>(mel_freqs@, fc, 1));
    let mut h: usize = 1;
    let mut last: usize = 0;
    while h < usize::MAX
        invariant_except_break
            1 <= h,
            last == last_kept(h as int),
            row@.len() == mel_freqs@.len(),
            deterministic::<B>() ==> {
                &&& top == mel_fmax_of::<B>()
                &&& one == B::whole_of(1)
                &&& half == B::ratio_of(1, 2)
                &&& first_beyond::<B>(fc, 1) == first_beyond::<B>(fc, h as int)
                &&& row@ == harmonics_below::<B>(mel_freqs@, fc, h as int)
            },
        ensures
            row@.len() == mel_freqs@.len(),
            deterministic::<B>() ==> row@ == harmonics_below::<B>(
                mel_freqs@,
                fc,
                first_beyond::<B>(fc, 1),
            ),
        decreases usize::MAX - h,
    {
        let centre = B::times(B::whole(h as u64), fc);
        if B::less(top, centre) {
            break;
        }
        if is_swipe_prime(h) {
            let weight = B::over(one, B::sqrt(B::whole(h as u64)));
            add_lobe::<B>(&mut row, mel_freqs, centre, fc, weight);
            if last > 0 {
                let between = B::plus(B::whole(last as u64), B::whole(h as u64));
                let mid = B::times(B::times(between, half), fc);
                let valley = B::times(B::negated(weight), half);
                add_lobe::<B>(&mut row, mel_freqs, mid, fc, valley);
            }
            last = h;
        }
        h = h + 1;
    }
    row
}

/// Subtracts the mean from every entry of `row`.
pub fn centre_row<B: Backend>(row: &Vec<B::Num>) -> (r: Vec<B::Num>)
    ensures
        r@.len() == row@.len(),
        deterministic::<B>() ==> r@ == centred_of::<B>(row@),
{
    let mean = B::over(sum::<B>(row), B::whole(row.len() as u64));
    let mut r: Vec<B::Num> = Vec::with_capacity(row.len());
    for j in 0..row.len()
        invariant
            r@.len() == j,
            deterministic::<B>() ==> {
                &&& mean == B::over_of(
                    sum_upto::<B>(row@, row@.len() as int),
                    B::whole_of(row@.len() as u64),
                )
                &&& forall|k: int| 0 <= k < j ==> #[trigger] r@[k] == centred_of::<B>(row@)[k]
            },
    {
        r.push(B::minus(row[j], mean));
    }
    r
}

/// Divides `row` by its norm, unless that is negligible.
pub fn scale_row<B: Backend>(row: Vec<B::Num>) -> (r: Vec<B::Num>)
    ensures
        r@.len() == row@.len(),
        deterministic::<B>() ==> r@ == unit_of::<B>(row@),
{
    let norm = B::sqrt(dot::<B>(&row, &row));
    if B::less(B::ratio(1, 1_000_000_000_000), norm) {
        let mut r: Vec<B::Num> = Vec::with_capacity(row.len());
        for j in 0..row.len()
            invariant
                r@.len() == j,
                deterministic::<B>() ==> {
                    &&& norm == norm_of::<B>(row@)
                    &&& forall|k: int|
                        0 <= k < j ==> #[trigger] r@[k] == B::over_of(row@[k], norm_of::<B>(row@))
                },
        {
            r.push(B::over(row[j], norm));
        }
        r
    } else {
        row
    }
}

/// The kernels of all candidates, one row each.
pub fn build_kernels<B: Backend>(candidates: &Vec<B::Num>, mel_freqs: &Vec<B::Num>) -> (kernel: Vec<
    Vec<B::Num>,
>)
    ensures
        kernel@.len() == candidates@.len(),
        forall|c: int|
            0 <= c < kernel@.len() ==> (#[trigger] kernel@[c])@.len() == mel_freqs@.len(),
        deterministic::<B>() ==> rows(kernel@) == kernels_of::<B>(candidates@, mel_freqs@),
{
    let mut kernel: Vec<Vec<B::Num>> = Vec::with_capacity(candidates.len());
    for c in 0..candidates.len()
        invariant
            kernel@.len() == c,
            forall|k: int| 0 <= k < c ==> (#[trigger] kernel@[k])@.len() == mel_freqs@.len(),
            deterministic::<B>() ==> forall|k: int|
                0 <= k < c ==> (#[trigger] kernel@[k])@ == kernel_row_of::<B>(
                    candidates@[k],
                    mel_freqs@,
                ),
    {
        let row = build_harmonics::<B>(candidates[c], mel_freqs);
        kernel.push(scale_row::<B>(centre_row::<B>(&row)));
    }
    kernel
}

} // verus!
