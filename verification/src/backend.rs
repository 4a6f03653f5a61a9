//! The arithmetic that the estimator runs on.
//!
//! The estimator is written against [`Backend`]: a number type, the operations on it, and a
//! real-to-complex Fourier transform. Nothing is taken for granted about what a backend computes:
//! its operations carry no contract. Each operation has a companion `*_of` that names its result
//! on given operands. The contracts in this crate are formulas over those names, and they hold
//! for every backend whose operations are functions of their operands ([`deterministic`]).
//! Sizes, indices and the course of the stream hold for every backend.
use vstd::prelude::*;

verus! {

/// A complex number in rectangular form.
#[derive(Debug, Clone, Copy, PartialEq)]
pub struct Complex<N> {
    /// Real part.
    pub re: N,
    /// Imaginary part.
    pub im: N,
}

/// A number type with its operations and its Fourier transform.
///
/// A verified implementation may override the `*_of` companions by closed formulas; what matters
/// is that the implementation is then [`deterministic`].
pub trait Backend: Sized {
    /// The numbers: samples, frequencies and scores.
    type Num: Copy;

    /// A prepared Fourier transform of one length.
    type Plan;

    /// The number nearest to the whole number `n`.
    fn whole(n: u64) -> Self::Num;

    /// What `whole` returns.
    open spec fn whole_of(n: u64) -> Self::Num {
        choose|r: Self::Num| call_ensures(Self::whole, (n,), r)
    }

    /// The number nearest to `num / den`.
    fn ratio(num: u64, den: u64) -> Self::Num;

    /// What `ratio` returns.
    open spec fn ratio_of(num: u64, den: u64) -> Self::Num {
        choose|r: Self::Num| call_ensures(Self::ratio, (num, den), r)
    }

    /// The number nearest to the ratio of a circle's circumference to its diameter.
    fn pi() -> Self::Num;

    /// What `pi` returns.
    open spec fn pi_of() -> Self::Num {
        choose|r: Self::Num| call_ensures(Self::pi, (), r)
    }

    /// A number that lies below every other one (negative infinity).
    fn lowest() -> Self::Num;

    /// What `lowest` returns.
    open spec fn lowest_of() -> Self::Num {
        choose|r: Self::Num| call_ensures(Self::lowest, (), r)
    }

    /// `x + y`.
    fn plus(x: Self::Num, y: Self::Num) -> Self::Num;

    /// What `plus` returns.
    open spec fn plus_of(x: Self::Num, y: Self::Num) -> Self::Num {
        choose|r: Self::Num| call_ensures(Self::plus, (x, y), r)
    }

    /// `x - y`.
    fn minus(x: Self::Num, y: Self::Num) -> Self::Num;

    /// What `minus` returns.
    open spec fn minus_of(x: Self::Num, y: Self::Num) -> Self::Num {
        choose|r: Self::Num| call_ensures(Self::minus, (x, y), r)
    }

    /// `x * y`.
    fn times(x: Self::Num, y: Self::Num) -> Self::Num;

    /// What `times` returns.
    open spec fn times_of(x: Self::Num, y: Self::Num) -> Self::Num {
        choose|r: Self::Num| call_ensures(Self::times, (x, y), r)
    }

    /// `x / y`.
    fn over(x: Self::Num, y: Self::Num) -> Self::Num;

    /// What `over` returns.
    open spec fn over_of(x: Self::Num, y: Self::Num) -> Self::Num {
        choose|r: Self::Num| call_ensures(Self::over, (x, y), r)
    }

    /// `-x`.
    fn negated(x: Self::Num) -> Self::Num;

    /// What `negated` returns.
    open spec fn negated_of(x: Self::Num) -> Self::Num {
        choose|r: Self::Num| call_ensures(Self::negated, (x,), r)
    }

    /// The absolute value of `x`.
    fn abs(x: Self::Num) -> Self::Num;

    /// What `abs` returns.
    open spec fn abs_of(x: Self::Num) -> Self::Num {
        choose|r: Self::Num| call_ensures(Self::abs, (x,), r)
    }

    /// The square root of `x`.
    fn sqrt(x: Self::Num) -> Self::Num;

    /// What `sqrt` returns.
    open spec fn sqrt_of(x: Self::Num) -> Self::Num {
        choose|r: Self::Num| call_ensures(Self::sqrt, (x,), r)
    }

    /// The cosine of `x` radians.
    fn cos(x: Self::Num) -> Self::Num;

    /// What `cos` returns.
    open spec fn cos_of(x: Self::Num) -> Self::Num {
        choose|r: Self::Num| call_ensures(Self::cos, (x,), r)
    }

    /// The natural logarithm of `x`.
    fn ln(x: Self::Num) -> Self::Num;

    /// What `ln` returns.
    open spec fn ln_of(x: Self::Num) -> Self::Num {
        choose|r: Self::Num| call_ensures(Self::ln, (x,), r)
    }

    /// The natural exponential of `x`.
    fn exp(x: Self::Num) -> Self::Num;

    /// What `exp` returns.
    open spec fn exp_of(x: Self::Num) -> Self::Num {
        choose|r: Self::Num| call_ensures(Self::exp, (x,), r)
    }

    /// The logarithm of `x` to base two.
    fn log2(x: Self::Num) -> Self::Num;

    /// What `log2` returns.
    open spec fn log2_of(x: Self::Num) -> Self::Num {
        choose|r: Self::Num| call_ensures(Self::log2, (x,), r)
    }

    /// `x` raised to the power `y`.
    fn pow(x: Self::Num, y: Self::Num) -> Self::Num;

    /// What `pow` returns.
    open spec fn pow_of(x: Self::Num, y: Self::Num) -> Self::Num {
        choose|r: Self::Num| call_ensures(Self::pow, (x, y), r)
    }

    /// The larger of `x` and `y`.
    fn larger(x: Self::Num, y: Self::Num) -> Self::Num;

    /// What `larger` returns.
    open spec fn larger_of(x: Self::Num, y: Self::Num) -> Self::Num {
        choose|r: Self::Num| call_ensures(Self::larger, (x, y), r)
    }

    /// `x` moved into the range from `lo` to `hi`.
    fn clamped(x: Self::Num, lo: Self::Num, hi: Self::Num) -> Self::Num;

    /// What `clamped` returns.
    open spec fn clamped_of(x: Self::Num, lo: Self::Num, hi: Self::Num) -> Self::Num {
        choose|r: Self::Num| call_ensures(Self::clamped, (x, lo, hi), r)
    }

    /// Whether `x < y`.
    fn less(x: Self::Num, y: Self::Num) -> bool;

    /// What `less` returns.
    open spec fn less_of(x: Self::Num, y: Self::Num) -> bool {
        choose|r: bool| call_ensures(Self::less, (x, y), r)
    }

    /// Whether `x <= y`.
    fn at_most(x: Self::Num, y: Self::Num) -> bool;

    /// What `at_most` returns.
    open spec fn at_most_of(x: Self::Num, y: Self::Num) -> bool {
        choose|r: bool| call_ensures(Self::at_most, (x, y), r)
    }

    /// The largest whole number that is at most `x`, saturating at the ends of `isize`.
    fn floor_index(x: Self::Num) -> isize;

    /// What `floor_index` returns.
    open spec fn floor_index_of(x: Self::Num) -> isize {
        choose|r: isize| call_ensures(Self::floor_index, (x,), r)
    }

    /// Prepares the forward transform of `len` real numbers.
    fn plan_fft_forward(len: usize) -> Self::Plan;

    /// What `plan_fft_forward` returns.
    open spec fn plan_fft_forward_of(len: usize) -> Self::Plan {
        choose|r: Self::Plan| call_ensures(Self::plan_fft_forward, (len,), r)
    }

    /// The non-negative-frequency half of the discrete Fourier transform of `input`
    /// (`input.len() / 2 + 1` bins), or the reason why it could not be computed.
    fn transform(plan: &Self::Plan, input: &Vec<Self::Num>) -> Result<
        Vec<Complex<Self::Num>>,
        String,
    >;

    /// What `transform` returns.
    open spec fn transform_of(plan: Self::Plan, input: Seq<Self::Num>) -> Result<
        Seq<Complex<Self::Num>>,
        Seq<char>,
    > {
        let (v, r) = choose|v: Vec<Self::Num>, r: Result<Vec<Complex<Self::Num>>, String>|
            v@ == input && #[trigger] call_ensures(Self::transform, (&plan, &v), r);
        outcome(r)
    }
}

/// A transform's outcome with the containers replaced by what they hold.
pub open spec fn outcome<N>(r: Result<Vec<Complex<N>>, String>) -> Result<
    Seq<Complex<N>>,
    Seq<char>,
> {
    match r {
        Ok(bins) => Ok(bins@),
        Err(reason) => Err(reason@),
    }
}

/// Whether every operation of the backend is a function of its operands: it returns what its
/// `*_of` companion names, the same for the same operands every time.
pub open spec fn deterministic<B: Backend>() -> bool {
    &&& forall|n: u64, r: B::Num| #[trigger]
        call_ensures(B::whole, (n,), r) ==> r == B::whole_of(n)
    &&& forall|num: u64, den: u64, r: B::Num| #[trigger]
        call_ensures(B::ratio, (num, den), r) ==> r == B::ratio_of(num, den)
    &&& forall|r: B::Num| #[trigger] call_ensures(B::pi, (), r) ==> r == B::pi_of()
    &&& forall|r: B::Num| #[trigger] call_ensures(B::lowest, (), r) ==> r == B::lowest_of()
    &&& forall|x: B::Num, y: B::Num, r: B::Num| #[trigger]
        call_ensures(B::plus, (x, y), r) ==> r == B::plus_of(x, y)
    &&& forall|x: B::Num, y: B::Num, r: B::Num| #[trigger]
        call_ensures(B::minus, (x, y), r) ==> r == B::minus_of(x, y)
    &&& forall|x: B::Num, y: B::Num, r: B::Num| #[trigger]
        call_ensures(B::times, (x, y), r) ==> r == B::times_of(x, y)
    &&& forall|x: B::Num, y: B::Num, r: B::Num| #[trigger]
        call_ensures(B::over, (x, y), r) ==> r == B::over_of(x, y)
    &&& forall|x: B::Num, r: B::Num| #[trigger]
        call_ensures(B::negated, (x,), r) ==> r == B::negated_of(x)
    &&& forall|x: B::Num, r: B::Num| #[trigger] call_ensures(B::abs, (x,), r) ==> r == B::abs_of(x)
    &&& forall|x: B::Num, r: B::Num| #[trigger]
        call_ensures(B::sqrt, (x,), r) ==> r == B::sqrt_of(x)
    &&& forall|x: B::Num, r: B::Num| #[trigger] call_ensures(B::cos, (x,), r) ==> r == B::cos_of(x)
    &&& forall|x: B::Num, r: B::Num| #[trigger] call_ensures(B::ln, (x,), r) ==> r == B::ln_of(x)
    &&& forall|x: B::Num, r: B::Num| #[trigger] call_ensures(B::exp, (x,), r) ==> r == B::exp_of(x)
    &&& forall|x: B::Num, r: B::Num| #[trigger]
        call_ensures(B::log2, (x,), r) ==> r == B::log2_of(x)
    &&& forall|x: B::Num, y: B::Num, r: B::Num| #[trigger]
        call_ensures(B::pow, (x, y), r) ==> r == B::pow_of(x, y)
    &&& forall|x: B::Num, y: B::Num, r: B::Num| #[trigger]
        call_ensures(B::larger, (x, y), r) ==> r == B::larger_of(x, y)
    &&& forall|x: B::Num, lo: B::Num, hi: B::Num, r: B::Num| #[trigger]
        call_ensures(B::clamped, (x, lo, hi), r) ==> r == B::clamped_of(x, lo, hi)
    &&& forall|x: B::Num, y: B::Num, r: bool| #[trigger]
        call_ensures(B::less, (x, y), r) ==> r == B::less_of(x, y)
    &&& forall|x: B::Num, y: B::Num, r: bool| #[trigger]
        call_ensures(B::at_most, (x, y), r) ==> r == B::at_most_of(x, y)
    &&& forall|x: B::Num, r: isize| #[trigger]
        call_ensures(B::floor_index, (x,), r) ==> r == B::floor_index_of(x)
    &&& forall|len: usize, r: B::Plan| #[trigger]
        call_ensures(B::plan_fft_forward, (len,), r) ==> r == B::plan_fft_forward_of(len)
    &&& forall|plan: B::Plan, v: Vec<B::Num>, r: Result<Vec<Complex<B::Num>>, String>| #[trigger]
        call_ensures(B::transform, (&plan, &v), r) ==> outcome(r) == B::transform_of(plan, v@)
}

} // verus!
