//! Arithmetic without rounding, as a yardstick for what the formulas mean.
//!
//! The formulas of this crate are stated over the operations of a backend, whatever those do.
//! This module says what it is for a backend's numbers to stand for real numbers without
//! rounding. The laws in [`crate::meaning`] then say what the results are in the mathematics of
//! real numbers. A floating-point backend comes close to this where it does not overflow.
use vstd::prelude::*;

use crate::backend::Backend;

verus! {

/// What the numbers of a backend stand for, and the real functions that it approximates.
pub struct Meaning<B: Backend> {
    /// The real number that a number stands for.
    pub val: spec_fn(B::Num) -> real,
    /// The ratio of a circle's circumference to its diameter.
    pub pi: real,
    /// Cosine.
    pub cos: spec_fn(real) -> real,
    /// Natural logarithm.
    pub ln: spec_fn(real) -> real,
    /// Natural exponential.
    pub exp: spec_fn(real) -> real,
    /// Logarithm to base two.
    pub log2: spec_fn(real) -> real,
    /// Powers of two.
    pub exp2: spec_fn(real) -> real,
}

/// The larger of two real numbers.
pub open spec fn max_real(x: real, y: real) -> real {
    if x < y {
        y
    } else {
        x
    }
}

/// `x` moved into the range from `lo` to `hi`.
pub open spec fn clamp_real(x: real, lo: real, hi: real) -> real {
    if x < lo {
        lo
    } else if hi < x {
        hi
    } else {
        x
    }
}

/// `r` is the square root of `x`.
pub open spec fn is_root(r: real, x: real) -> bool {
    r >= 0real && r * r == x
}

/// `i` is the greatest index at or below `x`, as far as an `isize` can hold it.
pub open spec fn is_floor(i: isize, x: real) -> bool {
    if x < isize::MIN as real {
        i == isize::MIN
    } else if x >= isize::MAX as real + 1real {
        i == isize::MAX
    } else {
        i as real <= x < i as real + 1real
    }
}

/// The sum of `f` over the indices below `n`.
pub open spec fn total(f: spec_fn(int) -> real, n: int) -> real
    decreases n,
{
    if n <= 0 {
        0real
    } else {
        total(f, n - 1) + f(n - 1)
    }
}

/// Equal terms have equal sums.
pub proof fn lemma_total_equal(f: spec_fn(int) -> real, g: spec_fn(int) -> real, n: int)
    requires
        forall|i: int| 0 <= i < n ==> #[trigger] f(i) == g(i),
    ensures
        total(f, n) == total(g, n),
    decreases n,
{
    if n > 0 {
        lemma_total_equal(f, g, n - 1);
    }
}

/// A common factor can be taken out of a sum.
pub proof fn lemma_total_scaled(
    f: spec_fn(int) -> real,
    g: spec_fn(int) -> real,
    k: real,
    n: int,
)
    requires
        forall|i: int| 0 <= i < n ==> #[trigger] f(i) == k * g(i),
    ensures
        total(f, n) == k * total(g, n),
    decreases n,
{
    if n > 0 {
        lemma_total_scaled(f, g, k, n - 1);
        assert(f(n - 1) == k * g(n - 1));
        let (a, b) = (total(g, n - 1), g(n - 1));
        assert(k * a + k * b == k * (a + b)) by (nonlinear_arith);
    } else {
        assert(k * 0real == 0real) by (nonlinear_arith);
    }
}

/// A number added to every term is added to the sum once per term.
pub proof fn lemma_total_shifted(
    f: spec_fn(int) -> real,
    g: spec_fn(int) -> real,
    k: real,
    n: int,
)
    requires
        n >= 0,
        forall|i: int| 0 <= i < n ==> #[trigger] f(i) == g(i) + k,
    ensures
        total(f, n) == total(g, n) + n as real * k,
    decreases n,
{
    if n > 0 {
        lemma_total_shifted(f, g, k, n - 1);
        assert(f(n - 1) == g(n - 1) + k);
        let x = (n - 1) as real;
        assert(x * k + k == (x + 1real) * k) by (nonlinear_arith);
    } else {
        assert(0real * k == 0real) by (nonlinear_arith);
    }
}

/// A sum of terms that are not negative is not negative.
pub proof fn lemma_total_nonnegative(f: spec_fn(int) -> real, n: int)
    requires
        forall|i: int| 0 <= i < n ==> #[trigger] f(i) >= 0real,
    ensures
        total(f, n) >= 0real,
    decreases n,
{
    if n > 0 {
        lemma_total_nonnegative(f, n - 1);
        assert(f(n - 1) >= 0real);
    }
}

impl<B: Backend> Meaning<B> {
    /// The real number that `x` stands for.
    pub open spec fn of(self, x: B::Num) -> real {
        (self.val)(x)
    }

    /// The functions are what their names say, as far as the laws need it.
    pub open spec fn has_real_functions(self) -> bool {
        &&& self.pi > 0real
        &&& (self.cos)(0real) == 1real
        &&& (self.cos)(self.pi) == -1real
        &&& forall|x: real| -1real <= #[trigger] (self.cos)(x) <= 1real
        &&& forall|x: real| #[trigger] (self.cos)(-x) == (self.cos)(x)
        &&& forall|x: real| #[trigger]
            (self.cos)(x + 2real * self.pi) == (self.cos)(x)
        &&& (self.ln)(1real) == 0real
        &&& forall|x: real| #[trigger] (self.ln)((self.exp)(x)) == x
        &&& forall|x: real| x > 0real ==> #[trigger] (self.exp)((self.ln)(x)) == x
        &&& forall|x: real| #[trigger] (self.exp)(x) > 0real
        &&& forall|x: real, y: real|
            0real < x && 0real < y ==> #[trigger] (self.ln)(x * y) == (self.ln)(x) + (self.ln)(y)
        &&& forall|x: real, y: real|
            #![trigger (self.ln)(x), (self.ln)(y)]
            0real < x < y ==> (self.ln)(x) < (self.ln)(y)
        &&& (self.exp2)(0real) == 1real
        &&& (self.exp2)(1real) == 2real
        &&& forall|x: real| #[trigger] (self.exp2)(x) > 0real
        &&& forall|x: real, y: real| #[trigger]
            (self.exp2)(x + y) == (self.exp2)(x) * (self.exp2)(y)
        &&& forall|x: real, y: real|
            #![trigger (self.exp2)(x), (self.exp2)(y)]
            x < y ==> (self.exp2)(x) < (self.exp2)(y)
        &&& forall|x: real| x > 0real ==> #[trigger] (self.exp2)((self.log2)(x)) == x
    }

    /// The backend computes without rounding.
    pub open spec fn is_exact(self) -> bool {
        &&& self.has_real_functions()
        &&& forall|n: u64| self.of(#[trigger] B::whole_of(n)) == n as real
        &&& forall|n: u64, d: u64|
            d > 0 ==> self.of(#[trigger] B::ratio_of(n, d)) == n as real / d as real
        &&& self.of(B::pi_of()) == self.pi
        &&& forall|x: B::Num, y: B::Num|
            self.of(#[trigger] B::plus_of(x, y)) == self.of(x) + self.of(y)
        &&& forall|x: B::Num, y: B::Num|
            self.of(#[trigger] B::minus_of(x, y)) == self.of(x) - self.of(y)
        &&& forall|x: B::Num, y: B::Num|
            self.of(#[trigger] B::times_of(x, y)) == self.of(x) * self.of(y)
        &&& forall|x: B::Num, y: B::Num|
            self.of(y) != 0real ==> self.of(#[trigger] B::over_of(x, y)) == self.of(x) / self.of(
                y,
            )
        &&& forall|x: B::Num| self.of(#[trigger] B::negated_of(x)) == -self.of(x)
        &&& forall|x: B::Num| self.of(#[trigger] B::abs_of(x)) == max_real(self.of(x), -self.of(x))
        &&& forall|x: B::Num|
            #![trigger B::sqrt_of(x)]
            self.of(x) >= 0real ==> is_root(self.of(B::sqrt_of(x)), self.of(x))
        &&& forall|x: B::Num| self.of(#[trigger] B::cos_of(x)) == (self.cos)(self.of(x))
        &&& forall|x: B::Num|
            self.of(x) > 0real ==> self.of(#[trigger] B::ln_of(x)) == (self.ln)(self.of(x))
        &&& forall|x: B::Num| self.of(#[trigger] B::exp_of(x)) == (self.exp)(self.of(x))
        &&& forall|x: B::Num|
            self.of(x) > 0real ==> self.of(#[trigger] B::log2_of(x)) == (self.log2)(self.of(x))
        &&& forall|x: B::Num, y: B::Num|
            self.of(x) == 2real ==> self.of(#[trigger] B::pow_of(x, y)) == (self.exp2)(
                self.of(y),
            )
        &&& forall|x: B::Num, y: B::Num|
            self.of(#[trigger] B::larger_of(x, y)) == max_real(self.of(x), self.of(y))
        &&& forall|x: B::Num, lo: B::Num, hi: B::Num|
            #![trigger B::clamped_of(x, lo, hi)]
            self.of(lo) <= self.of(hi) ==> self.of(B::clamped_of(x, lo, hi)) == clamp_real(
                self.of(x),
                self.of(lo),
                self.of(hi),
            )
        &&& forall|x: B::Num, y: B::Num|
            #[trigger] B::less_of(x, y) == (self.of(x) < self.of(y))
        &&& forall|x: B::Num, y: B::Num|
            #[trigger] B::at_most_of(x, y) == (self.of(x) <= self.of(y))
        &&& forall|x: B::Num|
            #![trigger B::floor_index_of(x)]
            is_floor(B::floor_index_of(x), self.of(x))
    }
}

} // verus!
