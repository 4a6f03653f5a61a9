//! Which harmonics of a candidate pitch take part in its kernel.
use vstd::arithmetic::div_mod::{
    lemma_div_is_ordered_by_denominator, lemma_fundamental_div_mod, lemma_mod_multiples_basic,
};
use vstd::arithmetic::mul::lemma_mul_is_commutative;
use vstd::prelude::*;

verus! {

/// `n` has exactly two divisors, 1 and itself.
pub open spec fn is_prime(n: int) -> bool {
    &&& n >= 2
    &&& forall|d: int| 1 < d < n ==> #[trigger] (n % d) != 0
}

/// Harmonic `h` is kept: it is the fundamental or a prime multiple of it.
pub open spec fn is_kept(h: int) -> bool {
    h == 1 || is_prime(h)
}

/// A number whose divisors, if any, are all at least `d` has none at all below itself once `d`
/// has passed its square root.
proof fn lemma_no_small_divisor(n: int, d: int)
    requires
        n >= 2,
        d >= 2,
        n / d < d,
        forall|k: int| 2 <= k < d ==> #[trigger] (n % k) != 0,
    ensures
        is_prime(n),
{
    assert forall|k: int| 1 < k < n implies #[trigger] (n % k) != 0 by {
        if k >= d && n % k == 0 {
            let q = n / k;
            lemma_fundamental_div_mod(n, k);
            assert(q > 1) by (nonlinear_arith)
                requires
                    n == k * q,
                    1 < k < n,
            ;
            lemma_div_is_ordered_by_denominator(n, d, k);
            lemma_mod_multiples_basic(k, q);
            lemma_mul_is_commutative(k, q);
            assert(n % q == 0);
        }
    }
}

/// Whether harmonic number `h` is kept by the SWIPE' kernel.
pub fn is_swipe_prime(h: usize) -> (kept: bool)
    ensures
        kept == is_kept(h as int),
{
    if h == 1 {
        return true;
    }
    if h < 2 {
        return false;
    }
    if h % 2 == 0 {
        proof {
            if h != 2 {
                assert(h as int % 2 == 0);
            }
        }
        return h == 2;
    }
    let mut d: usize = 3;
    while d <= h / d
        invariant
            h > 2,
            h % 2 == 1,
            3 <= d,
            d % 2 == 1,
            forall|k: int| 2 <= k < d ==> #[trigger] (h as int % k) != 0,
        decreases h - d,
    {
        assert(d <= h) by (nonlinear_arith)
            requires
                3 <= d,
                d <= h / d,
        ;
        assert(d < h) by (nonlinear_arith)
            requires
                3 <= d,
                d <= h / d,
        ;
        if h % d == 0 {
            assert(h as int % d as int == 0);
            return false;
        }
        proof {
            lemma_odd_has_no_even_divisor(h as int, d + 1);
        }
        assert(d + 2 <= usize::MAX) by (nonlinear_arith)
            requires
                3 <= d,
                d <= h / d,
                h <= usize::MAX,
        ;
        d = d + 2;
    }
    proof {
        lemma_no_small_divisor(h as int, d as int);
    }
    true
}

/// An even number does not divide an odd one.
proof fn lemma_odd_has_no_even_divisor(n: int, k: int)
    requires
        n % 2 == 1,
        k > 0,
        k % 2 == 0,
    ensures
        n % k != 0,
{
    if n % k == 0 {
        let q = n / k;
        lemma_fundamental_div_mod(n, k);
        let j = k / 2;
        assert(n == 2 * (j * q)) by (nonlinear_arith)
            requires
                n == k * q,
                k == 2 * j,
        ;
    }
}

} // verus!
