//! Lengths that factor into the primes 2, 3, 5, 7 and 11 only, stated once by
//! their prime factors and once as the products that a search enumerates,
//! with the proof that the two agree.

use crate::primes::{
    divides, is_prime, is_prime_factor, lemma_divides_quotient, lemma_divides_trans,
    lemma_divisor_bound, lemma_exact_division, lemma_multiple_divides,
    lemma_prime_divides_product, lemma_prime_factor_exists,
};
use vstd::prelude::*;

verus! {

/// The primes that a good transform length is built from, in ascending
/// order: 2, 3, 5, 7 and 11.
pub open spec fn small_prime(k: nat) -> nat {
    if k == 0 {
        2
    } else if k == 1 {
        3
    } else if k == 2 {
        5
    } else if k == 3 {
        7
    } else {
        11
    }
}

/// `t` is a product of small primes, none of them before the `k`-th.
pub open spec fn smooth_from(t: nat, k: nat) -> bool
    decreases 5 - k, t,
    via smooth_from_terminates
{
    if k >= 5 {
        t == 1
    } else {
        smooth_from(t, k + 1) || (t > 0 && t % small_prime(k) == 0 && smooth_from(
            t / small_prime(k),
            k,
        ))
    }
}

#[via_fn]
proof fn smooth_from_terminates(t: nat, k: nat) {
    if k < 5 && t > 0 {
        vstd::arithmetic::div_mod::lemma_div_decreases(t as int, small_prime(k) as int);
    }
}

/// `m` is positive and no prime larger than 11 divides it.
pub open spec fn is_smooth(m: nat) -> bool {
    m >= 1 && forall|q: nat| #[trigger] is_prime_factor(q, m) ==> q <= 11
}

/// `r` is the smallest smooth number that is at least `n`.
pub open spec fn is_least_smooth_from(r: nat, n: nat) -> bool {
    n <= r && is_smooth(r) && forall|m: nat| n <= m < r ==> !#[trigger] is_smooth(m)
}

/// `m` is `start` times a product of small primes, none before the `k`-th.
pub open spec fn reachable(m: nat, start: nat, k: nat) -> bool {
    divides(start, m) && smooth_from(m / start, k)
}

/// A prime that is at most 11 is one of the five small primes.
pub proof fn lemma_prime_up_to_eleven(q: nat) -> (k: nat)
    requires
        is_prime(q),
        q <= 11,
    ensures
        k < 5,
        q == small_prime(k),
{
    if q == 4 || q == 6 || q == 8 || q == 10 {
        lemma_multiple_divides(2, q / 2);
        assert(divides(2, q));
    }
    if q == 9 {
        lemma_multiple_divides(3, 3);
        assert(divides(3, q));
    }
    if q == 2 {
        0
    } else if q == 3 {
        1
    } else if q == 5 {
        2
    } else if q == 7 {
        3
    } else {
        4
    }
}

/// A product of small primes is positive.
pub proof fn lemma_smooth_from_positive(t: nat, k: nat)
    requires
        smooth_from(t, k),
    ensures
        t >= 1,
    decreases 5 - k, t,
{
    if k < 5 && !smooth_from(t, k + 1) {
    } else if k < 5 {
        lemma_smooth_from_positive(t, k + 1);
    }
}

/// One is the empty product.
pub proof fn lemma_one_is_smooth(k: nat)
    ensures
        smooth_from(1, k),
    decreases 5 - k,
{
    if k < 5 {
        lemma_one_is_smooth(k + 1);
    }
}

/// Multiplying by the `j`-th small prime keeps a product of small primes
/// that starts at the `k`-th one, where `k` is at most `j`.
pub proof fn lemma_smooth_from_times(t: nat, k: nat, j: nat)
    requires
        smooth_from(t, k),
        k <= j < 5,
    ensures
        smooth_from(small_prime(j) * t, k),
    decreases 5 - k, t,
{
    let pj = small_prime(j);
    let pk = small_prime(k);
    lemma_smooth_from_positive(t, k);
    if j == k {
        lemma_exact_division(pk * t, pk, t);
    } else if smooth_from(t, k + 1) {
        lemma_smooth_from_times(t, k + 1, j);
    } else {
        let s = t / pk;
        lemma_divides_quotient(pk, t);
        lemma_smooth_from_times(s, k, j);
        assert(pj * t == pk * (pj * s)) by (nonlinear_arith)
            requires
                t == pk * s,
        ;
        lemma_exact_division(pj * t, pk, pj * s);
    }
}

/// No prime larger than 11 divides a product of small primes.
pub proof fn lemma_smooth_from_has_small_factors(t: nat, k: nat)
    requires
        smooth_from(t, k),
    ensures
        is_smooth(t),
    decreases 5 - k, t,
{
    lemma_smooth_from_positive(t, k);
    if k >= 5 {
        assert forall|q: nat| #[trigger] is_prime_factor(q, t) implies q <= 11 by {
            lemma_divisor_bound(q, 1);
        }
    } else if smooth_from(t, k + 1) {
        lemma_smooth_from_has_small_factors(t, k + 1);
    } else {
        let p = small_prime(k);
        let s = t / p;
        lemma_smooth_from_has_small_factors(s, k);
        lemma_divides_quotient(p, t);
        assert forall|q: nat| #[trigger] is_prime_factor(q, t) implies q <= 11 by {
            lemma_prime_divides_product(q, p, s);
            if divides(q, p) {
                lemma_divisor_bound(q, p);
            } else {
                assert(is_prime_factor(q, s));
            }
        }
    }
}

/// A positive number that no prime larger than 11 divides is a product of
/// small primes.
pub proof fn lemma_small_factors_give_smooth_from(m: nat)
    requires
        is_smooth(m),
    ensures
        smooth_from(m, 0),
    decreases m,
{
    if m == 1 {
        lemma_one_is_smooth(0);
    } else {
        lemma_prime_factor_exists(m);
        let q = choose|q: nat| is_prime_factor(q, m);
        let j = lemma_prime_up_to_eleven(q);
        let s = m / q;
        lemma_divides_quotient(q, m);
        assert(1 <= s < m) by (nonlinear_arith)
            requires
                m == q * s,
                q >= 2,
                m >= 2,
        ;
        lemma_multiple_divides(s, q);
        assert forall|r: nat| #[trigger] is_prime_factor(r, s) implies r <= 11 by {
            lemma_divides_trans(r, s, m);
            assert(is_prime_factor(r, m));
        }
        lemma_small_factors_give_smooth_from(s);
        lemma_smooth_from_times(s, 0, j);
    }
}

/// The two ways to say that a number is smooth agree.
pub proof fn lemma_smooth_characterisation(m: nat)
    ensures
        is_smooth(m) <==> smooth_from(m, 0),
{
    if is_smooth(m) {
        lemma_small_factors_give_smooth_from(m);
    }
    if smooth_from(m, 0) {
        lemma_smooth_from_has_small_factors(m, 0);
    }
}

/// Between a positive number and its double lies a smooth number: a power
/// of two.
pub proof fn lemma_smooth_below_double(n: nat) -> (m: nat)
    requires
        n >= 1,
    ensures
        n <= m < 2 * n,
        smooth_from(m, 0),
    decreases n,
{
    if n == 1 {
        lemma_one_is_smooth(0);
        1
    } else {
        let h = (n + 1) / 2;
        let w = lemma_smooth_below_double(h);
        if w >= n {
            w
        } else {
            lemma_smooth_from_times(w, 0, 0);
            2 * w
        }
    }
}

/// What is reachable from `start` is a multiple of it, so at least as large.
pub proof fn lemma_reachable_lower_bound(m: nat, start: nat, k: nat)
    requires
        reachable(m, start, k),
    ensures
        m >= start,
{
    lemma_smooth_from_positive(m / start, k);
    lemma_divides_quotient(start, m);
    assert(m >= start) by (nonlinear_arith)
        requires
            m == start * (m / start),
            m / start >= 1,
    ;
}

/// With no prime left to multiply by, only `start` itself is reachable.
pub proof fn lemma_reachable_at_end(m: nat, start: nat)
    requires
        start > 0,
    ensures
        reachable(m, start, 5) <==> m == start,
{
    if reachable(m, start, 5) {
        lemma_divides_quotient(start, m);
    }
    if m == start {
        lemma_exact_division(m, start, 1);
    }
}

/// What is reachable from `f` with the `k`-th prime onwards is reachable
/// either without the `k`-th prime, or from `f` times that prime.
pub proof fn lemma_reachable_split(m: nat, f: nat, k: nat)
    requires
        k < 5,
        reachable(m, f, k),
    ensures
        reachable(m, f, k + 1) || reachable(m, f * small_prime(k), k),
{
    let t = m / f;
    let p = small_prime(k);
    if !smooth_from(t, k + 1) {
        let s = t / p;
        lemma_divides_quotient(f, m);
        lemma_divides_quotient(p, t);
        assert(m == (f * p) * s) by (nonlinear_arith)
            requires
                m == f * t,
                t == p * s,
        ;
        assert(f * p > 0) by (nonlinear_arith)
            requires
                f > 0,
                p > 0,
        ;
        lemma_exact_division(m, f * p, s);
    }
}

/// What is reachable from `f` times the `k`-th prime, or without that
/// prime, is reachable from `f`.
pub proof fn lemma_reachable_join(m: nat, f: nat, k: nat)
    requires
        k < 5,
        f > 0,
        reachable(m, f, k + 1) || reachable(m, f * small_prime(k), k),
    ensures
        reachable(m, f, k),
{
    let p = small_prime(k);
    if !reachable(m, f, k + 1) {
        let s = m / (f * p);
        lemma_divides_quotient(f * p, m);
        assert(m == f * (p * s)) by (nonlinear_arith)
            requires
                m == (f * p) * s,
        ;
        lemma_exact_division(m, f, p * s);
        lemma_smooth_from_times(s, k, k);
    }
}

} // verus!
