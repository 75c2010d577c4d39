//! Divisibility and primality over the natural numbers, with the handful of
//! facts about them that the planning code is proved from.

use vstd::arithmetic::div_mod::{
    lemma_fundamental_div_mod, lemma_fundamental_div_mod_converse, lemma_mod_multiples_basic,
    lemma_small_mod,
};
use vstd::prelude::*;

verus! {

/// `d` divides `n`.
pub open spec fn divides(d: nat, n: nat) -> bool {
    d > 0 && n % d == 0
}

/// `p` is at least two and has no divisor strictly between one and itself.
pub open spec fn is_prime(p: nat) -> bool {
    p >= 2 && forall|d: nat| 1 < d < p ==> !#[trigger] divides(d, p)
}

/// `q` is a prime that divides `n`.
pub open spec fn is_prime_factor(q: nat, n: nat) -> bool {
    is_prime(q) && divides(q, n)
}

/// A number that is `d` times something is divisible by `d`.
pub proof fn lemma_multiple_divides(d: nat, k: nat)
    requires
        d > 0,
    ensures
        divides(d, d * k),
        divides(d, k * d),
{
    lemma_mod_multiples_basic(k as int, d as int);
    assert(d * k == k * d) by (nonlinear_arith);
}

/// Dividing `d * q` by `d` gives `q` and leaves nothing.
pub proof fn lemma_exact_division(x: nat, d: nat, q: nat)
    requires
        d > 0,
        x == d * q,
    ensures
        divides(d, x),
        x / d == q,
{
    assert(x == q * d + 0) by (nonlinear_arith)
        requires
            x == d * q,
    ;
    lemma_fundamental_div_mod_converse(x as int, d as int, q as int, 0);
}

/// A number divisible by `d` is `d` times its quotient.
pub proof fn lemma_divides_quotient(d: nat, n: nat)
    requires
        divides(d, n),
    ensures
        n == d * (n / d),
        n == (n / d) * d,
{
    lemma_fundamental_div_mod(n as int, d as int);
    assert(d * (n / d) == (n / d) * d) by (nonlinear_arith);
}

/// A divisor of a positive number is no larger than it.
pub proof fn lemma_divisor_bound(d: nat, n: nat)
    requires
        divides(d, n),
        n > 0,
    ensures
        d <= n,
{
    if d > n {
        lemma_small_mod(n, d);
    }
}

/// Divisibility is transitive.
pub proof fn lemma_divides_trans(a: nat, b: nat, c: nat)
    requires
        divides(a, b),
        divides(b, c),
    ensures
        divides(a, c),
{
    lemma_divides_quotient(a, b);
    lemma_divides_quotient(b, c);
    let k = (b / a) * (c / b);
    assert(c == a * k) by (nonlinear_arith)
        requires
            c == b * (c / b),
            b == a * (b / a),
            k == (b / a) * (c / b),
    ;
    lemma_multiple_divides(a, k);
}

/// A divisor of two numbers divides their difference.
pub proof fn lemma_divides_difference(d: nat, a: nat, b: nat)
    requires
        divides(d, a),
        divides(d, b),
        a >= b,
    ensures
        divides(d, (a - b) as nat),
{
    lemma_divides_quotient(d, a);
    lemma_divides_quotient(d, b);
    let ka = a / d;
    let kb = b / d;
    assert(ka >= kb) by (nonlinear_arith)
        requires
            d > 0,
            d * ka >= d * kb,
    ;
    let k = (ka - kb) as nat;
    assert(a - b == d * k) by (nonlinear_arith)
        requires
            a == d * ka,
            b == d * kb,
            k == ka - kb,
    ;
    lemma_multiple_divides(d, k);
}

/// Euclid's lemma: a prime that divides a product divides one of its factors.
pub proof fn lemma_prime_divides_product(p: nat, a: nat, b: nat)
    requires
        is_prime(p),
        divides(p, a * b),
    ensures
        divides(p, a) || divides(p, b),
    decreases a,
{
    let r = a % p;
    if r != 0 {
        // p divides r * b, because a * b and (a - r) * b are both multiples of p.
        lemma_fundamental_div_mod(a as int, p as int);
        let q = a / p;
        assert((a * b - r * b) == p * (q * b)) by (nonlinear_arith)
            requires
                a == p * q + r,
        ;
        lemma_multiple_divides(p, q * b);
        assert(a * b >= r * b) by (nonlinear_arith)
            requires
                a >= r,
        ;
        lemma_divides_difference(p, a * b, p * (q * b));
        assert((a * b - p * (q * b)) as nat == r * b);
        assert(divides(p, r * b));
        if r < a {
            lemma_prime_divides_product(p, r, b);
            if divides(p, r) {
                lemma_small_mod(r, p);
            }
        } else {
            // a itself lies strictly between 0 and p.
            assert(a == r);
            if a == 1 {
                assert(a * b == b) by (nonlinear_arith)
                    requires
                        a == 1,
                ;
            } else {
                assert(!divides(a, p));
                let s = p % a;
                let t = p / a;
                lemma_fundamental_div_mod(p as int, a as int);
                assert(0 < s < a);
                // s * b = p * b - t * (a * b) is a multiple of p.
                lemma_multiple_divides(p, b);
                lemma_divides_quotient(p, a * b);
                let w = (a * b) / p;
                assert(t * (a * b) == p * (t * w)) by (nonlinear_arith)
                    requires
                        a * b == p * w,
                ;
                lemma_multiple_divides(p, t * w);
                assert(p * b - t * (a * b) == s * b) by (nonlinear_arith)
                    requires
                        p == a * t + s,
                ;
                lemma_divides_difference(p, p * b, t * (a * b));
                assert((p * b - t * (a * b)) as nat == s * b);
                lemma_prime_divides_product(p, s, b);
                if divides(p, s) {
                    lemma_small_mod(s, p);
                }
            }
        }
    }
}

/// Every number from two upwards has a prime factor.
pub proof fn lemma_prime_factor_exists(n: nat)
    requires
        n >= 2,
    ensures
        exists|q: nat| is_prime_factor(q, n),
    decreases n,
{
    if is_prime(n) {
        lemma_mod_multiples_basic(1, n as int);
        assert(is_prime_factor(n, n));
    } else {
        let d = choose|d: nat| 1 < d < n && divides(d, n);
        lemma_prime_factor_exists(d);
        let q = choose|q: nat| is_prime_factor(q, d);
        lemma_divides_trans(q, d, n);
        assert(is_prime_factor(q, n));
    }
}

/// A number from two upwards that no `d` with `2 <= d` and `d * d <= n`
/// divides is prime.
pub proof fn lemma_prime_by_trial(n: nat)
    requires
        n >= 2,
        forall|d: nat| 2 <= d && d * d <= n ==> !#[trigger] divides(d, n),
    ensures
        is_prime(n),
{
    assert forall|d: nat| 1 < d < n implies !#[trigger] divides(d, n) by {
        if divides(d, n) {
            lemma_divides_quotient(d, n);
            let e = n / d;
            lemma_multiple_divides(e, d);
            assert(e > 1 && e < n) by (nonlinear_arith)
                requires
                    n == d * e,
                    1 < d < n,
            ;
            assert(divides(e, n));
            assert(d * d <= n || e * e <= n) by (nonlinear_arith)
                requires
                    n == d * e,
                    d > 0,
                    e > 0,
            ;
        }
    }
}

} // verus!
