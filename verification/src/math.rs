//! Integer helpers of the planner: the largest prime factor of a length, its
//! prime factorisation, and the search for a nearby length that factors into
//! small primes only.

use crate::factors::{lemma_product_concat, lemma_product_push, product};
use crate::primes::{
    divides, is_prime, is_prime_factor, lemma_divides_quotient, lemma_divides_trans,
    lemma_divisor_bound, lemma_multiple_divides, lemma_prime_by_trial,
    lemma_prime_divides_product,
};
use crate::smooth::{
    is_least_smooth_from, is_smooth, lemma_one_is_smooth, lemma_reachable_at_end,
    lemma_reachable_join, lemma_reachable_lower_bound, lemma_reachable_split,
    lemma_smooth_below_double, lemma_smooth_characterisation, lemma_smooth_from_times,
    reachable, small_prime, smooth_from,
};
use vstd::prelude::*;

verus! {

/// `r` is a prime factor of `n`, and no prime factor of `n` is larger.
pub open spec fn is_largest_prime_factor(r: nat, n: nat) -> bool {
    is_prime_factor(r, n) && forall|q: nat| #[trigger] is_prime_factor(q, n) ==> q <= r
}

/// The largest prime factor of `n`, and 1 where `n` has none.
pub open spec fn largest_prime_factor_of(n: nat) -> nat {
    if n <= 1 {
        1
    } else {
        choose|r: nat| is_largest_prime_factor(r, n)
    }
}

/// A number has at most one largest prime factor.
pub proof fn lemma_largest_prime_factor_unique(r: nat, n: nat)
    requires
        n >= 2,
        is_largest_prime_factor(r, n),
    ensures
        r == largest_prime_factor_of(n),
{
    let c = choose|c: nat| is_largest_prime_factor(c, n);
    assert(is_prime_factor(r, n));
    assert(is_prime_factor(c, n));
}

/// Dividing `rest` by the prime `f` loses no prime factor other than `f`.
proof fn lemma_cofactor_keeps_primes(n: nat, rest: nat, f: nat, bound: nat)
    requires
        is_prime(f),
        divides(f, rest),
        f <= bound,
        forall|q: nat| #[trigger] is_prime_factor(q, n) ==> q <= bound || divides(q, rest),
    ensures
        forall|q: nat| #[trigger]
            is_prime_factor(q, n) ==> q <= bound || divides(q, rest / f),
{
    lemma_divides_quotient(f, rest);
    assert forall|q: nat| #[trigger] is_prime_factor(q, n) implies q <= bound || divides(
        q,
        rest / f,
    ) by {
        if q > bound {
            lemma_prime_divides_product(q, f, rest / f);
            if divides(q, f) {
                lemma_divisor_bound(q, f);
            }
        }
    }
}

/// Whatever divides `rest / f` divides `rest`, for a divisor `f` of `rest`.
proof fn lemma_cofactor_divisors(rest: nat, f: nat, limit: nat)
    requires
        divides(f, rest),
        forall|d: nat| 2 <= d < limit ==> !#[trigger] divides(d, rest),
    ensures
        divides(rest / f, rest) || rest == 0,
        forall|d: nat| 2 <= d < limit ==> !#[trigger] divides(d, rest / f),
{
    lemma_divides_quotient(f, rest);
    if rest / f > 0 {
        lemma_multiple_divides(rest / f, f);
        assert forall|d: nat| 2 <= d < limit implies !#[trigger] divides(d, rest / f) by {
            if divides(d, rest / f) {
                lemma_divides_trans(d, rest / f, rest);
            }
        }
    } else {
        assert(rest == 0) by (nonlinear_arith)
            requires
                rest == f * (rest / f),
                rest / f == 0,
        ;
    }
}

/// The largest prime that divides `n`: `n` itself where `n` is prime, and 1
/// where `n` is 0 or 1.
pub fn largest_prime_factor(n: usize) -> (r: usize)
    ensures
        n <= 1 ==> r == 1,
        n >= 2 ==> is_largest_prime_factor(r as nat, n as nat),
        r == largest_prime_factor_of(n as nat),
{
    if n <= 1 {
        return 1;
    }
    let mut rest: usize = n;
    let mut max_prime: usize = 1;
    proof {
        lemma_multiple_divides(n as nat, 1);
        assert(is_prime(2)) by {
            assert forall|d: nat| 1 < d < 2 implies !#[trigger] divides(d, 2) by {}
        }
    }
    while rest % 2 == 0
        invariant
            rest >= 1,
            divides(rest as nat, n as nat),
            max_prime == 1 || max_prime == 2,
            max_prime == 1 ==> rest == n,
            max_prime == 2 ==> is_prime_factor(2, n as nat),
            is_prime(2),
            forall|q: nat| #[trigger]
                is_prime_factor(q, n as nat) ==> q <= 2 || divides(q, rest as nat),
        decreases rest,
    {
        proof {
            lemma_cofactor_keeps_primes(n as nat, rest as nat, 2, 2);
            lemma_divides_quotient(2, rest as nat);
            lemma_multiple_divides((rest / 2) as nat, 2);
            lemma_divides_trans((rest / 2) as nat, rest as nat, n as nat);
            lemma_divides_trans(2, rest as nat, n as nat);
        }
        max_prime = 2;
        rest = rest / 2;
    }
    let mut factor: usize = 3;
    assert forall|d: nat| 2 <= d < 3 implies !#[trigger] divides(d, rest as nat) by {}
    while factor <= rest / factor
        invariant
            n >= 2,
            3 <= factor,
            factor % 2 == 1,
            1 <= rest,
            factor <= n + 2,
            divides(rest as nat, n as nat),
            forall|d: nat| 2 <= d < factor ==> !#[trigger] divides(d, rest as nat),
            1 <= max_prime < factor,
            max_prime == 1 ==> rest == n,
            max_prime > 1 ==> is_prime_factor(max_prime as nat, n as nat),
            forall|q: nat| #[trigger]
                is_prime_factor(q, n as nat) ==> q <= max_prime || divides(q, rest as nat),
        decreases n + 2 - factor,
    {
        proof {
            vstd::arithmetic::div_mod::lemma_fundamental_div_mod(rest as int, factor as int);
            assert(factor + 2 <= rest) by (nonlinear_arith)
                requires
                    3 <= factor <= rest / factor,
                    rest == factor * (rest / factor) + rest % factor,
                    0 <= rest % factor,
            ;
            lemma_divisor_bound(rest as nat, n as nat);
        }
        while rest % factor == 0
            invariant
                n >= 2,
                3 <= factor,
                1 <= rest,
                divides(rest as nat, n as nat),
                forall|d: nat| 2 <= d < factor ==> !#[trigger] divides(d, rest as nat),
                1 <= max_prime <= factor,
                max_prime == 1 ==> rest == n,
                max_prime > 1 ==> is_prime_factor(max_prime as nat, n as nat),
                forall|q: nat| #[trigger]
                    is_prime_factor(q, n as nat) ==> q <= max_prime || divides(q, rest as nat),
            decreases rest,
        {
            proof {
                let f = factor as nat;
                assert(is_prime(f)) by {
                    assert forall|d: nat| 1 < d < f implies !#[trigger] divides(d, f) by {
                        if divides(d, f) {
                            lemma_divides_trans(d, f, rest as nat);
                        }
                    }
                }
                lemma_divides_trans(f, rest as nat, n as nat);
                assert forall|q: nat| #[trigger] is_prime_factor(q, n as nat) implies q <= f
                    || divides(q, rest as nat) by {}
                lemma_cofactor_keeps_primes(n as nat, rest as nat, f, f);
                lemma_cofactor_divisors(rest as nat, f, f);
                lemma_divides_trans((rest / factor) as nat, rest as nat, n as nat);
                lemma_divides_quotient(f, rest as nat);
                assert(rest / factor < rest) by (nonlinear_arith)
                    requires
                        rest == factor * (rest / factor),
                        rest >= 1,
                        factor >= 3,
                ;
            }
            max_prime = factor;
            rest = rest / factor;
        }
        proof {
            let even = (factor + 1) as nat;
            if divides(even, rest as nat) {
                assert(even == 2 * ((factor + 1) / 2) as nat);
                lemma_multiple_divides(2, ((factor + 1) / 2) as nat);
                lemma_divides_trans(2, even, rest as nat);
            }
        }
        factor += 2;
    }
    if rest > 1 {
        proof {
            let p = rest as nat;
            assert forall|d: nat| 2 <= d && d * d <= p implies !#[trigger] divides(d, p) by {
                if d >= factor {
                    vstd::arithmetic::div_mod::lemma_fundamental_div_mod(
                        rest as int,
                        factor as int,
                    );
                    assert(d * d > p) by (nonlinear_arith)
                        requires
                            d >= factor,
                            factor > rest / factor,
                            rest == factor * (rest / factor) + rest % factor,
                            rest % factor < factor,
                            p == rest,
                            factor >= 3,
                    ;
                }
            }
            lemma_prime_by_trial(p);
            lemma_multiple_divides(p, 1);
            assert(p >= factor) by {
                if p < factor {
                    assert(divides(p, p));
                }
            }
            assert forall|q: nat| #[trigger] is_prime_factor(q, n as nat) implies q <= p by {
                if divides(q, p) {
                    lemma_divisor_bound(q, p);
                }
            }
        }
        max_prime = rest;
        proof {
            lemma_largest_prime_factor_unique(max_prime as nat, n as nat);
        }
    } else {
        proof {
            assert forall|q: nat| #[trigger] is_prime_factor(q, n as nat) implies q
                <= max_prime by {
                if divides(q, 1) {
                    lemma_divisor_bound(q, 1);
                }
            }
            lemma_largest_prime_factor_unique(max_prime as nat, n as nat);
        }
    }
    max_prime
}

/// `s` lists primes in ascending order, and their product is `n`.
pub open spec fn is_prime_factorisation(s: Seq<usize>, n: nat) -> bool {
    &&& product(s) == n
    &&& forall|i: int| 0 <= i < s.len() ==> is_prime(#[trigger] s[i] as nat)
    &&& forall|i: int, j: int| 0 <= i <= j < s.len() ==> s[i] <= s[j]
}

/// Appending the divisor `f` of `rest` to `v` moves it from the cofactor to
/// the product.
proof fn lemma_move_factor(v: Seq<usize>, f: usize, rest: nat, n: nat)
    requires
        divides(f as nat, rest),
        product(v) * rest == n,
    ensures
        product(v.push(f)) * (rest / (f as nat)) == n,
{
    lemma_product_push(v, f);
    lemma_divides_quotient(f as nat, rest);
    let a = product(v);
    let q = rest / (f as nat);
    assert((a * (f as nat)) * q == a * ((f as nat) * q)) by (nonlinear_arith);
}

/// The prime factors of the odd number `m` in ascending order, each as often
/// as it divides `m`.
pub(crate) fn odd_prime_factors(m: usize) -> (r: Vec<usize>)
    requires
        m % 2 == 1,
    ensures
        is_prime_factorisation(r@, m as nat),
        forall|i: int| 0 <= i < r@.len() ==> #[trigger] r@[i] % 2 == 1,
{
    let mut found: Vec<usize> = Vec::new();
    let mut rest: usize = m;
    let mut factor: usize = 3;
    proof {
        assert(product(found@) * (rest as nat) == m) by (nonlinear_arith)
            requires
                product(found@) == 1,
                rest == m,
        ;
        assert forall|d: nat| 2 <= d < 3 implies !#[trigger] divides(d, rest as nat) by {}
    }
    while factor <= rest / factor
        invariant
            3 <= factor,
            factor % 2 == 1,
            1 <= rest <= m,
            factor <= m + 2,
            product(found@) * (rest as nat) == m,
            forall|d: nat| 2 <= d < factor ==> !#[trigger] divides(d, rest as nat),
            forall|i: int| 0 <= i < found@.len() ==> is_prime(#[trigger] found@[i] as nat),
            forall|i: int| 0 <= i < found@.len() ==> #[trigger] found@[i] < factor,
            forall|i: int| 0 <= i < found@.len() ==> #[trigger] found@[i] % 2 == 1,
            forall|i: int, j: int| 0 <= i <= j < found@.len() ==> found@[i] <= found@[j],
        decreases m + 2 - factor,
    {
        proof {
            vstd::arithmetic::div_mod::lemma_fundamental_div_mod(rest as int, factor as int);
            assert(factor + 2 <= rest) by (nonlinear_arith)
                requires
                    3 <= factor <= rest / factor,
                    rest == factor * (rest / factor) + rest % factor,
                    0 <= rest % factor,
            ;
        }
        while rest % factor == 0
            invariant
                3 <= factor,
                factor % 2 == 1,
                1 <= rest <= m,
                product(found@) * (rest as nat) == m,
                forall|d: nat| 2 <= d < factor ==> !#[trigger] divides(d, rest as nat),
                forall|i: int| 0 <= i < found@.len() ==> is_prime(#[trigger] found@[i] as nat),
                forall|i: int| 0 <= i < found@.len() ==> #[trigger] found@[i] <= factor,
                forall|i: int| 0 <= i < found@.len() ==> #[trigger] found@[i] % 2 == 1,
                forall|i: int, j: int| 0 <= i <= j < found@.len() ==> found@[i] <= found@[j],
            decreases rest,
        {
            proof {
                let f = factor as nat;
                assert(is_prime(f)) by {
                    assert forall|d: nat| 1 < d < f implies !#[trigger] divides(d, f) by {
                        if divides(d, f) {
                            lemma_divides_trans(d, f, rest as nat);
                        }
                    }
                }
                lemma_cofactor_divisors(rest as nat, f, f);
                lemma_move_factor(found@, factor, rest as nat, m as nat);
                lemma_divides_quotient(f, rest as nat);
                assert(1 <= rest / factor < rest) by (nonlinear_arith)
                    requires
                        rest == factor * (rest / factor),
                        rest >= 1,
                        factor >= 3,
                ;
            }
            found.push(factor);
            rest = rest / factor;
        }
        proof {
            let even = (factor + 1) as nat;
            if divides(even, rest as nat) {
                assert(even == 2 * ((factor + 1) / 2) as nat);
                lemma_multiple_divides(2, ((factor + 1) / 2) as nat);
                lemma_divides_trans(2, even, rest as nat);
            }
        }
        factor += 2;
    }
    if rest > 1 {
        proof {
            let p = rest as nat;
            assert forall|d: nat| 2 <= d && d * d <= p implies !#[trigger] divides(d, p) by {
                if d >= factor {
                    vstd::arithmetic::div_mod::lemma_fundamental_div_mod(
                        rest as int,
                        factor as int,
                    );
                    assert(d * d > p) by (nonlinear_arith)
                        requires
                            d >= factor,
                            factor > rest / factor,
                            rest == factor * (rest / factor) + rest % factor,
                            rest % factor < factor,
                            p == rest,
                            factor >= 3,
                    ;
                }
            }
            lemma_prime_by_trial(p);
            lemma_multiple_divides(p, 1);
            assert(p >= factor) by {
                if p < factor {
                    assert(divides(p, p));
                }
            }
            assert(!divides(2, p));
            lemma_move_factor(found@, rest, rest as nat, m as nat);
            assert(rest as nat / rest as nat == 1) by {
                lemma_divides_quotient(p, p);
                assert(p / p == 1) by (nonlinear_arith)
                    requires
                        p == p * (p / p),
                        p >= 1,
                ;
            }
        }
        let ghost whole = product(found@.push(rest));
        found.push(rest);
        assert(whole == m) by (nonlinear_arith)
            requires
                whole * (rest as nat / rest as nat) == m,
                rest as nat / rest as nat == 1,
        ;
    } else {
        assert(product(found@) == m) by (nonlinear_arith)
            requires
                product(found@) * (rest as nat) == m,
                rest == 1,
        ;
    }
    found
}

/// The prime factors of `n` in ascending order, each as often as it divides
/// `n`; none for 0 and for 1.
pub fn prime_factors(n: usize) -> (r: Vec<usize>)
    ensures
        n == 0 ==> r@.len() == 0,
        n >= 1 ==> is_prime_factorisation(r@, n as nat),
{
    let mut found: Vec<usize> = Vec::new();
    if n == 0 {
        return found;
    }
    let mut rest: usize = n;
    proof {
        assert(is_prime(2)) by {
            assert forall|d: nat| 1 < d < 2 implies !#[trigger] divides(d, 2) by {}
        }
        assert(product(found@) * (rest as nat) == n) by (nonlinear_arith)
            requires
                product(found@) == 1,
                rest == n,
        ;
    }
    while rest % 2 == 0
        invariant
            1 <= rest <= n,
            is_prime(2),
            product(found@) * (rest as nat) == n,
            forall|i: int| 0 <= i < found@.len() ==> #[trigger] found@[i] == 2,
        decreases rest,
    {
        proof {
            lemma_move_factor(found@, 2, rest as nat, n as nat);
        }
        found.push(2);
        rest = rest / 2;
    }
    let mut odd = odd_prime_factors(rest);
    proof {
        lemma_product_concat(found@, odd@);
    }
    found.append(&mut odd);
    found
}

/// The `k`-th of the five small primes.
fn small_prime_at(k: usize) -> (p: usize)
    requires
        k < 5,
    ensures
        p == small_prime(k as nat),
{
    if k == 0 {
        2
    } else if k == 1 {
        3
    } else if k == 2 {
        5
    } else if k == 3 {
        7
    } else {
        11
    }
}

/// The smaller of `best` and the least number from `n` upwards that is
/// `start` times a product of small primes, none before the `k`-th.
fn least_reachable(k: usize, start: usize, n: usize, best: usize) -> (r: usize)
    requires
        k <= 5,
        1 <= start < best,
    ensures
        r <= best,
        r == best || (n <= r && reachable(r as nat, start as nat, k as nat)),
        forall|m: nat| #[trigger] reachable(m, start as nat, k as nat) && n <= m ==> r <= m,
    decreases 5 - k,
{
    if k == 5 {
        proof {
            assert forall|m: nat| #[trigger] reachable(m, start as nat, 5) implies m == start by {
                lemma_reachable_at_end(m, start as nat);
            }
            lemma_reachable_at_end(start as nat, start as nat);
        }
        if start >= n {
            start
        } else {
            best
        }
    } else {
        let p = small_prime_at(k);
        let mut f: usize = start;
        let mut cur: usize = best;
        let mut done = false;
        while !done && f < cur
            invariant
                k < 5,
                p == small_prime(k as nat),
                1 <= start <= f,
                cur <= best,
                cur == best || (n <= cur && reachable(cur as nat, start as nat, k as nat)),
                forall|m: nat| #[trigger]
                    reachable(m, f as nat, k as nat) ==> reachable(m, start as nat, k as nat),
                forall|m: nat| #[trigger]
                    reachable(m, start as nat, k as nat) && n <= m ==> cur <= m || (!done
                        && reachable(m, f as nat, k as nat)),
            decreases
                    (if done {
                        0
                    } else {
                        cur - f + 1
                    }),
        {
            let ghost before = cur;
            cur = least_reachable(k + 1, f, n, cur);
            proof {
                if cur != before {
                    lemma_reachable_join(cur as nat, f as nat, k as nat);
                }
            }
            if f > cur / p {
                proof {
                    vstd::arithmetic::div_mod::lemma_fundamental_div_mod(cur as int, p as int);
                    assert(f * p > cur) by (nonlinear_arith)
                        requires
                            f > cur / p,
                            cur == p * (cur / p) + cur % p,
                            cur % p < p,
                    ;
                    assert forall|m: nat| #[trigger]
                        reachable(m, start as nat, k as nat) && n <= m implies cur <= m by {
                        if before > m {
                            lemma_reachable_split(m, f as nat, k as nat);
                            if !reachable(m, f as nat, (k + 1) as nat) {
                                lemma_reachable_lower_bound(m, (f * p) as nat, k as nat);
                            }
                        }
                    }
                }
                done = true;
            } else {
                let ghost next = (f * p) as nat;
                proof {
                    vstd::arithmetic::div_mod::lemma_fundamental_div_mod(cur as int, p as int);
                    assert(f * p <= cur && f * p > f) by (nonlinear_arith)
                        requires
                            1 <= f <= cur / p,
                            cur == p * (cur / p) + cur % p,
                            0 <= cur % p,
                            p >= 2,
                    ;
                    assert forall|m: nat| #[trigger] reachable(m, next, k as nat) implies reachable(
                        m,
                        start as nat,
                        k as nat,
                    ) by {
                        lemma_reachable_join(m, f as nat, k as nat);
                    }
                    assert forall|m: nat| #[trigger]
                        reachable(m, start as nat, k as nat) && n <= m implies cur <= m
                        || reachable(m, next, k as nat) by {
                        if before > m {
                            lemma_reachable_split(m, f as nat, k as nat);
                        }
                    }
                }
                f = f * p;
            }
        }
        proof {
            assert forall|m: nat| #[trigger]
                reachable(m, start as nat, k as nat) && n <= m implies cur <= m by {
                if cur > m {
                    lemma_reachable_lower_bound(m, f as nat, k as nat);
                }
            }
        }
        cur
    }
}

/// The smallest smooth number from `n` upwards, and 0 for 0.
pub open spec fn good_size_of(n: nat) -> nat {
    if n == 0 {
        0
    } else {
        choose|r: nat| is_least_smooth_from(r, n)
    }
}

/// There is at most one smallest smooth number from `n` upwards.
pub proof fn lemma_good_size_unique(r: nat, n: nat)
    requires
        n >= 1,
        is_least_smooth_from(r, n),
    ensures
        r == good_size_of(n),
{
    let c = choose|c: nat| is_least_smooth_from(c, n);
    if c < r {
        assert(!is_smooth(c));
    }
    if r < c {
        assert(!is_smooth(r));
    }
}

/// The smallest length from `n` upwards that factors into 2, 3, 5, 7 and 11
/// only; `n` itself up to 6. The search starts with `2 * n` as its bound, so
/// `n` is at most half the largest `usize`.
pub fn good_size(n: usize) -> (r: usize)
    requires
        n <= usize::MAX / 2,
    ensures
        n <= 6 ==> r == n,
        n >= 1 ==> is_least_smooth_from(r as nat, n as nat),
        r == good_size_of(n as nat),
        n >= 1 ==> r < 2 * n,
{
    if n == 0 {
        return 0;
    }
    let r = least_reachable(0, 1, n, 2 * n);
    proof {
        assert forall|m: nat| reachable(m, 1, 0) <==> smooth_from(m, 0) by {
            assert(m % 1 == 0);
            assert(m / 1 == m);
        }
        let w = lemma_smooth_below_double(n as nat);
        assert(reachable(w, 1, 0));
        lemma_smooth_characterisation(r as nat);
        assert forall|m: nat| n <= m < r implies !#[trigger] is_smooth(m) by {
            lemma_smooth_characterisation(m);
            if is_smooth(m) {
                assert(reachable(m, 1, 0));
            }
        }
        if n <= 6 {
            small_lengths_are_smooth(n as nat);
            assert(reachable(n as nat, 1, 0));
        }
        lemma_good_size_unique(r as nat, n as nat);
    }
    r
}

/// Every length from 1 to 6 is smooth.
proof fn small_lengths_are_smooth(n: nat)
    requires
        1 <= n <= 6,
    ensures
        smooth_from(n, 0),
{
    lemma_one_is_smooth(0);
    lemma_smooth_from_times(1, 0, 0);
    lemma_smooth_from_times(1, 0, 1);
    lemma_smooth_from_times(1, 0, 2);
    lemma_smooth_from_times(2, 0, 0);
    lemma_smooth_from_times(3, 0, 0);
}

} // verus!
