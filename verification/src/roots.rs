//! Where each root of unity is found. Only the roots in the first eighth of
//! the circle are computed; every other root is one of those with its two
//! parts exchanged or negated. This module says which one, and how.
//!
//! Angles are counted in `den`-ths of a turn, where `den` is the order of
//! the roots, doubled or quadrupled until four divides it.

use vstd::prelude::*;

verus! {

/// The order of the roots whose first octant serves the roots of order `n`:
/// `n`, doubled or quadrupled until four divides it.
pub open spec fn octant_den(n: nat) -> nat {
    if n % 4 == 0 {
        n
    } else if n % 2 == 0 {
        2 * n
    } else {
        4 * n
    }
}

/// The angle of the `k`-th root of order `n`, in `octant_den(n)`-ths of a
/// turn.
pub open spec fn octant_angle(n: nat, k: nat) -> nat {
    if n % 4 == 0 {
        k
    } else if n % 2 == 0 {
        2 * k
    } else {
        4 * k
    }
}

/// One root of unity, as made from an entry of the first-octant table: the
/// entry at `index`, with its real and imaginary part exchanged if `swap`,
/// then its real part negated if `neg_re`, then its imaginary part negated
/// if `neg_im`.
#[derive(Clone, Copy, Debug)]
pub struct Reflection {
    pub index: usize,
    pub swap: bool,
    pub neg_re: bool,
    pub neg_im: bool,
}

/// The angle of the point that `r` makes of the point at angle `r.index`.
/// Exchanging the two parts of a point mirrors its angle at an eighth of a
/// turn, negating the real part mirrors it at a quarter, and negating the
/// imaginary part mirrors it at zero.
pub open spec fn reflected_angle(r: Reflection, den: int) -> int {
    let at_index = r.index as int;
    let swapped = if r.swap {
        den / 4 - at_index
    } else {
        at_index
    };
    let mirrored = if r.neg_re {
        den / 2 - swapped
    } else {
        swapped
    };
    if r.neg_im {
        -mirrored
    } else {
        mirrored
    }
}

/// `r` reads from the first octant, and makes of what it reads the `k`-th
/// root of order `n`: the angles agree up to a whole turn.
pub open spec fn is_root_source(r: Reflection, n: nat, k: nat) -> bool {
    let den = octant_den(n) as int;
    let angle = octant_angle(n, k) as int;
    &&& 8 * r.index <= den
    &&& 8 * r.index == den ==> n % 8 == 0
    &&& reflected_angle(r, den) == angle || reflected_angle(r, den) + den == angle
}

/// The order of the roots whose first octant serves the roots of order `n`:
/// `n` itself where four divides it, else `2 * n` where two does, else
/// `4 * n`. The order is at most a quarter of the largest `usize`.
pub fn octant_denominator(n: usize) -> (den: usize)
    requires
        n <= usize::MAX / 4,
    ensures
        den == octant_den(n as nat),
{
    if n % 4 == 0 {
        n
    } else if n % 2 == 0 {
        2 * n
    } else {
        4 * n
    }
}

/// The first-quadrant root `k` of an order `n` that four divides.
fn quadrant_source(n: usize, k: usize) -> (r: Reflection)
    requires
        n % 4 == 0,
        n <= usize::MAX / 4,
        k < n / 4,
    ensures
        !r.neg_re && !r.neg_im,
        8 * r.index <= n,
        if r.swap {
            r.index == n / 4 - k
        } else {
            r.index == k
        },
{
    if 8 * k <= n {
        Reflection { index: k, swap: false, neg_re: false, neg_im: false }
    } else {
        Reflection { index: n / 4 - k, swap: true, neg_re: false, neg_im: false }
    }
}

/// Root `k` of an order `n` that four divides. The second quadrant is the
/// first turned by a quarter, and the second half is the first negated.
fn source_by_quarters(n: usize, k: usize) -> (r: Reflection)
    requires
        n % 4 == 0,
        n <= usize::MAX / 4,
        k < n,
    ensures
        is_root_source(r, n as nat, k as nat),
{
    let quart = n / 4;
    let half = n / 2;
    let in_first_half = if k >= half {
        k - half
    } else {
        k
    };
    let in_first_quadrant = if in_first_half >= quart {
        in_first_half - quart
    } else {
        in_first_half
    };
    let base = quadrant_source(n, in_first_quadrant);
    let turned = if in_first_half >= quart {
        Reflection { index: base.index, swap: !base.swap, neg_re: true, neg_im: false }
    } else {
        base
    };
    if k >= half {
        Reflection { index: turned.index, swap: turned.swap, neg_re: !turned.neg_re, neg_im: true }
    } else {
        turned
    }
}

/// Root `k` of an order `n` that two divides and four does not. The first
/// quadrant is read from the roots of order `2 * n`, the second quadrant is
/// the first mirrored, and the second half is the first negated.
fn source_by_halves(n: usize, k: usize) -> (r: Reflection)
    requires
        n % 4 == 2,
        n <= usize::MAX / 4,
        k < n,
    ensures
        is_root_source(r, n as nat, k as nat),
{
    let quart = n / 4;
    let half = n / 2;
    let ndone = quart + 1;
    assert(n == 4 * quart + 2 && half == 2 * quart + 1);
    let in_first_half = if k >= half {
        k - half
    } else {
        k
    };
    let in_first_quadrant = if in_first_half > quart {
        half - in_first_half
    } else {
        in_first_half
    };
    let base = if 2 * in_first_quadrant < ndone {
        Reflection { index: 2 * in_first_quadrant, swap: false, neg_re: false, neg_im: false }
    } else {
        Reflection {
            index: 2 * (ndone - 1 - in_first_quadrant) + 1,
            swap: true,
            neg_re: false,
            neg_im: false,
        }
    };
    let mirrored = if in_first_half > quart {
        Reflection { index: base.index, swap: base.swap, neg_re: true, neg_im: false }
    } else {
        base
    };
    if k >= half {
        Reflection {
            index: mirrored.index,
            swap: mirrored.swap,
            neg_re: !mirrored.neg_re,
            neg_im: true,
        }
    } else {
        mirrored
    }
}

/// Root `k` of an odd order `n`. The first half is read from the roots of
/// order `4 * n`, and the second half is the first conjugated.
fn source_by_octants(n: usize, k: usize) -> (r: Reflection)
    requires
        n % 2 == 1,
        n <= usize::MAX / 4,
        k < n,
    ensures
        is_root_source(r, n as nat, k as nat),
{
    let ndone = (n + 1) / 2;
    let in_first_half = if k >= ndone {
        n - k
    } else {
        k
    };
    let i4 = 4 * in_first_half;
    let base = if 2 * i4 <= n {
        Reflection { index: i4, swap: false, neg_re: false, neg_im: false }
    } else if i4 <= n {
        Reflection { index: n - i4, swap: true, neg_re: false, neg_im: false }
    } else if 2 * i4 <= 3 * n {
        Reflection { index: i4 - n, swap: true, neg_re: true, neg_im: false }
    } else {
        Reflection { index: 2 * n - i4, swap: false, neg_re: true, neg_im: false }
    };
    if k >= ndone {
        Reflection { index: base.index, swap: base.swap, neg_re: base.neg_re, neg_im: true }
    } else {
        base
    }
}

/// Which entry of the first-octant table the `k`-th root of order `n` is
/// made from, and how. The order is at most a quarter of the largest
/// `usize`, so that it can be quadrupled.
pub fn root_source(n: usize, k: usize) -> (r: Reflection)
    requires
        n <= usize::MAX / 4,
        k < n,
    ensures
        is_root_source(r, n as nat, k as nat),
{
    if n % 4 == 0 {
        source_by_quarters(n, k)
    } else if n % 2 == 0 {
        source_by_halves(n, k)
    } else {
        source_by_octants(n, k)
    }
}

} // verus!
