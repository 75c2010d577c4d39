//! The chirp-convolution plan: a transform of any length `n`, run as a
//! convolution of a padded length `n2` that factors into small primes.
//!
//! The chirp `exp(i * pi * m * m / n)` is held by its index among the
//! `2 * n`-th roots of unity.

use crate::algorithms::cooleytukey::CooleyTukey;
use crate::math::{good_size, good_size_of};
use vstd::arithmetic::div_mod::{
    lemma_fundamental_div_mod, lemma_fundamental_div_mod_converse, lemma_small_mod,
};
use vstd::prelude::*;

verus! {

/// The index of the `m`-th chirp value among the `2 * n`-th roots of unity.
pub open spec fn chirp_root(m: nat, n: nat) -> nat {
    (m * m) % (2 * n)
}

/// `bk` is the chirp of length `n`.
pub open spec fn is_chirp(bk: Seq<usize>, n: nat) -> bool {
    &&& bk.len() == n
    &&& forall|m: int| 0 <= m < n ==> #[trigger] bk[m] == chirp_root(m as nat, n)
}

/// The length that a convolution for transforms of length `n` is padded to.
pub open spec fn padded_len(n: nat) -> nat {
    if n == 0 {
        0
    } else {
        good_size_of((2 * n - 1) as nat)
    }
}

/// Which chirp value the convolution filter of a transform of length `n`,
/// padded to `n2`, holds at `pos`: the filter is the chirp laid out from
/// the start and, mirrored, from the end, with nothing in between.
pub open spec fn tap_at(n: nat, n2: nat, pos: nat) -> Option<nat> {
    if pos < n {
        Some(pos)
    } else if n2 - pos < n {
        Some((n2 - pos) as nat)
    } else {
        None
    }
}

/// From one chirp index to the next: the squares of successive numbers
/// differ by an odd number.
proof fn lemma_chirp_step(m: nat, n: nat, coeff: nat)
    requires
        1 <= m < n,
        coeff == chirp_root((m - 1) as nat, n),
    ensures
        coeff + 2 * m - 1 < 4 * n,
        coeff + 2 * m - 1 >= 2 * n ==> chirp_root(m, n) == coeff + 2 * m - 1 - 2 * n,
        coeff + 2 * m - 1 < 2 * n ==> chirp_root(m, n) == coeff + 2 * m - 1,
{
    let d = (2 * n) as int;
    let before = ((m - 1) * (m - 1)) as int;
    let q = before / d;
    lemma_fundamental_div_mod(before, d);
    assert(m * m == before + 2 * m - 1) by (nonlinear_arith)
        requires
            before == (m - 1) * (m - 1),
    ;
    let sum = coeff + 2 * m - 1;
    if sum >= d {
        assert(m * m == (q + 1) * d + (sum - d)) by (nonlinear_arith)
            requires
                m * m == before + 2 * m - 1,
                before == d * q + coeff,
                sum == coeff + 2 * m - 1,
        ;
        lemma_fundamental_div_mod_converse((m * m) as int, d, q + 1, sum - d);
    } else {
        assert(m * m == q * d + sum) by (nonlinear_arith)
            requires
                m * m == before + 2 * m - 1,
                before == d * q + coeff,
                sum == coeff + 2 * m - 1,
        ;
        lemma_fundamental_div_mod_converse((m * m) as int, d, q, sum);
    }
}

/// The chirp of length `n`, each value found from the one before.
fn chirp(n: usize) -> (bk: Vec<usize>)
    requires
        n <= usize::MAX / 4,
    ensures
        is_chirp(bk@, n as nat),
{
    let mut bk: Vec<usize> = Vec::new();
    if n == 0 {
        return bk;
    }
    bk.push(0);
    let mut coeff: usize = 0;
    let mut m: usize = 1;
    proof {
        lemma_small_mod(0, (2 * n) as nat);
        assert(chirp_root(0, n as nat) == 0);
    }
    while m < n
        invariant
            1 <= m <= n <= usize::MAX / 4,
            bk@.len() == m,
            coeff == chirp_root((m - 1) as nat, n as nat),
            forall|k: int| 0 <= k < m ==> #[trigger] bk@[k] == chirp_root(k as nat, n as nat),
        decreases n - m,
    {
        proof {
            lemma_chirp_step(m as nat, n as nat, coeff as nat);
        }
        coeff = coeff + (2 * m - 1);
        if coeff >= 2 * n {
            coeff = coeff - 2 * n;
        }
        bk.push(coeff);
        m += 1;
    }
    bk
}

/// A plan for chirp-convolution transforms of one length.
pub struct Bluestein {
    n: usize,
    n2: usize,
    plan: CooleyTukey,
    bk: Vec<usize>,
}

impl Bluestein {
    /// The length that the plan transforms.
    pub closed spec fn spec_len(&self) -> nat {
        self.n as nat
    }

    /// The length that the convolution is padded to.
    pub closed spec fn spec_padded_len(&self) -> nat {
        self.n2 as nat
    }

    /// The mixed-radix plan that runs the padded convolution.
    pub closed spec fn inner(&self) -> CooleyTukey {
        self.plan
    }

    /// The chirp, by its indices among the `2 * n`-th roots of unity.
    pub closed spec fn chirp_indices(&self) -> Seq<usize> {
        self.bk@
    }

    /// The padded length is the smallest smooth length that holds the
    /// convolution, the inner plan is one of that length, and the chirp is
    /// that of the plan's length.
    pub open spec fn wf(&self) -> bool {
        &&& self.spec_len() <= usize::MAX / 4
        &&& self.spec_padded_len() == padded_len(self.spec_len())
        &&& self.spec_len() >= 1 ==> 2 * self.spec_len() - 1 <= self.spec_padded_len()
        &&& self.inner().wf()
        &&& self.inner().spec_len() == self.spec_padded_len()
        &&& is_chirp(self.chirp_indices(), self.spec_len())
    }

    #[verifier::type_invariant]
    closed spec fn inv(&self) -> bool {
        self.wf()
    }

    /// Plans transforms of length `length`, which is at most a quarter of the
    /// largest `usize`: the convolution is padded to up to four times the
    /// length.
    pub fn new(length: usize) -> (plan: Bluestein)
        requires
            length <= usize::MAX / 4,
        ensures
            plan.spec_len() == length,
            plan.wf(),
    {
        let n = length;
        let n2 = if length == 0 {
            0
        } else {
            good_size(n * 2 - 1)
        };
        let plan = CooleyTukey::new(n2);
        let bk = chirp(n);
        Bluestein { n, n2, plan, bk }
    }

    /// The length that the plan transforms.
    pub fn len(&self) -> (n: usize)
        ensures
            n == self.spec_len(),
    {
        self.n
    }

    /// The length that the convolution is padded to.
    pub fn padded_len(&self) -> (n2: usize)
        ensures
            n2 == self.spec_padded_len(),
            self.wf(),
    {
        proof {
            use_type_invariant(self);
        }
        self.n2
    }

    /// The mixed-radix plan that runs the padded convolution.
    pub fn plan(&self) -> (plan: &CooleyTukey)
        ensures
            *plan == self.inner(),
            self.wf(),
    {
        proof {
            use_type_invariant(self);
        }
        &self.plan
    }

    /// The chirp, by its indices among the `2 * n`-th roots of unity.
    pub fn chirp(&self) -> (bk: &Vec<usize>)
        ensures
            bk@ == self.chirp_indices(),
            self.wf(),
    {
        proof {
            use_type_invariant(self);
        }
        &self.bk
    }

    /// Which chirp value the convolution filter holds at `pos`, if any.
    pub fn filter_tap(&self, pos: usize) -> (tap: Option<usize>)
        requires
            pos < self.spec_padded_len(),
        ensures
            self.wf(),
            tap matches Some(m) ==> tap_at(self.spec_len(), self.spec_padded_len(), pos as nat)
                == Some(m as nat) && m < self.spec_len(),
            tap is None ==> tap_at(self.spec_len(), self.spec_padded_len(), pos as nat) is None,
    {
        proof {
            use_type_invariant(self);
        }
        if pos < self.n {
            Some(pos)
        } else if self.n2 - pos < self.n {
            Some(self.n2 - pos)
        } else {
            None
        }
    }

    /// Whether a buffer of `n` samples is to be transformed: an error if `n`
    /// is not the plan's length, `false` if the transform of that length
    /// changes nothing, which is so under two samples.
    pub fn accept(&self, n: usize) -> (r: Result<bool, ()>)
        ensures
            r is Err <==> n != self.spec_len(),
            r matches Ok(run) ==> run == (n >= 2),
    {
        if n != self.n {
            Err(())
        } else {
            Ok(self.n >= 2)
        }
    }
}

/// The filter is symmetric about the start of the buffer: it holds at `pos`
/// what it holds at `n2 - pos`.
pub proof fn lemma_filter_symmetric(n: nat, n2: nat, pos: nat)
    requires
        n >= 1,
        n2 >= 2 * n - 1,
        0 < pos < n2,
    ensures
        tap_at(n, n2, pos) == tap_at(n, n2, (n2 - pos) as nat),
{
}

/// The padding is long enough: in a convolution that wraps round at `n2`,
/// output `k` meets input `j` at the chirp value of their distance, whichever
/// of the two is larger.
pub proof fn lemma_filter_serves_every_lag(n: nat, n2: nat, j: nat, k: nat)
    requires
        j < n,
        k < n,
        n2 >= 2 * n - 1,
    ensures
        tap_at(n, n2, ((k - j) % (n2 as int)) as nat) == Some(
            if k >= j {
                (k - j) as nat
            } else {
                (j - k) as nat
            },
        ),
{
    if k >= j {
        lemma_small_mod((k - j) as nat, n2);
    } else {
        lemma_fundamental_div_mod_converse(k - j, n2 as int, -1, n2 - (j - k));
    }
}

/// The identity that turns a transform into a convolution: among the
/// `2 * n`-th roots of unity, the chirp values of `j` and of `k` together
/// are the chirp value of their distance and the root `2 * j * k`, which
/// is the root `j * k` of order `n`.
pub proof fn lemma_chirp_identity(n: nat, j: nat, k: nat)
    requires
        n >= 1,
        j <= k,
    ensures
        (chirp_root(j, n) + chirp_root(k, n)) % (2 * n) == (chirp_root((k - j) as nat, n) + 2
            * j * k) % (2 * n),
{
    let d = (2 * n) as int;
    let lag = (k - j) as nat;
    assert(j * j + k * k == lag * lag + 2 * j * k) by (nonlinear_arith)
        requires
            lag == k - j,
    ;
    vstd::arithmetic::div_mod::lemma_add_mod_noop((j * j) as int, (k * k) as int, d);
    vstd::arithmetic::div_mod::lemma_add_mod_noop((lag * lag) as int, (2 * j * k) as int, d);
    vstd::arithmetic::div_mod::lemma_add_mod_noop(
        ((lag * lag) % (d as nat)) as int,
        (2 * j * k) as int,
        d,
    );
    vstd::arithmetic::div_mod::lemma_mod_twice((lag * lag) as int, d);
}

} // verus!
