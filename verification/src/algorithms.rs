//! The two transform strategies and the choice between them.

pub mod bluestein;
pub mod cooleytukey;
pub mod exact;
pub mod pass;

use crate::algorithms::bluestein::Bluestein;
use crate::algorithms::cooleytukey::CooleyTukey;
use crate::math::{largest_prime_factor, largest_prime_factor_of};
use vstd::prelude::*;

verus! {

/// A length under 50, or one whose largest prime factor is at most its
/// square root, always goes to the mixed-radix plan: it factors well.
pub open spec fn factors_well(length: nat) -> bool {
    length < 50 || largest_prime_factor_of(length) * largest_prime_factor_of(length) <= length
}

/// Whether a transform of length `length` goes to the mixed-radix plan
/// whatever the two strategies are estimated to cost.
pub fn mixed_radix_suffices(length: usize) -> (r: bool)
    ensures
        r == factors_well(length as nat),
{
    if length < 50 {
        return true;
    }
    let p = largest_prime_factor(length);
    proof {
        vstd::arithmetic::div_mod::lemma_fundamental_div_mod(length as int, p as int);
        let q = (length / p) as int;
        let rem = (length % p) as int;
        if p <= q {
            assert(p * p <= length) by (nonlinear_arith)
                requires
                    1 <= p <= q,
                    length == p * q + rem,
                    0 <= rem,
            ;
        } else {
            assert(p * p > length) by (nonlinear_arith)
                requires
                    p >= q + 1,
                    length == p * q + rem,
                    0 <= rem < p,
            ;
        }
    }
    p <= length / p
}

/// A plan for transforms of one length, by one of the two strategies.
pub enum CfftPlan {
    Ct(CooleyTukey),
    Bs(Bluestein),
}

impl CfftPlan {
    /// The length that the plan transforms.
    pub open spec fn spec_len(&self) -> nat {
        match self {
            CfftPlan::Ct(ct) => ct.spec_len(),
            CfftPlan::Bs(bs) => bs.spec_len(),
        }
    }

    /// The plan inside is well formed.
    pub open spec fn wf(&self) -> bool {
        match self {
            CfftPlan::Ct(ct) => ct.wf(),
            CfftPlan::Bs(bs) => bs.wf(),
        }
    }

    /// Plans transforms of length `length`. The chirp convolution is chosen
    /// where the length does not factor well and `bluestein_cheaper` says
    /// that its estimated cost is the lower one; the mixed-radix plan
    /// everywhere else. Where the chirp convolution is chosen, the length is
    /// at most a quarter of the largest `usize`.
    pub fn new(length: usize, bluestein_cheaper: bool) -> (plan: CfftPlan)
        requires
            !factors_well(length as nat) && bluestein_cheaper ==> length <= usize::MAX / 4,
        ensures
            plan.spec_len() == length,
            plan.wf(),
            plan is Bs <==> !factors_well(length as nat) && bluestein_cheaper,
    {
        if mixed_radix_suffices(length) || !bluestein_cheaper {
            CfftPlan::Ct(CooleyTukey::new(length))
        } else {
            CfftPlan::Bs(Bluestein::new(length))
        }
    }

    /// The length that the plan transforms.
    pub fn len(&self) -> (n: usize)
        ensures
            n == self.spec_len(),
    {
        match self {
            CfftPlan::Ct(ct) => ct.len(),
            CfftPlan::Bs(bs) => bs.len(),
        }
    }
}

} // verus!
