//! Products of sequences of factors, as the planner splits a length.

use vstd::prelude::*;

verus! {

/// The product of the entries of `s`; one for the empty sequence.
pub open spec fn product(s: Seq<usize>) -> nat
    decreases s.len(),
{
    if s.len() == 0 {
        1
    } else {
        product(s.drop_last()) * (s.last() as nat)
    }
}

/// Appending a factor multiplies the product by it.
pub proof fn lemma_product_push(s: Seq<usize>, x: usize)
    ensures
        product(s.push(x)) == product(s) * (x as nat),
{
    assert(s.push(x).drop_last() =~= s);
}

/// The product of the first `k + 1` entries is the product of the first `k`
/// times the entry at `k`.
pub proof fn lemma_product_take_next(s: Seq<usize>, k: int)
    requires
        0 <= k < s.len(),
    ensures
        product(s.take(k + 1)) == product(s.take(k)) * (s[k] as nat),
{
    assert(s.take(k + 1).drop_last() =~= s.take(k));
}

/// A product of positive factors is positive.
pub proof fn lemma_product_positive(s: Seq<usize>)
    requires
        forall|i: int| 0 <= i < s.len() ==> s[i] > 0,
    ensures
        product(s) > 0,
    decreases s.len(),
{
    if s.len() > 0 {
        lemma_product_positive(s.drop_last());
        assert(product(s.drop_last()) * (s.last() as nat) > 0) by (nonlinear_arith)
            requires
                product(s.drop_last()) > 0,
                s.last() > 0,
        ;
    }
}

/// The product of a sequence is the product of any prefix times the product
/// of the rest.
pub proof fn lemma_product_split(s: Seq<usize>, k: int)
    requires
        0 <= k <= s.len(),
    ensures
        product(s) == product(s.take(k)) * product(s.skip(k)),
    decreases s.len(),
{
    if k == s.len() {
        assert(s.take(k) =~= s);
        assert(s.skip(k) =~= Seq::<usize>::empty());
        assert(product(s) * 1 == product(s)) by (nonlinear_arith);
    } else {
        let front = s.drop_last();
        lemma_product_split(front, k);
        assert(front.take(k) =~= s.take(k));
        assert(front.skip(k) =~= s.skip(k).drop_last());
        assert(s.skip(k).last() == s.last());
        let a = product(s.take(k));
        let b = product(s.skip(k).drop_last());
        let c = s.last() as nat;
        assert((a * b) * c == a * (b * c)) by (nonlinear_arith);
    }
}

/// The product of two sequences laid end to end is the product of their
/// products.
pub proof fn lemma_product_concat(a: Seq<usize>, b: Seq<usize>)
    ensures
        product(a + b) == product(a) * product(b),
{
    lemma_product_split(a + b, a.len() as int);
    assert((a + b).take(a.len() as int) =~= a);
    assert((a + b).skip(a.len() as int) =~= b);
}

/// Putting a factor in front multiplies the product by it.
pub proof fn lemma_product_prepend(s: Seq<usize>, x: usize)
    ensures
        product(s.insert(0, x)) == (x as nat) * product(s),
{
    let one = Seq::<usize>::empty().push(x);
    assert(s.insert(0, x) =~= one + s);
    lemma_product_concat(one, s);
    lemma_product_push(Seq::<usize>::empty(), x);
    assert(product(one) == x as nat) by (nonlinear_arith)
        requires
            product(one) == product(Seq::<usize>::empty()) * (x as nat),
            product(Seq::<usize>::empty()) == 1,
    ;
}

} // verus!
