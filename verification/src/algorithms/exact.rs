//! What a run of the stages computes, in exact arithmetic.
//!
//! A transform of length `len` multiplies its samples by powers of one root
//! of unity `w` of order `len` and adds them up. This module follows the
//! powers through the stages of a plan: after every stage each sample is a
//! sum of terms, and a term is one input sample times a power of `w`. The
//! result is that the last stage leaves at place `k` the sum over all `j` of
//! input `j` times `w` to the power `j * k`, which is the discrete Fourier
//! transform, forward or backward as `w` turns.

use crate::algorithms::cooleytukey::{
    ido_at, is_radix_sequence, is_stage, l1_at, lemma_stage_geometry, CooleyTukey, FactorData,
};
use crate::algorithms::pass::twiddle_slot;
use crate::primes::lemma_exact_division;
use vstd::arithmetic::div_mod::{
    lemma_div_denominator, lemma_fundamental_div_mod, lemma_fundamental_div_mod_converse,
    lemma_mod_multiples_vanish,
};
use vstd::prelude::*;

verus! {

/// One term of a sum: the input sample at `slot`, times `w` to the power
/// `power`.
pub struct Term {
    pub slot: int,
    pub power: int,
}

/// The distance between the samples of one sum after `t` stages: the length
/// over the product of the radices of those stages.
pub open spec fn span_at(radices: Seq<usize>, len: nat, t: int) -> int {
    len as int / l1_at(radices, t) as int
}

/// The power of `w` by which a stage of radix `ip`, with `l1` groups and
/// `ido` positions, multiplies input `m` of a butterfly on its way
/// to output `j` at position `i`: the twiddle factor of `j` and `i`, which is
/// the root `j * l1 * i`, and the power `j * m` of the root of order `ip`,
/// which is the root `l1 * ido`.
pub open spec fn butterfly_power(l1: int, ido: int, i: int, j: int, m: int) -> int {
    j * l1 * i + l1 * ido * (j * m)
}

/// Term `n` of the sum that stands at place `at` after the first `t` stages.
/// Before the first stage every place holds its own sample. A stage makes
/// output `j` of group `k` at position `i` from the `ip` inputs of that
/// group at that position, so the terms of an output are the terms of
/// its inputs, each with the power of the butterfly added.
pub open spec fn term_after(radices: Seq<usize>, len: nat, t: int, at: int, n: int) -> Term
    decreases t,
{
    if t <= 0 {
        Term { slot: at, power: 0 }
    } else {
        let ip = radices[t - 1] as int;
        let l1 = l1_at(radices, t - 1) as int;
        let ido = ido_at(radices, len, t - 1) as int;
        let i = at % ido;
        let k = (at / ido) % l1;
        let j = at / (ido * l1);
        let m = n % ip;
        let inner = term_after(radices, len, t - 1, i + ido * (m + ip * k), n / ip);
        Term {
            slot: inner.slot,
            power: (inner.power + butterfly_power(l1, ido, i, j, m)) % (len as int),
        }
    }
}

/// A place below `ido * l1 * ip` is position `i` of output `j` of group
/// `k`, for one `i` below `ido`, one `k` below `l1` and one `j` below `ip`.
proof fn lemma_place_digits(at: int, ido: int, l1: int, ip: int)
    requires
        1 <= ido,
        1 <= l1,
        1 <= ip,
        0 <= at < ido * l1 * ip,
    ensures
        0 <= at % ido < ido,
        0 <= (at / ido) % l1 < l1,
        0 <= at / (ido * l1) < ip,
        at / ido == (at / ido) % l1 + l1 * (at / (ido * l1)),
        at == at % ido + ido * (at / ido),
{
    let q = at / ido;
    lemma_fundamental_div_mod(at, ido);
    assert(0 <= q < l1 * ip) by (nonlinear_arith)
        requires
            at == ido * q + at % ido,
            0 <= at % ido < ido,
            0 <= at < ido * l1 * ip,
            1 <= ido,
    ;
    lemma_fundamental_div_mod(q, l1);
    lemma_div_denominator(at, ido, l1);
    let j = q / l1;
    assert(0 <= j < ip) by (nonlinear_arith)
        requires
            q == l1 * j + q % l1,
            0 <= q % l1 < l1,
            0 <= q < l1 * ip,
            1 <= l1,
    ;
}

/// Input `m` of group `k` at position `i` stands, counted in spans of
/// `ido * ip`, in span `k` at place `i + ido * m`.
proof fn lemma_input_digits(i: int, m: int, k: int, ido: int, ip: int)
    requires
        0 <= i < ido,
        0 <= m < ip,
        0 <= k,
    ensures
        0 <= i + ido * m < ido * ip,
        (i + ido * (m + ip * k)) % (ido * ip) == i + ido * m,
        (i + ido * (m + ip * k)) / (ido * ip) == k,
        0 <= i + ido * (m + ip * k),
{
    assert(0 <= ido * m && i + ido * m < ido * ip) by (nonlinear_arith)
        requires
            0 <= i < ido,
            0 <= m < ip,
    ;
    assert(i + ido * (m + ip * k) == k * (ido * ip) + (i + ido * m)) by (nonlinear_arith);
    lemma_fundamental_div_mod_converse(i + ido * (m + ip * k), ido * ip, k, i + ido * m);
    assert(0 <= k * (ido * ip)) by (nonlinear_arith)
        requires
            0 <= k,
            0 <= ido * ip,
    ;
}

/// The power that a term has gathered by the end of a stage is the product
/// of its input's place and its output's place in the larger spans: what
/// the stage adds makes up the difference, but for whole turns.
proof fn lemma_power_step(
    len: int,
    l1: int,
    ip: int,
    ido: int,
    i: int,
    k: int,
    j: int,
    m: int,
    rest: int,
    before: int,
)
    requires
        len == l1 * ip * ido,
        len > 0,
        before == ((i + ido * m + (ido * ip) * rest) * k) % len,
    ensures
        (before + butterfly_power(l1, ido, i, j, m)) % len == ((i + ido * (m + ip * rest)) * (k
            + l1 * j)) % len,
{
    let slot = i + ido * (m + ip * rest);
    let whole = slot * k;
    assert(i + ido * m + (ido * ip) * rest == slot) by (nonlinear_arith)
        requires
            slot == i + ido * (m + ip * rest),
    ;
    let added = butterfly_power(l1, ido, i, j, m);
    let step = l1 * j;
    assert(slot * (k + step) == whole + slot * step) by (nonlinear_arith)
        requires
            whole == slot * k,
    ;
    assert(slot * step == i * step + (ido * m) * step + ((ido * ip) * rest) * step)
        by (nonlinear_arith)
        requires
            slot == i + ido * m + (ido * ip) * rest,
    ;
    assert(i * step == j * l1 * i) by (nonlinear_arith)
        requires
            step == l1 * j,
    ;
    assert((ido * m) * step == l1 * ido * (j * m)) by (nonlinear_arith)
        requires
            step == l1 * j,
    ;
    assert(((ido * ip) * rest) * step == len * (j * rest)) by (nonlinear_arith)
        requires
            step == l1 * j,
            len == l1 * ip * ido,
    ;
    assert(slot * (k + l1 * j) == whole + added + len * (j * rest));
    lemma_fundamental_div_mod(whole, len);
    let turns = whole / len + j * rest;
    assert(whole + added + len * (j * rest) == len * turns + (before + added))
        by (nonlinear_arith)
        requires
            whole == len * (whole / len) + whole % len,
            before == whole % len,
            turns == whole / len + j * rest,
    ;
    lemma_mod_multiples_vanish(turns, before + added, len);
}

/// After `t` stages the place in span `k` at position `i` of the span holds
/// the sum, over the `n` below the product of the radices done, of the input
/// at `i + span * n` times `w` to the power of that place times `k`.
pub proof fn lemma_terms_after(radices: Seq<usize>, len: nat, t: int, at: int, n: int)
    requires
        is_radix_sequence(radices, len),
        0 <= t <= radices.len(),
        0 <= at < len,
        0 <= n < l1_at(radices, t),
    ensures
        term_after(radices, len, t, at, n).slot == at % span_at(radices, len, t) + span_at(
            radices,
            len,
            t,
        ) * n,
        term_after(radices, len, t, at, n).power == ((at % span_at(radices, len, t) + span_at(
            radices,
            len,
            t,
        ) * n) * (at / span_at(radices, len, t))) % (len as int),
        l1_at(radices, t) * span_at(radices, len, t) == len,
        span_at(radices, len, t) >= 1,
    decreases t,
{
    let whole = len as int;
    if t == 0 {
        assert(radices.take(0) =~= Seq::<usize>::empty());
        assert(l1_at(radices, 0) == 1);
        vstd::arithmetic::div_mod::lemma_div_basics(whole);
        assert(span_at(radices, len, 0) == whole);
        assert(n == 0);
        vstd::arithmetic::div_mod::lemma_small_mod(at as nat, len);
        vstd::arithmetic::div_mod::lemma_basic_div(at, whole);
        assert((at % whole + whole * 0) * 0 == 0) by (nonlinear_arith);
        vstd::arithmetic::div_mod::lemma_small_mod(0, len);
    } else {
        let s = t - 1;
        lemma_stage_geometry(radices, len, s);
        let ip = radices[s] as int;
        let l1 = l1_at(radices, s) as int;
        let ido = ido_at(radices, len, s) as int;
        assert(whole == ido * l1 * ip) by (nonlinear_arith)
            requires
                l1 * ip * ido == whole,
        ;
        // The span after this stage is `ido`, the span before it `ido * ip`.
        assert(l1_at(radices, t) as int == l1 * ip);
        assert(span_at(radices, len, t) == ido);
        assert(whole == l1 * (ido * ip)) by (nonlinear_arith)
            requires
                whole == ido * l1 * ip,
        ;
        lemma_exact_division(len, l1 as nat, (ido * ip) as nat);
        assert(span_at(radices, len, s) == ido * ip);
        let done = l1_at(radices, t) as int;
        let span = span_at(radices, len, t);
        assert(done * span == whole) by (nonlinear_arith)
            requires
                done == l1 * ip,
                span == ido,
                whole == ido * l1 * ip,
        ;

        lemma_place_digits(at, ido, l1, ip);
        let i = at % ido;
        let k = (at / ido) % l1;
        let j = at / (ido * l1);
        lemma_fundamental_div_mod(n, ip);
        let m = n % ip;
        let rest = n / ip;
        assert(0 <= rest < l1) by (nonlinear_arith)
            requires
                n == ip * rest + m,
                0 <= m < ip,
                0 <= n < l1 * ip,
        ;
        let from = i + ido * (m + ip * k);
        lemma_input_digits(i, m, k, ido, ip);
        assert(from < whole) by (nonlinear_arith)
            requires
                from == i + ido * (m + ip * k),
                0 <= i < ido,
                0 <= m < ip,
                0 <= k < l1,
                whole == ido * l1 * ip,
        ;
        lemma_terms_after(radices, len, s, from, rest);
        let inner = term_after(radices, len, s, from, rest);
        assert(inner.slot == i + ido * m + (ido * ip) * rest);
        assert(inner.slot == i + ido * n) by (nonlinear_arith)
            requires
                inner.slot == i + ido * m + (ido * ip) * rest,
                n == ip * rest + m,
        ;
        assert(i + ido * (m + ip * rest) == i + ido * n) by (nonlinear_arith)
            requires
                n == ip * rest + m,
        ;
        lemma_power_step(whole, l1, ip, ido, i, k, j, m, rest, inner.power);
        assert(at / ido == k + l1 * j);
    }
}

/// Run through all its stages, a plan leaves at place `k` the sum over all
/// `j` of input `j` times `w` to the power `j * k`: the discrete Fourier
/// transform.
pub proof fn lemma_stages_give_the_transform(radices: Seq<usize>, len: nat, k: int, j: int)
    requires
        is_radix_sequence(radices, len),
        0 <= k < len,
        0 <= j < len,
    ensures
        term_after(radices, len, radices.len() as int, k, j).slot == j,
        term_after(radices, len, radices.len() as int, k, j).power == (j * k) % (len as int),
{
    let t = radices.len() as int;
    assert(radices.take(t) =~= radices);
    lemma_terms_after(radices, len, t, k, j);
    assert(span_at(radices, len, t) == 1) by (nonlinear_arith)
        requires
            l1_at(radices, t) * span_at(radices, len, t) == len,
            l1_at(radices, t) == len,
            len > 0,
    ;
}

/// The twiddle factor by which a stage multiplies output `j` at position
/// `i`, as its table holds it: the first output and the first position have
/// none, which is the root 0.
pub open spec fn twiddle_root(stage: FactorData, ido: int, j: int, i: int) -> int {
    if j >= 1 && i >= 1 {
        stage.tw@[twiddle_slot(ido, j, i)] as int
    } else {
        0
    }
}

/// The powers that this module gives to a butterfly are those that the
/// tables of the stage hold: the twiddle factor of the output and the
/// position, and the power `j * m` of the root of order `ip`, counted round
/// the `ip` roots, which for a radix above 11 is an entry of the second
/// table.
pub proof fn lemma_power_from_tables(stage: FactorData, l1: nat, ido: nat, i: int, j: int, m: int)
    requires
        is_stage(stage, l1, ido),
        l1 >= 1,
        0 <= i < ido,
        0 <= j < stage.fct,
        0 <= m < stage.fct,
    ensures
        butterfly_power(l1 as int, ido as int, i, j, m) % (stage.fct * l1 * ido) == (twiddle_root(
            stage,
            ido as int,
            j,
            i,
        ) + (l1 * ido) * ((j * m) % (stage.fct as int))) % (stage.fct * l1 * ido),
        stage.fct > 11 ==> stage.tws@[(j * m) % (stage.fct as int)] == (l1 * ido) * ((j * m) % (
        stage.fct as int)),
{
    let ip = stage.fct as int;
    let len = ip * l1 * ido;
    let turn = (l1 * ido) as int;
    assert(len > 0 && len == turn * ip) by (nonlinear_arith)
        requires
            len == ip * l1 * ido,
            turn == l1 * ido,
            ip >= 1,
            l1 >= 1,
            ido >= 1,
    ;
    let first = j * l1 * i;
    if j >= 1 && i >= 1 {
        assert(stage.tw@[twiddle_slot(ido as int, j, i)] == first);
    } else {
        assert(first == 0) by (nonlinear_arith)
            requires
                first == j * l1 * i,
                j == 0 || i == 0,
        ;
    }
    let jm = j * m;
    assert(0 <= jm) by (nonlinear_arith)
        requires
            jm == j * m,
            0 <= j,
            0 <= m,
    ;
    lemma_fundamental_div_mod(jm, ip);
    let q = jm / ip;
    let r = jm % ip;
    assert(first + turn * jm == len * q + (first + turn * r)) by (nonlinear_arith)
        requires
            jm == ip * q + r,
            len == turn * ip,
    ;
    lemma_mod_multiples_vanish(q, first + turn * r, len);
    assert(butterfly_power(l1 as int, ido as int, i, j, m) == first + turn * jm);
    if stage.fct > 11 {
        assert(stage.tws@[r] == r * l1 * ido);
        assert(r * l1 * ido == turn * r) by (nonlinear_arith)
            requires
                turn == l1 * ido,
        ;
    }
}

/// Run through all its stages, a well-formed plan leaves at place `k` the
/// sum over all `j` of input `j` times `w` to the power `j * k`.
pub proof fn lemma_plan_gives_the_transform(plan: CooleyTukey, k: int, j: int)
    requires
        plan.wf(),
        0 <= k < plan.spec_len(),
        0 <= j < plan.spec_len(),
    ensures
        term_after(plan.radices(), plan.spec_len(), plan.stages().len() as int, k, j) == (Term {
            slot: j,
            power: (j * k) % (plan.spec_len() as int),
        }),
{
    if plan.spec_len() >= 2 {
        lemma_stages_give_the_transform(plan.radices(), plan.spec_len(), k, j);
    } else {
        assert(j * k == 0) by (nonlinear_arith)
            requires
                j == 0,
                k == 0,
        ;
        vstd::arithmetic::div_mod::lemma_small_mod(0, 1);
    }
}

} // verus!
