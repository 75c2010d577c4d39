//! The mixed-radix plan: the stages that a length is split into, and for each
//! stage the roots of unity that its butterflies multiply by.
//!
//! A root of unity is held here by its index: `k` stands for
//! `exp(2 * pi * i * k / len)`, the `k`-th entry of the table of the `len`-th
//! roots of unity.

use crate::algorithms::pass::{
    choose_kernel, kernel_for, swaps_before, twiddle_slot, Kernel, Pass,
};
use crate::factors::{
    lemma_product_concat, lemma_product_positive, lemma_product_prepend, lemma_product_push,
    lemma_product_split, lemma_product_take_next, product,
};
use crate::math::odd_prime_factors;
use crate::primes::{is_prime, lemma_exact_division};
use vstd::prelude::*;

verus! {

/// A stage may have radix 2 or 4, or an odd prime.
pub open spec fn is_radix(r: usize) -> bool {
    r == 2 || r == 4 || (r % 2 == 1 && is_prime(r as nat))
}

/// `s` is the order in which a transform of length `len` runs its stages:
/// the radices multiply to `len`; a single factor two, where there is one,
/// comes first; the factors four follow; the odd primes come last, in
/// ascending order.
pub open spec fn is_radix_sequence(s: Seq<usize>, len: nat) -> bool {
    &&& product(s) == len
    &&& forall|i: int| 0 <= i < s.len() ==> is_radix(#[trigger] s[i])
    &&& forall|i: int| 0 < i < s.len() ==> #[trigger] s[i] != 2
    &&& forall|i: int, j: int|
        0 <= i < j < s.len() && s[i] % 2 == 1 ==> s[j] % 2 == 1 && s[i] <= s[j]
}

/// The number of groups that stage `k` works on: the product of the
/// radices of the stages before it.
pub open spec fn l1_at(radices: Seq<usize>, k: int) -> nat {
    product(radices.take(k))
}

/// The number of positions that stage `k` of a transform of length `len`
/// works at.
pub open spec fn ido_at(radices: Seq<usize>, len: nat, k: int) -> nat {
    len / (l1_at(radices, k) * (radices[k] as nat))
}

/// At each stage the groups, the radix and the positions
/// multiply to the length.
pub proof fn lemma_stage_geometry(radices: Seq<usize>, len: nat, k: int)
    requires
        is_radix_sequence(radices, len),
        0 <= k < radices.len(),
    ensures
        l1_at(radices, k) >= 1,
        radices[k] >= 2,
        ido_at(radices, len, k) >= 1,
        l1_at(radices, k + 1) == l1_at(radices, k) * (radices[k] as nat),
        (radices[k] as nat) * l1_at(radices, k) * ido_at(radices, len, k) == len,
        l1_at(radices, k) * (radices[k] as nat) * ido_at(radices, len, k) == len,
{
    let l1 = l1_at(radices, k);
    let ip = radices[k] as nat;
    let tail = product(radices.skip(k + 1));
    assert(is_radix(radices[k]));
    assert forall|i: int| 0 <= i < radices.len() implies radices[i] > 0 by {
        assert(is_radix(radices[i]));
    }
    lemma_product_positive(radices.take(k));
    lemma_product_positive(radices.skip(k + 1));
    lemma_product_take_next(radices, k);
    lemma_product_split(radices, k + 1);
    assert(l1 * ip > 0) by (nonlinear_arith)
        requires
            l1 >= 1,
            ip >= 2,
    ;
    lemma_exact_division(len, l1 * ip, tail);
    assert(ip * l1 * tail == l1 * ip * tail) by (nonlinear_arith);
}

/// `tw` is the twiddle table of a stage of radix `ip` that works on `l1`
/// groups at `ido` positions: the slot for `j` and `i` holds
/// the root `j * l1 * i`.
pub open spec fn is_twiddle_table(tw: Seq<usize>, ip: int, l1: int, ido: int) -> bool {
    &&& tw.len() == (ip - 1) * (ido - 1)
    &&& forall|j: int, i: int|
        1 <= j < ip && 1 <= i < ido ==> tw[#[trigger] twiddle_slot(ido, j, i)] == j * l1 * i
}

/// `tws` is the second table of such a stage: for a radix above 11 the `ip`
/// roots `j * l1 * ido`, and nothing for a smaller radix.
pub open spec fn is_rotator_table(tws: Seq<usize>, ip: int, l1: int, ido: int) -> bool {
    if ip > 11 {
        tws.len() == ip && forall|j: int| 0 <= j < ip ==> #[trigger] tws[j] == j * l1 * ido
    } else {
        tws.len() == 0
    }
}

/// Every entry of `table` is the index of one of the `len`-th roots of unity.
pub open spec fn roots_within(table: Seq<usize>, len: int) -> bool {
    forall|s: int| 0 <= s < table.len() ==> #[trigger] table[s] < len
}

/// One stage of a mixed-radix plan: its radix, its twiddle table and, for a
/// radix above 11, its second table. The tables hold roots of unity by
/// their index.
pub struct FactorData {
    pub fct: usize,
    pub tw: Vec<usize>,
    pub tws: Vec<usize>,
}

impl Clone for FactorData {
    fn clone(&self) -> (copy: Self)
        ensures
            copy.fct == self.fct,
            copy.tw@ == self.tw@,
            copy.tws@ == self.tws@,
    {
        let tw = self.tw.clone();
        let tws = self.tws.clone();
        assert(tw@ =~= self.tw@);
        assert(tws@ =~= self.tws@);
        FactorData { fct: self.fct, tw, tws }
    }
}

/// The radices of a list of stages, in the order of the stages.
pub open spec fn radices_of(stages: Seq<FactorData>) -> Seq<usize> {
    Seq::new(stages.len(), |k: int| stages[k].fct)
}

/// The tables of `stage` are those of a stage that works on `l1` groups at
/// `ido` positions.
pub open spec fn is_stage(stage: FactorData, l1: nat, ido: nat) -> bool {
    &&& is_twiddle_table(stage.tw@, stage.fct as int, l1 as int, ido as int)
    &&& is_rotator_table(stage.tws@, stage.fct as int, l1 as int, ido as int)
    &&& roots_within(stage.tw@, stage.fct * l1 * ido)
    &&& roots_within(stage.tws@, stage.fct * l1 * ido)
}

/// `stages` are the stages of a transform of length `len`, each with its
/// tables: none for a length under two.
pub open spec fn is_stage_list(stages: Seq<FactorData>, len: nat) -> bool {
    &&& len < 2 ==> stages.len() == 0
    &&& len >= 2 ==> is_radix_sequence(radices_of(stages), len)
    &&& forall|k: int|
        0 <= k < stages.len() ==> is_stage(
            #[trigger] stages[k],
            l1_at(radices_of(stages), k),
            ido_at(radices_of(stages), len, k),
        )
}

/// The stages of one transform in the order in which they run, and whether
/// the result ends in the scratch buffer and has to be copied back.
pub struct Schedule {
    pub passes: Vec<Pass>,
    pub copy_back: bool,
}

/// Stage `k` of a transform of length `len` with these radices, as it is
/// run.
pub open spec fn pass_at(radices: Seq<usize>, len: nat, k: int) -> Pass {
    Pass {
        kernel: kernel_for(radices[k]),
        ip: radices[k],
        l1: l1_at(radices, k) as usize,
        ido: ido_at(radices, len, k) as usize,
        in_scratch: swaps_before(radices, k) % 2 == 1,
    }
}

/// `schedule` runs every stage of a transform of length `len` with these
/// radices, in order, and copies back exactly if an odd number of stages
/// swapped the buffers.
pub open spec fn is_schedule(schedule: Schedule, radices: Seq<usize>, len: nat) -> bool {
    &&& schedule.passes@.len() == radices.len()
    &&& forall|k: int|
        0 <= k < radices.len() ==> #[trigger] schedule.passes@[k] == pass_at(radices, len, k)
    &&& schedule.copy_back == (swaps_before(radices, radices.len() as int) % 2 == 1)
}

/// Every stage of a plan works on as many samples as the plan's length.
pub proof fn lemma_pass_covers_length(radices: Seq<usize>, len: nat, k: int)
    requires
        is_radix_sequence(radices, len),
        len <= usize::MAX,
        0 <= k < radices.len(),
    ensures
        pass_at(radices, len, k).samples() == len,
        pass_at(radices, len, k).ip >= 2,
        pass_at(radices, len, k).l1 >= 1,
        pass_at(radices, len, k).ido >= 1,
{
    lemma_stage_geometry(radices, len, k);
    let l1 = l1_at(radices, k);
    let ip = radices[k] as nat;
    let ido = ido_at(radices, len, k);
    assert(l1 <= len && ido <= len) by (nonlinear_arith)
        requires
            l1 * ip * ido == len,
            l1 >= 1,
            ip >= 2,
            ido >= 1,
    ;
}

/// A plan for mixed-radix transforms of one length.
pub struct CooleyTukey {
    len: usize,
    fct: Vec<FactorData>,
}

impl CooleyTukey {
    /// The length that the plan transforms.
    pub closed spec fn spec_len(&self) -> nat {
        self.len as nat
    }

    /// The stages of the plan, in the order in which they run.
    pub closed spec fn stages(&self) -> Seq<FactorData> {
        self.fct@
    }

    /// The radices of the stages.
    pub open spec fn radices(&self) -> Seq<usize> {
        radices_of(self.stages())
    }

    /// The stages are those of the plan's length, each with its tables.
    pub open spec fn wf(&self) -> bool {
        is_stage_list(self.stages(), self.spec_len())
    }

    #[verifier::type_invariant]
    closed spec fn inv(&self) -> bool {
        self.wf()
    }

    /// Plans transforms of length `len`. A length under two has no stage.
    pub fn new(len: usize) -> (plan: CooleyTukey)
        ensures
            plan.spec_len() == len,
            plan.wf(),
    {
        if len < 2 {
            return CooleyTukey { len, fct: Vec::new() };
        }
        let radices = Self::factorize(len);
        let fct = Self::compute_twiddle(len, &radices);
        CooleyTukey { len, fct }
    }

    /// The length that the plan transforms.
    pub fn len(&self) -> (n: usize)
        ensures
            n == self.spec_len(),
    {
        self.len
    }

    /// The stages of the plan, in the order in which they run.
    pub fn factors(&self) -> (stages: &Vec<FactorData>)
        ensures
            stages@ == self.stages(),
            self.wf(),
    {
        proof {
            use_type_invariant(self);
        }
        &self.fct
    }

    /// How to run the plan on a buffer of `n` samples: an error if `n` is not
    /// the plan's length, else the stages in order. A plan of a length under
    /// two has nothing to run.
    pub fn passes(&self, n: usize) -> (r: Result<Schedule, ()>)
        ensures
            self.wf(),
            r is Err <==> n != self.spec_len(),
            r matches Ok(schedule) ==> is_schedule(schedule, self.radices(), self.spec_len()),
    {
        proof {
            use_type_invariant(self);
        }
        if n != self.len {
            return Err(());
        }
        let ghost radices = self.radices();
        let mut passes: Vec<Pass> = Vec::new();
        let mut in_scratch = false;
        let mut l1: usize = 1;
        let mut k: usize = 0;
        proof {
            assert(radices.take(0) =~= Seq::<usize>::empty());
        }
        while k < self.fct.len()
            invariant
                self.wf(),
                radices == self.radices(),
                self.stages() == self.fct@,
                self.spec_len() == self.len,
                0 <= k <= self.fct@.len(),
                l1 == l1_at(radices, k as int),
                in_scratch == (swaps_before(radices, k as int) % 2 == 1),
                passes@.len() == k,
                forall|q: int|
                    0 <= q < k ==> #[trigger] passes@[q] == pass_at(radices, self.len as nat, q),
            decreases self.fct@.len() - k,
        {
            let ip = self.fct[k].fct;
            proof {
                assert(radices[k as int] == ip);
                lemma_stage_geometry(radices, self.len as nat, k as int);
                let ido = ido_at(radices, self.len as nat, k as int);
                assert(1 <= l1 * ip <= self.len) by (nonlinear_arith)
                    requires
                        l1 * ip * ido == self.len,
                        ido >= 1,
                        l1 >= 1,
                        ip >= 2,
                ;
            }
            let l2 = l1 * ip;
            let ido = self.len / l2;
            let kernel = choose_kernel(ip);
            passes.push(Pass { kernel, ip, l1, ido, in_scratch });
            match kernel {
                Kernel::Generic => {},
                _ => {
                    in_scratch = !in_scratch;
                },
            }
            l1 = l2;
            k += 1;
        }
        Ok(Schedule { passes, copy_back: in_scratch })
    }

    /// Splits `len` into the radices of its stages; no stage for a length under
    /// two.
    pub fn factorize(len: usize) -> (r: Vec<usize>)
        ensures
            len < 2 ==> r@.len() == 0,
            len >= 2 ==> is_radix_sequence(r@, len as nat),
    {
        let mut radices: Vec<usize> = Vec::new();
        if len < 2 {
            return radices;
        }
        let mut rest: usize = len;
        proof {
            assert(product(radices@) * (rest as nat) == len) by (nonlinear_arith)
                requires
                    product(radices@) == 1,
                    rest == len,
            ;
        }
        while rest % 4 == 0
            invariant
                1 <= rest <= len,
                product(radices@) * (rest as nat) == len,
                forall|i: int| 0 <= i < radices@.len() ==> #[trigger] radices@[i] == 4,
            decreases rest,
        {
            proof {
                lemma_move_four(radices@, rest as nat, len as nat);
            }
            radices.push(4);
            rest = rest / 4;
        }
        if rest % 2 == 0 {
            proof {
                lemma_product_prepend(radices@, 2);
                lemma_exact_division(rest as nat, 2, (rest / 2) as nat);
                let a = product(radices@);
                let h = (rest / 2) as nat;
                assert((2 * a) * h == a * (2 * h)) by (nonlinear_arith);
            }
            rest = rest / 2;
            radices.insert(0, 2);
        }
        let ghost head = radices@;
        let mut odd = odd_prime_factors(rest);
        let ghost tail = odd@;
        proof {
            lemma_product_concat(head, tail);
        }
        radices.append(&mut odd);
        proof {
            let s = radices@;
            assert forall|i: int| 0 <= i < s.len() implies is_radix(#[trigger] s[i]) by {
                if i >= head.len() {
                    assert(s[i] == tail[i - head.len()]);
                }
            }
            assert forall|i: int, j: int|
                0 <= i < j < s.len() && s[i] % 2 == 1 implies s[j] % 2 == 1 && s[i] <= s[j] by {
                assert(i >= head.len());
                assert(s[i] == tail[i - head.len()]);
                assert(s[j] == tail[j - head.len()]);
            }
            assert forall|i: int| 0 < i < s.len() implies #[trigger] s[i] != 2 by {
                if i >= head.len() {
                    assert(s[i] == tail[i - head.len()]);
                }
            }
        }
        radices
    }

    /// The stages of a transform of length `len`, from their radices.
    fn compute_twiddle(len: usize, radices: &Vec<usize>) -> (stages: Vec<FactorData>)
        requires
            is_radix_sequence(radices@, len as nat),
        ensures
            radices_of(stages@) == radices@,
            is_stage_list(stages@, len as nat),
    {
        let mut stages: Vec<FactorData> = Vec::new();
        let mut l1: usize = 1;
        let mut k: usize = 0;
        proof {
            assert(radices@.take(0) =~= Seq::<usize>::empty());
        }
        while k < radices.len()
            invariant
                0 <= k <= radices@.len(),
                is_radix_sequence(radices@, len as nat),
                l1 == l1_at(radices@, k as int),
                stages@.len() == k,
                forall|q: int| 0 <= q < k ==> (#[trigger] stages@[q]).fct == radices@[q],
                forall|q: int|
                    0 <= q < k ==> is_stage(
                        #[trigger] stages@[q],
                        l1_at(radices@, q),
                        ido_at(radices@, len as nat, q),
                    ),
            decreases radices@.len() - k,
        {
            let ip = radices[k];
            proof {
                lemma_stage_geometry(radices@, len as nat, k as int);
                let ido = ido_at(radices@, len as nat, k as int);
                assert(1 <= l1 * ip <= len) by (nonlinear_arith)
                    requires
                        l1 * ip * ido == len,
                        ido >= 1,
                        l1 >= 1,
                        ip >= 2,
                ;
            }
            let l2 = l1 * ip;
            let ido = len / l2;
            let tw = twiddle_table(ip, l1, ido);
            let tws = rotator_table(ip, l1, ido);
            stages.push(FactorData { fct: ip, tw, tws });
            l1 = l2;
            k += 1;
        }
        proof {
            assert(radices_of(stages@) =~= radices@);
            if len < 2 {
                lemma_radices_of_short(radices@, len as nat);
            }
        }
        stages
    }
}

/// The twiddle table of a stage of radix `ip` that works on `l1` groups at
/// `ido` positions.
fn twiddle_table(ip: usize, l1: usize, ido: usize) -> (tw: Vec<usize>)
    requires
        1 <= ip,
        1 <= l1,
        1 <= ido,
        ip * l1 * ido <= usize::MAX,
    ensures
        is_twiddle_table(tw@, ip as int, l1 as int, ido as int),
        forall|s: int| 0 <= s < tw@.len() ==> #[trigger] tw@[s] < ip * l1 * ido,
{
    let mut tw: Vec<usize> = Vec::new();
    let mut j: usize = 1;
    while j < ip
        invariant
            1 <= j <= ip,
            1 <= l1,
            1 <= ido,
            ip * l1 * ido <= usize::MAX,
            tw@.len() == (j - 1) * (ido - 1),
            forall|s: int| 0 <= s < tw@.len() ==> #[trigger] tw@[s] < ip * l1 * ido,
            forall|j0: int, i0: int|
                1 <= j0 < j && 1 <= i0 < ido ==> tw@[#[trigger] twiddle_slot(ido as int, j0, i0)]
                    == j0 * l1 * i0,
        decreases ip - j,
    {
        let mut i: usize = 1;
        while i < ido
            invariant
                1 <= j < ip,
                1 <= i <= ido,
                1 <= l1,
                1 <= ido,
                ip * l1 * ido <= usize::MAX,
                tw@.len() == twiddle_slot(ido as int, j as int, i as int),
                forall|s: int| 0 <= s < tw@.len() ==> #[trigger] tw@[s] < ip * l1 * ido,
                forall|j0: int, i0: int|
                    1 <= j0 && 1 <= i0 < ido && (j0 < j || (j0 == j && i0 < i)) ==> tw@[#[trigger] twiddle_slot(
                        ido as int,
                        j0,
                        i0,
                    )] == j0 * l1 * i0,
            decreases ido - i,
        {
            proof {
                lemma_root_in_range(ip as int, l1 as int, ido as int, j as int, i as int);
            }
            let ghost before = tw@;
            tw.push(j * l1 * i);
            proof {
                assert forall|j0: int, i0: int|
                    1 <= j0 && 1 <= i0 < ido && (j0 < j || (j0 == j && i0 < i + 1)) implies tw@[#[trigger] twiddle_slot(
                    ido as int,
                    j0,
                    i0,
                )] == j0 * l1 * i0 by {
                    if j0 == j && i0 == i {
                    } else {
                        lemma_slot_order(ido as int, j0, i0, j as int, i as int);
                        assert(tw@[twiddle_slot(ido as int, j0, i0)] == before[twiddle_slot(
                            ido as int,
                            j0,
                            i0,
                        )]);
                    }
                }
            }
            i += 1;
        }
        proof {
            assert(twiddle_slot(ido as int, j as int, ido as int) == j * (ido - 1))
                by (nonlinear_arith);
        }
        j += 1;
    }
    tw
}

/// The second table of a stage: the `ip` roots `j * l1 * ido` for a radix
/// above 11, and nothing for a smaller radix.
fn rotator_table(ip: usize, l1: usize, ido: usize) -> (tws: Vec<usize>)
    requires
        1 <= ip,
        1 <= l1,
        1 <= ido,
        ip * l1 * ido <= usize::MAX,
    ensures
        is_rotator_table(tws@, ip as int, l1 as int, ido as int),
        forall|s: int| 0 <= s < tws@.len() ==> #[trigger] tws@[s] < ip * l1 * ido,
{
    let mut tws: Vec<usize> = Vec::new();
    if ip > 11 {
        let mut j: usize = 0;
        while j < ip
            invariant
                0 <= j <= ip,
                1 <= l1,
                1 <= ido,
                ip * l1 * ido <= usize::MAX,
                tws@.len() == j,
                forall|s: int| 0 <= s < tws@.len() ==> #[trigger] tws@[s] < ip * l1 * ido,
                forall|j0: int| 0 <= j0 < j ==> #[trigger] tws@[j0] == j0 * l1 * ido,
            decreases ip - j,
        {
            proof {
                lemma_root_in_range(ip as int, l1 as int, ido as int, j as int, ido as int);
                assert(j * l1 * ido < ip * l1 * ido) by (nonlinear_arith)
                    requires
                        0 <= j < ip,
                        1 <= l1,
                        1 <= ido,
                ;
            }
            tws.push(j * l1 * ido);
            j += 1;
        }
    }
    tws
}

/// Appending a four to `v` moves it from the cofactor to the product.
proof fn lemma_move_four(v: Seq<usize>, rest: nat, n: nat)
    requires
        rest % 4 == 0,
        product(v) * rest == n,
    ensures
        product(v.push(4)) * (rest / 4) == n,
{
    lemma_product_push(v, 4);
    let a = product(v);
    let q = rest / 4;
    assert((a * 4) * q == a * (4 * q)) by (nonlinear_arith);
}

/// The slots of the rows before `j` lie before the first slot of row `j`,
/// and the slots of a row are in the order of their positions.
proof fn lemma_slot_order(ido: int, j0: int, i0: int, j: int, i: int)
    requires
        1 <= j0,
        1 <= i0 < ido,
        1 <= i <= ido,
        j0 < j || (j0 == j && i0 < i),
    ensures
        0 <= twiddle_slot(ido, j0, i0) < twiddle_slot(ido, j, i),
{
    assert(0 <= (j0 - 1) * (ido - 1)) by (nonlinear_arith)
        requires
            1 <= j0,
            1 < ido,
    ;
    if j0 < j {
        assert((j0 - 1) * (ido - 1) + (ido - 1) <= (j - 1) * (ido - 1)) by (nonlinear_arith)
            requires
                j0 < j,
                1 < ido,
        ;
    }
}

/// A root index of a stage lies within the table of roots.
proof fn lemma_root_in_range(ip: int, l1: int, ido: int, j: int, i: int)
    requires
        0 <= j < ip,
        0 <= i <= ido,
        1 <= l1,
        1 <= ido,
    ensures
        0 <= j * l1 <= ip * l1 <= ip * l1 * ido,
        0 <= j * l1 * i <= ip * l1 * ido,
        i < ido ==> j * l1 * i < ip * l1 * ido,
{
    assert(ip * l1 <= (ip * l1) * ido) by (nonlinear_arith)
        requires
            0 < ip,
            1 <= l1,
            1 <= ido,
    ;
    assert(0 <= j * l1 <= ip * l1 && j * l1 < ip * l1) by (nonlinear_arith)
        requires
            0 <= j < ip,
            1 <= l1,
    ;
    assert(0 <= (j * l1) * i <= (ip * l1) * ido) by (nonlinear_arith)
        requires
            0 <= j * l1 <= ip * l1,
            0 <= i <= ido,
    ;
    if i < ido {
        assert((j * l1) * i < (ip * l1) * ido) by (nonlinear_arith)
            requires
                0 <= j * l1 < ip * l1,
                0 <= i < ido,
        ;
    }
}

/// Only a length of one has an empty radix sequence, and no length under
/// one has any.
proof fn lemma_radices_of_short(radices: Seq<usize>, len: nat)
    requires
        is_radix_sequence(radices, len),
        len < 2,
    ensures
        radices.len() == 0,
        len == 1,
{
    if radices.len() > 0 {
        lemma_stage_geometry(radices, len, 0);
        let l1 = l1_at(radices, 0);
        let ip = radices[0] as nat;
        let ido = ido_at(radices, len, 0);
        assert(l1 * ip * ido >= 2) by (nonlinear_arith)
            requires
                l1 >= 1,
                ip >= 2,
                ido >= 1,
        ;
    }
}

} // verus!
