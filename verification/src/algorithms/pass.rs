//! One stage of a mixed-radix transform as it is run: its butterfly, the
//! places where it reads and writes its samples, and the walk of the general
//! butterfly through its rotators.

use crate::primes::{divides, is_prime, lemma_divisor_bound, lemma_prime_divides_product};
use vstd::prelude::*;

verus! {

/// The butterfly that runs a stage: one written out for each of the radices
/// 2, 3, 4, 5, 7 and 11, and a general one for every other radix.
#[derive(Clone, Copy, Debug, PartialEq, Eq)]
pub enum Kernel {
    Radix2,
    Radix3,
    Radix4,
    Radix5,
    Radix7,
    Radix11,
    Generic,
}

/// The butterfly for radix `ip`.
pub open spec fn kernel_for(ip: usize) -> Kernel {
    if ip == 2 {
        Kernel::Radix2
    } else if ip == 3 {
        Kernel::Radix3
    } else if ip == 4 {
        Kernel::Radix4
    } else if ip == 5 {
        Kernel::Radix5
    } else if ip == 7 {
        Kernel::Radix7
    } else if ip == 11 {
        Kernel::Radix11
    } else {
        Kernel::Generic
    }
}

/// The butterfly for radix `ip`.
pub(crate) fn choose_kernel(ip: usize) -> (kernel: Kernel)
    ensures
        kernel == kernel_for(ip),
{
    if ip == 2 {
        Kernel::Radix2
    } else if ip == 3 {
        Kernel::Radix3
    } else if ip == 4 {
        Kernel::Radix4
    } else if ip == 5 {
        Kernel::Radix5
    } else if ip == 7 {
        Kernel::Radix7
    } else if ip == 11 {
        Kernel::Radix11
    } else {
        Kernel::Generic
    }
}

/// A stage of radix `ip` leaves its output in the buffer that it did not
/// read, unless the general butterfly runs it: that one writes its result
/// back over its input.
pub open spec fn swaps_buffers(ip: usize) -> bool {
    kernel_for(ip) != Kernel::Generic
}

/// How many of the first `k` stages swap the two buffers.
pub open spec fn swaps_before(radices: Seq<usize>, k: int) -> nat
    decreases k,
{
    if k <= 0 {
        0
    } else {
        swaps_before(radices, k - 1) + if swaps_buffers(radices[k - 1]) {
            1nat
        } else {
            0nat
        }
    }
}

/// Where a stage's twiddle table holds the factor for output `j` at
/// position `i`.
pub open spec fn twiddle_slot(ido: int, j: int, i: int) -> int {
    (j - 1) * (ido - 1) + (i - 1)
}

/// One stage as it is run: its butterfly, its radix `ip`, the `l1` groups
/// and the `ido` positions that it works on, and whether its input lies in
/// the scratch buffer rather than in the caller's. A stage runs one
/// butterfly for every group and position.
#[derive(Clone, Copy, Debug)]
pub struct Pass {
    pub kernel: Kernel,
    pub ip: usize,
    pub l1: usize,
    pub ido: usize,
    pub in_scratch: bool,
}

impl Pass {
    /// The number of samples that the stage reads and writes.
    pub open spec fn samples(&self) -> int {
        self.ip * self.l1 * self.ido
    }

    /// Where the stage reads the sample at position `i` of input `j` of
    /// group `k`.
    pub open spec fn input_slot(&self, i: int, j: int, k: int) -> int {
        i + self.ido * (j + self.ip * k)
    }

    /// Where the stage writes the sample at position `i` of output `j` of
    /// group `k`.
    pub open spec fn output_slot(&self, i: int, k: int, j: int) -> int {
        i + self.ido * (k + self.l1 * j)
    }

    /// Where the stage reads the sample at position `i` of input `j` of
    /// group `k`.
    pub fn input_index(&self, i: usize, j: usize, k: usize) -> (at: usize)
        requires
            i < self.ido,
            j < self.ip,
            k < self.l1,
            self.samples() <= usize::MAX,
        ensures
            at == self.input_slot(i as int, j as int, k as int),
            at < self.samples(),
    {
        proof {
            lemma_digits_in_range(
                i as int,
                self.ido as int,
                j as int,
                self.ip as int,
                k as int,
                self.l1 as int,
            );
            assert(self.ido * (self.ip * self.l1) == self.ip * self.l1 * self.ido)
                by (nonlinear_arith);
        }
        let inner = j + self.ip * k;
        i + self.ido * inner
    }

    /// Where the stage writes the sample at position `i` of output `j` of
    /// group `k`.
    pub fn output_index(&self, i: usize, k: usize, j: usize) -> (at: usize)
        requires
            i < self.ido,
            k < self.l1,
            j < self.ip,
            self.samples() <= usize::MAX,
        ensures
            at == self.output_slot(i as int, k as int, j as int),
            at < self.samples(),
    {
        proof {
            lemma_digits_in_range(
                i as int,
                self.ido as int,
                k as int,
                self.l1 as int,
                j as int,
                self.ip as int,
            );
            assert(self.ido * (self.l1 * self.ip) == self.ip * self.l1 * self.ido)
                by (nonlinear_arith);
        }
        let inner = k + self.l1 * j;
        i + self.ido * inner
    }

    /// Where the stage's twiddle table holds the factor for output `j` at
    /// position `i`.
    pub fn twiddle_index(&self, j: usize, i: usize) -> (at: usize)
        requires
            1 <= j < self.ip,
            1 <= i < self.ido,
            self.ip * self.ido <= usize::MAX,
        ensures
            at == twiddle_slot(self.ido as int, j as int, i as int),
            at < (self.ip - 1) * (self.ido - 1),
    {
        proof {
            let rows = self.ip - 1;
            let width = self.ido - 1;
            assert(0 <= (j - 1) * width && (j - 1) * width + (i - 1) < rows * width
                && rows * width <= self.ip * self.ido) by (nonlinear_arith)
                requires
                    1 <= j <= rows,
                    1 <= i <= width,
                    rows == self.ip - 1,
                    width == self.ido - 1,
            ;
        }
        (j - 1) * (self.ido - 1) + (i - 1)
    }
}

/// A stage reads no place twice: two samples that it reads from the same
/// place are the same sample.
pub proof fn lemma_input_slots_distinct(
    pass: Pass,
    i: int,
    j: int,
    k: int,
    i2: int,
    j2: int,
    k2: int,
)
    requires
        0 <= i < pass.ido,
        0 <= i2 < pass.ido,
        0 <= j < pass.ip,
        0 <= j2 < pass.ip,
        0 <= k,
        0 <= k2,
        pass.input_slot(i, j, k) == pass.input_slot(i2, j2, k2),
    ensures
        i == i2,
        j == j2,
        k == k2,
{
    lemma_digits_unique(i, j, k, i2, j2, k2, pass.ido as int, pass.ip as int);
}

/// A stage writes no place twice: two samples that it writes to the same
/// place are the same sample.
pub proof fn lemma_output_slots_distinct(
    pass: Pass,
    i: int,
    k: int,
    j: int,
    i2: int,
    k2: int,
    j2: int,
)
    requires
        0 <= i < pass.ido,
        0 <= i2 < pass.ido,
        0 <= k < pass.l1,
        0 <= k2 < pass.l1,
        0 <= j,
        0 <= j2,
        pass.output_slot(i, k, j) == pass.output_slot(i2, k2, j2),
    ensures
        i == i2,
        k == k2,
        j == j2,
{
    lemma_digits_unique(i, k, j, i2, k2, j2, pass.ido as int, pass.l1 as int);
}

/// The index of the rotator that follows the one at `iwal` when the general
/// butterfly steps by `l` through its `ip` rotators.
pub fn next_rotator(ip: usize, iwal: usize, l: usize) -> (next: usize)
    requires
        iwal < ip,
        l < ip,
    ensures
        next == (iwal + l) % (ip as int),
        next < ip,
{
    if iwal >= ip - l {
        proof {
            vstd::arithmetic::div_mod::lemma_fundamental_div_mod_converse(
                iwal + l,
                ip as int,
                1,
                iwal + l - ip,
            );
        }
        iwal - (ip - l)
    } else {
        proof {
            vstd::arithmetic::div_mod::lemma_small_mod((iwal + l) as nat, ip as nat);
        }
        iwal + l
    }
}

/// Stepping by `l` from the rotator of term `j` reaches that of term
/// `j + 1`: the rotator of term `j` is the one at `j * l`, counted round
/// the `ip` rotators.
pub proof fn lemma_rotator_walk(ip: nat, l: nat, j: nat)
    requires
        ip > 0,
    ensures
        (((j * l) % ip) + l) % ip == ((j + 1) * l) % ip,
{
    vstd::arithmetic::div_mod::lemma_add_mod_noop((j * l) as int, l as int, ip as int);
    vstd::arithmetic::div_mod::lemma_mod_twice(l as int, ip as int);
    vstd::arithmetic::div_mod::lemma_add_mod_noop(
        ((j * l) % ip) as int,
        l as int,
        ip as int,
    );
    vstd::arithmetic::div_mod::lemma_mod_twice((j * l) as int, ip as int);
    assert((j + 1) * l == j * l + l) by (nonlinear_arith);
}

/// With a prime number of rotators the walk never comes back to the first
/// one: no term but the first is rotated by one.
pub proof fn lemma_rotator_never_first(ip: nat, l: nat, j: nat)
    requires
        is_prime(ip),
        0 < l < ip,
        0 < j < ip,
    ensures
        (j * l) % ip != 0,
{
    if (j * l) % ip == 0 {
        lemma_prime_divides_product(ip, j, l);
        if divides(ip, j) {
            lemma_divisor_bound(ip, j);
        } else {
            lemma_divisor_bound(ip, l);
        }
    }
}

/// A number written with three digits, the lowest first, in the bases `a`,
/// `b` and `c`, is less than `a * b * c`.
proof fn lemma_digits_in_range(x: int, a: int, y: int, b: int, z: int, c: int)
    requires
        0 <= x < a,
        0 <= y < b,
        0 <= z < c,
    ensures
        0 <= b * z <= y + b * z < b * c <= a * (b * c),
        0 <= a * (y + b * z) <= x + a * (y + b * z) < a * (b * c),
{
    assert(b * c <= a * (b * c)) by (nonlinear_arith)
        requires
            1 <= a,
            1 <= b,
            1 <= c,
    ;
    assert(0 <= b * z && y + b * z < b * c) by (nonlinear_arith)
        requires
            0 <= y < b,
            0 <= z < c,
    ;
    let w = y + b * z;
    assert(0 <= a * w && x + a * w < a * (b * c)) by (nonlinear_arith)
        requires
            0 <= x < a,
            0 <= w < b * c,
    ;
}

/// Two such numbers are equal only if their digits are.
proof fn lemma_digits_unique(
    x: int,
    y: int,
    z: int,
    x2: int,
    y2: int,
    z2: int,
    a: int,
    b: int,
)
    requires
        0 <= x < a,
        0 <= x2 < a,
        0 <= y < b,
        0 <= y2 < b,
        0 <= z,
        0 <= z2,
        x + a * (y + b * z) == x2 + a * (y2 + b * z2),
    ensures
        x == x2,
        y == y2,
        z == z2,
{
    let w = y + b * z;
    let w2 = y2 + b * z2;
    assert(w == w2 && x == x2) by (nonlinear_arith)
        requires
            0 <= x < a,
            0 <= x2 < a,
            x + a * w == x2 + a * w2,
    ;
    assert(z == z2 && y == y2) by (nonlinear_arith)
        requires
            0 <= y < b,
            0 <= y2 < b,
            y + b * z == y2 + b * z2,
    ;
}

} // verus!
