//! Polynomials over an evaluation domain: construction, rotation, division by
//! the vanishing polynomial, and Lagrange basis polynomials.

use crate::field::{
    finv, fmul, fneg, fpow, fsub, is_inverse, lemma_fmul_assoc, lemma_fmul_comm, lemma_fmul_distrib,
    lemma_fmul_neg, lemma_fpow_add, lemma_fpow_mul, lemma_fpow_one, lemma_fpow_range,
    lemma_fsub_is_add_neg, lemma_units, vals, Field,
};
use crate::plonk::assigned::GpuAssigned;
use crate::poly::arithmetic::{canonical, lemma_poly_eval_padded, poly_eval, poly_zero, zeros};
use crate::poly::domain::{
    lemma_root_of_order, root_of_order, t_evaluation, EvaluationDomain,
};
use crate::poly::fft::transform;
use crate::poly::lagrange::{lemma_omega_power, lemma_omega_power_range};
use crate::poly::roots::{
    fsum, lemma_fpow_product, lemma_fsum_multiple, lemma_geometric, lemma_inverse_powers,
    lemma_orthogonal, lemma_poly_eval_is_sum, lemma_root_power, power_of,
};
use crate::poly::transforms::{
    distributed, interpolated, law_distributed, law_interpolated, law_interpolated_values,
    lemma_zeta,
};
use crate::poly::{Coeff, ExtendedLagrangeCoeff, LagrangeCoeff, Polynomial, Rotation};
use vstd::arithmetic::div_mod::lemma_small_mod;
use vstd::arithmetic::power2::{lemma2_to64, lemma_pow2_pos, pow2};
use vstd::prelude::*;

verus! {

/// `n` times the same value.
fn repeated<F: Field>(value: F, n: usize) -> (r: Vec<F>)
    ensures
        r@ == Seq::new(n as nat, |i: int| value),
{
    let mut out: Vec<F> = Vec::new();
    let mut i: usize = 0;
    while i < n
        invariant
            i <= n,
            out@ == Seq::new(i as nat, |j: int| value),
        decreases n - i,
    {
        out.push(value);
        i += 1;
        assert(out@ =~= Seq::new(i as nat, |j: int| value));
    }
    out
}

/// Represents the minimal parameters that determine an `EvaluationDomain`.
#[derive(Debug)]
pub struct PinnedEvaluationDomain<'a, F: Field> {
    pub k: &'a u32,
    pub extended_k: &'a u32,
    pub omega: &'a F,
}

impl<F: Field> EvaluationDomain<F> {
    /// Obtains a polynomial in Lagrange form when given a vector of Lagrange
    /// coefficients of size `n`.
    pub fn lagrange_from_vec(&self, values: Vec<F>) -> (r: Polynomial<F, LagrangeCoeff>)
        requires
            self.wf(),
            values@.len() == self.size(),
        ensures
            r@ == values@,
    {
        Polynomial::new(values)
    }

    /// Obtains a polynomial in Lagrange form, with deferred inversions.
    pub fn lagrange_assigned_from_vec(&self, values: Vec<GpuAssigned<F>>) -> (r: Polynomial<
        GpuAssigned<F>,
        LagrangeCoeff,
    >)
        requires
            self.wf(),
            values@.len() == self.size(),
        ensures
            r@ == values@,
    {
        Polynomial::new(values)
    }

    /// Obtains a polynomial in coefficient form when given a vector of
    /// coefficients of size `n`.
    pub fn coeff_from_vec(&self, values: Vec<F>) -> (r: Polynomial<F, Coeff>)
        requires
            self.wf(),
            values@.len() == self.size(),
        ensures
            r@ == values@,
    {
        Polynomial::new(values)
    }

    /// Obtains a polynomial in ExtendedLagrange form when given a vector of
    /// Lagrange polynomials with total size `extended_n`: the values of a row
    /// follow each other, one of each part.
    pub fn extended_from_lagrange_vec(&self, values: Vec<Polynomial<F, LagrangeCoeff>>) -> (r:
        Polynomial<F, ExtendedLagrangeCoeff>)
        requires
            self.wf(),
            values@.len() == self.parts(),
            forall|i: int| 0 <= i < values@.len() ==> (#[trigger] values@[i])@.len() == self.size(),
        ensures
            r@.len() == self.size() * values@.len(),
            forall|row: int, part: int|
                0 <= row < self.size() && 0 <= part < values@.len()
                    ==> #[trigger] r@[row * values@.len() + part] == values@[part]@[row],
    {
        let m = values.len();
        let n = self.rows();
        let mut out: Vec<F> = Vec::new();
        let mut row: usize = 0;
        assert(0 * m == 0);
        while row < n
            invariant
                row <= n,
                n == self.size(),
                m == values@.len(),
                forall|i: int|
                    0 <= i < values@.len() ==> (#[trigger] values@[i])@.len() == self.size(),
                out@.len() == row * m,
                forall|r: int, part: int|
                    0 <= r < row && 0 <= part < m ==> #[trigger] out@[r * m + part]
                        == values@[part]@[r],
            decreases n - row,
        {
            let ghost before = out@;
            let mut part: usize = 0;
            while part < m
                invariant
                    part <= m,
                    row < n,
                    n == self.size(),
                    m == values@.len(),
                    forall|i: int|
                        0 <= i < values@.len() ==> (#[trigger] values@[i])@.len() == self.size(),
                    before.len() == row * m,
                    out@.len() == row * m + part,
                    forall|j: int| 0 <= j < before.len() ==> #[trigger] out@[j] == before[j],
                    forall|q: int|
                        0 <= q < part ==> #[trigger] out@[row * m + q] == values@[q]@[row as int],
                decreases m - part,
            {
                assert(values@[part as int]@.len() == self.size());
                out.push(values[part].at(row));
                part += 1;
            }
            proof {
                assert((row + 1) * m == row * m + m) by (nonlinear_arith);
                assert forall|r: int, part: int| 0 <= r < row + 1 && 0 <= part < m implies
                    #[trigger] out@[r * m + part] == values@[part]@[r] by {
                    if r < row {
                        assert(r * m + part < row * m) by (nonlinear_arith)
                            requires
                                0 <= r < row,
                                part < m,
                        ;
                        assert(0 <= r * m) by (nonlinear_arith)
                            requires
                                0 <= r,
                                0 <= m,
                        ;
                        assert(out@[r * m + part] == before[r * m + part]);
                    }
                }
            }
            row += 1;
        }
        assert(self.size() * values@.len() == n * m);
        Polynomial::new(out)
    }

    /// Returns an empty (zero) polynomial in the coefficient basis
    pub fn empty_coeff(&self) -> (r: Polynomial<F, Coeff>)
        requires
            self.wf(),
        ensures
            vals(r@) == poly_zero(self.size()),
    {
        Polynomial::new(zeros(self.rows()))
    }

    /// Returns an empty (zero) polynomial in the Lagrange coefficient basis
    pub fn empty_lagrange(&self) -> (r: Polynomial<F, LagrangeCoeff>)
        requires
            self.wf(),
        ensures
            vals(r@) == poly_zero(self.size()),
    {
        Polynomial::new(zeros(self.rows()))
    }

    /// Returns a constant polynomial in the Lagrange coefficient basis
    pub fn constant_lagrange(&self, scalar: F) -> (r: Polynomial<F, LagrangeCoeff>)
        requires
            self.wf(),
        ensures
            r@ == Seq::new(self.size(), |i: int| scalar),
    {
        Polynomial::new(repeated(scalar, self.rows()))
    }

    /// Returns an empty (zero) polynomial in the extended Lagrange coefficient
    /// basis
    pub fn empty_extended(&self) -> (r: Polynomial<F, ExtendedLagrangeCoeff>)
        requires
            self.wf(),
        ensures
            vals(r@) == poly_zero(self.extended_size()),
    {
        Polynomial::new(zeros(self.extended_len()))
    }

    /// Returns a constant polynomial in the extended Lagrange coefficient
    /// basis
    pub fn constant_extended(&self, scalar: F) -> (r: Polynomial<F, ExtendedLagrangeCoeff>)
        requires
            self.wf(),
        ensures
            r@ == Seq::new(self.extended_size(), |i: int| scalar),
    {
        Polynomial::new(repeated(scalar, self.extended_len()))
    }

    /// Rotate the extended domain polynomial over the original domain.
    pub fn rotate_extended(
        &self,
        poly: &Polynomial<F, ExtendedLagrangeCoeff>,
        rotation: Rotation,
    ) -> (r: Polynomial<F, ExtendedLagrangeCoeff>)
        requires
            self.wf(),
            poly@.len() == self.extended_size(),
            -self.size() <= rotation.0 <= self.size(),
        ensures
            r@.len() == poly@.len(),
            forall|i: int|
                0 <= i < r@.len() ==> #[trigger] r@[i] == poly@[(i + self.parts() * rotation.0)
                    % (poly@.len() as int)],
    {
        let m = self.t_evaluations.len();
        let len = poly.len();
        proof {
            lemma_pow2_pos(self.extended_k as nat);
            lemma_pow2_pos((self.extended_k - self.k) as nat);
            vstd::arithmetic::power2::lemma_pow2_adds(
                self.k as nat,
                (self.extended_k - self.k) as nat,
            );
        }
        let negative = rotation.0 < 0;
        let abs: usize = if negative {
            (-(rotation.0 as i64)) as usize
        } else {
            rotation.0 as usize
        };
        assert(m * abs <= len) by (nonlinear_arith)
            requires
                abs <= self.size(),
                m == self.parts(),
                len == self.size() * self.parts(),
        ;
        let new_rotation: usize = m * abs;
        // The position that the first value comes from.
        let start: usize = if negative {
            len - new_rotation
        } else {
            new_rotation
        };
        let mut out: Vec<F> = Vec::new();
        let mut i: usize = 0;
        let ghost shift = self.parts() * rotation.0;
        proof {
            assert(shift == if negative {
                -(new_rotation as int)
            } else {
                new_rotation as int
            }) by (nonlinear_arith)
                requires
                    shift == self.parts() * rotation.0,
                    new_rotation == m * abs,
                    m == self.parts(),
                    negative == (rotation.0 < 0),
                    abs == if negative {
                        -(rotation.0 as int)
                    } else {
                        rotation.0 as int
                    },
            ;
        }
        while i < len
            invariant
                i <= len,
                len == poly@.len(),
                len > 0,
                new_rotation <= len,
                shift == if negative {
                    -(new_rotation as int)
                } else {
                    new_rotation as int
                },
                start == if negative {
                    len - new_rotation
                } else {
                    new_rotation as int
                },
                out@.len() == i,
                forall|j: int|
                    0 <= j < i ==> #[trigger] out@[j] == poly@[(j + shift) % (len as int)],
            decreases len - i,
        {
            // `start + i` modulo the length, which it exceeds once at most.
            let at: usize = if i < len - start {
                start + i
            } else if i - (len - start) < len {
                i - (len - start)
            } else {
                0
            };
            proof {
                let v = i as int + shift;
                if negative {
                    vstd::arithmetic::div_mod::lemma_mod_add_multiples_vanish(v, len as int);
                }
                if start + i < len {
                    lemma_small_mod((start + i) as nat, len as nat);
                } else {
                    vstd::arithmetic::div_mod::lemma_mod_add_multiples_vanish(
                        (start + i) as int - len as int,
                        len as int,
                    );
                    if start + i - len < len {
                        lemma_small_mod((start + i - len) as nat, len as nat);
                    }
                }
            }
            out.push(poly.at(at));
            i += 1;
        }
        Polynomial::new(out)
    }

    /// Divides by the vanishing polynomial of the $2^k$ domain.
    pub fn divide_by_vanishing_poly(&self, a: &Polynomial<F, ExtendedLagrangeCoeff>) -> (r:
        Polynomial<F, ExtendedLagrangeCoeff>)
        requires
            self.wf(),
            a@.len() == self.extended_size(),
        ensures
            r@.len() == a@.len(),
            forall|i: int|
                0 <= i < r@.len() ==> (#[trigger] r@[i]).val() == fmul(
                    F::modulus(),
                    a@[i].val(),
                    self.t_evaluations@[i % (self.t_evaluations@.len() as int)].val(),
                ),
    {
        let m = self.t_evaluations.len();
        proof {
            lemma_pow2_pos((self.extended_k - self.k) as nat);
        }
        let mut out: Vec<F> = Vec::new();
        let mut i: usize = 0;
        while i < a.len()
            invariant
                i <= a@.len(),
                m == self.t_evaluations@.len(),
                m > 0,
                out@.len() == i,
                forall|j: int|
                    0 <= j < i ==> (#[trigger] out@[j]).val() == fmul(
                        F::modulus(),
                        a@[j].val(),
                        self.t_evaluations@[j % (m as int)].val(),
                    ),
            decreases a@.len() - i,
        {
            out.push(a.at(i).mul(&self.t_evaluations[i % m]));
            i += 1;
        }
        Polynomial::new(out)
    }

    /// Get the size of the domain
    pub fn k(&self) -> (r: u32)
        ensures
            r == self.k,
    {
        self.k
    }

    /// Get the size of the extended domain
    pub fn extended_k(&self) -> (r: u32)
        ensures
            r == self.extended_k,
    {
        self.extended_k
    }

    /// Get $\omega$, the generator of the $2^k$ order multiplicative subgroup.
    pub fn get_omega(&self) -> (r: F)
        ensures
            r == self.omega,
    {
        self.omega
    }

    /// Get $\omega^{-1}$, the inverse of the generator of the $2^k$ order
    /// multiplicative subgroup.
    pub fn get_omega_inv(&self) -> (r: F)
        ensures
            r == self.omega_inv,
    {
        self.omega_inv
    }

    /// Get the generator of the extended domain's multiplicative subgroup.
    pub fn get_extended_omega(&self) -> (r: F)
        ensures
            r == self.extended_omega,
    {
        self.extended_omega
    }

    /// The power of omega that a rotation stands for.
    pub open spec fn omega_power(self, rotation: int) -> int {
        if rotation >= 0 {
            fpow(F::modulus(), self.omega.val(), rotation as nat)
        } else {
            fpow(F::modulus(), self.omega_inv.val(), (-rotation) as nat)
        }
    }

    /// Multiplies a value by some power of $\omega$, essentially rotating over
    /// the domain.
    pub fn rotate_omega(&self, value: F, rotation: Rotation) -> (r: F)
        ensures
            r.val() == fmul(F::modulus(), value.val(), self.omega_power(rotation.0 as int)),
    {
        if rotation.0 >= 0 {
            value.mul(&self.omega.pow_vartime(rotation.0 as u64))
        } else {
            value.mul(&self.omega_inv.pow_vartime((-(rotation.0 as i64)) as u64))
        }
    }

    /// The barycentric formula for the value at `x` of the Lagrange basis
    /// polynomial of a rotation, where `x` is not its own point.
    pub open spec fn l_i(self, x: int, xn: int, rotation: int) -> int {
        let p = F::modulus();
        let w = fmul(p, 1, self.omega_power(rotation));
        fmul(
            p,
            fmul(
                p,
                finv(p, fsub(p, x, w)),
                fmul(p, fsub(p, xn, 1), self.barycentric_weight.val()),
            ),
            self.omega_power(rotation),
        )
    }

    /// The value that [`Self::l_i_range`] computes for a rotation: one at the
    /// rotation's own point, where the barycentric formula divides by zero.
    pub open spec fn lagrange_value(self, x: int, xn: int, rotation: int) -> int {
        if xn == 1 && x == self.omega_power(rotation) {
            1
        } else {
            self.l_i(x, xn, rotation)
        }
    }

    /// Computes evaluations (at the point `x`, where `xn = x^n`) of Lagrange
    /// basis polynomials `l_i(X)` defined such that `l_i(omega^i) = 1` and
    /// `l_i(omega^j) = 0` for all `j != i` at each provided rotation `i`.
    ///
    /// # Implementation
    ///
    /// The polynomial
    ///     $$\prod_{j=0,j \neq i}^{n - 1} (X - \omega^j)$$
    /// has a root at all points in the domain except $\omega^i$, where it evaluates to
    ///     $$\prod_{j=0,j \neq i}^{n - 1} (\omega^i - \omega^j)$$
    /// and so we divide that polynomial by this value to obtain $l_i(X)$. Since
    ///     $$\prod_{j=0,j \neq i}^{n - 1} (X - \omega^j)
    ///       = \frac{X^n - 1}{X - \omega^i}$$
    /// then $l_i(x)$ for some $x$ is evaluated as
    ///     $$\left(\frac{x^n - 1}{x - \omega^i}\right)
    ///       \cdot \left(\frac{1}{\prod_{j=0,j \neq i}^{n - 1} (\omega^i - \omega^j)}\right).$$
    /// We refer to
    ///     $$1 \over \prod_{j=0,j \neq i}^{n - 1} (\omega^i - \omega^j)$$
    /// as the barycentric weight of $\omega^i$.
    ///
    /// We know that for $i = 0$
    ///     $$\frac{1}{\prod_{j=0,j \neq i}^{n - 1} (\omega^i - \omega^j)} = \frac{1}{n}.$$
    ///
    /// If we multiply $(1 / n)$ by $\omega^i$ then we obtain
    ///     $$\frac{1}{\prod_{j=0,j \neq 0}^{n - 1} (\omega^i - \omega^j)}
    ///       = \frac{1}{\prod_{j=0,j \neq i}^{n - 1} (\omega^i - \omega^j)}$$
    /// which is the barycentric weight of $\omega^i$.
    pub fn l_i_range(&self, x: F, xn: F, rotations: &Vec<i32>) -> (r: Vec<F>)
        ensures
            r@.len() == rotations@.len(),
            forall|i: int|
                0 <= i < r@.len() ==> (#[trigger] r@[i]).val() == self.lagrange_value(
                    x.val(),
                    xn.val(),
                    rotations@[i] as int,
                ),
            self.wf() && xn.val() == fpow(F::modulus(), x.val(), self.size()) ==> forall|i: int|
                0 <= i < r@.len() ==> (#[trigger] r@[i]).val() == (if x.val()
                    == self.omega_power(rotations@[i] as int) {
                    1
                } else {
                    self.l_i(x.val(), xn.val(), rotations@[i] as int)
                }),
    {
        let ghost p = F::modulus();
        let mut differences: Vec<F> = Vec::new();
        let mut i: usize = 0;
        while i < rotations.len()
            invariant
                i <= rotations@.len(),
                p == F::modulus(),
                differences@.len() == i,
                forall|j: int|
                    0 <= j < i ==> (#[trigger] differences@[j]).val() == fsub(
                        p,
                        x.val(),
                        fmul(p, 1, self.omega_power(rotations@[j] as int)),
                    ),
            decreases rotations@.len() - i,
        {
            let point = self.rotate_omega(F::one(), Rotation(rotations[i]));
            differences.push(x.sub(&point));
            i += 1;
        }
        let ghost before = differences@;
        F::batch_invert(&mut differences);
        let common = xn.sub(&F::one()).mul(&self.barycentric_weight);
        let mut results: Vec<F> = Vec::new();
        let mut i: usize = 0;
        while i < rotations.len()
            invariant
                i <= rotations@.len(),
                p == F::modulus(),
                before.len() == rotations@.len(),
                differences@.len() == rotations@.len(),
                common.val() == fmul(p, fsub(p, xn.val(), 1), self.barycentric_weight.val()),
                forall|j: int|
                    0 <= j < before.len() ==> (#[trigger] before[j]).val() == fsub(
                        p,
                        x.val(),
                        fmul(p, 1, self.omega_power(rotations@[j] as int)),
                    ),
                forall|j: int|
                    0 <= j < before.len() ==> (#[trigger] differences@[j]).val() == finv(
                        p,
                        before[j].val(),
                    ),
                results@.len() == i,
                forall|j: int|
                    0 <= j < i ==> (#[trigger] results@[j]).val() == self.lagrange_value(
                        x.val(),
                        xn.val(),
                        rotations@[j] as int,
                    ),
            decreases rotations@.len() - i,
        {
            assert(before[i as int].val() == fsub(
                p,
                x.val(),
                fmul(p, 1, self.omega_power(rotations@[i as int] as int)),
            ));
            let point = self.rotate_omega(F::one(), Rotation(rotations[i]));
            proof {
                F::lemma_modulus();
                lemma_omega_power_range(*self, rotations@[i as int] as int);
                lemma_units(p, self.omega_power(rotations@[i as int] as int));
            }
            if xn.equals(&F::one()) && x.equals(&point) {
                results.push(F::one());
            } else {
                let product = differences[i].mul(&common);
                results.push(self.rotate_omega(product, Rotation(rotations[i])));
            }
            i += 1;
        }
        proof {
            if self.wf() && xn.val() == fpow(p, x.val(), self.size()) {
                assert forall|i: int| 0 <= i < results@.len() implies (
                #[trigger] results@[i]).val() == (if x.val() == self.omega_power(
                    rotations@[i] as int,
                ) {
                    1
                } else {
                    self.l_i(x.val(), xn.val(), rotations@[i] as int)
                }) by {
                    lemma_omega_power(*self, rotations@[i] as int);
                }
            }
        }
        results
    }

    /// Gets the quotient polynomial's degree (as a multiple of n)
    pub fn get_quotient_poly_degree(&self) -> (r: usize)
        requires
            self.wf(),
        ensures
            r == self.quotient_poly_degree,
    {
        proof {
            lemma_pow2_pos(self.k as nat);
            assert(self.quotient_poly_degree <= self.n * self.quotient_poly_degree)
                by (nonlinear_arith)
                requires
                    self.n >= 1,
            ;
        }
        self.quotient_poly_degree as usize
    }

    /// Obtain a pinned version of this evaluation domain; a structure with the
    /// minimal parameters needed to determine the rest of the evaluation
    /// domain.
    pub fn pinned(&self) -> (r: PinnedEvaluationDomain<'_, F>)
        ensures
            *r.k == self.k,
            *r.extended_k == self.extended_k,
            *r.omega == self.omega,
    {
        PinnedEvaluationDomain { k: &self.k, extended_k: &self.extended_k, omega: &self.omega }
    }

    /// Get the private field `n`
    pub fn get_n(&self) -> (r: u64)
        ensures
            r == self.n,
    {
        self.n
    }
}

/// Dividing by the vanishing polynomial is dividing by its values on the coset:
/// the precomputed inverses are those of `x^n - 1` for all points `x`, although
/// only as many are kept as differ.
pub proof fn law_vanishing_values<F: Field>(domain: EvaluationDomain<F>, i: int)
    requires
        domain.wf(),
        0 <= i < domain.extended_size(),
    ensures
        domain.t_evaluations@[i % (domain.t_evaluations@.len() as int)].val() == finv(
            F::modulus(),
            fsub(F::modulus(), fpow(F::modulus(), domain.coset_point(i), domain.size()), 1),
        ),
{
    let p = F::modulus();
    let n = domain.size();
    let m = domain.parts();
    let w = domain.extended_omega.val();
    let step = fpow(p, w, n);
    F::lemma_modulus();
    lemma_pow2_pos((domain.extended_k - domain.k) as nat);
    let j = (i % (m as int)) as nat;
    let q = (i / (m as int)) as nat;
    assert(i == m * q + j) by {
        vstd::arithmetic::div_mod::lemma_fundamental_div_mod(i, m as int);
    }
    // The powers of `step` repeat after `m`.
    lemma_root_of_order::<F>(domain.extended_k as nat);
    lemma_root_of_order::<F>((domain.extended_k - domain.k) as nat);
    assert(fpow(p, root_of_order::<F>(domain.extended_k as nat), pow2(domain.k as nat))
        == root_of_order::<F>((domain.extended_k - domain.k) as nat));
    assert(fpow(p, step, m) == 1);
    assert(fpow(p, step, i as nat) == fpow(p, step, j)) by {
        lemma_fpow_add(p, step, m * q, j);
        lemma_fpow_mul(p, step, m, q);
        lemma_fpow_one(p, q);
        lemma_fpow_range(p, step, j);
        lemma_units(p, fpow(p, step, j));
        lemma_fmul_comm(p, 1, fpow(p, step, j));
    }
    // (zeta w^i)^n = zeta^n (w^n)^i
    lemma_fpow_product(p, domain.g_coset.val(), fpow(p, w, i as nat), n);
    lemma_fpow_mul(p, w, i as nat, n);
    lemma_fpow_mul(p, w, n, i as nat);
    assert(i as nat * n == n * i as nat) by (nonlinear_arith);
    assert(domain.t_evaluations@[j as int].val() == t_evaluation::<F>(n, step, j));
}

/// The parts of the extended domain, put together, are the extended domain: the
/// values of a polynomial on all parts, row by row, are its values on the coset.
pub proof fn law_parts_make_extended<F: Field>(
    domain: EvaluationDomain<F>,
    a: Seq<int>,
    row: int,
    part: int,
)
    requires
        domain.wf(),
        0 <= row < domain.size(),
        0 <= part < domain.parts(),
    ensures
        domain.part_values(a, fpow(F::modulus(), domain.extended_omega.val(), part as nat))[row]
            == domain.coset_values(a)[row * domain.parts() + part],
{
    let p = F::modulus();
    let w = domain.extended_omega.val();
    let m = domain.parts();
    F::lemma_modulus();
    domain.lemma_domain();
    let factor = fpow(p, w, part as nat);
    let at = row * m + part;
    assert(0 <= at < domain.extended_size()) by (nonlinear_arith)
        requires
            0 <= row < domain.size(),
            0 <= part < m,
            at == row * m + part,
            domain.extended_size() == domain.size() * m,
    ;
    // w^(row m + part) = w^part omega^row
    lemma_fpow_mul(p, w, m, row as nat);
    assert(m * (row as nat) == row * m) by (nonlinear_arith)
        requires
            row >= 0,
    ;
    lemma_fpow_add(p, w, part as nat, m * (row as nat));
    assert(part as nat + m * (row as nat) == at as nat);
    lemma_fmul_assoc(
        p,
        domain.g_coset.val(),
        factor,
        fpow(p, domain.omega.val(), row as nat),
    );
}

/// The polynomial that [`EvaluationDomain::extended_to_coeff`] starts from has
/// the given values on the coset.
pub proof fn law_coset_coefficients<F: Field>(domain: EvaluationDomain<F>, a: Seq<int>, i: int)
    requires
        domain.wf(),
        a.len() == domain.extended_size(),
        canonical(F::modulus(), a),
        0 <= i < a.len(),
    ensures
        poly_eval(F::modulus(), domain.coset_coefficients(a), domain.coset_point(i)) == a[i],
{
    let p = F::modulus();
    domain.lemma_domain();
    let w = domain.extended_omega.val();
    let x = fpow(p, w, i as nat);
    let inner = interpolated(
        p,
        a,
        domain.extended_omega_inv.val(),
        domain.extended_ifft_divisor.val(),
    );
    law_distributed(p, inner, domain.g_coset_inv.val(), domain.coset_point(i));
    // The shifts cancel.
    lemma_zeta::<F>();
    lemma_fmul_assoc(p, domain.g_coset_inv.val(), domain.g_coset.val(), x);
    lemma_fmul_comm(p, domain.g_coset_inv.val(), domain.g_coset.val());
    lemma_fpow_range(p, w, i as nat);
    lemma_units(p, x);
    lemma_fmul_comm(p, 1, x);
    law_interpolated(
        p,
        a,
        w,
        domain.extended_omega_inv.val(),
        domain.extended_k as nat,
        domain.extended_ifft_divisor.val(),
        i,
    );
}

/// Moving into the extended domain and back gives the coefficients again, with
/// zeros behind them.
pub proof fn law_extended_round_trip<F: Field>(domain: EvaluationDomain<F>, a: Seq<int>)
    requires
        domain.wf(),
        a.len() <= domain.extended_size(),
        canonical(F::modulus(), a),
    ensures
        domain.coset_coefficients(domain.coset_values(a)) == a + poly_zero(
            (domain.extended_size() - a.len()) as nat,
        ),
{
    let p = F::modulus();
    domain.lemma_domain();
    let w = domain.extended_omega.val();
    let z = domain.g_coset.val();
    let y = domain.g_coset_inv.val();
    let n = domain.extended_size();
    let padded = a + poly_zero((n - a.len()) as nat);
    let shifted = distributed(p, padded, z);
    // The values on the coset are those of the shifted polynomial on the domain.
    let v = domain.coset_values(a);
    assert(v =~= transform(p, shifted, w, n)) by {
        assert forall|i: int| 0 <= i < n implies v[i] == transform(p, shifted, w, n)[i] by {
            law_distributed(p, padded, z, fpow(p, w, i as nat));
            lemma_poly_eval_padded(
                p,
                a,
                (n - a.len()) as nat,
                domain.coset_point(i),
            );
        }
    }
    assert(canonical(p, shifted));
    law_interpolated_values(
        p,
        shifted,
        w,
        domain.extended_omega_inv.val(),
        domain.extended_k as nat,
        domain.extended_ifft_divisor.val(),
    );
    // Shifting back.
    let back = distributed(p, shifted, y);
    lemma_zeta::<F>();
    assert forall|i: int| 0 <= i < n implies back[i] == padded[i] by {
        lemma_inverse_powers(p, z, y, i as nat);
        lemma_fmul_assoc(p, padded[i], fpow(p, z, i as nat), fpow(p, y, i as nat));
        if i < a.len() {
            assert(0 <= a[i] < p);
        }
        lemma_units(p, padded[i]);
    }
    assert(back =~= padded);
}

/// Rotating by a rotation and then by its opposite changes nothing.
pub proof fn law_rotations_cancel<F: Field>(domain: EvaluationDomain<F>, value: int, rotation: int)
    requires
        domain.wf(),
        0 <= value < F::modulus(),
    ensures
        fmul(
            F::modulus(),
            fmul(F::modulus(), value, domain.omega_power(rotation)),
            domain.omega_power(-rotation),
        ) == value,
{
    let p = F::modulus();
    F::lemma_modulus();
    let (w, v) = (domain.omega.val(), domain.omega_inv.val());
    let a = domain.omega_power(rotation);
    let b = domain.omega_power(-rotation);
    lemma_fmul_assoc(p, value, a, b);
    lemma_units(p, value);
    if rotation == 0 {
        lemma_small_mod(1, p as nat);
        assert(fmul(p, 1, 1) == 1);
    } else if rotation > 0 {
        lemma_inverse_powers(p, w, v, rotation as nat);
    } else {
        lemma_fmul_comm(p, w, v);
        lemma_inverse_powers(p, v, w, (-rotation) as nat);
    }
}

/// The coefficients of the Lagrange basis polynomial of `omega^i`: the inverse
/// of `n` times the powers of `omega^(-i)`.
pub open spec fn lagrange_basis<F: Field>(domain: EvaluationDomain<F>, i: nat) -> Seq<int> {
    let p = F::modulus();
    Seq::new(
        domain.size(),
        |j: int|
            fmul(
                p,
                domain.barycentric_weight.val(),
                fpow(p, fpow(p, domain.omega_inv.val(), i), j as nat),
            ),
    )
}

/// The Lagrange basis polynomial of `omega^i` is one there and zero at the other
/// points of the domain.
pub proof fn law_lagrange_basis<F: Field>(domain: EvaluationDomain<F>, i: nat, m: nat)
    requires
        domain.wf(),
        i < domain.size(),
        m < domain.size(),
    ensures
        poly_eval(
            F::modulus(),
            lagrange_basis(domain, i),
            fpow(F::modulus(), domain.omega.val(), m),
        ) == if m == i {
            1int
        } else {
            0
        },
{
    let p = F::modulus();
    domain.lemma_domain();
    let (w, v) = (domain.omega.val(), domain.omega_inv.val());
    let n = domain.size();
    let c = domain.barycentric_weight.val();
    let basis = lagrange_basis(domain, i);
    let x = fpow(p, w, m);
    lemma_poly_eval_is_sum(p, basis, x);
    let f = |j: nat| fmul(p, basis[j as int], fpow(p, x, j));
    let g = |j: nat| fmul(p, fpow(p, fpow(p, w, j), m), fpow(p, fpow(p, v, i), j));
    assert forall|j: nat| j < n implies #[trigger] f(j) == fmul(p, c, g(j)) by {
        let e = fpow(p, fpow(p, v, i), j);
        lemma_fmul_assoc(p, c, e, fpow(p, x, j));
        // (w^m)^j = (w^j)^m
        lemma_fpow_mul(p, w, m, j);
        lemma_fpow_mul(p, w, j, m);
        assert(m * j == j * m) by (nonlinear_arith);
        lemma_fmul_comm(p, e, fpow(p, x, j));
    }
    lemma_fsum_multiple(p, n, g, c, f);
    lemma_orthogonal(p, w, v, domain.k as nat, m, i);
    lemma_fmul_comm(p, c, n as int % p);
    assert(c * 0 == 0);
    lemma_small_mod(0, p as nat);
}

/// The barycentric formula gives the value of the Lagrange basis polynomial
/// wherever it can be divided by.
pub proof fn lemma_barycentric<F: Field>(domain: EvaluationDomain<F>, i: nat, x: int)
    requires
        domain.wf(),
        i < domain.size(),
        0 <= x < F::modulus(),
        crate::field::has_inverse(
            F::modulus(),
            fsub(F::modulus(), x, fpow(F::modulus(), domain.omega.val(), i)),
        ),
    ensures
        domain.l_i(x, fpow(F::modulus(), x, domain.size()), i as int) == poly_eval(
            F::modulus(),
            lagrange_basis(domain, i),
            x,
        ),
{
    let p = F::modulus();
    domain.lemma_domain();
    let (w, v) = (domain.omega.val(), domain.omega_inv.val());
    let n = domain.size();
    let c = domain.barycentric_weight.val();
    let wi = fpow(p, w, i);
    let vi = fpow(p, v, i);
    let basis = lagrange_basis(domain, i);
    let xn = fpow(p, x, n);
    let y = fmul(p, x, vi);
    lemma_inverse_powers(p, w, v, i);
    lemma_fpow_range(p, w, i);
    lemma_units(p, wi);
    lemma_units(p, x);
    // The basis polynomial at x is c times the geometric sum of y = x / w^i.
    lemma_poly_eval_is_sum(p, basis, x);
    let f = |j: nat| fmul(p, basis[j as int], fpow(p, x, j));
    let g = power_of(p, y);
    assert forall|j: nat| j < n implies #[trigger] f(j) == fmul(p, c, g(j)) by {
        lemma_fmul_assoc(p, c, fpow(p, vi, j), fpow(p, x, j));
        lemma_fpow_product(p, x, vi, j);
        lemma_fmul_comm(p, fpow(p, vi, j), fpow(p, x, j));
    }
    lemma_fsum_multiple(p, n, g, c, f);
    let s = fsum(p, n, g);
    let value = poly_eval(p, basis, x);
    assert(value == fmul(p, c, s));
    lemma_geometric(p, y, n);
    // y^n = x^n
    assert(fpow(p, y, n) == xn) by {
        lemma_fpow_product(p, x, vi, n);
        lemma_fpow_mul(p, v, i, n);
        lemma_fpow_mul(p, v, n, i);
        assert(i * n == n * i) by (nonlinear_arith);
        if domain.k > 0 {
            lemma_root_power(p, v, domain.k as nat);
        } else {
            lemma2_to64();
            lemma_root_of_order::<F>(0);
            assert(fpow(p, w, 1) == 1);
            lemma_inverse_powers(p, w, v, 1);
            lemma_fpow_range(p, v, 1);
            lemma_units(p, fpow(p, v, 1));
            lemma_fmul_comm(p, 1, fpow(p, v, 1));
        }
        lemma_fpow_one(p, i);
        lemma_fpow_range(p, x, n);
        lemma_units(p, xn);
    }
    // x - w^i = w^i (y - 1)
    let d = fsub(p, x, wi);
    assert(d == fmul(p, wi, fsub(p, y, 1))) by {
        lemma_fsub_is_add_neg(p, y, 1);
        lemma_fmul_distrib(p, wi, y, fneg(p, 1));
        lemma_fmul_neg(p, wi, 1);
        lemma_fmul_comm(p, x, vi);
        lemma_fmul_assoc(p, wi, vi, x);
        lemma_fmul_comm(p, 1, x);
        lemma_fsub_is_add_neg(p, x, wi);
    }
    // d s = w^i (x^n - 1), so c s = d^(-1) (x^n - 1) c w^i.
    let t = fsub(p, xn, 1);
    assert(fmul(p, d, s) == fmul(p, wi, t)) by {
        lemma_fmul_assoc(p, wi, fsub(p, y, 1), s);
    }
    let inv = finv(p, d);
    assert(is_inverse(p, d, inv));
    // s = inv (d s) = inv (w^i t)
    lemma_fmul_assoc(p, inv, d, s);
    lemma_fmul_comm(p, inv, d);
    crate::poly::roots::lemma_fsum_range(p, n, g);
    lemma_units(p, s);
    lemma_fmul_comm(p, 1, s);
    assert(s == fmul(p, inv, fmul(p, wi, t)));
    // The result is (inv (t c)) w^i.
    assert(domain.omega_power(i as int) == wi);
    assert(fmul(p, 1, wi) == wi) by {
        lemma_fmul_comm(p, 1, wi);
    }
    lemma_fmul_assoc(p, inv, fmul(p, t, c), wi);
    lemma_fmul_comm(p, fmul(p, t, c), wi);
    lemma_fmul_assoc(p, wi, t, c);
    lemma_fmul_assoc(p, inv, fmul(p, wi, t), c);
    lemma_fmul_comm(p, c, s);
}

/// Rotating the values of a polynomial by `r` rows multiplies its argument by
/// `omega^r`.
pub proof fn law_rotated_values<F: Field>(
    domain: EvaluationDomain<F>,
    a: Seq<int>,
    b: Seq<int>,
    r: nat,
    x: int,
)
    requires
        domain.wf(),
        a.len() == domain.size(),
        b.len() == domain.size(),
        canonical(F::modulus(), a),
        forall|i: int|
            0 <= i < b.len() ==> #[trigger] b[i] == a[(i + r) % (domain.size() as int)],
    ensures
        poly_eval(F::modulus(), domain.coefficients(b), x) == poly_eval(
            F::modulus(),
            domain.coefficients(a),
            fmul(F::modulus(), fpow(F::modulus(), domain.omega.val(), r), x),
        ),
{
    let p = F::modulus();
    domain.lemma_domain();
    let (w, v) = (domain.omega.val(), domain.omega_inv.val());
    let n = domain.size();
    let n_inv = domain.ifft_divisor.val();
    let c = domain.coefficients(a);
    let wr = fpow(p, w, r);
    let d = distributed(p, c, wr);
    lemma_pow2_pos(domain.k as nat);
    lemma_root_of_order::<F>(domain.k as nat);
    assert(canonical(p, d));
    // The shifted polynomial has the rotated values.
    assert forall|i: int| 0 <= i < n implies #[trigger] transform(p, d, w, n)[i] == b[i] by {
        let j = (i + r) % (n as int);
        let q = ((i + r) / (n as int)) as nat;
        law_distributed(p, c, wr, fpow(p, w, i as nat));
        lemma_fpow_add(p, w, r, i as nat);
        vstd::arithmetic::div_mod::lemma_fundamental_div_mod(i + r, n as int);
        assert((r + i as nat) as nat == n * q + j as nat);
        lemma_fpow_add(p, w, n * q, j as nat);
        lemma_fpow_mul(p, w, n, q);
        lemma_fpow_one(p, q);
        lemma_fpow_range(p, w, j as nat);
        lemma_units(p, fpow(p, w, j as nat));
        lemma_fmul_comm(p, 1, fpow(p, w, j as nat));
        law_interpolated(p, a, w, v, domain.k as nat, n_inv, j);
        assert(b[i] == a[j]);
    }
    assert(transform(p, d, w, n) =~= b);
    law_interpolated_values(p, d, w, v, domain.k as nat, n_inv);
    law_distributed(p, c, wr, x);
}

} // verus!
