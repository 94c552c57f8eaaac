//! Changes of basis over an evaluation domain.

use crate::field::{
    fmul, fpow, is_inverse, lemma_fmul_assoc, lemma_fmul_comm, lemma_fmul_neg, lemma_fneg_fneg,
    lemma_fpow_range, lemma_units, vals, Field,
};
use crate::poly::arithmetic::{
    canonical, lemma_poly_eval_padded, lemma_poly_eval_scale, lemma_vals_canonical, poly_eval,
    poly_scale, poly_zero, scale,
};
use crate::poly::domain::{lemma_root_of_order, EvaluationDomain};
use crate::poly::fft::{fft, is_primitive, transform};
use crate::poly::roots::{
    law_transform_inverse, lemma_fpow_product, lemma_inverse_powers,
};
use crate::poly::{Coeff, ExtendedLagrangeCoeff, LagrangeCoeff, Polynomial};
use vstd::arithmetic::div_mod::lemma_small_mod;
use vstd::arithmetic::power2::{lemma_pow2_adds, lemma_pow2_strictly_increases, pow2};
use vstd::prelude::*;

verus! {

/// The coefficients of `a(c X)`: each coefficient times a power of `c`.
pub open spec fn distributed(p: int, a: Seq<int>, c: int) -> Seq<int> {
    Seq::new(a.len(), |i: int| fmul(p, a[i], fpow(p, c, i as nat)))
}

/// Distributing powers of `c` over the coefficients is evaluating at `c x`.
pub proof fn law_distributed(p: int, a: Seq<int>, c: int, x: int)
    requires
        p > 1,
    ensures
        poly_eval(p, distributed(p, a, c), x) == poly_eval(p, a, fmul(p, c, x)),
{
    let d = distributed(p, a, c);
    let y = fmul(p, c, x);
    crate::poly::roots::lemma_poly_eval_is_sum(p, d, x);
    crate::poly::roots::lemma_poly_eval_is_sum(p, a, y);
    let f = |j: nat| fmul(p, d[j as int], fpow(p, x, j));
    let g = |j: nat| fmul(p, a[j as int], fpow(p, y, j));
    assert forall|j: nat| j < a.len() implies #[trigger] f(j) == g(j) by {
        lemma_fmul_assoc(p, a[j as int], fpow(p, c, j), fpow(p, x, j));
        lemma_fpow_product(p, c, x, j);
    }
    crate::poly::roots::lemma_fsum_equal(p, a.len(), f, g);
}

pub proof fn lemma_pow2_monotonic(a: nat, b: nat)
    requires
        a <= b,
    ensures
        pow2(a) <= pow2(b),
{
    if a < b {
        lemma_pow2_strictly_increases(a, b);
    }
}

/// The inverse of a primitive root is primitive.
pub proof fn lemma_inverse_primitive(p: int, w: int, v: int, k: nat)
    requires
        p > 2,
        is_primitive(p, w, k),
        is_inverse(p, w, v),
    ensures
        is_primitive(p, v, k),
{
    if k > 0 {
        let h = pow2((k - 1) as nat);
        lemma_inverse_powers(p, w, v, h);
        let e = fpow(p, v, h);
        lemma_fpow_range(p, v, h);
        // -e = 1
        lemma_fmul_neg(p, 1, e);
        lemma_units(p, e);
        lemma_fmul_comm(p, 1, e);
        lemma_fneg_fneg(p, e);
    }
}

/// The coefficients of the polynomial with the values `a` at the powers of the
/// root whose inverse is `v`, given the inverse of their number.
pub open spec fn interpolated(p: int, a: Seq<int>, v: int, n_inv: int) -> Seq<int> {
    poly_scale(p, transform(p, a, v, a.len()), n_inv)
}

/// Interpolation inverts evaluation: the interpolated polynomial has the given
/// values at the powers of the root.
pub proof fn law_interpolated(
    p: int,
    a: Seq<int>,
    w: int,
    v: int,
    k: nat,
    n_inv: int,
    i: int,
)
    requires
        p > 2,
        is_primitive(p, w, k),
        is_inverse(p, w, v),
        is_inverse(p, pow2(k) as int % p, n_inv),
        a.len() == pow2(k),
        canonical(p, a),
        0 <= i < a.len(),
    ensures
        poly_eval(p, interpolated(p, a, v, n_inv), fpow(p, w, i as nat)) == a[i],
{
    lemma_inverse_primitive(p, w, v, k);
    lemma_fmul_comm(p, w, v);
    lemma_fmul_comm(p, pow2(k) as int % p, n_inv);
    law_transform_inverse(p, a, v, w, k, n_inv, i);
    let t = transform(p, a, v, a.len());
    let x = fpow(p, w, i as nat);
    lemma_poly_eval_scale(p, t, n_inv, x);
    lemma_fmul_comm(p, poly_eval(p, t, x), n_inv);
}

/// Evaluation inverts interpolation: interpolating the values of a polynomial
/// gives its coefficients.
pub proof fn law_interpolated_values(
    p: int,
    a: Seq<int>,
    w: int,
    v: int,
    k: nat,
    n_inv: int,
)
    requires
        p > 2,
        is_primitive(p, w, k),
        is_inverse(p, w, v),
        is_inverse(p, pow2(k) as int % p, n_inv),
        a.len() == pow2(k),
        canonical(p, a),
    ensures
        interpolated(p, transform(p, a, w, pow2(k)), v, n_inv) == a,
{
    let t = transform(p, a, w, pow2(k));
    let r = interpolated(p, t, v, n_inv);
    assert forall|i: int| 0 <= i < a.len() implies r[i] == a[i] by {
        lemma_fmul_comm(p, pow2(k) as int % p, n_inv);
        law_transform_inverse(p, a, w, v, k, n_inv, i);
        lemma_fmul_comm(p, transform(p, t, v, pow2(k))[i], n_inv);
    }
    assert(r =~= a);
}

/// Multiplies each value by a power of `c`.
pub fn distribute_powers<F: Field>(a: &mut Vec<F>, c: F)
    ensures
        vals(final(a)@) == distributed(F::modulus(), vals(old(a)@), c.val()),
{
    let ghost p = F::modulus();
    let mut c_power = F::one();
    let mut i: usize = 0;
    proof {
        F::lemma_modulus();
        lemma_small_mod(1, p as nat);
    }
    while i < a.len()
        invariant
            i <= a@.len(),
            p == F::modulus(),
            a@.len() == old(a)@.len(),
            c_power.val() == fpow(p, c.val(), i as nat),
            forall|j: int|
                0 <= j < i ==> (#[trigger] a@[j]).val() == fmul(
                    p,
                    old(a)@[j].val(),
                    fpow(p, c.val(), j as nat),
                ),
            forall|j: int| i <= j < a@.len() ==> #[trigger] a@[j] == old(a)@[j],
        decreases a@.len() - i,
    {
        let v = a[i].mul(&c_power);
        a.set(i, v);
        c_power = c_power.mul(&c);
        i += 1;
    }
    assert(vals(a@) =~= distributed(p, vals(old(a)@), c.val()));
}

/// Powers of a cube root of one repeat.
proof fn lemma_cube_root_powers(p: int, z: int, i: nat)
    requires
        p > 1,
        0 <= z < p,
        fmul(p, fmul(p, z, z), z) == 1,
    ensures
        fpow(p, z, i) == if i % 3 == 0 {
            1
        } else if i % 3 == 1 {
            z
        } else {
            fmul(p, z, z)
        },
    decreases i,
{
    lemma_small_mod(1, p as nat);
    if i > 0 {
        lemma_cube_root_powers(p, z, (i - 1) as nat);
        lemma_units(p, z);
        lemma_fmul_comm(p, 1, z);
    }
}

impl<F: Field> EvaluationDomain<F> {
    /// Given values `[a_0, a_1, a_2, ...]`, this returns
    /// `[a_0, [zeta]a_1, [zeta^2]a_2, a_3, [zeta]a_4, [zeta^2]a_5, a_6, ...]`,
    /// where zeta is a cube root of unity in the multiplicative subgroup with
    /// order (p - 1), i.e. zeta^3 = 1.
    ///
    /// `into_coset` should be set to `true` when moving into the coset,
    /// and `false` when moving out. This toggles the choice of `zeta`.
    pub fn distribute_powers_zeta(&self, a: &mut Vec<F>, into_coset: bool)
        requires
            self.wf(),
        ensures
            vals(final(a)@) == distributed(
                F::modulus(),
                vals(old(a)@),
                if into_coset {
                    self.g_coset.val()
                } else {
                    self.g_coset_inv.val()
                },
            ),
    {
        let ghost p = F::modulus();
        let (first, second) = if into_coset {
            (self.g_coset, self.g_coset_inv)
        } else {
            (self.g_coset_inv, self.g_coset)
        };
        let ghost z = first.val();
        proof {
            F::lemma_modulus();
            F::lemma_constants();
            lemma_zeta::<F>();
            first.lemma_val_range();
        }
        let mut i: usize = 0;
        while i < a.len()
            invariant
                i <= a@.len(),
                p == F::modulus(),
                p > 2,
                a@.len() == old(a)@.len(),
                z == first.val(),
                0 <= z < p,
                second.val() == fmul(p, z, z),
                fmul(p, fmul(p, z, z), z) == 1,
                forall|j: int|
                    0 <= j < i ==> (#[trigger] a@[j]).val() == fmul(
                        p,
                        old(a)@[j].val(),
                        fpow(p, z, j as nat),
                    ),
                forall|j: int| i <= j < a@.len() ==> #[trigger] a@[j] == old(a)@[j],
            decreases a@.len() - i,
        {
            proof {
                lemma_cube_root_powers(p, z, i as nat);
                a@[i as int].lemma_val_range();
                lemma_units(p, a@[i as int].val());
            }
            // Distribute powers to move into/from coset
            let m: usize = i % 3;
            if m == 1 {
                let v = a[i].mul(&first);
                a.set(i, v);
            } else if m == 2 {
                let v = a[i].mul(&second);
                a.set(i, v);
            }
            i += 1;
        }
        assert(vals(a@) =~= distributed(p, vals(old(a)@), z));
    }

    /// The coefficients of the polynomial with the given values on the domain.
    pub open spec fn coefficients(self, a: Seq<int>) -> Seq<int> {
        interpolated(F::modulus(), a, self.omega_inv.val(), self.ifft_divisor.val())
    }

    /// The points of the coset of the extended domain.
    pub open spec fn coset_point(self, i: int) -> int {
        fmul(
            F::modulus(),
            self.g_coset.val(),
            fpow(F::modulus(), self.extended_omega.val(), i as nat),
        )
    }

    /// The points of the part of the coset that belongs to a power of the
    /// extended domain's root.
    pub open spec fn part_point(self, factor: int, i: int) -> int {
        fmul(
            F::modulus(),
            fmul(F::modulus(), self.g_coset.val(), factor),
            fpow(F::modulus(), self.omega.val(), i as nat),
        )
    }

    /// The values of a polynomial on the coset of the extended domain.
    pub open spec fn coset_values(self, a: Seq<int>) -> Seq<int> {
        Seq::new(
            self.extended_size(),
            |i: int| poly_eval(F::modulus(), a, self.coset_point(i)),
        )
    }

    /// The values of a polynomial on a part of the coset.
    pub open spec fn part_values(self, a: Seq<int>, factor: int) -> Seq<int> {
        Seq::new(self.size(), |i: int| poly_eval(F::modulus(), a, self.part_point(factor, i)))
    }

    /// Whether `r` are the values of polynomials on a part of the coset.
    pub open spec fn is_part(
        self,
        a: Seq<Polynomial<F, Coeff>>,
        factor: int,
        r: Seq<Polynomial<F, LagrangeCoeff>>,
    ) -> bool {
        &&& r.len() == a.len()
        &&& forall|i: int|
            0 <= i < r.len() ==> {
                &&& (#[trigger] r[i])@.len() == self.size()
                &&& vals(r[i]@) == self.part_values(vals(a[i]@), factor)
            }
    }

    /// The coefficients of the polynomial with the given values on the coset of
    /// the extended domain.
    pub open spec fn coset_coefficients(self, a: Seq<int>) -> Seq<int> {
        distributed(
            F::modulus(),
            interpolated(
                F::modulus(),
                a,
                self.extended_omega_inv.val(),
                self.extended_ifft_divisor.val(),
            ),
            self.g_coset_inv.val(),
        )
    }

    /// What the constants of a domain have in common.
    pub proof fn lemma_domain(self)
        requires
            self.wf(),
        ensures
            F::modulus() > 2,
            self.k < 64,
            self.extended_k < 64,
            self.size() <= self.extended_size(),
            self.size() <= usize::MAX,
            self.extended_size() == self.size() * self.parts(),
            is_primitive(F::modulus(), self.omega.val(), self.k as nat),
            is_primitive(F::modulus(), self.extended_omega.val(), self.extended_k as nat),
            is_primitive(F::modulus(), self.omega_inv.val(), self.k as nat),
            is_primitive(F::modulus(), self.extended_omega_inv.val(), self.extended_k as nat),
            fpow(F::modulus(), self.extended_omega.val(), self.parts()) == self.omega.val(),
    {
        F::lemma_modulus();
        lemma_root_of_order::<F>(self.k as nat);
        lemma_root_of_order::<F>(self.extended_k as nat);
        lemma_pow2_monotonic(self.k as nat, self.extended_k as nat);
        lemma_pow2_adds(self.k as nat, (self.extended_k - self.k) as nat);
        let p = F::modulus();
        lemma_inverse_primitive(p, self.omega.val(), self.omega_inv.val(), self.k as nat);
        lemma_inverse_primitive(
            p,
            self.extended_omega.val(),
            self.extended_omega_inv.val(),
            self.extended_k as nat,
        );
    }

    /// This takes us from an n-length vector into the coefficient form.
    pub fn lagrange_to_coeff(&self, a: Polynomial<F, LagrangeCoeff>) -> (r: Polynomial<F, Coeff>)
        requires
            self.wf(),
            a@.len() == self.size(),
        ensures
            vals(r@) == self.coefficients(vals(a@)),
            r@.len() == self.size(),
            forall|i: int|
                0 <= i < a@.len() ==> poly_eval(
                    F::modulus(),
                    vals(r@),
                    fpow(F::modulus(), self.omega.val(), i as nat),
                ) == #[trigger] vals(a@)[i],
    {
        proof {
            self.lemma_domain();
            lemma_vals_canonical(a@);
        }
        // Perform inverse FFT to obtain the polynomial in coefficient form
        let mut values = fft(a.values(), self.omega_inv, self.k);
        scale(&mut values, &self.ifft_divisor);
        proof {
            let p = F::modulus();
            assert(vals(values@).len() == a@.len());
            assert forall|i: int| 0 <= i < a@.len() implies poly_eval(
                p,
                vals(values@),
                fpow(p, self.omega.val(), i as nat),
            ) == #[trigger] vals(a@)[i] by {
                law_interpolated(
                    p,
                    vals(a@),
                    self.omega.val(),
                    self.omega_inv.val(),
                    self.k as nat,
                    self.ifft_divisor.val(),
                    i,
                );
            }
        }
        Polynomial::new(values)
    }

    /// The coefficient forms of several polynomials.
    pub fn lagrange_to_coeff_many(&self, in_many: Vec<Polynomial<F, LagrangeCoeff>>) -> (r: Vec<
        Polynomial<F, Coeff>,
    >)
        requires
            self.wf(),
            forall|i: int|
                0 <= i < in_many@.len() ==> (#[trigger] in_many@[i])@.len() == self.size(),
        ensures
            r@.len() == in_many@.len(),
            forall|i: int|
                0 <= i < in_many@.len() ==> vals((#[trigger] r@[i])@) == self.coefficients(
                    vals(in_many@[i]@),
                ),
    {
        let ghost all = in_many@;
        let mut rest = in_many;
        let mut out: Vec<Polynomial<F, Coeff>> = Vec::new();
        while rest.len() > 0
            invariant
                self.wf(),
                out@.len() + rest@.len() == all.len(),
                rest@ == all.skip(out@.len() as int),
                forall|i: int| 0 <= i < all.len() ==> (#[trigger] all[i])@.len() == self.size(),
                forall|i: int|
                    0 <= i < out@.len() ==> vals((#[trigger] out@[i])@) == self.coefficients(
                        vals(all[i]@),
                    ),
            decreases rest@.len(),
        {
            let ghost k = out@.len() as int;
            let a = rest.remove(0);
            assert(a == all[k]);
            out.push(self.lagrange_to_coeff(a));
            assert(rest@ =~= all.skip(out@.len() as int));
        }
        out
    }

    /// This takes us from an n-length coefficient vector into a part of the
    /// extended evaluation domain. For example, for a polynomial with size n,
    /// and an extended domain of size mn, we can compute one of the m parts
    /// separately, which is
    ///     `FFT(f(zeta * extended_omega_factor * X), n)`
    /// where `extended_omega_factor` is `extended_omega^i` with `i` in `[0, m)`.
    pub fn coeff_to_extended_part(
        &self,
        a: &Polynomial<F, Coeff>,
        extended_omega_factor: F,
    ) -> (r: Polynomial<F, LagrangeCoeff>)
        requires
            self.wf(),
            a@.len() == self.size(),
        ensures
            vals(r@) == self.part_values(vals(a@), extended_omega_factor.val()),
            r@.len() == self.size(),
    {
        let ghost p = F::modulus();
        proof {
            self.lemma_domain();
        }
        let shift = self.g_coset.mul(&extended_omega_factor);
        let mut values = copied(a.values());
        distribute_powers(&mut values, shift);
        assert(vals(values@).len() == self.size());
        let out = fft(&values, self.omega, self.k);
        proof {
            let expected = self.part_values(vals(a@), extended_omega_factor.val());
            assert forall|i: int| 0 <= i < self.size() implies vals(out@)[i] == expected[i] by {
                law_distributed(
                    p,
                    vals(a@),
                    shift.val(),
                    fpow(p, self.omega.val(), i as nat),
                );
            }
            assert(vals(out@).len() == self.size());
            assert(vals(out@) =~= expected);
        }
        Polynomial::new(out)
    }

    /// From the Lagrange basis into a part of the extended evaluation domain.
    pub fn lagrange_to_extend_part(
        &self,
        a: Polynomial<F, LagrangeCoeff>,
        omega_extend_part: F,
    ) -> (r: Polynomial<F, ExtendedLagrangeCoeff>)
        requires
            self.wf(),
            a@.len() == self.size(),
        ensures
            vals(r@) == self.part_values(self.coefficients(vals(a@)), omega_extend_part.val()),
    {
        let coeffs = self.lagrange_to_coeff(a);
        let part = self.coeff_to_extended_part(&coeffs, omega_extend_part);
        Polynomial::new(part.into_values())
    }

    /// This takes us from an n-length coefficient vector into parts of the
    /// extended evaluation domain. For example, for a polynomial with size n,
    /// and an extended domain of size mn, we can compute all parts
    /// independently, which are
    ///     `FFT(f(zeta * X), n)`
    ///     `FFT(f(zeta * extended_omega * X), n)`
    ///     ...
    ///     `FFT(f(zeta * extended_omega^{m-1} * X), n)`
    pub fn coeff_to_extended_parts(&self, a: &Polynomial<F, Coeff>) -> (r: Vec<
        Polynomial<F, LagrangeCoeff>,
    >)
        requires
            self.wf(),
            a@.len() == self.size(),
        ensures
            r@.len() == self.parts(),
            forall|i: int|
                0 <= i < r@.len() ==> {
                    &&& (#[trigger] r@[i])@.len() == self.size()
                    &&& vals(r@[i]@) == self.part_values(
                        vals(a@),
                        fpow(F::modulus(), self.extended_omega.val(), i as nat),
                    )
                },
    {
        let ghost p = F::modulus();
        let num_parts = self.t_evaluations.len();
        let mut factor = F::one();
        let mut out: Vec<Polynomial<F, LagrangeCoeff>> = Vec::new();
        let mut i: usize = 0;
        proof {
            F::lemma_modulus();
            lemma_small_mod(1, p as nat);
        }
        while i < num_parts
            invariant
                i <= num_parts,
                num_parts == self.parts(),
                p == F::modulus(),
                self.wf(),
                a@.len() == self.size(),
                factor.val() == fpow(p, self.extended_omega.val(), i as nat),
                out@.len() == i,
                forall|j: int|
                    0 <= j < i ==> {
                        &&& (#[trigger] out@[j])@.len() == self.size()
                        &&& vals(out@[j]@) == self.part_values(
                            vals(a@),
                            fpow(p, self.extended_omega.val(), j as nat),
                        )
                    },
            decreases num_parts - i,
        {
            out.push(self.coeff_to_extended_part(a, factor));
            factor = factor.mul(&self.extended_omega);
            i += 1;
        }
        out
    }

    /// The parts of several polynomials: for each part, the values of all of
    /// them.
    pub fn batched_coeff_to_extended_parts(&self, a: &Vec<Polynomial<F, Coeff>>) -> (r: Vec<
        Vec<Polynomial<F, LagrangeCoeff>>,
    >)
        requires
            self.wf(),
            a@.len() > 0,
            forall|i: int| 0 <= i < a@.len() ==> (#[trigger] a@[i])@.len() == self.size(),
        ensures
            r@.len() == self.parts(),
            forall|i: int|
                0 <= i < r@.len() ==> self.is_part(
                    a@,
                    fpow(F::modulus(), self.extended_omega.val(), i as nat),
                    (#[trigger] r@[i])@,
                ),
    {
        let ghost p = F::modulus();
        let num_parts = self.t_evaluations.len();
        let mut factor = F::one();
        let mut out: Vec<Vec<Polynomial<F, LagrangeCoeff>>> = Vec::new();
        let mut i: usize = 0;
        proof {
            F::lemma_modulus();
            lemma_small_mod(1, p as nat);
        }
        while i < num_parts
            invariant
                i <= num_parts,
                num_parts == self.parts(),
                p == F::modulus(),
                self.wf(),
                forall|i: int| 0 <= i < a@.len() ==> (#[trigger] a@[i])@.len() == self.size(),
                factor.val() == fpow(p, self.extended_omega.val(), i as nat),
                out@.len() == i,
                forall|k: int|
                    0 <= k < i ==> self.is_part(
                        a@,
                        fpow(p, self.extended_omega.val(), k as nat),
                        (#[trigger] out@[k])@,
                    ),
            decreases num_parts - i,
        {
            let part = self.coeff_to_extended_part_many(a, factor);
            out.push(part);
            factor = factor.mul(&self.extended_omega);
            i += 1;
        }
        out
    }

    /// One part of several polynomials.
    pub fn coeff_to_extended_part_many(
        &self,
        in_many: &Vec<Polynomial<F, Coeff>>,
        extended_omega_factor: F,
    ) -> (r: Vec<Polynomial<F, LagrangeCoeff>>)
        requires
            self.wf(),
            forall|i: int|
                0 <= i < in_many@.len() ==> (#[trigger] in_many@[i])@.len() == self.size(),
        ensures
            self.is_part(in_many@, extended_omega_factor.val(), r@),
    {
        let mut out: Vec<Polynomial<F, LagrangeCoeff>> = Vec::new();
        let mut i: usize = 0;
        while i < in_many.len()
            invariant
                i <= in_many@.len(),
                self.wf(),
                forall|i: int|
                    0 <= i < in_many@.len() ==> (#[trigger] in_many@[i])@.len() == self.size(),
                out@.len() == i,
                forall|j: int|
                    0 <= j < i ==> {
                        &&& (#[trigger] out@[j])@.len() == self.size()
                        &&& vals(out@[j]@) == self.part_values(
                            vals(in_many@[j]@),
                            extended_omega_factor.val(),
                        )
                    },
            decreases in_many@.len() - i,
        {
            assert(in_many@[i as int]@.len() == self.size());
            out.push(self.coeff_to_extended_part(&in_many[i], extended_omega_factor));
            i += 1;
        }
        out
    }

    /// This takes us from an n-length coefficient vector into a coset of the extended
    /// evaluation domain.
    pub fn coeff_to_extended(&self, a: &Polynomial<F, Coeff>) -> (r: Polynomial<
        F,
        ExtendedLagrangeCoeff,
    >)
        requires
            self.wf(),
            a@.len() == self.size(),
        ensures
            vals(r@) == self.coset_values(vals(a@)),
            r@.len() == self.extended_size(),
    {
        let ghost p = F::modulus();
        proof {
            self.lemma_domain();
        }
        let n = a.len();
        let extended_len = self.extended_len();
        let mut values = copied(a.values());
        let ghost given = vals(a@);
        let mut i: usize = n;
        assert(given + poly_zero(0) =~= given);
        while i < extended_len
            invariant
                n <= i <= extended_len,
                values@.len() == i,
                vals(values@) == given + poly_zero((i - n) as nat),
            decreases extended_len - i,
        {
            let ghost before = values@;
            values.push(F::zero());
            i += 1;
            proof {
                assert(vals(values@) =~= vals(before).push(0));
                let m = (i - n) as nat;
                assert(poly_zero(m) =~= poly_zero((m - 1) as nat).push(0));
                assert(given + poly_zero(m) =~= (given + poly_zero((m - 1) as nat)).push(0));
            }
        }
        let ghost padded = vals(values@);
        self.distribute_powers_zeta(&mut values, true);
        assert(vals(values@).len() == self.extended_size());
        let out = fft(&values, self.extended_omega, self.extended_k);
        proof {
            let expected = self.coset_values(given);
            assert(vals(out@).len() == self.extended_size());
            assert forall|i: int| 0 <= i < self.extended_size() implies vals(out@)[i]
                == expected[i] by {
                let x = fpow(p, self.extended_omega.val(), i as nat);
                law_distributed(p, padded, self.g_coset.val(), x);
                lemma_poly_eval_padded(
                    p,
                    given,
                    (extended_len - n) as nat,
                    self.coset_point(i),
                );
            }
            assert(vals(out@) =~= expected);
        }
        Polynomial::new(out)
    }

    /// The coset values of several polynomials.
    pub fn coeff_to_extended_many(&self, in_many: &Vec<Polynomial<F, Coeff>>) -> (r: Vec<
        Polynomial<F, ExtendedLagrangeCoeff>,
    >)
        requires
            self.wf(),
            forall|i: int|
                0 <= i < in_many@.len() ==> (#[trigger] in_many@[i])@.len() == self.size(),
        ensures
            r@.len() == in_many@.len(),
            forall|i: int|
                0 <= i < r@.len() ==> vals((#[trigger] r@[i])@) == self.coset_values(
                    vals(in_many@[i]@),
                ),
    {
        let mut out: Vec<Polynomial<F, ExtendedLagrangeCoeff>> = Vec::new();
        let mut i: usize = 0;
        while i < in_many.len()
            invariant
                i <= in_many@.len(),
                self.wf(),
                forall|i: int|
                    0 <= i < in_many@.len() ==> (#[trigger] in_many@[i])@.len() == self.size(),
                out@.len() == i,
                forall|j: int|
                    0 <= j < i ==> vals((#[trigger] out@[j])@) == self.coset_values(
                        vals(in_many@[j]@),
                    ),
            decreases in_many@.len() - i,
        {
            assert(in_many@[i as int]@.len() == self.size());
            out.push(self.coeff_to_extended(&in_many[i]));
            i += 1;
        }
        out
    }

    /// This takes us from the extended evaluation domain and gets us the
    /// quotient polynomial coefficients.
    pub fn extended_to_coeff(&self, a: Polynomial<F, ExtendedLagrangeCoeff>) -> (r: Polynomial<
        F,
        Coeff,
    >)
        requires
            self.wf(),
            a@.len() == self.extended_size(),
        ensures
            vals(r@) == self.coset_coefficients(vals(a@)).take(
                (self.n * self.quotient_poly_degree) as int,
            ),
    {
        proof {
            self.lemma_domain();
        }
        assert(self.n * self.quotient_poly_degree <= u64::MAX) by {
            vstd::bits::lemma_u64_pow2_no_overflow(self.extended_k as nat);
        }
        let target_len: usize = (self.n * self.quotient_poly_degree) as usize;
        let mut values = fft(a.values(), self.extended_omega_inv, self.extended_k);
        scale(&mut values, &self.extended_ifft_divisor);
        // Distribute powers to move from coset; opposite from the
        // transformation we performed earlier.
        self.distribute_powers_zeta(&mut values, false);
        let ghost all = values@;
        assert(vals(all) == self.coset_coefficients(vals(a@)));
        assert(vals(all).len() == self.extended_size());
        values.truncate(target_len);
        assert(vals(values@) =~= vals(all).take(target_len as int));
        Polynomial::new(values)
    }

    /// The number of rows of the domain.
    pub fn rows(&self) -> (r: usize)
        requires
            self.wf(),
        ensures
            r == self.size(),
    {
        proof {
            self.lemma_domain();
        }
        self.n as usize
    }

    /// Get the size of the extended domain
    pub fn extended_len(&self) -> (r: usize)
        requires
            self.wf(),
        ensures
            r == self.extended_size(),
    {
        proof {
            self.lemma_domain();
        }
        let m = self.t_evaluations.len();
        assert(self.size() * self.parts() <= usize::MAX);
        self.n as usize * m
    }
}

/// Zeta's square is its inverse, and a cube root of one as well.
pub proof fn lemma_zeta<F: Field>()
    ensures
        ({
            let p = F::modulus();
            let z = F::zeta_val();
            let y = fmul(p, z, z);
            &&& fmul(p, z, y) == 1
            &&& fmul(p, y, y) == z
            &&& fmul(p, fmul(p, y, y), y) == 1
        }),
{
    let p = F::modulus();
    let z = F::zeta_val();
    let y = fmul(p, z, z);
    F::lemma_modulus();
    F::lemma_constants();
    lemma_fmul_comm(p, y, z);
    // y y = (z z) y = z (z y) = z
    lemma_fmul_assoc(p, z, z, y);
    lemma_units(p, z);
}

/// A copy of values.
pub fn copied<F: Field>(a: &Vec<F>) -> (r: Vec<F>)
    ensures
        r@ == a@,
{
    let mut out: Vec<F> = Vec::new();
    let mut i: usize = 0;
    while i < a.len()
        invariant
            i <= a@.len(),
            out@ == a@.take(i as int),
        decreases a@.len() - i,
    {
        out.push(a[i]);
        i += 1;
    }
    assert(a@.take(i as int) =~= a@);
    out
}

} // verus!
