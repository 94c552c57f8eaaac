//! The Lagrange basis of a domain: one polynomial for each rotation, which is
//! one at the rotation's own point and zero at all others.

use crate::field::{
    fmul, fpow, fsub, lemma_f_range, lemma_fmul_comm, lemma_fpow_mul, lemma_fpow_one,
    lemma_fpow_range, lemma_units, Field,
};
use crate::poly::arithmetic::poly_eval;
use crate::poly::domain::{lemma_root_of_order, EvaluationDomain};
use crate::poly::domain_values::{lagrange_basis, law_lagrange_basis, lemma_barycentric};
use crate::poly::roots::{
    fsum, lemma_fsum_equal, lemma_fsum_multiple, lemma_fsum_single, lemma_fsum_swap,
    lemma_orthogonal, lemma_poly_eval_is_sum,
};
use crate::poly::rotations::lemma_rotated_row;
use vstd::arithmetic::div_mod::{
    lemma_mod_add_multiples_vanish, lemma_mod_bound, lemma_small_mod,
};
use vstd::arithmetic::power2::lemma_pow2_pos;
use vstd::prelude::*;

verus! {

pub proof fn lemma_omega_power_range<F: Field>(domain: EvaluationDomain<F>, rotation: int)
    ensures
        0 <= domain.omega_power(rotation) < F::modulus(),
{
    let p = F::modulus();
    F::lemma_modulus();
    if rotation >= 0 {
        lemma_fpow_range(p, domain.omega.val(), rotation as nat);
    } else {
        lemma_fpow_range(p, domain.omega_inv.val(), (-rotation) as nat);
    }
}

/// The point of a rotation is that of a row, and an `n`th root of one.
pub proof fn lemma_omega_power<F: Field>(domain: EvaluationDomain<F>, rotation: int)
    requires
        domain.wf(),
    ensures
        0 <= rotation % (domain.size() as int) < domain.size(),
        domain.omega_power(rotation) == fpow(
            F::modulus(),
            domain.omega.val(),
            (rotation % (domain.size() as int)) as nat,
        ),
        fpow(F::modulus(), domain.omega_power(rotation), domain.size()) == 1,
{
    let p = F::modulus();
    let n = domain.size();
    let w = domain.omega.val();
    F::lemma_modulus();
    lemma_pow2_pos(domain.k as nat);
    lemma_mod_bound(rotation, n as int);
    let i = (rotation % (n as int)) as nat;
    lemma_omega_power_range(domain, rotation);
    lemma_rotated_row(domain, 0, rotation);
    lemma_small_mod(1, p as nat);
    assert(fpow(p, w, 0) == 1);
    lemma_units(p, domain.omega_power(rotation));
    lemma_root_of_order::<F>(domain.k as nat);
    lemma_fpow_mul(p, w, i, n);
    lemma_fpow_mul(p, w, n, i);
    assert(i * n == n * i) by (nonlinear_arith);
    lemma_fpow_one(p, i);
}

/// [`EvaluationDomain::l_i_range`] gives the values of the Lagrange basis
/// polynomials, at every point and for every rotation.
pub proof fn law_l_i_is_lagrange_basis<F: Field>(
    domain: EvaluationDomain<F>,
    rotation: int,
    x: int,
)
    requires
        domain.wf(),
        0 <= x < F::modulus(),
    ensures
        domain.lagrange_value(x, fpow(F::modulus(), x, domain.size()), rotation) == poly_eval(
            F::modulus(),
            lagrange_basis(domain, (rotation % (domain.size() as int)) as nat),
            x,
        ),
{
    let p = F::modulus();
    let n = domain.size();
    F::lemma_modulus();
    F::lemma_field();
    let xn = fpow(p, x, n);
    let i = (rotation % (n as int)) as nat;
    let w = domain.omega_power(rotation);
    lemma_omega_power(domain, rotation);
    lemma_omega_power_range(domain, rotation);
    if x == w {
        law_lagrange_basis(domain, i, i);
    } else {
        let d = fsub(p, x, w);
        lemma_f_range(p, x, w);
        assert(d != 0) by {
            if x > w {
                lemma_small_mod((x - w) as nat, p as nat);
            } else {
                lemma_small_mod((x - w + p) as nat, p as nat);
                lemma_mod_add_multiples_vanish(x - w, p);
            }
        }
        assert(crate::field::has_inverse(p, d));
        lemma_barycentric(domain, i, x);
    }
}

/// Rotations that lead to the same row have the same basis polynomial.
pub proof fn law_basis_repeats<F: Field>(domain: EvaluationDomain<F>, rotation: int, x: int)
    requires
        domain.wf(),
        0 <= x < F::modulus(),
    ensures
        domain.lagrange_value(
            x,
            fpow(F::modulus(), x, domain.size()),
            rotation - domain.size(),
        ) == domain.lagrange_value(x, fpow(F::modulus(), x, domain.size()), rotation),
{
    let n = domain.size() as int;
    lemma_pow2_pos(domain.k as nat);
    law_l_i_is_lagrange_basis(domain, rotation, x);
    law_l_i_is_lagrange_basis(domain, rotation - n, x);
    lemma_mod_add_multiples_vanish(rotation - n, n);
    assert((rotation - n) % n == rotation % n);
}

/// The basis polynomials of all rows add up to one, at every point.
pub proof fn law_basis_sums_to_one<F: Field>(domain: EvaluationDomain<F>, x: int)
    requires
        domain.wf(),
        0 <= x < F::modulus(),
    ensures
        fsum(
            F::modulus(),
            domain.size(),
            |i: nat|
                domain.lagrange_value(x, fpow(F::modulus(), x, domain.size()), i as int),
        ) == 1,
{
    let p = F::modulus();
    let n = domain.size();
    let (w, v) = (domain.omega.val(), domain.omega_inv.val());
    let c = domain.barycentric_weight.val();
    domain.lemma_domain();
    lemma_pow2_pos(domain.k as nat);
    let values = |i: nat| domain.lagrange_value(x, fpow(p, x, n), i as int);
    // The values as a double sum over the rows and the coefficients.
    let term = |i: nat, j: nat| fmul(p, lagrange_basis(domain, i)[j as int], fpow(p, x, j));
    let rows = |i: nat| fsum(p, n, |j: nat| term(i, j));
    assert forall|i: nat| i < n implies #[trigger] values(i) == rows(i) by {
        law_l_i_is_lagrange_basis(domain, i as int, x);
        lemma_small_mod(i, n);
        let basis = lagrange_basis(domain, i);
        lemma_poly_eval_is_sum(p, basis, x);
        let f = |j: nat| fmul(p, basis[j as int], fpow(p, x, j));
        let row = |j: nat| term(i, j);
        lemma_fsum_equal(p, n, f, row);
    }
    lemma_fsum_equal(p, n, values, rows);
    lemma_fsum_swap(p, n, n, term);
    let columns = |j: nat| fsum(p, n, |i: nat| term(i, j));
    // Only the constant coefficients do not add up to zero.
    assert forall|j: nat| j < n implies #[trigger] columns(j) == (if j == 0 {
        1int
    } else {
        0
    }) by {
        let column = |i: nat| term(i, j);
        let g = |i: nat| fmul(p, fpow(p, fpow(p, w, i), 0), fpow(p, fpow(p, v, j), i));
        let factor = fmul(p, fpow(p, x, j), c);
        lemma_small_mod(1, p as nat);
        assert forall|i: nat| i < n implies #[trigger] column(i) == fmul(p, factor, g(i)) by {
            let e = fpow(p, fpow(p, v, i), j);
            lemma_fpow_mul(p, v, i, j);
            lemma_fpow_mul(p, v, j, i);
            assert(i * j == j * i) by (nonlinear_arith);
            lemma_fpow_range(p, fpow(p, v, i), j);
            lemma_units(p, e);
            assert(g(i) == e);
            // (c e) x^j = (x^j c) e
            lemma_fmul_comm(p, fmul(p, c, e), fpow(p, x, j));
            crate::field::lemma_fmul_assoc(p, fpow(p, x, j), c, e);
        }
        lemma_fsum_multiple(p, n, g, factor, column);
        lemma_orthogonal(p, w, v, domain.k as nat, 0, j);
        if j == 0 {
            assert(fpow(p, x, 0) == 1);
            lemma_fpow_range(p, x, 0);
            lemma_units(p, c);
            lemma_fmul_comm(p, 1, c);
            lemma_fmul_comm(p, c, n as int % p);
        } else {
            assert(factor * 0 == 0) by (nonlinear_arith);
            lemma_small_mod(0, p as nat);
        }
    }
    assert forall|j: nat| j < n && j != 0 implies #[trigger] columns(j) == 0 by {}
    lemma_fsum_single(p, n, columns, 0);
    lemma_small_mod(1, p as nat);
}

} // verus!
