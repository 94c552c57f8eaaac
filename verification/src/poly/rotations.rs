//! Rotating the rows of a column multiplies the argument of its polynomial.

use crate::field::{
    fmul, fpow, lemma_fmul_assoc, lemma_fmul_comm, lemma_fpow_add, lemma_fpow_mul, lemma_fpow_one,
    lemma_fpow_range, lemma_units, Field,
};
use crate::poly::arithmetic::{canonical, poly_eval};
use crate::poly::domain::{lemma_root_of_order, EvaluationDomain};
use crate::poly::domain_values::law_rotated_values;
use crate::poly::roots::lemma_inverse_powers;
use crate::poly::rotated_column;
use vstd::arithmetic::div_mod::{
    lemma_add_mod_noop, lemma_fundamental_div_mod, lemma_mod_bound, lemma_small_mod,
};
use vstd::arithmetic::power2::lemma_pow2_pos;
use vstd::prelude::*;

verus! {

/// Powers of omega repeat after as many rows as the domain has.
proof fn lemma_omega_period<F: Field>(domain: EvaluationDomain<F>, t: nat)
    requires
        domain.wf(),
    ensures
        fpow(F::modulus(), domain.omega.val(), t) == fpow(
            F::modulus(),
            domain.omega.val(),
            (t % domain.size()) as nat,
        ),
{
    let p = F::modulus();
    domain.lemma_domain();
    let w = domain.omega.val();
    let n = domain.size();
    lemma_pow2_pos(domain.k as nat);
    lemma_root_of_order::<F>(domain.k as nat);
    let (q, j) = (t / n, t % n);
    lemma_fundamental_div_mod(t as int, n as int);
    lemma_fpow_add(p, w, n * q, j);
    lemma_fpow_mul(p, w, n, q);
    lemma_fpow_one(p, q);
    lemma_fpow_range(p, w, j);
    lemma_units(p, fpow(p, w, j));
    lemma_fmul_comm(p, 1, fpow(p, w, j));
}

/// The power of omega of a rotated row.
pub proof fn lemma_rotated_row<F: Field>(domain: EvaluationDomain<F>, i: nat, rotation: int)
    requires
        domain.wf(),
    ensures
        fpow(F::modulus(), domain.omega.val(), ((i + rotation) % (domain.size() as int)) as nat)
            == fmul(
            F::modulus(),
            fpow(F::modulus(), domain.omega.val(), i),
            domain.omega_power(rotation),
        ),
{
    let p = F::modulus();
    domain.lemma_domain();
    let (w, v) = (domain.omega.val(), domain.omega_inv.val());
    let n = domain.size() as int;
    lemma_pow2_pos(domain.k as nat);
    let row = (i + rotation) % n;
    lemma_mod_bound(i + rotation, n);
    if rotation >= 0 {
        lemma_fpow_add(p, w, i, rotation as nat);
        lemma_omega_period(domain, (i + rotation) as nat);
    } else {
        let k = (-rotation) as nat;
        // omega^row omega^k = omega^i, so omega^row = omega^i omega^(-k)
        lemma_fpow_add(p, w, row as nat, k);
        lemma_omega_period(domain, (row + k) as nat);
        lemma_omega_period(domain, i);
        assert((row + k) % n == (i as int) % n) by {
            lemma_add_mod_noop(i + rotation, k as int, n);
            lemma_add_mod_noop(row, k as int, n);
            lemma_small_mod(row as nat, n as nat);
        }
        lemma_inverse_powers(p, w, v, k);
        let (a, b, c) = (fpow(p, w, row as nat), fpow(p, w, k), fpow(p, v, k));
        lemma_fmul_assoc(p, a, b, c);
        lemma_fpow_range(p, w, row as nat);
        lemma_units(p, a);
    }
}

/// The value of a part's column in a rotated row is that of its polynomial at the
/// rotated point.
pub proof fn law_part_rotation<F: Field>(
    domain: EvaluationDomain<F>,
    a: Seq<int>,
    factor: int,
    i: nat,
    rotation: int,
)
    requires
        domain.wf(),
        i < domain.size(),
    ensures
        0 <= (i + rotation) % (domain.size() as int) < domain.size(),
        domain.part_values(a, factor)[(i + rotation) % (domain.size() as int)] == poly_eval(
            F::modulus(),
            a,
            fmul(F::modulus(), domain.part_point(factor, i as int), domain.omega_power(rotation)),
        ),
{
    let p = F::modulus();
    domain.lemma_domain();
    lemma_pow2_pos(domain.k as nat);
    lemma_mod_bound(i + rotation, domain.size() as int);
    lemma_rotated_row(domain, i, rotation);
    let g = fmul(p, domain.g_coset.val(), factor);
    lemma_fmul_assoc(
        p,
        g,
        fpow(p, domain.omega.val(), i),
        domain.omega_power(rotation),
    );
}

/// Rotating the values of a polynomial multiplies its argument by a power of
/// omega.
pub proof fn law_rotate<F: Field>(
    domain: EvaluationDomain<F>,
    a: Seq<int>,
    rotation: int,
    x: int,
)
    requires
        domain.wf(),
        a.len() == domain.size(),
        canonical(F::modulus(), a),
    ensures
        poly_eval(F::modulus(), domain.coefficients(rotated_column(a, rotation)), x) == poly_eval(
            F::modulus(),
            domain.coefficients(a),
            fmul(F::modulus(), domain.omega_power(rotation), x),
        ),
{
    let p = F::modulus();
    domain.lemma_domain();
    let n = domain.size() as int;
    lemma_pow2_pos(domain.k as nat);
    let r = rotation % n;
    lemma_mod_bound(rotation, n);
    let b = rotated_column(a, rotation);
    assert forall|i: int| 0 <= i < b.len() implies #[trigger] b[i] == a[(i + r) % n] by {
        lemma_add_mod_noop(i, rotation, n);
        lemma_add_mod_noop(i, r, n);
        lemma_small_mod(r as nat, n as nat);
    }
    law_rotated_values(domain, a, b, r as nat, x);
    lemma_rotated_row(domain, 0, rotation);
    let power = domain.omega_power(rotation);
    assert(0 <= power < p) by {
        if rotation >= 0 {
            lemma_fpow_range(p, domain.omega.val(), rotation as nat);
        } else {
            lemma_fpow_range(p, domain.omega_inv.val(), (-rotation) as nat);
        }
    }
    lemma_units(p, power);
    lemma_fmul_comm(p, 1, power);
    lemma_small_mod(1, p as nat);
    assert(fpow(p, domain.omega.val(), 0) == 1);
}

} // verus!
