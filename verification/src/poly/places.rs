//! Where domains have their points, and what they take.

use crate::field::{
    fmul, fpow, lemma_fmul_assoc, lemma_fmul_comm, lemma_fpow_range, lemma_mod_mul_left,
    lemma_units, Field,
};
use crate::poly::domain::EvaluationDomain;
use crate::poly::query::{device_positions, ProverQuery};
use vstd::arithmetic::div_mod::lemma_small_mod;
use vstd::arithmetic::power2::pow2;
use vstd::prelude::*;

verus! {

/// A rotation by one row more is a multiplication by the root of the domain, forwards and
/// backwards; no rotation changes nothing.
pub proof fn law_rotations_follow_the_root<F: Field>(domain: EvaluationDomain<F>, r: int)
    requires
        domain.wf(),
    ensures
        domain.omega_power(0) == 1,
        domain.omega_power(1) == domain.omega.val(),
        domain.omega_power(r + 1) == (domain.omega_power(r) * domain.omega.val()) % F::modulus(),
{
    let p = F::modulus();
    F::lemma_modulus();
    lemma_small_mod(1, p as nat);
    let (w, v) = (domain.omega.val(), domain.omega_inv.val());
    domain.omega.lemma_val_range();
    assert(fpow(p, w, 0) == 1);
    assert(fpow(p, w, 1) == fmul(p, 1, w));
    lemma_units(p, w);
    if r >= 0 {
        assert(fpow(p, w, (r + 1) as nat) == fmul(p, fpow(p, w, r as nat), w));
    } else {
        // v^(-r) w = v^(-r - 1) (v w)
        let k = (-r - 1) as nat;
        let e = fpow(p, v, k);
        assert(fpow(p, v, (-r) as nat) == fmul(p, e, v));
        lemma_fmul_assoc(p, e, v, w);
        lemma_fmul_comm(p, v, w);
        lemma_fpow_range(p, v, k);
        lemma_units(p, e);
        if k == 0 {
            assert(e == 1);
        }
    }
}

/// The extended domain is the smallest that holds the quotient.
pub proof fn law_extended_domain_is_smallest<F: Field>(domain: EvaluationDomain<F>)
    requires
        domain.wf(),
    ensures
        domain.n == pow2(domain.k as nat),
        domain.k <= domain.extended_k,
        pow2(domain.k as nat) * domain.quotient_poly_degree <= pow2(domain.extended_k as nat),
        domain.extended_k > domain.k ==> pow2(domain.k as nat) * domain.quotient_poly_degree
            > pow2((domain.extended_k - 1) as nat),
        domain.t_evaluations@.len() == pow2((domain.extended_k - domain.k) as nat),
{
}

/// The points of the coset: the cube root of one, times the powers of the extended
/// domain's root; and those of a part, times its shift and the powers of the domain's root.
/// Both roots have the order that their domain's size says.
pub proof fn law_coset_points<F: Field>(domain: EvaluationDomain<F>, shift: int, i: nat)
    requires
        domain.wf(),
    ensures
        domain.coset_point(i as int) == (F::zeta_val() * fpow(
            F::modulus(),
            domain.extended_omega.val(),
            i,
        )) % F::modulus(),
        domain.part_point(shift, i as int) == (F::zeta_val() * shift * fpow(
            F::modulus(),
            domain.omega.val(),
            i,
        )) % F::modulus(),
        domain.k > 0 ==> fpow(F::modulus(), domain.omega.val(), pow2((domain.k - 1) as nat)) == (
        -1int) % F::modulus(),
        domain.extended_k > 0 ==> fpow(
            F::modulus(),
            domain.extended_omega.val(),
            pow2((domain.extended_k - 1) as nat),
        ) == (-1int) % F::modulus(),
{
    let p = F::modulus();
    F::lemma_modulus();
    lemma_mod_mul_left(p, F::zeta_val() * shift, fpow(p, domain.omega.val(), i));
    domain.lemma_domain();
}

/// Polynomials take as many bytes as their coefficients, one polynomial after another.
pub proof fn law_bytes_add_up<F: Field>(domain: EvaluationDomain<F>, count: nat)
    ensures
        domain.spec_bytes(0) == 0,
        domain.spec_bytes(count + 1) == domain.spec_bytes(count) + domain.size()
            * vstd::layout::size_of::<F>(),
{
    let each = domain.size() * vstd::layout::size_of::<F>();
    assert((count + 1) * each == count * each + each) by (nonlinear_arith);
    assert(0 * each == 0);
}

/// The positions of the queries on the device: all of them, in their order.
pub proof fn law_device_positions<F: Field>(s: Seq<ProverQuery<'_, F>>, i: int, j: int, k: int)
    ensures
        0 <= i < j < device_positions(s).len() ==> device_positions(s)[i] < device_positions(s)[j],
        0 <= i < device_positions(s).len() ==> 0 <= device_positions(s)[i] < s.len()
            && s[device_positions(s)[i]].poly is Device,
        0 <= k < s.len() && s[k].poly is Device ==> device_positions(s).contains(k),
    decreases s.len(),
{
    if s.len() > 0 {
        let front = s.drop_last();
        let before = device_positions(front);
        law_device_positions(front, i, j, k);
        law_device_positions(front, j, j, k);
        if s.last().poly is Device {
            let all = device_positions(s);
            if 0 <= k < front.len() && s[k].poly is Device {
                let m = choose|m: int| 0 <= m < before.len() && before[m] == k;
                assert(all[m] == k);
            }
            if k == s.len() - 1 {
                assert(all[before.len() as int] == k);
            }
        }
    }
}

} // verus!
