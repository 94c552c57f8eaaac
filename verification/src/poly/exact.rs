//! Polynomials that vanish on the domain are multiples of the polynomial that
//! does, and the quotient can be had from values on the coset.

use crate::field::{
    fadd, finv, fmul, fpow, fsub, lemma_f_range, lemma_fadd_assoc, lemma_fadd_comm,
    lemma_fmul_assoc, lemma_fmul_comm, lemma_fmul_distrib, lemma_fpow_add, lemma_fpow_mul,
    lemma_fpow_one, lemma_fpow_range, lemma_units, Field,
};
use crate::plonk::assigned::lemma_field_inverse;
use crate::plonk::vanishing::lemma_poly_eval_append;
use crate::poly::arithmetic::{
    canonical, lemma_poly_eval_padded, lemma_poly_eval_range, lemma_poly_eval_scale,
    lemma_poly_eval_sum, lemma_poly_eval_zero, poly_add, poly_eval, poly_scale, poly_zero,
};
use crate::poly::domain::{lemma_root_of_order, EvaluationDomain};
use crate::poly::domain_values::{law_extended_round_trip, law_vanishing_values};
use crate::poly::fft::transform;
use crate::poly::roots::lemma_fpow_product;
use crate::poly::transforms::law_interpolated_values;
use vstd::arithmetic::div_mod::lemma_small_mod;
use vstd::arithmetic::power2::{lemma_pow2_pos, lemma_pow2_unfold, pow2};
use vstd::prelude::*;

verus! {

/// The coefficients below `X^n` and those above, added up.
pub open spec fn wrapped(p: int, n: nat, c: Seq<int>) -> Seq<int> {
    let (low, high) = (c.take(n as int), c.skip(n as int));
    if high.len() <= n {
        poly_add(p, low, high)
    } else {
        poly_add(p, high, low)
    }
}

/// The quotient of a polynomial by `X^n - 1`.
pub open spec fn cyclic_quotient(p: int, n: nat, c: Seq<int>) -> Seq<int>
    decreases c.len(),
{
    if n == 0 || c.len() <= n {
        Seq::empty()
    } else {
        poly_add(p, c.skip(n as int), cyclic_quotient(p, n, wrapped(p, n, c)))
    }
}

/// The remainder of a polynomial by `X^n - 1`, of `n` coefficients.
pub open spec fn cyclic_remainder(p: int, n: nat, c: Seq<int>) -> Seq<int>
    decreases c.len(),
{
    if n == 0 || c.len() <= n {
        c + poly_zero((n - c.len()) as nat)
    } else {
        cyclic_remainder(p, n, wrapped(p, n, c))
    }
}

/// `u + w v = (v + q) (w - 1) + r`, where `u + v = q (w - 1) + r`.
proof fn lemma_division_step(p: int, u: int, v: int, w: int, q: int, r: int)
    requires
        p > 1,
        0 <= v < p,
        0 <= w < p,
        fadd(p, u, v) == fadd(p, fmul(p, q, fsub(p, w, 1)), r),
    ensures
        fadd(p, u, fmul(p, w, v)) == fadd(p, fmul(p, fadd(p, v, q), fsub(p, w, 1)), r),
{
    let m = fsub(p, w, 1);
    // w v = v + v (w - 1)
    assert(fadd(p, 1, m) == w) by {
        crate::field::lemma_mod_add_right(p, 1, w - 1);
        lemma_small_mod(w as nat, p as nat);
    }
    lemma_fmul_distrib(p, v, 1, m);
    lemma_units(p, v);
    lemma_fmul_comm(p, v, w);
    let vm = fmul(p, v, m);
    assert(fmul(p, w, v) == fadd(p, v, vm));
    lemma_fadd_assoc(p, u, v, vm);
    // (v + q) m = v m + q m
    lemma_fmul_distrib(p, m, v, q);
    lemma_fmul_comm(p, m, fadd(p, v, q));
    lemma_fmul_comm(p, m, v);
    lemma_fmul_comm(p, m, q);
    let qm = fmul(p, q, m);
    lemma_fadd_comm(p, fadd(p, qm, r), vm);
    lemma_fadd_assoc(p, vm, qm, r);
}

/// Division by `X^n - 1`: a polynomial is its quotient times `X^n - 1`, plus its
/// remainder.
pub proof fn law_cyclic_division(p: int, n: nat, c: Seq<int>, x: int)
    requires
        p > 1,
        n > 0,
        canonical(p, c),
    ensures
        cyclic_quotient(p, n, c).len() == if c.len() <= n {
            0int
        } else {
            c.len() - n
        },
        cyclic_remainder(p, n, c).len() == n,
        canonical(p, cyclic_quotient(p, n, c)),
        canonical(p, cyclic_remainder(p, n, c)),
        poly_eval(p, c, x) == fadd(
            p,
            fmul(
                p,
                poly_eval(p, cyclic_quotient(p, n, c), x),
                fsub(p, fpow(p, x, n), 1),
            ),
            poly_eval(p, cyclic_remainder(p, n, c), x),
        ),
    decreases c.len(),
{
    if c.len() <= n {
        let rest = (n - c.len()) as nat;
        lemma_poly_eval_padded(p, c, rest, x);
        lemma_poly_eval_range(p, c, x);
        lemma_small_mod(poly_eval(p, c, x) as nat, p as nat);
        lemma_small_mod(0, p as nat);
        assert(0 * fsub(p, fpow(p, x, n), 1) == 0);
    } else {
        let (low, high) = (c.take(n as int), c.skip(n as int));
        let next = wrapped(p, n, c);
        assert(canonical(p, next)) by {
            assert forall|i: int| 0 <= i < next.len() implies 0 <= #[trigger] next[i] < p by {
                if i < n {
                    assert(0 <= c[i] < p);
                }
                if i < high.len() {
                    assert(0 <= c[n + i] < p);
                }
            }
        }
        law_cyclic_division(p, n, next, x);
        let q1 = cyclic_quotient(p, n, next);
        let q = cyclic_quotient(p, n, c);
        assert(canonical(p, q)) by {
            assert forall|i: int| 0 <= i < q.len() implies 0 <= #[trigger] q[i] < p by {
                assert(0 <= c[n + i] < p);
            }
        }
        assert(c =~= low + high);
        lemma_poly_eval_append(p, low, high, x);
        if high.len() <= n {
            lemma_poly_eval_sum(p, low, high, x);
        } else {
            lemma_poly_eval_sum(p, high, low, x);
            lemma_fadd_comm(p, poly_eval(p, low, x), poly_eval(p, high, x));
        }
        lemma_poly_eval_sum(p, high, q1, x);
        lemma_poly_eval_range(p, high, x);
        lemma_fpow_range(p, x, n);
        lemma_division_step(
            p,
            poly_eval(p, low, x),
            poly_eval(p, high, x),
            fpow(p, x, n),
            poly_eval(p, q1, x),
            poly_eval(p, cyclic_remainder(p, n, c), x),
        );
    }
}

/// The remainder of a polynomial that vanishes on the domain is zero.
proof fn lemma_remainder_vanishes<F: Field>(domain: EvaluationDomain<F>, c: Seq<int>)
    requires
        domain.wf(),
        canonical(F::modulus(), c),
        forall|i: nat|
            i < domain.size() ==> poly_eval(
                F::modulus(),
                c,
                #[trigger] fpow(F::modulus(), domain.omega.val(), i),
            ) == 0,
    ensures
        cyclic_remainder(F::modulus(), domain.size(), c) == poly_zero(domain.size()),
{
    let p = F::modulus();
    let n = domain.size();
    let w = domain.omega.val();
    domain.lemma_domain();
    lemma_pow2_pos(domain.k as nat);
    lemma_root_of_order::<F>(domain.k as nat);
    let r = cyclic_remainder(p, n, c);
    let zero = poly_zero(n);
    law_cyclic_division(p, n, c, 0);
    let values = transform(p, r, w, n);
    assert(values =~= transform(p, zero, w, n)) by {
        assert forall|i: int| 0 <= i < n implies values[i] == transform(p, zero, w, n)[i] by {
            let x = fpow(p, w, i as nat);
            law_cyclic_division(p, n, c, x);
            lemma_poly_eval_zero(p, n, x);
            // x^n = (omega^n)^i = 1
            lemma_fpow_mul(p, w, i as nat, n);
            lemma_fpow_mul(p, w, n, i as nat);
            assert(i as nat * n == n * i as nat) by (nonlinear_arith);
            lemma_fpow_one(p, i as nat);
            lemma_small_mod(0, p as nat);
            assert(fpow(p, x, n) == 1);
            assert(fsub(p, fpow(p, x, n), 1) == 0);
            let q = poly_eval(p, cyclic_quotient(p, n, c), x);
            assert(q * 0 == 0) by (nonlinear_arith);
            lemma_poly_eval_range(p, r, x);
            lemma_small_mod(poly_eval(p, r, x) as nat, p as nat);
            assert(poly_eval(p, c, fpow(p, w, i as nat)) == 0);
        }
    }
    let (v, d) = (domain.omega_inv.val(), domain.ifft_divisor.val());
    law_interpolated_values(p, r, w, v, domain.k as nat, d);
    law_interpolated_values(p, zero, w, v, domain.k as nat, d);
    assert(r == zero);
}

/// No power of zeta with a power of two as its exponent is one.
proof fn lemma_zeta_power<F: Field>(e: nat)
    ensures
        fpow(F::modulus(), F::zeta_val(), pow2(e)) != 1,
        fmul(
            F::modulus(),
            fpow(F::modulus(), F::zeta_val(), pow2(e)),
            fmul(
                F::modulus(),
                fpow(F::modulus(), F::zeta_val(), pow2(e)),
                fpow(F::modulus(), F::zeta_val(), pow2(e)),
            ),
        ) == 1,
    decreases e,
{
    let p = F::modulus();
    let z = F::zeta_val();
    F::lemma_modulus();
    F::lemma_constants();
    let x = fpow(p, z, pow2(e));
    lemma_fpow_range(p, z, pow2(e));
    if e == 0 {
        vstd::arithmetic::power2::lemma2_to64();
        reveal_with_fuel(fpow, 2);
        lemma_small_mod(1, p as nat);
        lemma_units(p, z);
        lemma_fmul_assoc(p, z, z, z);
    } else {
        let d = (e - 1) as nat;
        let y = fpow(p, z, pow2(d));
        lemma_zeta_power::<F>(d);
        lemma_pow2_unfold(e);
        lemma_fpow_add(p, z, pow2(d), pow2(d));
        lemma_fpow_range(p, z, pow2(d));
        assert(pow2(e) == pow2(d) + pow2(d));
        assert(x == fmul(p, y, y));
        // y (y y) = 1, so that y y = 1 would make y one.
        lemma_units(p, y);
        // (y y) ((y y) (y y)) = (y (y y)) (y (y y)) = 1
        lemma_fmul_assoc(p, y, y, fmul(p, x, x));
        lemma_fmul_assoc(p, y, x, x);
        lemma_units(p, x);
    }
}

/// No point of the coset is an `n`th root of one.
proof fn lemma_coset_avoids_domain<F: Field>(domain: EvaluationDomain<F>, i: int)
    requires
        domain.wf(),
        0 <= i,
    ensures
        0 < fsub(F::modulus(), fpow(F::modulus(), domain.coset_point(i), domain.size()), 1)
            < F::modulus(),
{
    let p = F::modulus();
    let n = domain.size();
    let m = domain.extended_size();
    let w = domain.extended_omega.val();
    domain.lemma_domain();
    F::lemma_modulus();
    let x = domain.coset_point(i);
    let xn = fpow(p, x, n);
    lemma_fpow_range(p, x, n);
    lemma_f_range(p, xn, 1);
    if fsub(p, xn, 1) == 0 {
        assert(xn == 1) by {
            if xn > 0 {
                lemma_small_mod((xn - 1) as nat, p as nat);
            } else {
                vstd::arithmetic::div_mod::lemma_mod_add_multiples_vanish(-1, p);
                lemma_small_mod((p - 1) as nat, p as nat);
            }
        }
        // x^(n m) = (zeta^n)^m (w^m)^(i n)
        lemma_fpow_one(p, m);
        lemma_fpow_mul(p, x, n, m);
        let wi = fpow(p, w, i as nat);
        lemma_fpow_product(p, domain.g_coset.val(), wi, n * m);
        lemma_root_of_order::<F>(domain.extended_k as nat);
        lemma_fpow_mul(p, w, i as nat, n * m);
        lemma_fpow_mul(p, w, m, i as nat * n);
        assert(i as nat * (n * m) == m * (i as nat * n)) by (nonlinear_arith);
        lemma_fpow_one(p, i as nat * n);
        let zeta = fpow(p, F::zeta_val(), n * m);
        lemma_fpow_range(p, F::zeta_val(), n * m);
        lemma_units(p, zeta);
        vstd::arithmetic::power2::lemma_pow2_adds(domain.k as nat, domain.extended_k as nat);
        lemma_zeta_power::<F>(domain.k as nat + domain.extended_k as nat);
    }
}

/// The values on the coset, each divided by the value of `X^n - 1` there.
pub open spec fn divided<F: Field>(domain: EvaluationDomain<F>, values: Seq<int>) -> Seq<int> {
    Seq::new(
        values.len(),
        |i: int|
            fmul(
                F::modulus(),
                values[i],
                domain.t_evaluations@[i % (domain.t_evaluations@.len() as int)].val(),
            ),
    )
}

/// Division on the coset is exact: for a polynomial that vanishes on the domain,
/// and whose quotient by `X^n - 1` is not longer than the domain provides for,
/// the values on the coset, divided there and turned into coefficients, give a
/// polynomial that is the quotient at every point.
pub proof fn law_exact_quotient<F: Field>(
    domain: EvaluationDomain<F>,
    c: Seq<int>,
    values: Seq<int>,
    x: int,
)
    requires
        domain.wf(),
        c.len() <= domain.size() + domain.n * domain.quotient_poly_degree,
        forall|i: nat|
            i < domain.size() ==> poly_eval(
                F::modulus(),
                c,
                #[trigger] fpow(F::modulus(), domain.omega.val(), i),
            ) == 0,
        values.len() == domain.extended_size(),
        forall|i: int|
            0 <= i < values.len() ==> #[trigger] values[i] == poly_eval(
                F::modulus(),
                c,
                domain.coset_point(i),
            ),
    ensures
        fmul(
            F::modulus(),
            poly_eval(
                F::modulus(),
                domain.coset_coefficients(divided(domain, values)).take(
                    (domain.n * domain.quotient_poly_degree) as int,
                ),
                x,
            ),
            fsub(F::modulus(), fpow(F::modulus(), x, domain.size()), 1),
        ) == poly_eval(F::modulus(), c, x),
{
    let p = F::modulus();
    let n = domain.size();
    domain.lemma_domain();
    F::lemma_modulus();
    F::lemma_field();
    lemma_pow2_pos(domain.k as nat);
    let target = (domain.n * domain.quotient_poly_degree) as int;
    // The same polynomial with canonical coefficients.
    let a = poly_scale(p, c, 1);
    assert forall|y: int| #[trigger] poly_eval(p, a, y) == poly_eval(p, c, y) by {
        lemma_poly_eval_scale(p, c, 1, y);
        lemma_poly_eval_range(p, c, y);
        lemma_units(p, poly_eval(p, c, y));
    }
    assert(canonical(p, a));
    lemma_remainder_vanishes(domain, a);
    let q = cyclic_quotient(p, n, a);
    assert forall|y: int| #[trigger] poly_eval(p, a, y) == fmul(
        p,
        poly_eval(p, q, y),
        fsub(p, fpow(p, y, n), 1),
    ) by {
        law_cyclic_division(p, n, a, y);
        lemma_poly_eval_zero(p, n, y);
        let v = fmul(p, poly_eval(p, q, y), fsub(p, fpow(p, y, n), 1));
        lemma_f_range(p, poly_eval(p, q, y), fsub(p, fpow(p, y, n), 1));
        lemma_small_mod(v as nat, p as nat);
    }
    law_cyclic_division(p, n, a, x);
    // On the coset the division gives the values of the quotient.
    assert(divided(domain, values) =~= domain.coset_values(q)) by {
        assert forall|i: int| 0 <= i < values.len() implies divided(domain, values)[i]
            == domain.coset_values(q)[i] by {
            let y = domain.coset_point(i);
            let (u, v) = (poly_eval(p, q, y), fsub(p, fpow(p, y, n), 1));
            law_vanishing_values(domain, i);
            lemma_coset_avoids_domain(domain, i);
            lemma_field_inverse(p, v);
            assert(values[i] == poly_eval(p, c, y));
            assert(poly_eval(p, a, y) == fmul(p, u, v));
            lemma_fmul_assoc(p, u, v, finv(p, v));
            lemma_poly_eval_range(p, q, y);
            lemma_units(p, u);
        }
    }
    law_extended_round_trip(domain, q);
    let all = q + poly_zero((domain.extended_size() - q.len()) as nat);
    let kept = all.take(target);
    assert(kept =~= q + poly_zero((target - q.len()) as nat));
    lemma_poly_eval_padded(p, q, (target - q.len()) as nat, x);
    assert(poly_eval(p, a, x) == poly_eval(p, c, x));
}

} // verus!
