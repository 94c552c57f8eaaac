//! Multi-point openings in the GWC variant: one witness for each point.

use crate::field::{fadd, fmul, fpow, fsub, vals, Field};
use crate::plonk::graph_values::horner;
use crate::poly::arithmetic::{
    kate_division, law_division, multiply_add, poly_eval, powers, quotient, subtract_short, zeros,
};
use crate::poly::shplonk::folded;
use crate::poly::{Coeff, Polynomial};
use vstd::prelude::*;

verus! {

/// The witness polynomial for the opening of several polynomials at one point:
/// the quotient of their sum, each times a power of `v`, by `X - z`.
pub open spec fn opening_witness(p: int, n: nat, polys: Seq<Seq<int>>, v: int, z: int) -> Seq<int> {
    quotient(p, folded(p, n, polys, v), z)
}

/// The witness polynomial for the opening of polynomials at the point `z`.
pub fn witness_at_point<F: Field>(
    polys: &Vec<&Polynomial<F, Coeff>>,
    v: F,
    z: F,
    n: usize,
) -> (r: Vec<F>)
    requires
        n > 0,
        forall|i: int| 0 <= i < polys@.len() ==> (#[trigger] polys@[i])@.len() <= n,
    ensures
        vals(r@) == opening_witness(
            F::modulus(),
            n as nat,
            Seq::new(polys@.len(), |i: int| vals(polys@[i]@)),
            v.val(),
            z.val(),
        ),
{
    let ghost p = F::modulus();
    let ghost all = Seq::new(polys@.len(), |i: int| vals(polys@[i]@));
    let ghost evals = Seq::new(all.len(), |i: int| poly_eval(p, all[i], z.val()));
    let v_powers = powers(v, polys.len());
    let mut poly_acc: Vec<F> = zeros(n);
    let mut acc_eval = F::zero();
    let mut i: usize = 0;
    proof {
        assert(all.take(0) =~= seq![]);
        assert(evals.take(0) =~= seq![]);
        assert(vals(poly_acc@).len() == n);
    }
    while i < polys.len()
        invariant
            i <= polys@.len(),
            p == F::modulus(),
            all == Seq::new(polys@.len(), |i: int| vals(polys@[i]@)),
            evals == Seq::new(all.len(), |i: int| poly_eval(p, all[i], z.val())),
            forall|i: int| 0 <= i < polys@.len() ==> (#[trigger] polys@[i])@.len() <= n,
            v_powers@.len() == polys@.len(),
            forall|k: int|
                0 <= k < v_powers@.len() ==> (#[trigger] v_powers@[k]).val() == fpow(
                    p,
                    v.val(),
                    k as nat,
                ),
            poly_acc@.len() == n,
            vals(poly_acc@) == folded(p, n as nat, all.take(i as int), v.val()),
            acc_eval.val() == horner(p, 0, evals.take(i as int), v.val()),
        decreases polys@.len() - i,
    {
        proof {
            assert(all.take(i + 1).drop_last() =~= all.take(i as int));
            assert(evals.take(i + 1).drop_last() =~= evals.take(i as int));
            assert(polys@[i as int]@.len() <= n);
        }
        let values = polys[i].values();
        multiply_add(&mut poly_acc, values, &v_powers[i]);
        assert(vals(poly_acc@).len() == n);
        let eval = F::eval_polynomial(values, z);
        assert(Seq::new(values@.len(), |j: int| values@[j].val()) =~= all[i as int]);
        acc_eval = acc_eval.mul(&v).add(&eval);
        i += 1;
    }
    proof {
        assert(all.take(i as int) =~= all);
        assert(evals.take(i as int) =~= evals);
    }
    let mut constant: Vec<F> = Vec::new();
    constant.push(acc_eval);
    assert(vals(constant@) =~= seq![acc_eval.val()]);
    // The remainder goes into the constant coefficient, which no quotient depends on.
    let poly_batch = subtract_short(&poly_acc, &constant);
    assert(vals(poly_batch@).len() == n);
    proof {
        lemma_quotient_ignores_constant(p, vals(poly_batch@), vals(poly_acc@), z.val());
    }
    kate_division(&poly_batch, z)
}

/// A quotient by `X - b` does not depend on the constant coefficient.
proof fn lemma_quotient_ignores_constant(p: int, a: Seq<int>, b: Seq<int>, z: int)
    requires
        a.len() == b.len(),
        a.len() > 0,
        forall|i: int| 1 <= i < a.len() ==> #[trigger] a[i] == b[i],
    ensures
        quotient(p, a, z) == quotient(p, b, z),
{
    assert(a.drop_first() =~= b.drop_first());
}

/// The witness opens the sum of the polynomials: `P(x) = (x - z) w(x) + P(z)`.
pub proof fn law_witness_opens(p: int, n: nat, polys: Seq<Seq<int>>, v: int, z: int, x: int)
    requires
        p > 1,
        n > 0,
    ensures
        ({
            let sum = folded(p, n, polys, v);
            poly_eval(p, sum, x) == fadd(
                p,
                fmul(p, fsub(p, x, z), poly_eval(p, opening_witness(p, n, polys, v, z), x)),
                poly_eval(p, sum, z),
            )
        }),
{
    law_division(p, folded(p, n, polys, v), z, x);
}

/// Polynomials that are opened at one point.
#[derive(Debug)]
pub struct OpenedAt<'a, F: Field> {
    pub point: F,
    pub polys: Vec<&'a Polynomial<F, Coeff>>,
}

/// Concrete KZG prover with GWC variant
#[derive(Debug)]
pub struct ProverGWC {
    /// The number of coefficients of a polynomial.
    pub n: usize,
}

impl ProverGWC {
    /// Given the size of polynomials creates new prover instance
    pub fn new(n: usize) -> (r: Self)
        ensures
            r.n == n,
    {
        ProverGWC { n }
    }

    /// Whether the verifier queries instance polynomials.
    pub fn query_instance() -> (r: bool)
        ensures
            r == false,
    {
        false
    }

    /// The witness polynomials of a multi-opening proof, one for each point, in
    /// the order in which the commitments to them are written.
    pub fn create_proof<F: Field>(&self, v: F, points: &Vec<OpenedAt<'_, F>>) -> (r: Vec<Vec<F>>)
        requires
            self.n > 0,
            forall|j: int, i: int|
                0 <= j < points@.len() && 0 <= i < points@[j].polys@.len() ==> (
                #[trigger] points@[j].polys@[i])@.len() <= self.n,
        ensures
            r@.len() == points@.len(),
            forall|j: int|
                0 <= j < r@.len() ==> vals((#[trigger] r@[j])@) == opening_witness(
                    F::modulus(),
                    self.n as nat,
                    Seq::new(points@[j].polys@.len(), |i: int| vals(points@[j].polys@[i]@)),
                    v.val(),
                    points@[j].point.val(),
                ),
    {
        let mut out: Vec<Vec<F>> = Vec::new();
        let mut j: usize = 0;
        while j < points.len()
            invariant
                j <= points@.len(),
                self.n > 0,
                forall|j: int, i: int|
                    0 <= j < points@.len() && 0 <= i < points@[j].polys@.len() ==> (
                    #[trigger] points@[j].polys@[i])@.len() <= self.n,
                out@.len() == j,
                forall|k: int|
                    0 <= k < j ==> vals((#[trigger] out@[k])@) == opening_witness(
                        F::modulus(),
                        self.n as nat,
                        Seq::new(points@[k].polys@.len(), |i: int| vals(points@[k].polys@[i]@)),
                        v.val(),
                        points@[k].point.val(),
                    ),
            decreases points@.len() - j,
        {
            out.push(witness_at_point(&points[j].polys, v, points[j].point, self.n));
            j += 1;
        }
        out
    }
}

} // verus!
