//! The values of polynomials that a proof holds.

use crate::field::{fmul, vals, Field};
use crate::plonk::lookup;
use crate::plonk::lookup::prover::LookupPoly;
use crate::plonk::permutation;
use crate::plonk::permutation::prover::last_rotation;
use crate::poly::arithmetic::poly_eval;
use crate::poly::domain::EvaluationDomain;
use crate::poly::{Coeff, Polynomial, Rotation};
use crate::poly::residency::PolyEvalAt;
use vstd::prelude::*;

verus! {

/// The value of a polynomial at a rotation of a point.
pub open spec fn value_at<F: Field>(
    domain: EvaluationDomain<F>,
    poly: Polynomial<F, Coeff>,
    x: F,
    rotation: Rotation,
) -> int {
    poly_eval(
        F::modulus(),
        vals(poly@),
        fmul(F::modulus(), x.val(), domain.omega_power(rotation.0 as int)),
    )
}

/// The values of polynomials at rotations of a point, one for each query, in the
/// order of the queries. A query names a polynomial by its position.
pub fn evaluate_queries<F: Field>(
    domain: &EvaluationDomain<F>,
    polys: &Vec<Polynomial<F, Coeff>>,
    queries: &Vec<(usize, Rotation)>,
    x: F,
) -> (r: Vec<F>)
    requires
        forall|i: int| 0 <= i < queries@.len() ==> (#[trigger] queries@[i]).0 < polys@.len(),
    ensures
        r@.len() == queries@.len(),
        forall|i: int|
            0 <= i < r@.len() ==> (#[trigger] r@[i]).val() == value_at(
                *domain,
                polys@[queries@[i].0 as int],
                x,
                queries@[i].1,
            ),
{
    let mut out: Vec<F> = Vec::new();
    let mut i: usize = 0;
    while i < queries.len()
        invariant
            i <= queries@.len(),
            forall|i: int| 0 <= i < queries@.len() ==> (#[trigger] queries@[i]).0 < polys@.len(),
            out@.len() == i,
            forall|j: int|
                0 <= j < i ==> (#[trigger] out@[j]).val() == value_at(
                    *domain,
                    polys@[queries@[j].0 as int],
                    x,
                    queries@[j].1,
                ),
        decreases queries@.len() - i,
    {
        let (column, at) = queries[i];
        assert(queries@[i as int].0 < polys@.len());
        let point = domain.rotate_omega(x, at);
        out.push(polys[column].eval_at(point));
        i += 1;
    }
    out
}

/// The running product of a set of permuted columns, ready to be evaluated.
#[derive(Debug)]
pub struct ConstructedSet<F: Field> {
    pub permutation_product_poly: Polynomial<F, Coeff>,
}

/// The running products of a permutation argument.
#[derive(Debug)]
pub struct Constructed<F: Field> {
    pub sets: Vec<ConstructedSet<F>>,
}

impl<F: Field> Constructed<F> {
    /// The values of the products, in the order in which they are hashed: each at
    /// the point and at the next one, and all but the last at the row of its last
    /// value.
    pub fn evaluate(&self, domain: &EvaluationDomain<F>, blinding_factors: usize, x: F) -> (r: Vec<
        F,
    >)
        requires
            blinding_factors < i32::MAX,
        ensures
            ({
                let order = permutation::prover::evaluations(
                    self.sets@.len(),
                    self.sets@.len(),
                    last_rotation(blinding_factors),
                );
                &&& r@.len() == order.len()
                &&& forall|i: int|
                    0 <= i < r@.len() ==> (#[trigger] r@[i]).val() == value_at(
                        *domain,
                        self.sets@[order[i].0 as int].permutation_product_poly,
                        x,
                        order[i].1,
                    )
            }),
    {
        let order = permutation::prover::evaluation_order(self.sets.len(), blinding_factors);
        let mut out: Vec<F> = Vec::new();
        let mut i: usize = 0;
        proof {
            assert(self.sets.len() == self.sets@.len());
            assert forall|k: int| 0 <= k < order@.len() implies (#[trigger] order@[k]).0
                < self.sets@.len() by {
                permutation::prover::lemma_evaluations(
                    self.sets@.len(),
                    self.sets@.len(),
                    last_rotation(blinding_factors),
                    order@[k],
                );
            }
        }
        while i < order.len()
            invariant
                i <= order@.len(),
                forall|k: int|
                    0 <= k < order@.len() ==> (#[trigger] order@[k]).0 < self.sets@.len(),
                out@.len() == i,
                forall|j: int|
                    0 <= j < i ==> (#[trigger] out@[j]).val() == value_at(
                        *domain,
                        self.sets@[order@[j].0 as int].permutation_product_poly,
                        x,
                        order@[j].1,
                    ),
            decreases order@.len() - i,
        {
            let (set, at) = order[i];
            assert(order@[i as int].0 < self.sets@.len());
            let point = domain.rotate_omega(x, at);
            out.push(self.sets[set].permutation_product_poly.eval_at(point));
            i += 1;
        }
        out
    }
}

/// The polynomials of a lookup, ready to be evaluated and opened.
#[derive(Debug)]
pub struct CommittedUnpacked<F: Field> {
    pub permuted_input_poly: Polynomial<F, Coeff>,
    pub permuted_table_poly: Polynomial<F, Coeff>,
    pub product_poly: Polynomial<F, Coeff>,
}

impl<F: Field> CommittedUnpacked<F> {
    /// One of the polynomials.
    pub open spec fn poly(self, which: LookupPoly) -> Polynomial<F, Coeff> {
        match which {
            LookupPoly::Product => self.product_poly,
            LookupPoly::PermutedInput => self.permuted_input_poly,
            LookupPoly::PermutedTable => self.permuted_table_poly,
        }
    }

    /// The values of the polynomials, in the order in which they are hashed.
    pub fn evaluate(&self, domain: &EvaluationDomain<F>, x: F) -> (r: Vec<F>)
        ensures
            r@.len() == lookup::prover::evaluations().len(),
            forall|i: int|
                0 <= i < r@.len() ==> (#[trigger] r@[i]).val() == value_at(
                    *domain,
                    self.poly(lookup::prover::evaluations()[i].0),
                    x,
                    lookup::prover::evaluations()[i].1,
                ),
    {
        let order = lookup::prover::evaluation_order();
        let mut out: Vec<F> = Vec::new();
        let mut i: usize = 0;
        while i < order.len()
            invariant
                i <= order@.len(),
                out@.len() == i,
                forall|j: int|
                    0 <= j < i ==> (#[trigger] out@[j]).val() == value_at(
                        *domain,
                        self.poly(order@[j].0),
                        x,
                        order@[j].1,
                    ),
            decreases order@.len() - i,
        {
            let (which, at) = order[i];
            let point = domain.rotate_omega(x, at);
            let value = match which {
                LookupPoly::Product => self.product_poly.eval_at(point),
                LookupPoly::PermutedInput => self.permuted_input_poly.eval_at(point),
                LookupPoly::PermutedTable => self.permuted_table_poly.eval_at(point),
            };
            out.push(value);
            i += 1;
        }
        out
    }
}

} // verus!
