//! Polynomials: rotations, evaluation domains and openings.

pub mod arithmetic;
pub mod device;
pub mod domain;
pub mod domain_values;
pub mod exact;
pub mod fft;
pub mod formulas;
pub mod functions;
pub mod grouping;
pub mod gwc;
pub mod lagrange;
pub mod opening_order;
pub mod opening_run;
pub mod places;
pub mod point_sets;
pub mod query;
pub mod residency;
pub mod roots;
pub mod rotations;
pub mod shplonk;
pub mod transforms;

use crate::field::{finv, fmul, vals, Field};
use crate::plonk::assigned::{AssignedModel, GpuAssigned};
use std::marker::PhantomData;
use vstd::arithmetic::div_mod::{lemma_add_mod_noop, lemma_mod_self_0, lemma_small_mod};
use vstd::prelude::*;

verus! {

/// This is an error that could occur during proving or circuit synthesis.
#[derive(Clone, Copy, Debug)]
pub enum Error {
    /// OpeningProof is not well-formed
    OpeningError,
    /// Caller needs to re-sample a point
    SamplingError,
}

/// A row offset relative to the current row.
#[derive(Clone, Copy, Debug, PartialEq, Eq, Structural, Hash)]
pub struct Rotation(pub i32);

impl Rotation {
    /// The current location.
    pub fn cur() -> (r: Rotation)
        ensures
            r == Rotation(0),
    {
        Rotation(0)
    }

    /// The previous location.
    pub fn prev() -> (r: Rotation)
        ensures
            r.0 == -1,
    {
        Rotation(-1)
    }

    /// The next location.
    pub fn next() -> (r: Rotation)
        ensures
            r == Rotation(1),
    {
        Rotation(1)
    }
}

/// The basis over which a polynomial is described.
pub trait Basis: Copy {

}

/// The polynomial is defined as coefficients
#[derive(Clone, Copy, Debug)]
pub struct Coeff;

impl Basis for Coeff {

}

/// The polynomial is defined as coefficients of Lagrange basis polynomials
#[derive(Clone, Copy, Debug)]
pub struct LagrangeCoeff;

impl Basis for LagrangeCoeff {

}

/// The polynomial is defined as coefficients of Lagrange basis polynomials in
/// an extended size domain which supports multiplication
#[derive(Clone, Copy, Debug)]
pub struct ExtendedLagrangeCoeff;

impl Basis for ExtendedLagrangeCoeff {

}

/// A polynomial over a basis `B`, held in host memory.
#[derive(Debug)]
pub struct Polynomial<F, B> {
    values: Vec<F>,
    basis: PhantomData<B>,
}

impl<F, B> View for Polynomial<F, B> {
    type V = Seq<F>;

    closed spec fn view(&self) -> Seq<F> {
        self.values@
    }
}

impl<F, B> Polynomial<F, B> {
    pub fn new(values: Vec<F>) -> (r: Polynomial<F, B>)
        ensures
            r@ == values@,
    {
        Polynomial { values, basis: PhantomData }
    }

    pub fn values(&self) -> (r: &Vec<F>)
        ensures
            r@ == self@,
    {
        &self.values
    }

    pub fn into_values(self) -> (r: Vec<F>)
        ensures
            r@ == self@,
    {
        self.values
    }

    pub fn len(&self) -> (r: usize)
        ensures
            r == self@.len(),
    {
        self.values.len()
    }

    pub fn is_empty(&self) -> (r: bool)
        ensures
            r == (self@.len() == 0),
    {
        self.values.len() == 0
    }
}

/// The values of a column, seen from `rotation` rows on.
pub open spec fn rotated_column(values: Seq<int>, rotation: int) -> Seq<int> {
    Seq::new(values.len(), |i: int| values[(i + rotation) % (values.len() as int)])
}

impl<F: Field> Polynomial<F, LagrangeCoeff> {
    /// Rotates the values of a polynomial over its domain.
    pub fn rotate(&self, rotation: Rotation) -> (r: Polynomial<F, LagrangeCoeff>)
        requires
            self@.len() <= i64::MAX,
        ensures
            vals(r@) == rotated_column(vals(self@), rotation.0 as int),
    {
        let n = self.values.len();
        let mut out: Vec<F> = Vec::new();
        if n == 0 {
            assert(vals(out@) =~= rotated_column(vals(self@), rotation.0 as int));
            return Polynomial::new(out);
        }
        let ghost target = rotated_column(vals(self@), rotation.0 as int);
        let first: i64 = (rotation.0 as i64).checked_rem_euclid(n as i64).unwrap();
        let mut at: usize = first as usize;
        let mut i: usize = 0;
        while i < n
            invariant
                i <= n,
                n > 0,
                n == self@.len(),
                n == self.values@.len(),
                self@ == self.values@,
                at < n,
                at == (i + rotation.0) % (n as int),
                out@.len() == i,
                target == rotated_column(vals(self@), rotation.0 as int),
                forall|j: int| 0 <= j < i ==> (#[trigger] out@[j]).val() == target[j],
            decreases n - i,
        {
            out.push(self.values[at]);
            proof {
                let x = i + rotation.0;
                lemma_add_mod_noop(x, 1, n as int);
                if n == 1 {
                    vstd::arithmetic::div_mod::lemma_mod_bound(x + 1, 1);
                } else {
                    lemma_small_mod(1, n as nat);
                    if at + 1 < n {
                        lemma_small_mod((at + 1) as nat, n as nat);
                    } else {
                        lemma_mod_self_0(n as int);
                    }
                }
            }
            at = if at + 1 < n {
                at + 1
            } else {
                0
            };
            i += 1;
        }
        assert(vals(out@) =~= target);
        Polynomial::new(out)
    }
}

impl<F: Copy, B> Polynomial<F, B> {
    /// The coefficient at a position.
    pub fn at(&self, i: usize) -> (r: F)
        requires
            i < self@.len(),
        ensures
            r == self@[i as int],
    {
        self.values[i]
    }
}

/// The values of several columns.
pub open spec fn columns_of<F: Field, B>(s: Seq<Polynomial<F, B>>) -> Seq<Seq<int>> {
    Seq::new(s.len(), |c: int| vals(s[c]@))
}

/// Evaluates columns of deferred inversions with a single batch inversion.
pub fn batch_invert_assigned<F: Field>(assigned: &Vec<Vec<GpuAssigned<F>>>) -> (r: Vec<
    Polynomial<F, LagrangeCoeff>,
>)
    ensures
        r@.len() == assigned@.len(),
        forall|c: int|
            0 <= c < r@.len() ==> {
                &&& (#[trigger] r@[c])@.len() == assigned@[c]@.len()
                &&& forall|i: int|
                    0 <= i < r@[c]@.len() ==> (#[trigger] r@[c]@[i]).val()
                        == assigned@[c]@[i]@.value(F::modulus())
            },
{
    let mut out: Vec<Polynomial<F, LagrangeCoeff>> = Vec::new();
    let mut c: usize = 0;
    while c < assigned.len()
        invariant
            c <= assigned@.len(),
            out@.len() == c,
            forall|k: int|
                0 <= k < c ==> {
                    &&& (#[trigger] out@[k])@.len() == assigned@[k]@.len()
                    &&& forall|i: int|
                        0 <= i < out@[k]@.len() ==> (#[trigger] out@[k]@[i]).val()
                            == assigned@[k]@[i]@.value(F::modulus())
                },
        decreases assigned@.len() - c,
    {
        let column = evaluate_assigned(&assigned[c]);
        out.push(Polynomial::new(column));
        c += 1;
    }
    out
}

/// Evaluates a column of deferred inversions: the denominators are inverted in
/// one batch, and each numerator is multiplied by its inverse.
fn evaluate_assigned<F: Field>(column: &Vec<GpuAssigned<F>>) -> (r: Vec<F>)
    ensures
        r@.len() == column@.len(),
        forall|i: int|
            0 <= i < r@.len() ==> (#[trigger] r@[i]).val() == column@[i]@.value(F::modulus()),
{
    let ghost p = F::modulus();
    let mut denominators: Vec<F> = Vec::new();
    let mut i: usize = 0;
    while i < column.len()
        invariant
            i <= column@.len(),
            denominators@.len() == i,
            forall|k: int|
                0 <= k < i ==> (#[trigger] denominators@[k]).val() == (match column@[k]@ {
                    AssignedModel::Rational(_, d) => d,
                    _ => 1,
                }),
        decreases column@.len() - i,
    {
        match column[i].denominator() {
            Some(d) => denominators.push(d),
            None => denominators.push(F::one()),
        }
        i += 1;
    }
    let ghost before = denominators@;
    F::batch_invert(&mut denominators);
    let mut out: Vec<F> = Vec::new();
    let mut i: usize = 0;
    while i < column.len()
        invariant
            i <= column@.len(),
            p == F::modulus(),
            before.len() == column@.len(),
            denominators@.len() == column@.len(),
            forall|k: int|
                0 <= k < before.len() ==> (#[trigger] before[k]).val() == (match column@[k]@ {
                    AssignedModel::Rational(_, d) => d,
                    _ => 1,
                }),
            forall|k: int|
                0 <= k < before.len() ==> (#[trigger] denominators@[k]).val() == finv(
                    p,
                    before[k].val(),
                ),
            out@.len() == i,
            forall|k: int|
                0 <= k < i ==> (#[trigger] out@[k]).val() == column@[k]@.value(p),
        decreases column@.len() - i,
    {
        let numerator = column[i].numerator();
        out.push(numerator.mul(&denominators[i]));
        proof {
            F::lemma_modulus();
            numerator.lemma_val_range();
            let _ = before[i as int];
            // Where there is no denominator, one is its own inverse.
            assert(fmul(p, 1, 1) == 1) by {
                vstd::arithmetic::div_mod::lemma_small_mod(1, p as nat);
            }
            crate::field::lemma_finv_is(p, 1, 1);
            crate::field::lemma_units(p, numerator.val());
        }
        i += 1;
    }
    out
}

} // verus!
