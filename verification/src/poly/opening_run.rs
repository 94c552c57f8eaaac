//! Making a multi-point opening: what each of its steps works on.

use crate::field::{vals, Field};
use crate::poly::opening_order::{OpeningChallenge, OpeningPoint, OpeningStep};
use crate::poly::shplonk::{
    extends_set, h_x, set_models, witness, witness_polynomial, OpeningQuotient, ProverSHPLONK,
    RotationSet,
};
use crate::poly::transforms::copied;
use vstd::prelude::*;

verus! {

/// What a SHPLONK opening has come to.
#[derive(Debug)]
pub struct OpeningState<F: Field> {
    /// The number of coefficients of a polynomial.
    pub n: usize,
    /// The sets, until the quotient is made of them.
    pub rotation_sets: Vec<RotationSet<F>>,
    /// All points.
    pub points: Vec<F>,
    /// The quotient, until the witness is made of it.
    pub quotient: Option<OpeningQuotient<F>>,
    pub y: F,
    pub v: F,
    pub u: F,
}

impl<F: Field> OpeningState<F> {
    /// Whether the quotient, where it has been made, is one with the challenges.
    pub open spec fn wf(self) -> bool {
        &&& self.n > 0
        &&& self.quotient matches Some(q) ==> {
            &&& q.rotation_sets@.len() > 0
            &&& q.h@.len() == self.n
            &&& vals(q.h@) == h_x(
                F::modulus(),
                self.n as nat,
                set_models(q.rotation_sets@),
                self.y.val(),
                self.v.val(),
            )
            &&& q.p_xs@.len() == q.rotation_sets@.len()
            &&& forall|j: int|
                0 <= j < q.p_xs@.len() ==> {
                    &&& (#[trigger] q.p_xs@[j])@.len() == self.n
                    &&& vals(q.p_xs@[j]@) == q.rotation_sets@[j]@.p_x(
                        F::modulus(),
                        self.n as nat,
                        self.y.val(),
                    )
                }
        }
    }

    /// Whether all that a step is about is there. The witness asks for a challenge
    /// that none of the points of the other sets is.
    pub open spec fn ready(self, step: OpeningStep) -> bool {
        match step {
            OpeningStep::Squeeze(OpeningChallenge::U) => true,
            OpeningStep::Squeeze(_) => self.quotient is None,
            OpeningStep::WritePoint(OpeningPoint::Quotient) => {
                &&& self.rotation_sets@.len() > 0
                &&& forall|j: int|
                    0 <= j < self.rotation_sets@.len() ==> (
                    #[trigger] self.rotation_sets@[j]).openable(self.n as nat)
            },
            OpeningStep::WritePoint(OpeningPoint::Witness(_)) => {
                &&& self.quotient is Some
                &&& self.quotient->0.rotation_sets@[0]@.z_u(
                    F::modulus(),
                    vals(self.points@),
                    self.u.val(),
                ) != 0
            },
        }
    }

    /// The state of an opening of which nothing has been made.
    pub fn new(n: usize, rotation_sets: Vec<RotationSet<F>>, points: Vec<F>) -> (r: Self)
        requires
            n > 0,
        ensures
            r.wf(),
            r.n == n,
            r.rotation_sets == rotation_sets,
            r.points == points,
            r.quotient is None,
    {
        let zero = F::zero();
        OpeningState { n, rotation_sets, points, quotient: None, y: zero, v: zero, u: zero }
    }

    /// Takes a challenge, and changes nothing else.
    pub fn take_challenge(&mut self, name: OpeningChallenge, value: F)
        requires
            old(self).wf(),
            old(self).ready(OpeningStep::Squeeze(name)),
        ensures
            final(self).wf(),
            *final(self) == (match name {
                OpeningChallenge::Y => OpeningState { y: value, ..*old(self) },
                OpeningChallenge::V => OpeningState { v: value, ..*old(self) },
                OpeningChallenge::U => OpeningState { u: value, ..*old(self) },
            }),
    {
        match name {
            OpeningChallenge::Y => {
                self.y = value;
            },
            OpeningChallenge::V => {
                self.v = value;
            },
            OpeningChallenge::U => {
                self.u = value;
            },
        }
    }

    /// Whether a quotient is that of the sets: their extensions, and what is
    /// committed to, with the challenges `y` and `v`.
    pub open spec fn quotient_of(self, sets: Seq<RotationSet<F>>, h: Seq<F>) -> bool {
        &&& self.quotient matches Some(q) && {
            &&& q.h@ == h
            &&& q.rotation_sets@.len() == sets.len()
            &&& forall|j: int|
                0 <= j < sets.len() ==> extends_set(#[trigger] q.rotation_sets@[j], sets[j])
        }
    }

    /// Makes the quotient, and gives what its commitment is to.
    pub fn write_quotient(&mut self) -> (r: Vec<F>)
        requires
            old(self).wf(),
            old(self).ready(OpeningStep::WritePoint(OpeningPoint::Quotient)),
        ensures
            final(self).wf(),
            *final(self) == (OpeningState {
                rotation_sets: final(self).rotation_sets,
                quotient: final(self).quotient,
                ..*old(self)
            }),
            final(self).quotient_of(old(self).rotation_sets@, r@),
    {
        let mut sets: Vec<RotationSet<F>> = Vec::new();
        core::mem::swap(&mut sets, &mut self.rotation_sets);
        let quotient = ProverSHPLONK::new(self.n).create_proof(self.y, self.v, sets);
        let h = copied(&quotient.h);
        self.quotient = Some(quotient);
        h
    }

    /// Makes the witness, which is what the last commitment is to: that the
    /// linearisation of the quotient vanishes at `u`.
    pub fn write_witness(&mut self) -> (r: Vec<F>)
        requires
            old(self).wf(),
            old(self).ready(OpeningStep::WritePoint(OpeningPoint::Witness(0))),
        ensures
            *final(self) == (OpeningState { quotient: None, ..*old(self) }),
            vals(r@) == witness(
                F::modulus(),
                old(self).n as nat,
                set_models(old(self).quotient->0.rotation_sets@),
                vals(old(self).points@),
                vals(old(self).quotient->0.h@),
                old(self).y.val(),
                old(self).v.val(),
                old(self).u.val(),
            ),
    {
        let quotient = self.quotient.take().unwrap();
        witness_polynomial(
            &quotient.rotation_sets,
            &self.points,
            &quotient.h,
            quotient.p_xs,
            self.y,
            self.v,
            self.u,
            self.n,
        )
    }
}

} // verus!
