//! Queries of polynomials at points.

use crate::field::{vals, Field};
use crate::poly::arithmetic::poly_eval;
use crate::poly::residency::{DevicePolynomial, PolyEvalAt};
use crate::poly::{Coeff, Polynomial};
use vstd::prelude::*;

verus! {

/// A query of something at a point.
pub trait Query<F: Field>: Sized {
    type Commitment;

    /// The point that is queried.
    spec fn point(self) -> F;

    fn get_point(&self) -> (r: F)
        ensures
            r == self.point(),
    ;

    fn get_commitment(&self) -> Self::Commitment;
}

/// A residency-tagged borrow of a polynomial in coefficient form.
///
/// Used by [`ProverQuery`] to carry either a host-resident or device-resident
/// polynomial through the multiopen pipeline. The variant is part of the type, so
/// each consumer must handle host and device residency explicitly at the call
/// site.
#[derive(Debug)]
pub enum PolyRef<'a, F> {
    Host(&'a Polynomial<F, Coeff>),
    Device(&'a DevicePolynomial<Coeff>),
}

impl<'a, F> Clone for PolyRef<'a, F> {
    fn clone(&self) -> (r: Self)
        ensures
            r == *self,
    {
        *self
    }
}

impl<'a, F> Copy for PolyRef<'a, F> {

}

impl<'a, F> PolyRef<'a, F> {
    /// The number of coefficients.
    pub open spec fn spec_len(self) -> nat {
        match self {
            PolyRef::Host(p) => p@.len(),
            PolyRef::Device(p) => p.len as nat,
        }
    }

    pub fn len(&self) -> (r: usize)
        ensures
            r == self.spec_len(),
    {
        match self {
            PolyRef::Host(p) => p.len(),
            PolyRef::Device(p) => p.len(),
        }
    }

    pub fn is_empty(&self) -> (r: bool)
        ensures
            r == (self.spec_len() == 0),
    {
        self.len() == 0
    }
}

/// A polynomial query at a point
#[derive(Debug)]
pub struct ProverQuery<'com, F: Field> {
    /// point at which polynomial is queried
    pub point: F,
    /// coefficients of polynomial (residency-tagged borrow)
    pub poly: PolyRef<'com, F>,
}

impl<'com, F: Field> Query<F> for ProverQuery<'com, F> {
    type Commitment = PolyRef<'com, F>;

    open spec fn point(self) -> F {
        self.point
    }

    fn get_point(&self) -> (r: F) {
        self.point
    }

    fn get_commitment(&self) -> (r: PolyRef<'com, F>)
        ensures
            r == self.poly,
    {
        self.poly
    }
}

/// The positions of the queries whose polynomials are on the device, in
/// ascending order.
pub open spec fn device_positions<F: Field>(s: Seq<ProverQuery<'_, F>>) -> Seq<int>
    decreases s.len(),
{
    if s.len() == 0 {
        seq![]
    } else if s.last().poly is Device {
        device_positions(s.drop_last()).push(s.len() - 1)
    } else {
        device_positions(s.drop_last())
    }
}

/// How many of the first queries have their polynomials on the device.
pub open spec fn device_count<F: Field>(s: Seq<ProverQuery<'_, F>>, n: nat) -> nat {
    device_positions(s.take(n as int)).len()
}

impl<'com, F: Field> ProverQuery<'com, F> {
    /// The value of the polynomial at the point; none where the polynomial is on
    /// the device, which evaluates it.
    pub fn get_eval(&self) -> (r: Option<F>)
        ensures
            match self.poly {
                PolyRef::Host(p) => r is Some && r->0.val() == poly_eval(
                    F::modulus(),
                    vals(p@),
                    self.point.val(),
                ),
                PolyRef::Device(_) => r is None,
            },
    {
        match self.poly {
            PolyRef::Host(p) => Some(p.eval_at(self.point)),
            PolyRef::Device(_) => None,
        }
    }

    /// The slots of the queries that the device evaluates, in their order.
    pub fn device_slots(queries: &Vec<Self>) -> (r: Vec<usize>)
        ensures
            r@.len() == device_positions(queries@).len(),
            forall|i: int|
                0 <= i < r@.len() ==> #[trigger] r@[i] == device_positions(queries@)[i],
    {
        let mut slots: Vec<usize> = Vec::new();
        let mut i: usize = 0;
        assert(queries@.take(0) =~= seq![]);
        while i < queries.len()
            invariant
                i <= queries@.len(),
                slots@.len() == device_positions(queries@.take(i as int)).len(),
                forall|j: int|
                    0 <= j < slots@.len() ==> #[trigger] slots@[j] == device_positions(
                        queries@.take(i as int),
                    )[j],
            decreases queries@.len() - i,
        {
            assert(queries@.take(i + 1).drop_last() =~= queries@.take(i as int));
            match queries[i].poly {
                PolyRef::Device(_) => {
                    slots.push(i);
                },
                PolyRef::Host(_) => {},
            }
            i += 1;
        }
        assert(queries@.take(i as int) =~= queries@);
        slots
    }

    /// The values of all queries, in query order: host polynomials are evaluated
    /// here, and `device_evals` are the values of the others, in their order.
    pub fn batch_get_evals(queries: &Vec<Self>, device_evals: &Vec<F>) -> (r: Vec<F>)
        requires
            device_evals@.len() == device_positions(queries@).len(),
        ensures
            r@.len() == queries@.len(),
            forall|i: int|
                0 <= i < queries@.len() ==> match queries@[i].poly {
                    PolyRef::Host(p) => (#[trigger] r@[i]).val() == poly_eval(
                        F::modulus(),
                        vals(p@),
                        queries@[i].point.val(),
                    ),
                    PolyRef::Device(_) => r@[i] == device_evals@[device_count(
                        queries@,
                        i as nat,
                    ) as int],
                },
    {
        let mut evals: Vec<F> = Vec::new();
        let total = device_evals.len();
        let mut used: usize = 0;
        let mut i: usize = 0;
        assert(queries@.take(0) =~= seq![]);
        while i < queries.len()
            invariant
                i <= queries@.len(),
                device_evals@.len() == device_positions(queries@).len(),
                total == device_evals@.len(),
                used == device_count(queries@, i as nat),
                evals@.len() == i,
                forall|k: int|
                    0 <= k < i ==> match queries@[k].poly {
                        PolyRef::Host(p) => (#[trigger] evals@[k]).val() == poly_eval(
                            F::modulus(),
                            vals(p@),
                            queries@[k].point.val(),
                        ),
                        PolyRef::Device(_) => evals@[k] == device_evals@[device_count(
                            queries@,
                            k as nat,
                        ) as int],
                    },
            decreases queries@.len() - i,
        {
            proof {
                assert(queries@.take(i + 1).drop_last() =~= queries@.take(i as int));
                lemma_device_count_monotonic(queries@, (i + 1) as nat);
            }
            match queries[i].poly {
                PolyRef::Host(p) => {
                    evals.push(p.eval_at(queries[i].point));
                },
                PolyRef::Device(_) => {
                    evals.push(device_evals[used]);
                    used += 1;
                },
            }
            i += 1;
        }
        evals
    }
}

proof fn lemma_device_count_monotonic<F: Field>(s: Seq<ProverQuery<'_, F>>, n: nat)
    requires
        n <= s.len(),
    ensures
        device_count(s, n) <= device_positions(s).len(),
    decreases s.len(),
{
    if n == s.len() {
        assert(s.take(n as int) =~= s);
    } else {
        lemma_device_count_monotonic(s.drop_last(), n);
        assert(s.drop_last().take(n as int) =~= s.take(n as int));
    }
}

/// What a verifier's query refers to.
#[derive(Debug)]
pub enum CommitmentReference<'r, C, M> {
    Commitment(&'r C),
    MSM(&'r M),
}

/// A polynomial query at a point
#[derive(Debug)]
pub struct VerifierQuery<'com, F: Field, C, M> {
    /// point at which polynomial is queried
    pub point: F,
    /// commitment to polynomial
    pub commitment: CommitmentReference<'com, C, M>,
    /// evaluation of polynomial at query point
    pub eval: F,
}

impl<'com, F: Field, C, M> VerifierQuery<'com, F, C, M> {
    /// Create a new verifier query based on a commitment
    pub fn new_commitment(commitment: &'com C, point: F, eval: F) -> (r: Self)
        ensures
            r.point == point,
            r.eval == eval,
            r.commitment == CommitmentReference::<'com, C, M>::Commitment(commitment),
    {
        VerifierQuery { point, eval, commitment: CommitmentReference::Commitment(commitment) }
    }

    /// Create a new verifier query based on a linear combination of commitments
    pub fn new_msm(msm: &'com M, point: F, eval: F) -> (r: Self)
        ensures
            r.point == point,
            r.eval == eval,
            r.commitment == CommitmentReference::<'com, C, M>::MSM(msm),
    {
        VerifierQuery { point, eval, commitment: CommitmentReference::MSM(msm) }
    }

    pub fn get_point(&self) -> (r: F)
        ensures
            r == self.point,
    {
        self.point
    }

    pub fn get_eval(&self) -> (r: F)
        ensures
            r == self.eval,
    {
        self.eval
    }
}

} // verus!
