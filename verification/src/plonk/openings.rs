//! What a finished proof opens: the polynomials, grouped by the points at which they
//! are opened, with their values.

use crate::field::{vals, Field};
use crate::plonk::prover::{polys_of, Opened};
use crate::plonk::proving::{ProofKey, ProofState};
use crate::plonk::queries::{lemma_queries_contain, with_queries};
use crate::plonk::running::ProofRun;
use crate::poly::arithmetic::poly_eval;
use crate::poly::point_sets::{
    all_points, all_polys, construct_intermediate_sets, eval_of, law_members_are_opened,
    law_points_of, law_polys_are_in_sets, law_set_points, law_sets_have_members, lemma_all_polys,
    lemma_eval_of, models, points_of, sets_of, IntermediateSets, OpeningQuery, PointSet,
};
use crate::poly::shplonk::{Commitment, RotationSet};
use crate::poly::transforms::copied;
use crate::poly::Polynomial;
use vstd::prelude::*;

verus! {

/// What a proof opens.
#[derive(Debug)]
pub struct ProofOpenings<F: Field> {
    /// The polynomials, in the order in which they are first opened.
    pub polys: Vec<Opened>,
    /// The openings, in their order.
    pub queries: Vec<OpeningQuery<F>>,
    /// The numbers of the polynomials, grouped by the points at which they are
    /// opened, and all points.
    pub sets: IntermediateSets<F>,
    /// The polynomials themselves, grouped in the same way.
    pub rotation_sets: Vec<RotationSet<F>>,
}

impl<F: Field> ProofState<F> {
    /// Whether a set holds the polynomials of another by their coefficients.
    pub open spec fn fills(
        self,
        key: ProofKey<F>,
        polys: Seq<Opened>,
        set: PointSet<F>,
        filled: RotationSet<F>,
    ) -> bool {
        &&& filled.points@ == set.points@
        &&& filled.commitments@.len() == set.members@.len()
        &&& forall|m: int|
            0 <= m < filled.commitments@.len() ==> {
                let c = #[trigger] filled.commitments@[m];
                &&& vals(c.poly@) == self.opened(key, polys[set.members@[m].poly as int])
                &&& c.poly@.len() == key.n()
                &&& c.evals@ == set.members@[m].evals@
            }
    }

    /// A set with its polynomials.
    fn filled_set(&self, key: &ProofKey<F>, polys: &Vec<Opened>, set: &PointSet<F>) -> (r:
        RotationSet<F>)
        requires
            key.wf(),
            self.wf(*key),
            forall|m: int|
                0 <= m < set.members@.len() ==> (#[trigger] set.members@[m]).poly < polys@.len()
                    && key.shape(false, self.instances@).available(
                    self.progress(),
                    polys@[set.members@[m].poly as int],
                ),
        ensures
            self.fills(*key, polys@, *set, r),
    {
        let mut commitments: Vec<Commitment<F>> = Vec::new();
        let mut m: usize = 0;
        while m < set.members.len()
            invariant
                key.wf(),
                self.wf(*key),
                forall|m: int|
                    0 <= m < set.members@.len() ==> (#[trigger] set.members@[m]).poly
                        < polys@.len() && key.shape(false, self.instances@).available(
                        self.progress(),
                        polys@[set.members@[m].poly as int],
                    ),
                m <= set.members@.len(),
                commitments@.len() == m,
                forall|i: int|
                    0 <= i < m ==> {
                        let c = #[trigger] commitments@[i];
                        &&& vals(c.poly@) == self.opened(
                            *key,
                            polys@[set.members@[i].poly as int],
                        )
                        &&& c.poly@.len() == key.n()
                        &&& c.evals@ == set.members@[i].evals@
                    },
            decreases set.members@.len() - m,
        {
            assert(set.members@[m as int].poly < polys@.len());
            let which = polys[set.members[m].poly];
            commitments.push(
                Commitment {
                    poly: Polynomial::new(self.poly(key, which)),
                    evals: copied(&set.members[m].evals),
                },
            );
            m += 1;
        }
        RotationSet { commitments, points: copied(&set.points) }
    }
}

/// Whether the values of a set are those of its polynomials at its points, which
/// are among all points and differ from each other.
pub open spec fn holds_values<F: Field>(set: RotationSet<F>, points: Seq<int>) -> bool {
    &&& set.wf()
    &&& set.commitments@.len() > 0
    &&& forall|i: int|
        0 <= i < set.points@.len() ==> points.contains(#[trigger] vals(set.points@)[i])
    &&& forall|i: int, j: int|
        0 <= i < set.commitments@.len() && 0 <= j < set.points@.len() ==> (
        #[trigger] set.commitments@[i].evals@[j]).val() == poly_eval(
            F::modulus(),
            vals(set.commitments@[i].poly@),
            set.points@[j].val(),
        )
}

/// Whether queries are of polynomials that there are, at their points, and hold
/// their values.
pub open spec fn hold_evals<F: Field>(
    q: Seq<OpeningQuery<F>>,
    polys: Seq<Seq<int>>,
) -> bool {
    forall|i: int|
        0 <= i < q.len() ==> {
            &&& (#[trigger] q[i]).poly < polys.len()
            &&& q[i].eval.val() == poly_eval(
                F::modulus(),
                polys[q[i].poly as int],
                q[i].point.val(),
            )
        }
}

/// Where queries hold the values of polynomials, so do the sets that they make.
pub proof fn lemma_sets_hold_values<F: Field>(
    q: Seq<OpeningQuery<F>>,
    polys: Seq<Seq<int>>,
    sets: Seq<PointSet<F>>,
    k: int,
    filled: RotationSet<F>,
)
    requires
        hold_evals(q, polys),
        models(sets) == sets_of(q, all_polys(q)),
        0 <= k < sets.len(),
        sets[k].holds_evals(q),
        filled.points@ == sets[k].points@,
        filled.commitments@.len() == sets[k].members@.len(),
        forall|m: int|
            0 <= m < filled.commitments@.len() ==> {
                let c = #[trigger] filled.commitments@[m];
                &&& vals(c.poly@) == polys[sets[k].members@[m].poly as int]
                &&& c.evals@ == sets[k].members@[m].evals@
            },
    ensures
        holds_values(filled, all_points(q)),
{
    let set = sets[k];
    let all = sets_of(q, all_polys(q));
    assert(models(sets)[k] == set.model());
    assert(all[k].0 == vals(set.points@));
    law_sets_have_members(q, all_polys(q), k);
    assert(all[k].1.len() == set.members@.len());
    assert forall|i: int| 0 <= i < set.points@.len() implies all_points(q).contains(
        #[trigger] vals(filled.points@)[i],
    ) by {
        law_set_points(q, all_polys(q), k, i);
    }
    assert forall|i: int, j: int|
        0 <= i < j < vals(filled.points@).len() implies #[trigger] vals(filled.points@)[i]
        != #[trigger] vals(filled.points@)[j] by {
        law_set_points(q, all_polys(q), k, i);
    }
    assert forall|i: int| 0 <= i < filled.commitments@.len() implies (
    #[trigger] filled.commitments@[i]).evals@.len() == filled.points@.len() by {
        assert(vals(set.members@[i].evals@).len() == set.points@.len());
        assert(vals(set.members@[i].evals@).len() == set.members@[i].evals@.len());
    }
    assert forall|i: int, j: int|
        0 <= i < filled.commitments@.len() && 0 <= j < filled.points@.len() implies (
    #[trigger] filled.commitments@[i].evals@[j]).val() == poly_eval(
        F::modulus(),
        vals(filled.commitments@[i].poly@),
        filled.points@[j].val(),
    ) by {
        let poly = set.members@[i].poly;
        let point = set.points@[j].val();
        assert(all[k].1[i] == poly);
        law_members_are_opened(q, all_polys(q), k, i);
        assert(all[k].0[j] == point);
        assert(points_of(q, poly).contains(point));
        law_points_of(q, poly, point);
        lemma_eval_of(q, poly, point);
        assert(vals(set.members@[i].evals@)[j] == eval_of(q, poly, point));
    }
}

impl<F: Field> ProofRun<F> {
    /// The coefficients of polynomials that are opened.
    pub open spec fn coefficients_of(self, key: ProofKey<F>, polys: Seq<Opened>) -> Seq<Seq<int>> {
        Seq::new(polys.len(), |i: int| self.state.opened(key, polys[i]))
    }

    /// What the finished proof opens.
    #[verifier::rlimit(40)]
    pub fn openings(&self, key: &ProofKey<F>) -> (r: ProofOpenings<F>)
        requires
            self.wf(*key),
            self.done(),
        ensures
            r.polys@ == with_queries(Seq::<Opened>::empty(), polys_of(self.plan.openings@)),
            self.queried(*key, r.polys@, r.queries@),
            vals(r.sets.super_point_set@) == all_points(r.queries@),
            models(r.sets.rotation_sets@) == sets_of(r.queries@, all_polys(r.queries@)),
            r.rotation_sets@.len() == r.sets.rotation_sets@.len(),
            r.rotation_sets@.len() > 0,
            forall|k: int|
                0 <= k < r.rotation_sets@.len() ==> {
                    &&& self.state.fills(
                        *key,
                        r.polys@,
                        r.sets.rotation_sets@[k],
                        #[trigger] r.rotation_sets@[k],
                    )
                    &&& holds_values(r.rotation_sets@[k], all_points(r.queries@))
                },
    {
        let (opened, queries) = self.opening_queries(key);
        let polys = opened.polys;
        let sets = construct_intermediate_sets(&queries);
        let ghost coefficients = self.coefficients_of(*key, polys@);
        proof {
            self.lemma_all_available(*key);
            assert forall|i: int| 0 <= i < polys@.len() implies key.shape(
                false,
                self.state.instances@,
            ).available(self.state.progress(), #[trigger] polys@[i]) by {
                assert(polys@.contains(polys@[i]));
                lemma_queries_contain(
                    Seq::<Opened>::empty(),
                    polys_of(self.plan.openings@),
                    polys@[i],
                );
                let all = polys_of(self.plan.openings@);
                let j = choose|j: int| 0 <= j < all.len() && all[j] == polys@[i];
                assert(self.plan.openings@[j].0 == polys@[i]);
            }
            assert(hold_evals(queries@, coefficients));
            // The quotient is opened at any rate.
            assert(queries@.len() > 0);
            lemma_all_polys(queries@, queries@[0].poly);
            law_polys_are_in_sets(queries@, all_polys(queries@), 0);
            assert(models(sets.rotation_sets@).len() == sets.rotation_sets@.len());
        }
        let mut rotation_sets: Vec<RotationSet<F>> = Vec::new();
        let mut k: usize = 0;
        while k < sets.rotation_sets.len()
            invariant
                self.wf(*key),
                k <= sets.rotation_sets@.len(),
                coefficients == self.coefficients_of(*key, polys@),
                hold_evals(queries@, coefficients),
                models(sets.rotation_sets@) == sets_of(queries@, all_polys(queries@)),
                forall|k: int|
                    0 <= k < sets.rotation_sets@.len() ==> (
                    #[trigger] sets.rotation_sets@[k]).holds_evals(queries@),
                forall|i: int|
                    0 <= i < polys@.len() ==> key.shape(false, self.state.instances@).available(
                        self.state.progress(),
                        #[trigger] polys@[i],
                    ),
                rotation_sets@.len() == k,
                forall|i: int|
                    0 <= i < k ==> {
                        &&& self.state.fills(
                            *key,
                            polys@,
                            sets.rotation_sets@[i],
                            #[trigger] rotation_sets@[i],
                        )
                        &&& holds_values(rotation_sets@[i], all_points(queries@))
                    },
            decreases sets.rotation_sets@.len() - k,
        {
            let set = &sets.rotation_sets[k];
            proof {
                assert(models(sets.rotation_sets@)[k as int] == set.model());
                assert forall|m: int| 0 <= m < set.members@.len() implies (
                #[trigger] set.members@[m]).poly < polys@.len() by {
                    assert(sets_of(queries@, all_polys(queries@))[k as int].1[m]
                        == set.members@[m].poly);
                    law_members_are_opened(queries@, all_polys(queries@), k as int, m);
                    lemma_all_polys(queries@, set.members@[m].poly);
                }
            }
            let filled = self.state.filled_set(key, &polys, set);
            proof {
                assert forall|m: int| 0 <= m < filled.commitments@.len() implies vals(
                    (#[trigger] filled.commitments@[m]).poly@,
                ) == coefficients[set.members@[m].poly as int] by {
                    assert(set.members@[m].poly < polys@.len());
                }
                lemma_sets_hold_values(
                    queries@,
                    coefficients,
                    sets.rotation_sets@,
                    k as int,
                    filled,
                );
            }
            rotation_sets.push(filled);
            k += 1;
        }
        ProofOpenings { polys, queries, sets, rotation_sets }
    }
}

} // verus!
