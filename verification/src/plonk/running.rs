//! Making a proof step by step: what comes next, and what is made of the answers.

use crate::field::{fmul, Field};
use crate::plonk::error::{Error, GpuError};
use crate::plonk::progress::{law_steps_can_be_followed, Progress};
use crate::plonk::prover::{
    create_proof_from_advice, opened_polys, polys_of, Committed, Opened, OpenedPolys, ProofPlan,
    ProofStep,
};
use crate::plonk::proving::{all_have, lemma_key_followable, ProofAction, ProofKey, ProofState};
use crate::plonk::queries::with_queries;
use crate::poly::point_sets::OpeningQuery;
use vstd::prelude::*;

verus! {

/// A proof in the making: its plan, the step that comes next, and what it has come
/// to.
#[derive(Debug)]
pub struct ProofRun<F: Field> {
    pub query_instance: bool,
    pub plan: ProofPlan,
    pub at: usize,
    pub state: ProofState<F>,
}

/// Whether instances are queried makes no difference to what a step needs.
proof fn lemma_either_way<F: Field>(
    key: ProofKey<F>,
    query_instance: bool,
    instances: Seq<Vec<F>>,
    p: Progress,
    step: ProofStep,
)
    ensures
        key.shape(query_instance, instances).allowed(p, step) == key.shape(
            false,
            instances,
        ).allowed(p, step),
{
}

/// All that is opened is there when all steps are done.
proof fn lemma_openings_ready<F: Field>(
    key: ProofKey<F>,
    query_instance: bool,
    instances: Seq<Vec<F>>,
)
    requires
        key.wf(),
        instances.len() == key.cs().num_instance_columns,
    ensures
        ({
            let shape = key.shape(query_instance, instances);
            &&& Progress::start().after_all(shape.steps()) == shape.finished()
            &&& forall|k: int|
                0 <= k < shape.openings().len() ==> key.shape(false, instances).available(
                    shape.finished(),
                    (#[trigger] shape.openings()[k]).0,
                )
        }),
{
    let shape = key.shape(query_instance, instances);
    lemma_key_followable(key, query_instance, instances);
    law_steps_can_be_followed(shape);
    let p = shape.finished();
    assert forall|k: int| 0 <= k < shape.openings().len() implies key.shape(
        false,
        instances,
    ).available(p, (#[trigger] shape.openings()[k]).0) by {
        let which = shape.openings()[k].0;
        assert(shape.available(p, which));
        lemma_available_either_way(key, query_instance, instances, p, which);
    }
}

proof fn lemma_available_either_way<F: Field>(
    key: ProofKey<F>,
    query_instance: bool,
    instances: Seq<Vec<F>>,
    p: Progress,
    which: Opened,
)
    ensures
        key.shape(query_instance, instances).available(p, which) == key.shape(
            false,
            instances,
        ).available(p, which),
{
}

impl<F: Field> ProofRun<F> {
    /// Whether the proof has come to what the steps before the next one lead to.
    pub open spec fn wf(self, key: ProofKey<F>) -> bool {
        let shape = key.shape(self.query_instance, self.state.instances@);
        &&& key.wf()
        &&& self.state.wf(key)
        &&& self.plan.steps@ == shape.steps()
        &&& self.plan.openings@ == shape.openings()
        &&& self.at <= self.plan.steps@.len()
        &&& self.state.progress() == Progress::start().after_all(
            self.plan.steps@.take(self.at as int),
        )
    }

    /// The step that comes next.
    pub open spec fn step(self) -> ProofStep {
        self.plan.steps@[self.at as int]
    }

    /// Whether all steps are done.
    pub open spec fn done(self) -> bool {
        self.at == self.plan.steps@.len()
    }

    /// Whether a step is done, and all else of the run stays as it is.
    pub open spec fn goes_on(self, after: ProofRun<F>) -> bool {
        &&& after.query_instance == self.query_instance
        &&& after.plan == self.plan
        &&& after.at == self.at + 1
    }

    /// A proof of which nothing has been made.
    pub fn new(
        key: &ProofKey<F>,
        query_instance: bool,
        plan: ProofPlan,
        instances: Vec<Vec<F>>,
        advice: Vec<Vec<F>>,
    ) -> (r: Self)
        requires
            key.wf(),
            instances@.len() == key.cs().num_instance_columns,
            advice@.len() == key.cs().num_advice_columns,
            all_have(advice@, key.n()),
            plan.steps@ == key.shape(query_instance, instances@).steps(),
            plan.openings@ == key.shape(query_instance, instances@).openings(),
        ensures
            r.wf(*key),
            r.query_instance == query_instance,
            r.plan == plan,
            r.at == 0,
            r.state.instances == instances,
            r.state.columns is None ==> r.state.advice == advice,
            r.state.columns matches Some(columns) ==> columns.taken_from(
                *key,
                instances@,
                advice@,
                Seq::empty(),
            ),
    {
        let state = ProofState::new(key, instances, advice);
        assert(plan.steps@.take(0) =~= Seq::<ProofStep>::empty());
        ProofRun { query_instance, plan, at: 0, state }
    }

    /// A proof from advice columns that have been synthesized, of which nothing has
    /// been made. It fails where there are not as many instances as the circuit has
    /// instance columns.
    pub fn start(
        key: &ProofKey<F>,
        query_instance: bool,
        instances: Vec<Vec<F>>,
        advice: Vec<Vec<F>>,
    ) -> (r: Result<Self, GpuError>)
        requires
            key.wf(),
            advice@.len() == key.cs().num_advice_columns,
            all_have(advice@, key.n()),
        ensures
            instances@.len() != key.cs().num_instance_columns ==> r == Err::<Self, GpuError>(
                GpuError::Canonical(Error::InvalidInstances),
            ),
            instances@.len() == key.cs().num_instance_columns ==> r is Ok,
            r matches Ok(run) ==> {
                &&& run.wf(*key)
                &&& run.query_instance == query_instance
                &&& run.at == 0
                &&& run.state.instances == instances
                &&& run.state.columns is None ==> run.state.advice == advice
                &&& run.state.columns matches Some(columns) ==> columns.taken_from(
                    *key,
                    instances@,
                    advice@,
                    Seq::empty(),
                )
            },
    {
        proof {
            key.domain.lemma_domain();
        }
        match create_proof_from_advice(
            &key.parts.vk.cs,
            query_instance,
            &instances,
            key.degree,
            key.domain.get_quotient_poly_degree(),
        ) {
            Ok(plan) => Ok(ProofRun::new(key, query_instance, plan, instances, advice)),
            Err(e) => Err(e),
        }
    }

    /// The next step finds what it is about.
    #[verifier::rlimit(40)]
    proof fn lemma_ready(self, key: ProofKey<F>)
        requires
            self.wf(key),
            !self.done(),
        ensures
            self.state.ready(key, self.step()),
            self.state.progress().after(self.step()) == Progress::start().after_all(
                self.plan.steps@.take(self.at + 1),
            ),
            self.at < usize::MAX,
    {
        let shape = key.shape(self.query_instance, self.state.instances@);
        lemma_key_followable(key, self.query_instance, self.state.instances@);
        law_steps_can_be_followed(shape);
        let steps = self.plan.steps@;
        assert(self.plan.steps.len() == steps.len());
        assert(shape.allowed(
            Progress::start().after_all(steps.take(self.at as int)),
            steps[self.at as int],
        ));
        lemma_either_way(
            key,
            self.query_instance,
            self.state.instances@,
            self.state.progress(),
            self.step(),
        );
        assert(steps.take(self.at + 1).drop_last() =~= steps.take(self.at as int));
    }

    /// Tests whether all steps are done.
    pub fn is_done(&self) -> (r: bool)
        requires
            self.at <= self.plan.steps@.len(),
        ensures
            r == self.done(),
    {
        self.at == self.plan.steps.len()
    }

    /// Does the next step, and says what is to be done outside of the proof. A step
    /// that asks for random values or for a challenge is done when they are handed
    /// in. It fails where a lookup does not hold.
    pub fn next(&mut self, key: &ProofKey<F>) -> (r: Result<ProofAction<F>, Error>)
        requires
            old(self).wf(*key),
            !old(self).done(),
        ensures
            final(self).wf(*key),
            r matches Ok(action) ==> {
                &&& old(self).state.performed(*key, old(self).step(), final(self).state, action)
                &&& if old(self).step() is Draw || old(self).step() is Squeeze {
                    *final(self) == *old(self)
                } else {
                    old(self).goes_on(*final(self))
                }
            },
            r matches Err(e) ==> e == Error::ConstraintSystemFailure && *final(self) == *old(self),
            r is Err <==> (old(self).step() matches ProofStep::WritePoint(
                Committed::LookupInput(l),
            ) && !old(self).state.lookup_holds(*key, l as int)),
    {
        let step = self.plan.steps[self.at];
        proof {
            self.lemma_ready(*key);
        }
        let action = match self.state.perform(key, step) {
            Ok(action) => action,
            Err(e) => {
                return Err(e);
            },
        };
        match step {
            ProofStep::Draw(_, _) => {},
            ProofStep::Squeeze(_) => {},
            _ => {
                self.at += 1;
            },
        }
        Ok(action)
    }

    /// Takes the random values that the next step asks for.
    pub fn take_draw(&mut self, key: &ProofKey<F>, values: Vec<F>)
        requires
            old(self).wf(*key),
            !old(self).done(),
            old(self).step() matches ProofStep::Draw(_, count) && count == values@.len(),
        ensures
            final(self).wf(*key),
            old(self).goes_on(*final(self)),
            old(self).state.drawn(*key, old(self).step()->Draw_0, values, final(self).state),
    {
        proof {
            self.lemma_ready(*key);
        }
        if let ProofStep::Draw(what, _) = self.plan.steps[self.at] {
            self.state.take_draw(key, what, values);
            self.at += 1;
        }
    }

    /// Takes the challenge that the next step asks for.
    pub fn take_challenge(&mut self, key: &ProofKey<F>, value: F)
        requires
            old(self).wf(*key),
            !old(self).done(),
            old(self).step() is Squeeze,
        ensures
            final(self).wf(*key),
            old(self).goes_on(*final(self)),
            old(self).state.challenged(old(self).step()->Squeeze_0, value, final(self).state),
    {
        proof {
            self.lemma_ready(*key);
        }
        if let ProofStep::Squeeze(name) = self.plan.steps[self.at] {
            self.state.take_challenge(key, name, value);
            self.at += 1;
        }
    }

    /// Whether queries are the openings of the plan: each of its polynomial at its
    /// rotation of the point, with the value there.
    pub open spec fn queried(
        self,
        key: ProofKey<F>,
        polys: Seq<Opened>,
        queries: Seq<OpeningQuery<F>>,
    ) -> bool {
        &&& queries.len() == self.plan.openings@.len()
        &&& forall|i: int|
            0 <= i < queries.len() ==> {
                let (which, at) = self.plan.openings@[i];
                &&& (#[trigger] queries[i]).poly < polys.len()
                &&& polys[queries[i].poly as int] == which
                &&& queries[i].point.val() == fmul(
                    F::modulus(),
                    self.state.x.val(),
                    key.domain.omega_power(at.0 as int),
                )
                &&& queries[i].eval.val() == self.state.evaluation(key, which, at)
            }
    }

    /// The polynomials that are opened, and the openings: each of its polynomial at
    /// its rotation of the point.
    #[verifier::rlimit(40)]
    pub fn opening_queries(&self, key: &ProofKey<F>) -> (r: (OpenedPolys, Vec<OpeningQuery<F>>))
        requires
            self.wf(*key),
            self.done(),
        ensures
            r.0.polys@ == with_queries(Seq::<Opened>::empty(), polys_of(self.plan.openings@)),
            self.queried(*key, r.0.polys@, r.1@),
    {
        proof {
            self.lemma_all_available(*key);
        }
        let opened = opened_polys(&self.plan.openings);
        let mut queries: Vec<OpeningQuery<F>> = Vec::new();
        let mut i: usize = 0;
        while i < self.plan.openings.len()
            invariant
                self.wf(*key),
                i <= self.plan.openings@.len(),
                opened.ids@.len() == self.plan.openings@.len(),
                forall|k: int|
                    0 <= k < self.plan.openings@.len() ==> (#[trigger] opened.ids@[k])
                        < opened.polys@.len() && opened.polys@[opened.ids@[k] as int]
                        == self.plan.openings@[k].0,
                forall|k: int|
                    0 <= k < self.plan.openings@.len() ==> key.shape(
                        false,
                        self.state.instances@,
                    ).available(self.state.progress(), (#[trigger] self.plan.openings@[k]).0),
                queries@.len() == i,
                forall|k: int|
                    0 <= k < i ==> {
                        let (which, at) = self.plan.openings@[k];
                        &&& (#[trigger] queries@[k]).poly < opened.polys@.len()
                        &&& opened.polys@[queries@[k].poly as int] == which
                        &&& queries@[k].point.val() == fmul(
                            F::modulus(),
                            self.state.x.val(),
                            key.domain.omega_power(at.0 as int),
                        )
                        &&& queries@[k].eval.val() == self.state.evaluation(*key, which, at)
                    },
            decreases self.plan.openings@.len() - i,
        {
            let (which, at) = self.plan.openings[i];
            assert(self.plan.openings@[i as int] == (which, at));
            assert(opened.ids@[i as int] < opened.polys@.len());
            queries.push(
                OpeningQuery {
                    poly: opened.ids[i],
                    point: key.domain.rotate_omega(self.state.x, at),
                    eval: self.state.evaluate(key, which, at),
                },
            );
            i += 1;
        }
        (opened, queries)
    }

    /// What a finished proof has come to.
    #[verifier::rlimit(40)]
    pub proof fn lemma_finished(self, key: ProofKey<F>)
        requires
            self.wf(key),
            self.done(),
        ensures
            self.state.progress() == key.shape(
                self.query_instance,
                self.state.instances@,
            ).finished(),
    {
        lemma_openings_ready(key, self.query_instance, self.state.instances@);
        assert(self.plan.steps@.take(self.at as int) =~= self.plan.steps@);
    }

    /// All that is opened is there.
    pub proof fn lemma_all_available(self, key: ProofKey<F>)
        requires
            self.wf(key),
            self.done(),
        ensures
            forall|k: int|
                0 <= k < self.plan.openings@.len() ==> key.shape(
                    false,
                    self.state.instances@,
                ).available(self.state.progress(), (#[trigger] self.plan.openings@[k]).0),
    {
        lemma_openings_ready(key, self.query_instance, self.state.instances@);
        self.lemma_finished(key);
    }
}

} // verus!
