//! Making a proof: what each step of its plan works on, and what it leaves behind.

use crate::field::{vals, Field};
use crate::plonk::circuit::Phase;
use crate::plonk::constraint_system::GpuConstraintSystem;
use crate::plonk::keys::ProvingKeyParts;
use crate::plonk::lookup::prover::Permuted;
use crate::plonk::permutation::prover::chunk_count;
use crate::plonk::progress::Progress;
use crate::plonk::prover::{
    lemma_all_in_phase, shape_of, Blinded, ChallengeName, ProofShape, ProofStep,
};
use crate::plonk::quotient::{CircuitPolys, KeyPolys, QuotientModel};
use crate::plonk::reading::columns_fill;
use crate::plonk::vanishing::piece;
use crate::plonk::witness::{
    blinds_columns, column_and_challenge_indices, convert_raw_advice, in_phase, phases_exist,
    AdviceSingle, InstanceSingle,
};
use crate::poly::domain::EvaluationDomain;
use crate::poly::{Coeff, LagrangeCoeff, Polynomial};
use vstd::prelude::*;

verus! {

/// What proofs for a circuit are made with.
#[derive(Debug)]
pub struct ProofKey<F: Field> {
    pub domain: EvaluationDomain<F>,
    pub parts: ProvingKeyParts<F>,
    /// The degree of the constraint system.
    pub degree: usize,
}

impl<F: Field> ProofKey<F> {
    pub open spec fn cs(self) -> GpuConstraintSystem<F> {
        self.parts.vk.cs
    }

    /// The number of rows.
    pub open spec fn n(self) -> nat {
        self.domain.size()
    }

    /// The number of blinding factors.
    pub open spec fn bf(self) -> nat {
        self.cs().spec_blinding_factors()
    }

    /// The advice columns of the first phase.
    pub open spec fn phase_columns(self) -> Seq<usize> {
        in_phase(self.cs().advice_column_phase@, 0)
    }

    /// The number of products of the permutation argument.
    pub open spec fn num_sets(self) -> nat {
        chunk_count(self.cs().permutation.columns@.len(), (self.degree - 2) as nat)
    }

    /// The shape of a proof with the key.
    pub open spec fn shape(self, query_instance: bool, instances: Seq<Vec<F>>) -> ProofShape<F> {
        shape_of(
            self.cs(),
            query_instance,
            instances,
            self.degree,
            self.domain.quotient_poly_degree as usize,
        )
    }

    /// Whether the key has been made for its constraint system.
    pub open spec fn made(self) -> bool {
        &&& self.domain.wf()
        &&& self.bf() < self.n()
        &&& self.parts.complete(self.domain)
    }

    /// Whether proofs can be made with the key: the constraint system is about
    /// columns that there are, its challenges belong to the first phase, and its
    /// degree and rows leave room for the arguments.
    pub open spec fn usable(self) -> bool {
        let cs = self.cs();
        &&& self.n() <= i32::MAX
        &&& cs.wf()
        &&& phases_exist(cs)
        &&& cs.closed()
        &&& cs.rotates(self.n() as int)
        &&& cs.queries_known()
        &&& first_phase_only(cs.challenge_phase@)
        &&& self.degree >= 3
        &&& cs.permutation.columns@.len() + (self.degree - 2) <= usize::MAX
        &&& self.bf() + 1 < self.n()
        &&& columns_fill(self.parts.vk.fixed@, cs.num_fixed_columns, self.n())
        &&& self.parts.vk.permutations@.len() == cs.permutation.columns@.len()
        &&& forall|c: int|
            0 <= c < self.parts.vk.permutations@.len() ==> (
            #[trigger] self.parts.vk.permutations@[c])@.len() == self.n()
    }

    pub open spec fn wf(self) -> bool {
        self.made() && self.usable()
    }

    /// Tests whether proofs can be made with the key.
    pub fn is_usable(&self) -> (r: bool)
        requires
            self.made(),
        ensures
            r == self.usable(),
    {
        proof {
            self.domain.lemma_domain();
        }
        let n = self.domain.rows();
        let cs = &self.parts.vk.cs;
        if n > i32::MAX as usize || !cs.is_wf() || !cs.phases_known() || !cs.is_closed() {
            return false;
        }
        if !cs.rotations_fit(n as i32) || !cs.knows_queries() || !in_first_phase(
            &cs.challenge_phase,
        ) {
            return false;
        }
        if self.degree < 3 || self.degree - 2 > usize::MAX - cs.permutation.columns.len() {
            return false;
        }
        if cs.blinding_factors() >= n - 1 || self.parts.vk.fixed.len() != cs.num_fixed_columns {
            return false;
        }
        if self.parts.vk.permutations.len() != cs.permutation.columns.len() {
            return false;
        }
        all_filled(&self.parts.vk.fixed, n) && all_filled(&self.parts.vk.permutations, n)
    }
}

/// Whether all phases are the first.
pub open spec fn first_phase_only(phases: Seq<Phase>) -> bool {
    forall|i: int| 0 <= i < phases.len() ==> (#[trigger] phases[i]).0 == 0
}

fn in_first_phase(phases: &Vec<Phase>) -> (r: bool)
    ensures
        r == first_phase_only(phases@),
{
    let mut i: usize = 0;
    while i < phases.len()
        invariant
            i <= phases@.len(),
            forall|j: int| 0 <= j < i ==> (#[trigger] phases@[j]).0 == 0,
        decreases phases@.len() - i,
    {
        if phases[i].0 != 0 {
            assert(phases@[i as int].0 != 0);
            return false;
        }
        i += 1;
    }
    true
}

fn all_filled<F: Field>(columns: &Vec<Polynomial<F, LagrangeCoeff>>, n: usize) -> (r: bool)
    ensures
        r == forall|c: int| 0 <= c < columns@.len() ==> (#[trigger] columns@[c])@.len() == n,
{
    let mut i: usize = 0;
    while i < columns.len()
        invariant
            i <= columns@.len(),
            forall|c: int| 0 <= c < i ==> (#[trigger] columns@[c])@.len() == n,
        decreases columns@.len() - i,
    {
        if columns[i].len() != n {
            assert(columns@[i as int]@.len() != n);
            return false;
        }
        i += 1;
    }
    true
}

/// A proof with a usable key can be followed.
pub proof fn lemma_key_followable<F: Field>(
    key: ProofKey<F>,
    query_instance: bool,
    instances: Seq<Vec<F>>,
)
    requires
        key.wf(),
        instances.len() == key.cs().num_instance_columns,
    ensures
        key.shape(query_instance, instances).followable(),
        key.shape(query_instance, instances).challenges.len() == key.cs().num_challenges,
        key.shape(query_instance, instances).blinding_factors == key.bf(),
        key.num_sets() <= usize::MAX,
        key.domain.quotient_poly_degree <= usize::MAX,
{
    let cs = key.cs();
    let shape = key.shape(query_instance, instances);
    key.domain.lemma_domain();
    vstd::arithmetic::power2::lemma_pow2_pos(key.domain.k as nat);
    assert(key.domain.quotient_poly_degree <= key.domain.n * key.domain.quotient_poly_degree)
        by (nonlinear_arith)
        requires
            key.domain.n >= 1,
    ;
    assert(cs.challenge_phase.len() == cs.challenge_phase@.len());
    lemma_all_in_phase(cs.challenge_phase@);
    let len = cs.permutation.columns@.len() as int;
    let k = key.degree - 2;
    assert(cs.permutation.columns.len() == len);
    assert((len + k - 1) / k <= len + k - 1) by (nonlinear_arith)
        requires
            len >= 0,
            k >= 1,
    ;
    assert(cs.lookups.len() == cs.lookups@.len());
    assert forall|i: int| 0 <= i < shape.instance_queries.len() implies (
    #[trigger] shape.instance_queries[i]).0.index < shape.instances.len() by {
        assert(cs.instance_queries@[i].0.index < cs.num_instance_columns);
    }
    assert forall|i: int| 0 <= i < shape.fixed_queries.len() implies (
    #[trigger] shape.fixed_queries[i]).0.index < shape.num_fixed by {
        assert(cs.fixed_queries@[i].0.index < cs.num_fixed_columns);
    }
    assert forall|i: int| 0 <= i < shape.advice_queries.len() implies (
    #[trigger] shape.advice_queries[i]).0.index < shape.num_advice by {
        assert(cs.advice_queries@[i].0.index < cs.num_advice_columns);
    }
    if shape.instance_queries.len() > 0 {
        assert(shape.instance_queries[0].0.index < shape.instances.len());
    }
    if shape.advice_queries.len() > 0 {
        assert(shape.advice_queries[0].0.index < shape.num_advice);
    }
    if shape.fixed_queries.len() > 0 {
        assert(shape.fixed_queries[0].0.index < shape.num_fixed);
    }
}

/// Whether all lists have `n` entries.
pub open spec fn all_have<F>(s: Seq<Vec<F>>, n: nat) -> bool {
    forall|i: int| 0 <= i < s.len() ==> (#[trigger] s[i])@.len() == n
}

/// Whether polynomials have the given values on the domain.
pub open spec fn are_coefficients<F: Field>(
    domain: EvaluationDomain<F>,
    polys: Seq<Polynomial<F, Coeff>>,
    values: Seq<Polynomial<F, LagrangeCoeff>>,
) -> bool {
    &&& polys.len() == values.len()
    &&& forall|c: int|
        0 <= c < polys.len() ==> vals((#[trigger] polys[c])@) == domain.coefficients(
            vals(values[c]@),
        )
}

/// The columns of a circuit, as values and as coefficients.
#[derive(Debug)]
pub struct Columns<F: Field> {
    pub instance: InstanceSingle<F>,
    pub advice: AdviceSingle<F>,
}

impl<F: Field> Columns<F> {
    /// Whether these are the instances, padded with zeros, and the advice columns,
    /// with blinding factors behind the usable rows of those of the first phase.
    pub open spec fn taken_from(
        self,
        key: ProofKey<F>,
        instances: Seq<Vec<F>>,
        advice: Seq<Vec<F>>,
        blinds: Seq<Vec<F>>,
    ) -> bool {
        &&& self.instance.holds(key.domain, instances)
        &&& blinds_columns(
            self.advice.advice_values@,
            advice,
            key.n() - (key.bf() + 1),
            key.phase_columns(),
            blinds,
        )
        &&& are_coefficients(
            key.domain,
            self.advice.advice_polys@,
            self.advice.advice_values@,
        )
    }

    /// Whether all columns of the circuit are there.
    pub open spec fn filled(self, key: ProofKey<F>) -> bool {
        let cs = key.cs();
        &&& columns_fill(self.instance.instance_values@, cs.num_instance_columns, key.n())
        &&& columns_fill(self.advice.advice_values@, cs.num_advice_columns, key.n())
        &&& are_coefficients(
            key.domain,
            self.instance.instance_polys@,
            self.instance.instance_values@,
        )
        &&& are_coefficients(
            key.domain,
            self.advice.advice_polys@,
            self.advice.advice_values@,
        )
    }
}

proof fn lemma_taken_columns<F: Field>(
    columns: Columns<F>,
    key: ProofKey<F>,
    instances: Seq<Vec<F>>,
    advice: Seq<Vec<F>>,
    blinds: Seq<Vec<F>>,
)
    requires
        key.wf(),
        columns.taken_from(key, instances, advice, blinds),
        instances.len() == key.cs().num_instance_columns,
        advice.len() == key.cs().num_advice_columns,
        all_have(advice, key.n()),
        blinds.len() == key.phase_columns().len(),
        all_have(blinds, key.bf() + 1),
    ensures
        columns.filled(key),
{
    let values = columns.advice.advice_values@;
    let listed = key.phase_columns();
    assert forall|c: int| 0 <= c < values.len() implies (#[trigger] values[c])@.len()
        == key.n() by {
        assert(advice[c]@.len() == key.n());
        assert(key.cs().num_advice_columns <= usize::MAX);
        if listed.contains(c as usize) {
            let j = choose|j: int| 0 <= j < listed.len() && listed[j] == c as usize;
            assert(blinds[j]@.len() == key.bf() + 1);
            assert(vals(values[listed[j] as int]@).len() == vals(advice[c]@).len());
        } else {
            assert(vals(values[c]@).len() == vals(advice[c]@).len());
        }
        assert(vals(values[c]@).len() == values[c]@.len());
        assert(vals(advice[c]@).len() == advice[c]@.len());
    }
    let rows = columns.instance.instance_values@;
    assert forall|c: int| 0 <= c < rows.len() implies (#[trigger] rows[c])@.len() == key.n() by {
        assert(vals(rows[c]@).len() == rows[c]@.len());
    }
}

/// What a proof has come to.
#[derive(Debug)]
pub struct ProofState<F: Field> {
    pub instances: Vec<Vec<F>>,
    /// The advice columns, until they are taken in.
    pub advice: Vec<Vec<F>>,
    /// The columns, once the random values of the advice columns are drawn.
    pub columns: Option<Columns<F>>,
    pub advice_blinds: Vec<Vec<F>>,
    pub set_blinds: Vec<Vec<F>>,
    pub lookup_blinds: Vec<Vec<F>>,
    /// The lookups, compressed and permuted.
    pub permuted: Vec<Permuted<F>>,
    /// The products of the permutation argument.
    pub sets: Vec<Polynomial<F, Coeff>>,
    /// The products of the lookups.
    pub products: Vec<Vec<F>>,
    /// The pieces of the quotient.
    pub pieces: Vec<Vec<F>>,
    /// The challenges of the circuit.
    pub challenges: Vec<F>,
    pub theta: F,
    pub beta: F,
    pub gamma: F,
    pub y: F,
    pub x: F,
}

/// What is to be done at a step.
#[derive(Debug)]
pub enum ProofAction<F: Field> {
    /// Hash the verifying key into the transcript.
    HashKey,
    /// Hash a scalar.
    CommonScalar(F),
    /// Hash the commitment to a column, given by its values.
    CommonPoint(Vec<F>),
    /// Draw as many random values and hand them in.
    Draw(usize),
    /// Write the commitment to a column, given by its values.
    WriteValues(Vec<F>),
    /// Write the commitment to a polynomial, given by its coefficients.
    WriteCoefficients(Vec<F>),
    /// Squeeze a challenge and hand it in.
    Squeeze,
    /// Write a scalar.
    WriteScalar(F),
}

/// Whether polynomials are the same, one by one.
pub open spec fn same_polys<F: Field>(
    a: Seq<Polynomial<F, Coeff>>,
    b: Seq<Polynomial<F, Coeff>>,
) -> bool {
    &&& a.len() == b.len()
    &&& forall|c: int| 0 <= c < a.len() ==> (#[trigger] a[c])@ == b[c]@
}

/// Whether polynomials are those of the key.
pub open spec fn holds_key<F: Field>(polys: KeyPolys<F>, parts: ProvingKeyParts<F>) -> bool {
    &&& same_polys(polys.fixed@, parts.fixed_polys@)
    &&& same_polys(polys.sigmas@, parts.permutation_polys@)
    &&& polys.l0@ == parts.l0@
    &&& polys.l_last@ == parts.l_last@
    &&& polys.l_active@ == parts.l_active_row@
}

/// The values of a circuit's folded constraints on the extended domain.
pub open spec fn numerators<F: Field>(model: QuotientModel<F>, circuit: CircuitPolys<F>) -> Seq<
    int,
> {
    let parts = model.domain.parts() as int;
    Seq::new(
        model.domain.size() * model.domain.parts(),
        |i: int|
            model.value(
                seq![circuit],
                model.shift((i % parts) as nat),
                1,
                (i / parts) as usize,
            ),
    )
}

/// Whether these are the pieces of the quotient of a circuit's constraints.
pub open spec fn divided_into<F: Field>(
    model: QuotientModel<F>,
    circuit: CircuitPolys<F>,
    pieces: Seq<Vec<F>>,
) -> bool {
    let q = model.quotient(numerators(model, circuit));
    &&& pieces.len() == model.domain.quotient_poly_degree
    &&& forall|i: int|
        0 <= i < pieces.len() ==> vals((#[trigger] pieces[i])@) == piece(
            q,
            model.domain.size(),
            i,
        )
}

impl<F: Field> ProofState<F> {
    /// How much has been made.
    pub open spec fn progress(self) -> Progress {
        Progress {
            advice_draws: self.advice_blinds@.len(),
            challenges: self.challenges@.len(),
            permuted: self.permuted@.len(),
            set_draws: self.set_blinds@.len(),
            sets: self.sets@.len() > 0,
            lookup_draws: self.lookup_blinds@.len(),
            products: self.products@.len(),
            pieces: self.pieces@.len() > 0,
        }
    }

    /// Whether all that a step is about is there.
    pub open spec fn ready(self, key: ProofKey<F>, step: ProofStep) -> bool {
        key.shape(false, self.instances@).allowed(self.progress(), step)
    }

    /// Whether what has been made fits the key.
    pub open spec fn wf(self, key: ProofKey<F>) -> bool {
        let cs = key.cs();
        &&& self.instances@.len() == cs.num_instance_columns
        &&& self.advice_blinds@.len() <= key.phase_columns().len()
        &&& self.columns is Some <==> self.advice_blinds@.len() == key.phase_columns().len()
        &&& self.columns is None ==> {
            &&& self.advice@.len() == cs.num_advice_columns
            &&& all_have(self.advice@, key.n())
        }
        &&& self.columns matches Some(columns) ==> columns.filled(key)
        &&& all_have(self.advice_blinds@, key.bf() + 1)
        &&& all_have(self.set_blinds@, key.bf())
        &&& all_have(self.lookup_blinds@, key.bf())
        &&& self.set_blinds@.len() <= key.num_sets()
        &&& self.permuted@.len() <= cs.lookups@.len()
        &&& forall|l: int|
            0 <= l < self.permuted@.len() ==> (#[trigger] self.permuted@[l]).has_rows(key.n())
        &&& self.sets@.len() > 0 ==> self.sets@.len() == key.num_sets()
        &&& forall|c: int|
            0 <= c < self.sets@.len() ==> (#[trigger] self.sets@[c])@.len() == key.n()
        &&& self.products@.len() <= self.permuted@.len()
        &&& all_have(self.products@, key.n())
        &&& self.pieces@.len() > 0 ==> self.pieces@.len() == key.domain.quotient_poly_degree
        &&& all_have(self.pieces@, key.n())
        &&& self.challenges@.len() <= cs.num_challenges
        &&& self.columns is None ==> {
            &&& self.permuted@.len() == 0
            &&& self.sets@.len() == 0
            &&& self.pieces@.len() == 0
        }
        &&& self.products@.len() <= self.lookup_blinds@.len()
        &&& self.made(key)
    }

    /// Whether what has been made is what the columns, the random values and the
    /// challenges give.
    pub open spec fn made(self, key: ProofKey<F>) -> bool {
        &&& forall|l: int|
            0 <= l < self.permuted@.len() ==> self.lookup_permutes_to(
                key,
                l,
                #[trigger] self.permuted@[l],
            )
        &&& self.sets@.len() > 0 ==> self.are_sets(key, self.sets@)
        &&& forall|l: int|
            0 <= l < self.products@.len() ==> vals((#[trigger] self.products@[l])@)
                == self.lookup_product(key, l)
        &&& self.pieces@.len() > 0 ==> {
            &&& self.permuted@.len() == key.cs().lookups@.len()
            &&& self.products@.len() == key.cs().lookups@.len()
            &&& key.num_sets() == 0 || self.sets@.len() > 0
            &&& self.are_pieces(key, self.pieces@)
        }
    }

    /// The quotient stays that of the constraints, where nothing that it is made of
    /// changes.
    pub proof fn lemma_pieces_stay(self, after: ProofState<F>, key: ProofKey<F>)
        requires
            self.are_pieces(key, self.pieces@),
            after == (ProofState {
                set_blinds: after.set_blinds,
                lookup_blinds: after.lookup_blinds,
                pieces: after.pieces,
                x: after.x,
                ..self
            }),
            after.pieces@ == self.pieces@,
        ensures
            after.are_pieces(key, after.pieces@),
    {
        let (polys, circuit) = choose|polys: KeyPolys<F>, circuit: CircuitPolys<F>| #[trigger]
            self.pieces_from(key, polys, circuit, self.pieces@);
        assert(after.quotient_model(key, polys) == self.quotient_model(key, polys));
        assert(after.holds_circuit(key, circuit));
        assert(after.pieces_from(key, polys, circuit, after.pieces@));
    }

    /// The advice columns, as they have been taken in.
    pub open spec fn advice_values(self) -> Seq<Polynomial<F, LagrangeCoeff>> {
        self.columns->0.advice.advice_values@
    }

    /// The instance columns, as they have been taken in.
    pub open spec fn instance_values(self) -> Seq<Polynomial<F, LagrangeCoeff>> {
        self.columns->0.instance.instance_values@
    }

    /// The state of a proof of which nothing has been made. Where no advice column
    /// belongs to the first phase, the columns are taken in as they are.
    pub fn new(key: &ProofKey<F>, instances: Vec<Vec<F>>, advice: Vec<Vec<F>>) -> (r: Self)
        requires
            key.wf(),
            instances@.len() == key.cs().num_instance_columns,
            advice@.len() == key.cs().num_advice_columns,
            all_have(advice@, key.n()),
        ensures
            r.wf(*key),
            r.progress() == Progress::start(),
            r.instances == instances,
            r.columns is None ==> r.advice == advice,
            r.columns matches Some(columns) ==> columns.taken_from(
                *key,
                instances@,
                advice@,
                Seq::empty(),
            ),
    {
        let zero = F::zero();
        let mut state = ProofState {
            instances,
            advice,
            columns: None,
            advice_blinds: Vec::new(),
            set_blinds: Vec::new(),
            lookup_blinds: Vec::new(),
            permuted: Vec::new(),
            sets: Vec::new(),
            products: Vec::new(),
            pieces: Vec::new(),
            challenges: Vec::new(),
            theta: zero,
            beta: zero,
            gamma: zero,
            y: zero,
            x: zero,
        };
        let (phase_columns, _) = column_and_challenge_indices(&key.parts.vk.cs);
        if phase_columns[0].len() == 0 {
            state.take_in(key);
            assert(state.advice_blinds@ =~= Seq::<Vec<F>>::empty());
        }
        state
    }

    /// Takes in the columns.
    fn take_in(&mut self, key: &ProofKey<F>)
        requires
            key.wf(),
            old(self).instances@.len() == key.cs().num_instance_columns,
            old(self).advice@.len() == key.cs().num_advice_columns,
            all_have(old(self).advice@, key.n()),
            old(self).advice_blinds@.len() == key.phase_columns().len(),
            all_have(old(self).advice_blinds@, key.bf() + 1),
        ensures
            *final(self) == (ProofState {
                advice: final(self).advice,
                columns: final(self).columns,
                ..*old(self)
            }),
            final(self).columns matches Some(columns) && columns.taken_from(
                *key,
                old(self).instances@,
                old(self).advice@,
                old(self).advice_blinds@,
            ) && columns.filled(*key),
    {
        let mut advice: Vec<Vec<F>> = Vec::new();
        core::mem::swap(&mut advice, &mut self.advice);
        let (instance, advice) = convert_raw_advice(
            &key.domain,
            &key.parts.vk.cs,
            &self.instances,
            advice,
            0,
            &self.advice_blinds,
        );
        let columns = Columns { instance, advice };
        proof {
            lemma_taken_columns(
                columns,
                *key,
                old(self).instances@,
                old(self).advice@,
                old(self).advice_blinds@,
            );
        }
        self.columns = Some(columns);
    }

    /// What random values are kept for, and that they change nothing else: those of
    /// an advice column blind it, and the last of them take the columns in; those
    /// of a product are kept for it. Commitments to the pieces of the quotient hide
    /// nothing by theirs.
    pub open spec fn drawn(
        self,
        key: ProofKey<F>,
        what: Blinded,
        values: Vec<F>,
        after: ProofState<F>,
    ) -> bool {
        match what {
            Blinded::Advice(_) => {
                &&& after.advice_blinds@ == self.advice_blinds@.push(values)
                &&& if after.advice_blinds@.len() < key.phase_columns().len() {
                    after == (ProofState { advice_blinds: after.advice_blinds, ..self })
                } else {
                    &&& after == (ProofState {
                        advice_blinds: after.advice_blinds,
                        advice: after.advice,
                        columns: after.columns,
                        ..self
                    })
                    &&& after.columns matches Some(columns) && columns.taken_from(
                        key,
                        self.instances@,
                        self.advice@,
                        after.advice_blinds@,
                    )
                }
            },
            Blinded::PermutationProduct(_) => {
                &&& after == (ProofState { set_blinds: after.set_blinds, ..self })
                &&& after.set_blinds@ == self.set_blinds@.push(values)
            },
            Blinded::LookupProduct(_) => {
                &&& after == (ProofState { lookup_blinds: after.lookup_blinds, ..self })
                &&& after.lookup_blinds@ == self.lookup_blinds@.push(values)
            },
            Blinded::QuotientPiece(_) => after == self,
        }
    }

    /// Takes random values.
    pub fn take_draw(&mut self, key: &ProofKey<F>, what: Blinded, values: Vec<F>)
        requires
            key.wf(),
            old(self).wf(*key),
            old(self).ready(*key, ProofStep::Draw(what, values@.len() as usize)),
        ensures
            final(self).wf(*key),
            final(self).progress() == old(self).progress().after(
                ProofStep::Draw(what, values@.len() as usize),
            ),
            old(self).drawn(*key, what, values, *final(self)),
    {
        proof {
            lemma_key_followable(*key, false, self.instances@);
            assert(values.len() == values@.len());
        }
        let ghost before = *self;
        match what {
            Blinded::Advice(_) => {
                let (phase_columns, _) = column_and_challenge_indices(&key.parts.vk.cs);
                self.advice_blinds.push(values);
                if self.advice_blinds.len() == phase_columns[0].len() {
                    self.take_in(key);
                }
            },
            Blinded::PermutationProduct(_) => {
                self.set_blinds.push(values);
            },
            Blinded::LookupProduct(_) => {
                self.lookup_blinds.push(values);
            },
            Blinded::QuotientPiece(_) => {},
        }
        proof {
            if before.pieces@.len() > 0 {
                before.lemma_pieces_stay(*self, *key);
            }
        }
    }

    /// What a challenge becomes, and that it changes nothing else.
    pub open spec fn challenged(
        self,
        name: ChallengeName,
        value: F,
        after: ProofState<F>,
    ) -> bool {
        match name {
            ChallengeName::Circuit(_) => {
                &&& after == (ProofState { challenges: after.challenges, ..self })
                &&& after.challenges@ == self.challenges@.push(value)
            },
            ChallengeName::Theta => after == (ProofState { theta: value, ..self }),
            ChallengeName::Beta => after == (ProofState { beta: value, ..self }),
            ChallengeName::Gamma => after == (ProofState { gamma: value, ..self }),
            ChallengeName::Y => after == (ProofState { y: value, ..self }),
            ChallengeName::X => after == (ProofState { x: value, ..self }),
        }
    }

    /// Takes a challenge.
    pub fn take_challenge(&mut self, key: &ProofKey<F>, name: ChallengeName, value: F)
        requires
            key.wf(),
            old(self).wf(*key),
            old(self).ready(*key, ProofStep::Squeeze(name)),
        ensures
            final(self).wf(*key),
            final(self).progress() == old(self).progress().after(ProofStep::Squeeze(name)),
            old(self).challenged(name, value, *final(self)),
    {
        proof {
            lemma_key_followable(*key, false, self.instances@);
        }
        let ghost before = *self;
        match name {
            ChallengeName::Circuit(_) => {
                self.challenges.push(value);
            },
            ChallengeName::Theta => {
                self.theta = value;
            },
            ChallengeName::Beta => {
                self.beta = value;
            },
            ChallengeName::Gamma => {
                self.gamma = value;
            },
            ChallengeName::Y => {
                self.y = value;
            },
            ChallengeName::X => {
                self.x = value;
            },
        }
        proof {
            if before.pieces@.len() > 0 {
                before.lemma_pieces_stay(*self, *key);
            }
        }
    }
}

} // verus!
