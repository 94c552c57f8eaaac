//! Proofs made with the library are accepted by the verifier of halo2_axiom.

use halo2_axiom::circuit::{AssignedCell, Layouter, SimpleFloorPlanner, Value};
use halo2_axiom::halo2curves::bn256::{Bn256, Fr as CurveScalar, G1Affine};
use halo2_axiom::halo2curves::group::Curve;
use halo2_axiom::plonk::{
    keygen_vk_custom, verify_proof, Advice, Any, Assigned, Assignment, Challenge, Circuit, Column,
    ConstraintSystem, Error, Expression, Fixed, FloorPlanner, Instance, Selector, TableColumn,
    VerifyingKey,
};
use halo2_axiom::poly::commitment::{Blind, Params, ParamsProver};
use halo2_axiom::poly::kzg::commitment::{KZGCommitmentScheme, ParamsKZG};
use halo2_axiom::poly::kzg::multiopen::VerifierSHPLONK;
use halo2_axiom::poly::kzg::strategy::SingleStrategy;
use halo2_axiom::poly::{Coeff as OutsideCoeff, LagrangeCoeff as OutsideLagrange};
use halo2_axiom::poly::{Polynomial as OutsidePolynomial, Rotation as OutsideRotation};
use halo2_axiom::transcript::{
    Blake2bRead, Blake2bWrite, Challenge255, Transcript, TranscriptReadBuffer, TranscriptWrite,
    TranscriptWriterBuffer,
};
use halo2_gpu::field::bn256::Fr;
use halo2_gpu::field::Field;
use halo2_gpu::plonk::assigned::GpuAssigned;
use halo2_gpu::plonk::circuit::{
    GpuAdvice, GpuAdviceQuery, GpuAny, GpuChallenge, GpuColumn, GpuFixed, GpuFixedQuery,
    GpuInstance, GpuInstanceQuery, GpuSelector, Phase,
};
use halo2_gpu::plonk::constraint_system::{GpuConstraintSystem, GpuGate};
use halo2_gpu::plonk::error::{Error as GpuPlonkError, GpuError};
use halo2_gpu::plonk::expression::GpuExpression;
use halo2_gpu::plonk::keygen::Assembly;
use halo2_gpu::plonk::keys::keygen_pk2;
use halo2_gpu::plonk::lookup::prover::LookupPoly;
use halo2_gpu::plonk::lookup::Argument as LookupArgument;
use halo2_gpu::plonk::permutation::Argument as PermutationArgument;
use halo2_gpu::plonk::prover::{create_proof, ChallengeName, Committed, Opened, ProofStep};
use halo2_gpu::plonk::proving::{ProofAction, ProofKey};
use halo2_gpu::plonk::running::ProofRun;
use halo2_gpu::plonk::witness::WitnessCollection;
use halo2_gpu::poly::domain::EvaluationDomain;
use halo2_gpu::poly::opening_order::{OpeningPoint, OpeningStep};
use halo2_gpu::poly::opening_run::OpeningState;
use halo2_gpu::poly::shplonk::ProverSHPLONK;
use halo2_gpu::poly::Rotation;
use rand_core::{OsRng, RngCore};

const K: u32 = 5;

fn scalar(value: &CurveScalar) -> Fr {
    let limbs: [u64; 4] = (*value).into();
    Fr::from_limbs(limbs).unwrap()
}

fn outside(value: &Fr) -> CurveScalar {
    CurveScalar::from_raw(value.to_limbs())
}

fn random() -> Fr {
    let mut rng = OsRng;
    let limbs = [rng.next_u64(), rng.next_u64(), rng.next_u64(), rng.next_u64() >> 4];
    Fr::from_limbs(limbs).unwrap()
}

fn random_column(n: usize) -> Vec<Fr> {
    (0..n).map(|_| random()).collect()
}

fn assigned(value: &Assigned<CurveScalar>) -> GpuAssigned<Fr> {
    match value {
        Assigned::Zero => GpuAssigned::Zero,
        Assigned::Trivial(x) => GpuAssigned::Trivial(scalar(x)),
        Assigned::Rational(n, d) => GpuAssigned::Rational(scalar(n), scalar(d)),
    }
}

fn fixed_column(column: &Column<Fixed>) -> GpuColumn<GpuFixed> {
    GpuColumn::new(column.index(), GpuFixed)
}

fn instance_column(column: &Column<Instance>) -> GpuColumn<GpuInstance> {
    GpuColumn::new(column.index(), GpuInstance)
}

fn advice_column(column: &Column<Advice>) -> GpuColumn<GpuAdvice> {
    GpuColumn::new(column.index(), GpuAdvice::new(Phase(column.column_type().phase())))
}

fn any_column(column: &Column<Any>) -> GpuColumn<GpuAny> {
    let kind = match column.column_type() {
        Any::Advice(advice) => GpuAny::Advice(GpuAdvice::new(Phase(advice.phase()))),
        Any::Fixed => GpuAny::Fixed,
        Any::Instance => GpuAny::Instance,
    };
    GpuColumn::new(column.index(), kind)
}

fn rotation(at: OutsideRotation) -> Rotation {
    Rotation(at.0)
}

fn expression(e: &Expression<CurveScalar>) -> GpuExpression<Fr> {
    match e {
        Expression::Constant(c) => GpuExpression::Constant(scalar(c)),
        Expression::Selector(s) => GpuExpression::Selector(GpuSelector(s.index(), s.is_simple())),
        Expression::Fixed(q) => GpuExpression::Fixed(GpuFixedQuery {
            index: None,
            column_index: q.column_index(),
            rotation: rotation(q.rotation()),
        }),
        Expression::Advice(q) => GpuExpression::Advice(GpuAdviceQuery {
            index: None,
            column_index: q.column_index(),
            rotation: rotation(q.rotation()),
            phase: Phase(q.phase()),
        }),
        Expression::Instance(q) => GpuExpression::Instance(GpuInstanceQuery {
            index: None,
            column_index: q.column_index(),
            rotation: rotation(q.rotation()),
        }),
        Expression::Challenge(c) => GpuExpression::Challenge(GpuChallenge {
            index: c.index(),
            phase: Phase(c.phase()),
        }),
        Expression::Negated(a) => GpuExpression::Negated(Box::new(expression(a))),
        Expression::Sum(a, b) => {
            GpuExpression::Sum(Box::new(expression(a)), Box::new(expression(b)))
        }
        Expression::Product(a, b) => {
            GpuExpression::Product(Box::new(expression(a)), Box::new(expression(b)))
        }
        Expression::Scaled(a, f) => GpuExpression::Scaled(Box::new(expression(a)), scalar(f)),
    }
}

fn constraint_system(cs: &ConstraintSystem<CurveScalar>) -> GpuConstraintSystem<Fr> {
    let mut out = GpuConstraintSystem {
        num_fixed_columns: cs.num_fixed_columns(),
        num_advice_columns: cs.num_advice_columns(),
        num_instance_columns: cs.num_instance_columns(),
        num_selectors: cs.num_selectors(),
        num_challenges: cs.num_challenges(),
        advice_column_phase: cs.advice_column_phase().into_iter().map(Phase).collect(),
        challenge_phase: cs.challenge_phase().into_iter().map(Phase).collect(),
        selector_map: cs.selector_map().iter().map(fixed_column).collect(),
        gates: cs
            .gates()
            .iter()
            .map(|gate| GpuGate {
                name: gate.name().to_string(),
                constraint_names: Vec::new(),
                polys: gate.polynomials().iter().map(expression).collect(),
                queried_selectors: Vec::new(),
                queried_cells: Vec::new(),
            })
            .collect(),
        advice_queries: cs
            .advice_queries()
            .iter()
            .map(|(c, r)| (advice_column(c), rotation(*r)))
            .collect(),
        num_advice_queries: cs.num_advice_queries().clone(),
        instance_queries: cs
            .instance_queries()
            .iter()
            .map(|(c, r)| (instance_column(c), rotation(*r)))
            .collect(),
        fixed_queries: cs
            .fixed_queries()
            .iter()
            .map(|(c, r)| (fixed_column(c), rotation(*r)))
            .collect(),
        permutation: PermutationArgument {
            columns: cs.permutation().get_columns().iter().map(any_column).collect(),
        },
        lookups: cs
            .lookups()
            .iter()
            .map(|lookup| LookupArgument {
                name: lookup.name().to_string(),
                input_expressions: lookup.input_expressions().iter().map(expression).collect(),
                table_expressions: lookup.table_expressions().iter().map(expression).collect(),
            })
            .collect(),
        general_column_annotations: Vec::new(),
        constants: cs.constants().iter().map(fixed_column).collect(),
        minimum_degree: cs.minimum_degree(),
    };
    out.assign_query_indices();
    out
}

struct KeygenAssignment {
    assembly: Assembly<Fr>,
}

fn known<T>(value: Value<T>) -> Option<T> {
    let mut out = None;
    value.map(|v| out = Some(v));
    out
}

impl Assignment<CurveScalar> for KeygenAssignment {
    fn enter_region<NR, N>(&mut self, _: N)
    where
        NR: Into<String>,
        N: FnOnce() -> NR,
    {
    }
    fn exit_region(&mut self) {}
    fn annotate_column<A, AR>(&mut self, _: A, _: Column<Any>)
    where
        A: FnOnce() -> AR,
        AR: Into<String>,
    {
    }
    fn enable_selector<A, AR>(&mut self, _: A, selector: &Selector, row: usize) -> Result<(), Error>
    where
        A: FnOnce() -> AR,
        AR: Into<String>,
    {
        let selector = GpuSelector(selector.index(), selector.is_simple());
        self.assembly.enable_selector(&selector, row).map_err(|_| Error::BoundsFailure)
    }
    fn query_instance(
        &self,
        _: Column<Instance>,
        row: usize,
    ) -> Result<Value<CurveScalar>, Error> {
        self.assembly
            .query_instance(row)
            .map(|_| Value::unknown())
            .map_err(|_| Error::BoundsFailure)
    }
    fn assign_advice<'v>(
        &mut self,
        _: Column<Advice>,
        _: usize,
        _: Value<Assigned<CurveScalar>>,
    ) -> Value<&'v Assigned<CurveScalar>> {
        Value::unknown()
    }
    fn assign_fixed(&mut self, column: Column<Fixed>, row: usize, to: Assigned<CurveScalar>) {
        self.assembly.assign_fixed(fixed_column(&column), row, assigned(&to));
    }
    fn copy(&mut self, left: Column<Any>, left_row: usize, right: Column<Any>, right_row: usize) {
        self.assembly.copy(any_column(&left), left_row, any_column(&right), right_row);
    }
    fn fill_from_row(
        &mut self,
        column: Column<Fixed>,
        row: usize,
        to: Value<Assigned<CurveScalar>>,
    ) -> Result<(), Error> {
        let to = known(to).map(|v| assigned(&v));
        self.assembly
            .fill_from_row(fixed_column(&column), row, to)
            .map_err(|_| Error::BoundsFailure)
    }
    fn get_challenge(&self, _: Challenge) -> Value<CurveScalar> {
        Value::unknown()
    }
    fn push_namespace<NR, N>(&mut self, _: N)
    where
        NR: Into<String>,
        N: FnOnce() -> NR,
    {
    }
    fn pop_namespace(&mut self, _: Option<String>) {}
}

struct WitnessAssignment {
    witness: WitnessCollection<Fr>,
}

impl Assignment<CurveScalar> for WitnessAssignment {
    fn enter_region<NR, N>(&mut self, _: N)
    where
        NR: Into<String>,
        N: FnOnce() -> NR,
    {
    }
    fn exit_region(&mut self) {}
    fn annotate_column<A, AR>(&mut self, _: A, _: Column<Any>)
    where
        A: FnOnce() -> AR,
        AR: Into<String>,
    {
    }
    fn enable_selector<A, AR>(&mut self, _: A, _: &Selector, _: usize) -> Result<(), Error>
    where
        A: FnOnce() -> AR,
        AR: Into<String>,
    {
        Ok(())
    }
    fn query_instance(
        &self,
        column: Column<Instance>,
        row: usize,
    ) -> Result<Value<CurveScalar>, Error> {
        self.witness
            .query_instance(instance_column(&column), row)
            .map(|v| Value::known(outside(&v)))
            .map_err(|_| Error::BoundsFailure)
    }
    fn assign_advice<'v>(
        &mut self,
        column: Column<Advice>,
        row: usize,
        to: Value<Assigned<CurveScalar>>,
    ) -> Value<&'v Assigned<CurveScalar>> {
        let to = known(to).expect("all values are known");
        self.witness.assign_advice(advice_column(&column), row, assigned(&to));
        Value::known(Box::leak(Box::new(to)))
    }
    fn assign_fixed(&mut self, _: Column<Fixed>, _: usize, _: Assigned<CurveScalar>) {}
    fn copy(&mut self, _: Column<Any>, _: usize, _: Column<Any>, _: usize) {}
    fn fill_from_row(
        &mut self,
        _: Column<Fixed>,
        _: usize,
        _: Value<Assigned<CurveScalar>>,
    ) -> Result<(), Error> {
        Ok(())
    }
    fn get_challenge(&self, _: Challenge) -> Value<CurveScalar> {
        Value::unknown()
    }
    fn push_namespace<NR, N>(&mut self, _: N)
    where
        NR: Into<String>,
        N: FnOnce() -> NR,
    {
    }
    fn pop_namespace(&mut self, _: Option<String>) {}
}

/// `a b = c` in two rows; the product of the first is the instance and an input
/// of the second; all of `a` is below ten.
#[derive(Clone)]
struct ProductCircuit {
    product: u64,
}

#[derive(Clone)]
struct ProductConfig {
    a: Column<Advice>,
    b: Column<Advice>,
    c: Column<Advice>,
    instance: Column<Instance>,
    q: Selector,
    table: TableColumn,
}

impl Circuit<CurveScalar> for ProductCircuit {
    type Config = ProductConfig;
    type FloorPlanner = SimpleFloorPlanner;
    type Params = ();

    fn without_witnesses(&self) -> Self {
        self.clone()
    }

    fn configure(cs: &mut ConstraintSystem<CurveScalar>) -> ProductConfig {
        let a = cs.advice_column();
        let b = cs.advice_column();
        let c = cs.advice_column();
        let instance = cs.instance_column();
        let q = cs.selector();
        let table = cs.lookup_table_column();
        cs.enable_equality(a);
        cs.enable_equality(c);
        cs.enable_equality(instance);
        cs.create_gate("product", |cells| {
            let q = cells.query_selector(q);
            let a = cells.query_advice(a, OutsideRotation::cur());
            let b = cells.query_advice(b, OutsideRotation::cur());
            let c = cells.query_advice(c, OutsideRotation::cur());
            vec![q * (a * b - c)]
        });
        cs.lookup("below ten", |cells| {
            let a = cells.query_advice(a, OutsideRotation::cur());
            vec![(a, table)]
        });
        ProductConfig { a, b, c, instance, q, table }
    }

    fn synthesize(
        &self,
        config: ProductConfig,
        mut layouter: impl Layouter<CurveScalar>,
    ) -> Result<(), Error> {
        layouter.assign_table(
            || "numbers below ten",
            |mut table| {
                for i in 0..10 {
                    table.assign_cell(
                        || "number",
                        config.table,
                        i,
                        || Value::known(CurveScalar::from(i as u64)),
                    )?;
                }
                Ok(())
            },
        )?;
        let product = self.product;
        let cell = layouter.assign_region(
            || "products",
            |mut region| {
                let known = |v: u64| Value::known(CurveScalar::from(v));
                config.q.enable(&mut region, 0)?;
                region.assign_advice(config.a, 0, known(2));
                region.assign_advice(config.b, 0, known(3));
                let c: AssignedCell<&Assigned<CurveScalar>, CurveScalar> =
                    region.assign_advice(config.c, 0, known(product));
                config.q.enable(&mut region, 1)?;
                let a = region.assign_advice(config.a, 1, known(6));
                region.constrain_equal(c.cell(), a.cell());
                region.assign_advice(config.b, 1, known(4));
                region.assign_advice(config.c, 1, known(24));
                Ok(c.cell())
            },
        )?;
        layouter.constrain_instance(cell, config.instance, 0);
        Ok(())
    }
}

struct Key {
    vk: VerifyingKey<G1Affine>,
    key: ProofKey<Fr>,
}

fn lagrange(values: &Vec<Fr>) -> OutsidePolynomial<CurveScalar, OutsideLagrange> {
    OutsidePolynomial::new(values.iter().map(outside).collect())
}

fn coeff(values: &Vec<Fr>) -> OutsidePolynomial<CurveScalar, OutsideCoeff> {
    OutsidePolynomial::new(values.iter().map(outside).collect())
}

fn commit_lagrange(params: &ParamsKZG<Bn256>, values: &Vec<Fr>) -> G1Affine {
    params.commit_lagrange(&lagrange(values), Blind::default()).to_affine()
}

fn commit(params: &ParamsKZG<Bn256>, values: &Vec<Fr>) -> G1Affine {
    params.commit(&coeff(values), Blind::default()).to_affine()
}

fn keygen(params: &ParamsKZG<Bn256>, circuit: &ProductCircuit, compress: bool) -> Key {
    let mut cs = ConstraintSystem::default();
    let config = ProductCircuit::configure(&mut cs);
    let meta = constraint_system(&cs);
    let degree = meta.degree(5);
    assert_eq!(degree, cs.degree());
    let n = params.n() as usize;
    let mut assignment = KeygenAssignment { assembly: Assembly::new(K, n, &meta).unwrap() };
    SimpleFloorPlanner::synthesize(&mut assignment, circuit, config, vec![]).unwrap();
    let domain = EvaluationDomain::<Fr>::new(degree as u32, K);
    let parts = keygen_pk2(&domain, meta, assignment.assembly, compress, 5);

    // The key is that of the outside crate.
    let vk = keygen_vk_custom(params, circuit, compress).unwrap();
    let commitments: Vec<G1Affine> =
        parts.vk.fixed.iter().map(|p| commit_lagrange(params, p.values())).collect();
    assert_eq!(&commitments, vk.fixed_commitments());
    let commitments: Vec<G1Affine> =
        parts.vk.permutations.iter().map(|p| commit_lagrange(params, p.values())).collect();
    assert_eq!(&commitments, vk.permutation().commitments());
    Key { vk, key: ProofKey { domain, parts, degree } }
}

type ProofTranscript = Blake2bWrite<Vec<u8>, G1Affine, Challenge255<G1Affine>>;

/// The quotients of an opening and the witness, committed to.
fn open(
    params: &ParamsKZG<Bn256>,
    key: &Key,
    run: &ProofRun<Fr>,
    transcript: &mut ProofTranscript,
) {
    let openings = run.openings(&key.key);
    let n = key.key.domain.rows();
    let mut opening =
        OpeningState::new(n, openings.rotation_sets, openings.sets.super_point_set);
    for step in ProverSHPLONK::opening_steps() {
        match step {
            OpeningStep::Squeeze(name) => {
                let challenge = scalar(&transcript.squeeze_challenge_scalar::<()>());
                opening.take_challenge(name, challenge);
            }
            OpeningStep::WritePoint(OpeningPoint::Quotient) => {
                transcript.write_point(commit(params, &opening.write_quotient())).unwrap();
            }
            OpeningStep::WritePoint(OpeningPoint::Witness(_)) => {
                transcript.write_point(commit(params, &opening.write_witness())).unwrap();
            }
        }
    }
}

/// A proof of which nothing has been made.
fn start(key: &Key, circuit: &ProductCircuit, instances: Vec<Vec<Fr>>) -> ProofRun<Fr> {
    let cs = &key.key.parts.vk.cs;
    let n = key.key.domain.rows();
    let mut config_cs = ConstraintSystem::default();
    let config = ProductCircuit::configure(&mut config_cs);
    let mut assignment =
        WitnessAssignment { witness: WitnessCollection::new(K, n, cs, instances) };
    SimpleFloorPlanner::synthesize(&mut assignment, circuit, config, vec![]).unwrap();
    let witness = assignment.witness;

    assert!(key.key.is_usable());
    let (advice, plan) = create_proof(
        cs,
        ProverSHPLONK::query_instance(),
        &witness,
        key.key.degree,
        key.key.domain.get_quotient_poly_degree(),
    )
    .unwrap();
    let advice = advice.into_iter().map(|p| p.into_values()).collect();
    ProofRun::new(&key.key, ProverSHPLONK::query_instance(), plan, witness.instances, advice)
}

fn prove(
    params: &ParamsKZG<Bn256>,
    key: &Key,
    circuit: &ProductCircuit,
    instances: Vec<Vec<Fr>>,
) -> Vec<u8> {
    let mut run = start(key, circuit, instances);
    let mut transcript: ProofTranscript = Blake2bWrite::init(vec![]);
    while !run.is_done() {
        match run.next(&key.key).unwrap() {
            ProofAction::HashKey => key.vk.hash_into(&mut transcript).unwrap(),
            ProofAction::CommonScalar(value) => {
                transcript.common_scalar(outside(&value)).unwrap()
            }
            ProofAction::CommonPoint(values) => {
                transcript.common_point(commit_lagrange(params, &values)).unwrap()
            }
            ProofAction::Draw(count) => run.take_draw(&key.key, random_column(count)),
            ProofAction::WriteValues(values) => {
                transcript.write_point(commit_lagrange(params, &values)).unwrap()
            }
            ProofAction::WriteCoefficients(values) => {
                transcript.write_point(commit(params, &values)).unwrap()
            }
            ProofAction::Squeeze => {
                let challenge = scalar(&transcript.squeeze_challenge_scalar::<()>());
                run.take_challenge(&key.key, challenge)
            }
            ProofAction::WriteScalar(value) => transcript.write_scalar(outside(&value)).unwrap(),
        }
    }
    open(params, key, &run, &mut transcript);
    transcript.finalize()
}

fn accepted(params: &ParamsKZG<Bn256>, key: &Key, proof: &[u8], instance: u64) -> bool {
    let instance = [CurveScalar::from(instance)];
    let mut transcript = Blake2bRead::<_, G1Affine, Challenge255<G1Affine>>::init(proof);
    verify_proof::<
        KZGCommitmentScheme<Bn256>,
        VerifierSHPLONK<'_, Bn256>,
        Challenge255<G1Affine>,
        Blake2bRead<&[u8], G1Affine, Challenge255<G1Affine>>,
        SingleStrategy<'_, Bn256>,
    >(
        params.verifier_params(),
        &key.vk,
        SingleStrategy::new(params.verifier_params()),
        &[&[&instance]],
        &mut transcript,
    )
    .is_ok()
}

#[test]
fn a_proof_is_accepted() {
    let params = ParamsKZG::<Bn256>::setup(K, OsRng);
    let circuit = ProductCircuit { product: 6 };
    let key = keygen(&params, &circuit, false);
    let proof = prove(&params, &key, &circuit, vec![vec![Fr::from_u64(6)]]);
    assert!(accepted(&params, &key, &proof, 6));
    // The proof is about its instance.
    assert!(!accepted(&params, &key, &proof, 7));
}

#[test]
fn a_proof_with_compressed_selectors_is_accepted() {
    let params = ParamsKZG::<Bn256>::setup(K, OsRng);
    let circuit = ProductCircuit { product: 6 };
    let key = keygen(&params, &circuit, true);
    let proof = prove(&params, &key, &circuit, vec![vec![Fr::from_u64(6)]]);
    assert!(accepted(&params, &key, &proof, 6));
}

#[test]
fn a_proof_of_a_wrong_product_is_rejected() {
    let params = ParamsKZG::<Bn256>::setup(K, OsRng);
    let circuit = ProductCircuit { product: 7 };
    let key = keygen(&params, &circuit, false);
    let proof = prove(&params, &key, &circuit, vec![vec![Fr::from_u64(7)]]);
    assert!(!accepted(&params, &key, &proof, 7));
}

/// Goes on with a proof until a step comes next, with small numbers for challenges
/// and random values.
fn run_to(run: &mut ProofRun<Fr>, key: &Key, step: ProofStep) {
    let mut number: u64 = 100;
    while run.plan.steps[run.at] != step {
        match run.next(&key.key).unwrap() {
            ProofAction::Draw(count) => {
                let values = (0..count as u64).map(|i| Fr::from_u64(number + i)).collect();
                run.take_draw(&key.key, values);
            }
            ProofAction::Squeeze => run.take_challenge(&key.key, Fr::from_u64(number)),
            _ => {}
        }
        number += 10;
    }
}

fn same(a: &Vec<Fr>, b: &Vec<Fr>) -> bool {
    a.len() == b.len() && a.iter().zip(b.iter()).all(|(a, b)| a.to_limbs() == b.to_limbs())
}

fn small_run() -> (Key, ProofRun<Fr>) {
    let params = ParamsKZG::<Bn256>::setup(K, OsRng);
    let circuit = ProductCircuit { product: 6 };
    let key = keygen(&params, &circuit, false);
    let run = start(&key, &circuit, vec![vec![Fr::from_u64(6)]]);
    (key, run)
}

#[test]
fn a_challenge_changes_nothing_else() {
    let (key, mut run) = small_run();
    run_to(&mut run, &key, ProofStep::Squeeze(ChallengeName::Beta));
    let (theta, gamma) = (run.state.theta, run.state.gamma);
    let (draws, permuted) = (run.state.advice_blinds.len(), run.state.permuted.len());
    let at = run.at;
    assert!(matches!(run.next(&key.key), Ok(ProofAction::Squeeze)));
    // The step is done when the challenge is there.
    assert_eq!(run.at, at);
    run.take_challenge(&key.key, Fr::from_u64(77));
    assert_eq!(run.at, at + 1);
    assert_eq!(run.state.beta.to_limbs(), [77, 0, 0, 0]);
    assert_eq!(run.state.theta.to_limbs(), theta.to_limbs());
    assert_eq!(run.state.gamma.to_limbs(), gamma.to_limbs());
    assert_eq!(run.state.advice_blinds.len(), draws);
    assert_eq!(run.state.permuted.len(), permuted);
}

#[test]
fn a_lookup_product_is_committed_to_with_both_challenges() {
    let (key, mut run) = small_run();
    run_to(&mut run, &key, ProofStep::WritePoint(Committed::LookupProduct(0)));
    let (beta, gamma) = (run.state.beta, run.state.gamma);
    let expected = run.state.permuted[0].product(beta, gamma, &run.state.lookup_blinds[0]);
    match run.next(&key.key) {
        Ok(ProofAction::WriteValues(values)) => assert!(same(&values, &expected)),
        _ => panic!("a column is committed to"),
    }
    let exchanged = run.state.permuted[0].product(gamma, beta, &run.state.lookup_blinds[0]);
    assert!(!same(&expected, &exchanged));
    assert!(same(&run.state.products[0], &expected));
    assert!(same(
        &run.state.poly(&key.key, Opened::Lookup(0, LookupPoly::Product)),
        &key.key
            .domain
            .lagrange_to_coeff(halo2_gpu::poly::Polynomial::new(expected.clone()))
            .into_values(),
    ));
}

#[test]
fn the_last_draw_takes_the_columns_in() {
    let (key, mut run) = small_run();
    let bf = key.key.parts.vk.cs.blinding_factors();
    let n = key.key.domain.rows();
    assert!(run.state.columns.is_none());
    let first = run.state.advice[0][0];
    run_to(&mut run, &key, ProofStep::WritePoint(Committed::Advice(0)));
    let columns = run.state.columns.as_ref().unwrap();
    let values = columns.advice.advice_values[0].values();
    assert_eq!(values[0].to_limbs(), first.to_limbs());
    assert!(same(&values[n - (bf + 1)..].to_vec(), &run.state.advice_blinds[0]));
    assert_eq!(columns.instance.instance_values[0].values()[0].to_limbs(), [6, 0, 0, 0]);
    match run.next(&key.key) {
        Ok(ProofAction::WriteValues(written)) => {
            let columns = run.state.columns.as_ref().unwrap();
            assert!(same(&written, columns.advice.advice_values[0].values()));
        }
        _ => panic!("a column is committed to"),
    }
}

#[test]
fn a_lookup_that_does_not_hold_stops_the_proof() {
    let (key, mut run) = small_run();
    // The table has no eleven.
    run.state.advice[0][0] = Fr::from_u64(11);
    run_to(&mut run, &key, ProofStep::WritePoint(Committed::LookupInput(0)));
    let at = run.at;
    assert!(run.next(&key.key).is_err());
    assert_eq!(run.at, at);
    assert_eq!(run.state.permuted.len(), 0);
}

#[test]
fn evaluations_are_those_of_the_openings() {
    let (key, mut run) = small_run();
    run_to(&mut run, &key, ProofStep::WriteScalar(Opened::Blinding, Rotation(0)));
    assert_eq!(
        run.state.evaluate(&key.key, Opened::Blinding, Rotation(0)).to_limbs(),
        [1, 0, 0, 0]
    );
    let mut written = vec![];
    while !run.is_done() {
        let step = run.plan.steps[run.at];
        if let (ProofStep::WriteScalar(which, at), Ok(ProofAction::WriteScalar(value))) =
            (step, run.next(&key.key))
        {
            written.push((which, at, value));
        }
    }
    let openings = run.openings(&key.key);
    for (which, at, value) in written {
        let i = run.plan.openings.iter().position(|o| *o == (which, at)).unwrap();
        assert_eq!(openings.queries[i].eval.to_limbs(), value.to_limbs());
        assert_eq!(openings.polys[openings.queries[i].poly], which);
    }
    // The quotient is opened at the point alone, and shares its set with others.
    let set = openings
        .sets
        .rotation_sets
        .iter()
        .find(|set| set.members.iter().any(|m| openings.polys[m.poly] == Opened::Quotient))
        .unwrap();
    assert_eq!(set.points.len(), 1);
    assert_eq!(set.points[0].to_limbs(), run.state.x.to_limbs());
}

#[test]
fn a_key_with_a_low_degree_is_not_usable() {
    let (key, _) = small_run();
    assert!(key.key.is_usable());
    let low = ProofKey { degree: 2, ..key.key };
    assert!(!low.is_usable());
}

#[test]
fn a_proof_starts_with_all_instances() {
    let (key, run) = small_run();
    let advice = run.state.advice;
    let missing = ProofRun::start(&key.key, false, vec![], advice.clone());
    assert!(matches!(missing, Err(GpuError::Canonical(GpuPlonkError::InvalidInstances))));
    let run = ProofRun::start(&key.key, false, vec![vec![Fr::from_u64(6)]], advice).unwrap();
    assert_eq!(run.at, 0);
    assert_eq!(run.plan.steps[0], ProofStep::HashKey);
}
