use halo2_gpu::field::bn256::Fr;
use halo2_gpu::field::Field;
use halo2_gpu::plonk::circuit::{GpuAny, GpuColumn, GpuFirstPhase, GpuSecondPhase};
use halo2_gpu::plonk::constraint_system::GpuConstraintSystem;
use halo2_gpu::plonk::error::{Error, GpuError, HaloGpuError};
use halo2_gpu::plonk::launch::{
    compress_expressions_device, compress_expressions_with_runtime_constants_device,
    expr_constants, quotient_device, row_chunks, Seed,
};
use halo2_gpu::plonk::evaluator::Evaluator;
use halo2_gpu::plonk::logging::{compute_indent, format_duration, NestedEvent};
use halo2_gpu::plonk::lookup::prover::LookupPoly;
use halo2_gpu::plonk::prover::{
    create_proof_from_advice, next_phase_steps, opened_polys, raw_advice_steps, Blinded,
    ChallengeName, Committed, Opened, ProofStep,
};
use halo2_gpu::plonk::vanishing::{chunks_exact, fold_blinds, fold_pieces, random_poly};
use halo2_gpu::plonk::witness::WitnessCollection;
use halo2_gpu::poly::domain::EvaluationDomain;
use halo2_gpu::poly::gwc::ProverGWC;
use halo2_gpu::poly::opening_order::{OpeningChallenge, OpeningPoint, OpeningStep};
use halo2_gpu::poly::shplonk::ProverSHPLONK;
use halo2_gpu::poly::residency::{DevicePolynomial, MaybeDevice};
use halo2_gpu::poly::{LagrangeCoeff, Polynomial, Rotation};

fn f(v: u64) -> Fr {
    Fr::from_u64(v)
}

fn system() -> GpuConstraintSystem<Fr> {
    let mut cs = GpuConstraintSystem::<Fr>::default();
    let a = cs.advice_column();
    let s = cs.fixed_column();
    let inst = cs.instance_column();
    cs.enable_equality(GpuColumn::<GpuAny>::from(a));
    cs.enable_equality(GpuColumn::<GpuAny>::from(inst));
    cs.lookup_any("in the column", |cells| {
        let a = cells.query_advice(a, Rotation::next());
        let s = cells.query_fixed(s, Rotation::cur());
        vec![(a, s)]
    });
    cs
}

#[test]
fn the_order_of_a_proof() {
    let cs = system();
    let plan =
        create_proof_from_advice(&cs, false, &vec![vec![f(1), f(2)]], 4, 3).unwrap();
    let x = plan
        .steps
        .iter()
        .position(|s| *s == ProofStep::Squeeze(ChallengeName::X))
        .unwrap();
    assert_eq!(
        plan.steps[..=x],
        [
            ProofStep::HashKey,
            ProofStep::CommonScalar(0, 0),
            ProofStep::CommonScalar(0, 1),
            ProofStep::Draw(Blinded::Advice(0), 6),
            ProofStep::WritePoint(Committed::Advice(0)),
            ProofStep::Squeeze(ChallengeName::Theta),
            ProofStep::WritePoint(Committed::LookupInput(0)),
            ProofStep::WritePoint(Committed::LookupTable(0)),
            ProofStep::Squeeze(ChallengeName::Beta),
            ProofStep::Squeeze(ChallengeName::Gamma),
            ProofStep::Draw(Blinded::PermutationProduct(0), 5),
            ProofStep::WritePoint(Committed::PermutationProduct(0)),
            ProofStep::Draw(Blinded::LookupProduct(0), 5),
            ProofStep::WritePoint(Committed::LookupProduct(0)),
            ProofStep::WritePoint(Committed::Blinding),
            ProofStep::Squeeze(ChallengeName::Y),
            ProofStep::Draw(Blinded::QuotientPiece(0), 1),
            ProofStep::Draw(Blinded::QuotientPiece(1), 1),
            ProofStep::Draw(Blinded::QuotientPiece(2), 1),
            ProofStep::WritePoint(Committed::QuotientPiece(0)),
            ProofStep::WritePoint(Committed::QuotientPiece(1)),
            ProofStep::WritePoint(Committed::QuotientPiece(2)),
            ProofStep::Squeeze(ChallengeName::X),
        ][..]
    );
    // Everything that is written is opened, and the quotient besides.
    let written: Vec<(Opened, Rotation)> = plan.steps[x + 1..]
        .iter()
        .map(|s| match s {
            ProofStep::WriteScalar(which, at) => (*which, *at),
            _ => unreachable!(),
        })
        .collect();
    assert_eq!(written[0], (Opened::Advice(0), Rotation::cur()));
    assert_eq!(written[1], (Opened::Advice(0), Rotation::next()));
    assert!(written.contains(&(Opened::Lookup(0, LookupPoly::PermutedInput), Rotation::prev())));
    for item in written.iter() {
        assert!(plan.openings.contains(item));
    }
    for item in plan.openings.iter() {
        assert!(written.contains(item) || *item == (Opened::Quotient, Rotation::cur()));
    }
    assert_eq!(plan.openings.len(), written.len() + 1);
}

#[test]
fn instances_that_are_queried_are_committed_to() {
    let cs = system();
    let plan = create_proof_from_advice(&cs, true, &vec![vec![f(1)]], 4, 3).unwrap();
    assert_eq!(plan.chunk_len, 2);
    assert_eq!(plan.steps[1], ProofStep::Draw(Blinded::Advice(0), 6));
    assert_eq!(plan.steps[2], ProofStep::CommonPoint(0));
    assert_eq!(plan.openings[0], (Opened::Instance(0), Rotation::cur()));
}

#[test]
fn a_proof_needs_all_instances() {
    let cs = system();
    assert!(matches!(
        create_proof_from_advice::<Fr>(&cs, false, &vec![], 4, 3),
        Err(GpuError::Canonical(Error::InvalidInstances))
    ));
}

#[test]
fn rows_in_chunks() {
    assert_eq!(row_chunks(10, 4), vec![(0, 4), (4, 8), (8, 10)]);
    assert_eq!(row_chunks(8, 4), vec![(0, 4), (4, 8)]);
    assert_eq!(row_chunks(3, 4), vec![(0, 3)]);
    assert!(row_chunks(0, 4).is_empty());
}

#[test]
fn circuits_are_folded_into_what_goes_before() {
    assert_eq!(Seed::for_circuit(0), Seed::Zero);
    assert_eq!(Seed::for_circuit(1), Seed::Previous);
    assert_eq!(Seed::for_circuit(7), Seed::Previous);
    // A chunk is folded into the same rows.
    assert_eq!(Seed::Previous.rows((4, 8)), Some((4, 8)));
    assert_eq!(Seed::Zero.rows((4, 8)), None);
}

#[test]
fn what_the_device_is_handed() {
    assert_eq!(expr_constants(f(9)), vec![f(0), f(1), f(1).neg(), f(2), f(9)]);
    let cs = system();
    let lookup = &cs.lookups[0];
    let launch = compress_expressions_device(&lookup.input_expressions, f(9));
    assert_eq!(launch.expr_constants[4], f(9));
    assert_eq!(launch.value_part_rules.len(), 1);
    let evaluator = Evaluator::new(&cs);
    assert_eq!(launch.seed, Seed::Zero);
    let launch = quotient_device(&evaluator, f(5), 0);
    assert_eq!(launch.seed, Seed::Zero);
    let launch = quotient_device(&evaluator, f(5), 1);
    assert_eq!(launch.seed, Seed::Previous);
    assert_eq!(launch.expr_constants[4], f(5));
    assert!(launch.value_part_rules.is_empty());
    let launch = compress_expressions_with_runtime_constants_device(
        &evaluator.lookups[0],
        f(1),
        f(2),
        f(3),
        f(4),
    );
    assert_eq!(launch.expr_constants[4], f(0));
    let n = launch.constants.len();
    assert_eq!(launch.constants[n - 4..], [f(1), f(2), f(3), f(4)]);
}

#[test]
fn quotients_in_pieces() {
    let values: Vec<Fr> = (0..6).map(f).collect();
    let pieces = chunks_exact(&values, 2);
    assert_eq!(pieces, vec![vec![f(0), f(1)], vec![f(2), f(3)], vec![f(4), f(5)]]);
    let x = f(10);
    let folded = fold_pieces(&pieces, x.square(), 2);
    assert_eq!(Fr::eval_polynomial(&folded, x), Fr::eval_polynomial(&values, x));
    assert_eq!(fold_blinds(&vec![f(1), f(2), f(3)], f(100)), f(30201));
    let blinding: Vec<Fr> = random_poly(4);
    assert_eq!(blinding, vec![f(1), f(0), f(0), f(0)]);
    assert_eq!(Fr::eval_polynomial(&blinding, f(77)), f(1));
}

#[test]
fn results_that_do_not_fit_on_the_device_are_refused() {
    let domain = EvaluationDomain::<Fr>::new(3, 2);
    let column = || Polynomial::<Fr, LagrangeCoeff>::new(vec![f(1), f(2), f(3), f(4)]);
    let expected = domain.lagrange_to_coeff(column());
    let coeffs = domain.lagrange_to_coeff_device(column(), 128).unwrap();
    assert_eq!(coeffs.values(), expected.values());
    assert!(matches!(
        domain.lagrange_to_coeff_device(column(), 127),
        Err(GpuError::HaloGpu(HaloGpuError::InsufficientGpuMemory {
            context: "lagrange_to_coeff_device.vram_tight",
            magnitude: 128,
            free_bytes: 127,
        }))
    ));
    assert!(matches!(
        domain.lagrange_to_coeff_device_input(column(), 0),
        Err(GpuError::HaloGpu(HaloGpuError::InsufficientGpuMemory {
            context: "lagrange_to_coeff_device_input.vram_tight",
            ..
        }))
    ));
    assert!(domain.lagrange_to_coeff_device_input(column(), 128).is_ok());
    let two = vec![column(), column()];
    assert!(matches!(
        domain.lagrange_to_coeff_many_device(&two, 255),
        Err(GpuError::HaloGpu(HaloGpuError::InsufficientGpuMemory {
            context: "lagrange_to_coeff_many_device.vram_tight",
            magnitude: 256,
            free_bytes: 255,
        }))
    ));
    let both = domain.lagrange_to_coeff_many_device(&two, 256).unwrap();
    assert_eq!(both[1].values(), expected.values());
    assert!(domain.lagrange_to_coeff_many_device(&vec![], 0).unwrap().is_empty());
    assert!(matches!(
        domain.lagrange_to_coeff_many_device_inputs(&two, 0),
        Err(GpuError::HaloGpu(HaloGpuError::InsufficientGpuMemory {
            context: "lagrange_to_coeff_many_device_inputs.vram_tight",
            ..
        }))
    ));
    let device = || MaybeDevice::Device(DevicePolynomial::from_device(0, 4));
    assert!(matches!(
        domain.extended_from_lagrange_vec_device(&vec![device(), device()], 256),
        Ok(8)
    ));
    assert!(matches!(
        domain.extended_from_lagrange_vec_device(&vec![device(), device()], 255),
        Err(GpuError::HaloGpu(HaloGpuError::InsufficientGpuMemory {
            context: "extended_from_lagrange_vec_device.vram_tight",
            magnitude: 256,
            free_bytes: 255,
        }))
    ));
    assert!(matches!(
        domain.extended_from_lagrange_vec_device(
            &vec![device(), MaybeDevice::Host(column())],
            256
        ),
        Err(GpuError::HaloGpu(HaloGpuError::InsufficientGpuMemory {
            context: "extended_from_lagrange_vec_device.not_all_device",
            magnitude: 2,
            free_bytes: 0,
        }))
    ));
}

#[test]
fn timers_nest() {
    let (event, indent) = NestedEvent::start(None, "outer");
    assert_eq!((event.root_msg.as_str(), event.num_indent, indent), ("outer", 1, 0));
    let (mut event, indent) = NestedEvent::start(Some(event), "inner");
    assert_eq!((event.root_msg.as_str(), event.num_indent, indent), ("outer", 2, 2));
    assert_eq!(event.end(), 2);
    assert_eq!(event.end(), 0);
    let (event, indent) = NestedEvent::start(Some(event), "next");
    assert_eq!((event.root_msg.as_str(), indent), ("next", 0));
    assert_eq!(compute_indent(3), "···");
    assert_eq!(compute_indent(0), "");
}

#[test]
fn durations_read_in_their_largest_unit() {
    assert_eq!(format_duration(12, 34_567_890), "12.034s");
    assert_eq!(format_duration(0, 34_567_890), "34.567ms");
    assert_eq!(format_duration(0, 7_008), "7.008µs");
    assert_eq!(format_duration(0, 999), "999ns");
}

#[test]
fn raw_advice_is_taken_in_like_a_phase() {
    let mut cs = system();
    let _b = cs.advice_column();
    let _c = cs.challenge_usable_after(GpuFirstPhase);
    let instances = vec![vec![f(1), f(2)]];
    for query_instance in [false, true] {
        let witness = WitnessCollection::new(4, 16, &cs, instances.clone());
        let steps = next_phase_steps(&witness, query_instance);
        assert_eq!(steps, raw_advice_steps(&cs, query_instance, &instances, 0));
        assert_eq!(steps.len(), if query_instance { 6 } else { 7 });
        assert_eq!(steps.last(), Some(&ProofStep::Squeeze(ChallengeName::Circuit(0))));
    }
    // A column of a later phase is not written with the first.
    let _d = cs.advice_column_in(GpuSecondPhase);
    let witness = WitnessCollection::new(4, 16, &cs, instances.clone());
    let steps = next_phase_steps(&witness, false);
    assert!(!steps.contains(&ProofStep::WritePoint(Committed::Advice(2))));
    let raw = raw_advice_steps(&cs, false, &instances, 0);
    assert!(raw.contains(&ProofStep::WritePoint(Committed::Advice(2))));
}

#[test]
fn the_order_of_openings() {
    assert_eq!(
        ProverSHPLONK::opening_steps(),
        vec![
            OpeningStep::Squeeze(OpeningChallenge::Y),
            OpeningStep::Squeeze(OpeningChallenge::V),
            OpeningStep::WritePoint(OpeningPoint::Quotient),
            OpeningStep::Squeeze(OpeningChallenge::U),
            OpeningStep::WritePoint(OpeningPoint::Witness(0)),
        ]
    );
    assert_eq!(
        ProverGWC::opening_steps(2),
        vec![
            OpeningStep::Squeeze(OpeningChallenge::V),
            OpeningStep::WritePoint(OpeningPoint::Witness(0)),
            OpeningStep::WritePoint(OpeningPoint::Witness(1)),
        ]
    );
}

#[test]
fn opened_polynomials_are_numbered_once() {
    let openings = vec![
        (Opened::Advice(3), Rotation::cur()),
        (Opened::Fixed(0), Rotation::cur()),
        (Opened::Advice(3), Rotation::next()),
    ];
    let opened = opened_polys(&openings);
    assert_eq!(opened.polys, vec![Opened::Advice(3), Opened::Fixed(0)]);
    assert_eq!(opened.ids, vec![0, 1, 0]);
}

#[test]
fn constraint_systems_are_tested() {
    let mut cs = system();
    assert!(cs.is_wf() && cs.phases_known() && cs.is_closed());
    cs.num_fixed_columns = 0;
    assert!(!cs.is_closed());
    let mut cs = system();
    let query = cs.fixed_queries[0];
    cs.fixed_queries.push(query);
    assert!(!cs.is_wf());
    let mut cs = system();
    cs.advice_column_phase[0].0 = 3;
    assert!(!cs.phases_known());
}

#[test]
fn what_a_constraint_system_reads() {
    let mut cs = system();
    assert!(cs.is_closed() && cs.knows_queries());
    assert!(cs.rotations_fit(16));
    // The next row of the last one that can be counted to.
    assert!(cs.rotations_fit(i32::MAX - 1));
    assert!(!cs.rotations_fit(i32::MAX));
    cs.fixed_queries[0].0.index = cs.num_fixed_columns;
    assert!(!cs.knows_queries());
    cs.num_advice_columns = 0;
    assert!(!cs.is_closed());
}
