use halo2_gpu::field::bn256::Fr;
use halo2_gpu::field::Field;
use halo2_gpu::plonk::assigned::GpuAssigned;
use halo2_gpu::plonk::circuit::{GpuFirstPhase, GpuSecondPhase, Phase};
use halo2_gpu::plonk::constraint_system::GpuConstraintSystem;
use halo2_gpu::plonk::error::{Error, GpuError};
use halo2_gpu::plonk::witness::{
    check_instances, column_and_challenge_indices, convert_raw_advice, padded_columns,
    synthesize_advices_and_instances, synthesize_witness, WitnessCollection,
};
use halo2_gpu::poly::domain::EvaluationDomain;

fn f(v: u64) -> Fr {
    Fr::from_u64(v)
}

fn column(values: &[u64]) -> Vec<Fr> {
    values.iter().map(|v| f(*v)).collect()
}

const N: usize = 16;

#[test]
fn columns_and_challenges_by_phase() {
    let mut cs = GpuConstraintSystem::<Fr>::default();
    let _a = cs.advice_column();
    let _b = cs.advice_column_in(GpuSecondPhase);
    let _c = cs.advice_column();
    let _x = cs.challenge_usable_after(GpuFirstPhase);
    let _y = cs.challenge_usable_after(GpuSecondPhase);
    let _z = cs.challenge_usable_after(GpuFirstPhase);
    let (columns, challenges) = column_and_challenge_indices(&cs);
    assert_eq!(columns, vec![vec![0, 2], vec![1], vec![]]);
    assert_eq!(challenges, vec![vec![0, 2], vec![1], vec![]]);
}

#[test]
fn instances_can_be_queried() {
    let mut cs = GpuConstraintSystem::<Fr>::default();
    let inst = cs.instance_column();
    let other = cs.instance_column();
    let witness = WitnessCollection::new(4, N, &cs, vec![column(&[7, 8])]);
    assert_eq!(witness.usable_rows, 10);
    assert!(matches!(witness.query_instance(inst, 1), Ok(v) if v == f(8)));
    assert!(matches!(witness.query_instance(inst, 2), Err(Error::BoundsFailure)));
    assert!(matches!(witness.query_instance(other, 0), Err(Error::BoundsFailure)));
    assert!(matches!(
        witness.query_instance(inst, 10),
        Err(Error::NotEnoughRowsAvailable { current_k: 4 })
    ));
}

#[test]
fn two_phases() {
    let mut cs = GpuConstraintSystem::<Fr>::default();
    let a = cs.advice_column();
    let b = cs.advice_column_in(GpuSecondPhase);
    let challenge = cs.challenge_usable_after(GpuFirstPhase);
    let inst = cs.instance_column();
    let domain = EvaluationDomain::<Fr>::new(3, 4);
    let mut witness = WitnessCollection::new(4, N, &cs, vec![column(&[5])]);
    witness.assign_advice(a, 0, GpuAssigned::Rational(f(6), f(2)));
    assert_eq!(witness.get_challenge(challenge), None);

    let first = column(&[101, 102, 103, 104, 105, 106]);
    witness.close_phase(&domain, &vec![first.clone()]);
    assert_eq!(witness.instance_single.instance_values[inst.index()].at(0), f(5));
    assert_eq!(witness.instance_single.instance_values[inst.index()].at(1), f(0));
    let values = witness.advice_single.advice_values[0].as_ref().unwrap();
    assert_eq!((values.at(0), values.at(1)), (f(3), f(0)));
    assert_eq!(values.values()[10..], first[..]);
    let poly = witness.advice_single.advice_polys[0].as_ref().unwrap();
    assert_eq!(Fr::eval_polynomial(poly.values(), f(1)), f(3));
    assert!(witness.advice_single.advice_values[1].is_none());
    witness.next_phase(&column(&[999]));
    assert_eq!(witness.current_phase, Phase(1));
    assert_eq!(witness.get_challenge(challenge), Some(f(999)));

    witness.assign_advice(b, 1, GpuAssigned::Trivial(f(4)));
    witness.close_phase(&domain, &vec![column(&[1, 2, 3, 4, 5, 6])]);
    witness.next_phase(&vec![]);
    let (instance, advice, challenges) = synthesize_witness(&cs, witness).unwrap();
    assert_eq!(instance.instance_polys.len(), 1);
    assert_eq!(advice.advice_values[1].at(1), f(4));
    assert_eq!(advice.advice_values[0].at(15), f(106));
    assert_eq!(challenges, column(&[999]));
}

#[test]
fn raw_advice_comes_to_the_same_as_cells() {
    let mut cs = GpuConstraintSystem::<Fr>::default();
    let a = cs.advice_column();
    let b = cs.advice_column();
    let domain = EvaluationDomain::<Fr>::new(3, 4);
    let mut witness = WitnessCollection::new(4, N, &cs, vec![]);
    witness.assign_advice(a, 2, GpuAssigned::Rational(f(1), f(7)));
    witness.assign_advice(b, 9, GpuAssigned::Trivial(f(9)));
    let raw = synthesize_advices_and_instances(&cs, &witness).unwrap();
    assert_eq!(raw[1].at(9), f(9));
    assert_eq!(raw[0].at(2).mul(&f(7)), f(1));
    let raw = raw.into_iter().map(|p| p.into_values()).collect();
    let blinders = vec![column(&[1, 2, 3, 4, 5, 6]), column(&[7, 8, 9, 10, 11, 12])];
    let (_, converted) = convert_raw_advice(&domain, &cs, &vec![], raw, 0, &blinders);
    witness.close_phase(&domain, &blinders);
    for c in 0..2 {
        let values = witness.advice_single.advice_values[c].as_ref().unwrap();
        assert_eq!(values.values(), converted.advice_values[c].values());
        let poly = witness.advice_single.advice_polys[c].as_ref().unwrap();
        assert_eq!(poly.values(), converted.advice_polys[c].values());
    }
}

#[test]
fn the_number_of_instance_columns_is_checked() {
    assert!(check_instances::<Fr>(1, &vec![vec![]]).is_ok());
    assert!(matches!(
        check_instances::<Fr>(2, &vec![vec![]]),
        Err(GpuError::Canonical(Error::InvalidInstances))
    ));
    let mut cs = GpuConstraintSystem::<Fr>::default();
    let _inst = cs.instance_column();
    let witness = WitnessCollection::<Fr>::new(4, N, &cs, vec![]);
    assert!(matches!(
        synthesize_advices_and_instances(&cs, &witness),
        Err(GpuError::Canonical(Error::InvalidInstances))
    ));
    assert!(matches!(
        synthesize_witness(&cs, witness),
        Err(GpuError::Canonical(Error::InvalidInstances))
    ));
}

#[test]
fn instances_are_padded() {
    let columns = padded_columns(&vec![column(&[1, 2]), vec![]], 4);
    assert_eq!(columns[0].values(), &column(&[1, 2, 0, 0]));
    assert_eq!(columns[1].values(), &column(&[0, 0, 0, 0]));
}
