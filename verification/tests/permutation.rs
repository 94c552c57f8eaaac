use halo2_gpu::field::bn256::Fr;
use halo2_gpu::field::Field;
use halo2_gpu::plonk::assigned::GpuAssigned;
use halo2_gpu::plonk::circuit::{GpuAny, GpuColumn, GpuFixed};
use halo2_gpu::plonk::constraint_system::GpuConstraintSystem;
use halo2_gpu::plonk::error::{require_device_bytes, Error, GpuError, HaloGpuError};
use halo2_gpu::plonk::keygen;
use halo2_gpu::plonk::permutation::keygen::{permutation_lagrange_polys, Assembly};
use halo2_gpu::plonk::permutation::prover::{
    evaluation_order, last_row, opening_order, product_with_blinds,
};
use halo2_gpu::plonk::permutation::{Argument, VerifyingKey};
use halo2_gpu::poly::domain::EvaluationDomain;
use halo2_gpu::poly::{LagrangeCoeff, Polynomial, Rotation};

fn f(v: u64) -> Fr {
    Fr::from_u64(v)
}

fn column(values: &[u64]) -> Vec<Fr> {
    values.iter().map(|v| f(*v)).collect()
}

fn fixed(index: usize) -> GpuColumn<GpuAny> {
    GpuColumn::from(GpuColumn::new(index, GpuFixed))
}

fn three_columns() -> Argument {
    let mut argument = Argument::new();
    argument.add_column(fixed(0));
    argument.add_column(fixed(1));
    argument.add_column(fixed(0));
    argument.add_column(fixed(2));
    argument
}

#[test]
fn columns_are_added_once() {
    let argument = three_columns();
    assert_eq!(argument.get_columns(), vec![fixed(0), fixed(1), fixed(2)]);
    assert_eq!(argument.required_degree(), 3);
    let vk = VerifyingKey { commitments: vec![1u8, 2, 3] };
    assert_eq!(vk.commitments(), &vec![1, 2, 3]);
}

#[test]
fn copies_merge_cycles() {
    let mut assembly = Assembly::new(4, &three_columns());
    for (c, cells) in assembly.mapping().iter().enumerate() {
        for (i, next) in cells.iter().enumerate() {
            assert_eq!(*next, (c, i));
        }
    }
    assembly.copy(fixed(0), 0, fixed(1), 1).unwrap();
    assembly.copy(fixed(1), 1, fixed(2), 2).unwrap();
    // The cells are on one cycle already.
    assembly.copy(fixed(2), 2, fixed(0), 0).unwrap();
    let mut seen = vec![];
    let mut at = (0, 0);
    for _ in 0..3 {
        seen.push(at);
        at = assembly.mapping()[at.0][at.1];
    }
    assert_eq!(at, (0, 0));
    seen.sort();
    assert_eq!(seen, vec![(0, 0), (1, 1), (2, 2)]);
    assert_eq!(assembly.mapping()[1][0], (1, 0));
}

#[test]
fn copies_outside_of_the_permutation_are_errors() {
    let mut assembly = Assembly::new(4, &three_columns());
    assert!(matches!(
        assembly.copy(fixed(3), 0, fixed(0), 0),
        Err(GpuError::Canonical(Error::ColumnNotInPermutation(c))) if c == fixed(3)
    ));
    assert!(matches!(
        assembly.copy(fixed(0), 0, fixed(5), 0),
        Err(GpuError::Canonical(Error::ColumnNotInPermutation(c))) if c == fixed(5)
    ));
    assert!(matches!(
        assembly.copy(fixed(0), 4, fixed(1), 0),
        Err(GpuError::Canonical(Error::BoundsFailure))
    ));
}

#[test]
fn labels_are_powers_of_delta_and_omega() {
    let domain = EvaluationDomain::<Fr>::new(3, 2);
    let mut assembly = Assembly::new(4, &three_columns());
    assembly.copy(fixed(0), 0, fixed(2), 3).unwrap();
    let polys = permutation_lagrange_polys(&assembly, 4, domain.omega);
    let label = |c: u64, i: u64| {
        Fr::delta().pow_vartime(c).mul(&domain.omega.pow_vartime(i))
    };
    assert_eq!(polys[0].at(0), label(2, 3));
    assert_eq!(polys[2].at(3), label(0, 0));
    assert_eq!(polys[1].at(2), label(1, 2));
}

#[test]
fn products_of_satisfied_copies_close() {
    let n = 8;
    let domain = EvaluationDomain::<Fr>::new(4, 3);
    let argument = three_columns();
    let mut assembly = Assembly::new(n, &argument);
    assembly.copy(fixed(0), 0, fixed(2), 3).unwrap();
    assembly.copy(fixed(0), 0, fixed(1), 1).unwrap();
    let sigmas = permutation_lagrange_polys(&assembly, n, domain.omega);
    let columns: Vec<Polynomial<Fr, LagrangeCoeff>> = vec![
        Polynomial::new(column(&[5, 1, 2, 3, 0, 0, 0, 0])),
        Polynomial::new(column(&[9, 5, 8, 7, 0, 0, 0, 0])),
        Polynomial::new(column(&[4, 4, 4, 5, 0, 0, 0, 0])),
    ];
    let blinds = vec![column(&[1, 2, 3]), column(&[4, 5, 6])];
    let products = argument.products(
        4,
        3,
        n,
        &vec![],
        &columns,
        &vec![],
        &sigmas,
        domain.omega,
        f(424242),
        f(171717),
        &blinds,
    );
    assert_eq!(products.len(), 2);
    assert_eq!(products[0].at(0), f(1));
    // The second product starts where the first ends, and ends in one.
    assert_eq!(products[1].at(0), products[0].at(4));
    assert_ne!(products[1].at(0), f(1));
    assert_eq!(products[1].at(4), f(1));
    assert_eq!(products[1].values()[5..], blinds[1][..]);
}

#[test]
fn running_products_end_in_blinding_factors() {
    let z = product_with_blinds(&column(&[2, 3, 4, 5]), f(10), 3, &column(&[7, 8]));
    assert_eq!(z, column(&[10, 20, 60, 7, 8]));
}

#[test]
fn orders_of_evaluations_and_openings() {
    assert_eq!(last_row(5), Rotation(-6));
    let evaluations = evaluation_order(2, 5);
    assert_eq!(
        evaluations,
        vec![
            (0, Rotation(0)),
            (0, Rotation(1)),
            (0, Rotation(-6)),
            (1, Rotation(0)),
            (1, Rotation(1)),
        ]
    );
    let openings = opening_order(3, 5);
    assert_eq!(openings[..2], [(0, Rotation(0)), (0, Rotation(1))]);
    assert_eq!(openings[6..], [(1, Rotation(-6)), (0, Rotation(-6))]);
    assert!(evaluation_order(0, 5).is_empty() && opening_order(0, 5).is_empty());
    for item in evaluation_order(3, 5) {
        assert!(openings.contains(&item));
    }
}

#[test]
fn keygen_needs_enough_rows() {
    let cs = GpuConstraintSystem::<Fr>::default();
    assert_eq!(cs.minimum_rows(), 8);
    assert!(matches!(
        keygen::Assembly::new(2, 4, &cs),
        Err(GpuError::Canonical(Error::NotEnoughRowsAvailable { current_k: 2 }))
    ));
}

#[test]
fn keygen_assignments() {
    let mut cs = GpuConstraintSystem::<Fr>::default();
    let column = cs.fixed_column();
    let q = cs.selector();
    let mut assembly = keygen::Assembly::new(4, 16, &cs).unwrap();
    assembly.enable_selector(&q, 9).unwrap();
    assert!(matches!(
        assembly.enable_selector(&q, 10),
        Err(Error::NotEnoughRowsAvailable { current_k: 4 })
    ));
    assert!(assembly.query_instance(0).unwrap().is_none());
    assert!(matches!(
        assembly.query_instance(10),
        Err(Error::NotEnoughRowsAvailable { current_k: 4 })
    ));
    assembly.assign_fixed(column, 0, GpuAssigned::Trivial(f(3)));
    let seven = Some(GpuAssigned::Trivial(f(7)));
    assert!(matches!(
        assembly.fill_from_row(column, 10, seven),
        Err(Error::NotEnoughRowsAvailable { current_k: 4 })
    ));
    assert!(matches!(assembly.fill_from_row(column, 8, None), Err(Error::Synthesis)));
    let missing = GpuColumn::new(5, GpuFixed);
    assert!(matches!(assembly.fill_from_row(missing, 8, seven), Err(Error::BoundsFailure)));
    assembly.fill_from_row(column, 8, seven).unwrap();
    let values = assembly.fixed_values();
    assert_eq!(values[0].at(0), f(3));
    assert_eq!((values[0].at(8), values[0].at(9), values[0].at(10)), (f(7), f(7), f(0)));
    assert!(assembly.selectors[0][9] && !assembly.selectors[0][8]);
}

#[test]
fn rows_of_the_argument() {
    let (l0, l_last, l_active) = keygen::row_columns::<Fr>(8, 3);
    assert_eq!(l0, column(&[1, 0, 0, 0, 0, 0, 0, 0]));
    assert_eq!(l_last, column(&[0, 0, 0, 0, 1, 0, 0, 0]));
    assert_eq!(l_active, column(&[1, 1, 1, 1, 0, 0, 0, 0]));
}

#[test]
fn device_memory_is_checked() {
    assert!(require_device_bytes("work", 10, 10).is_ok());
    assert!(matches!(
        require_device_bytes("work", 11, 10),
        Err(GpuError::HaloGpu(HaloGpuError::InsufficientGpuMemory {
            context: "work",
            magnitude: 11,
            free_bytes: 10,
        }))
    ));
}
