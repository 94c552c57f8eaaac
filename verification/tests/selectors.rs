use halo2_gpu::field::bn256::Fr;
use halo2_gpu::field::Field;
use halo2_gpu::plonk::circuit::GpuSelector;
use halo2_gpu::plonk::compress_selectors::{combination_assignment, process, replacement};
use halo2_gpu::plonk::constraint_system::{GpuConstraint, GpuConstraintSystem};
use halo2_gpu::plonk::evaluation::evaluate;
use halo2_gpu::plonk::expression::GpuExpression;
use halo2_gpu::poly::{LagrangeCoeff, Polynomial, Rotation};

fn f(v: u64) -> Fr {
    Fr::from_u64(v)
}

fn rows(text: &str) -> Vec<bool> {
    text.chars().map(|c| c == '1').collect()
}

#[test]
fn selectors_that_never_meet_are_combined() {
    let selectors = vec![rows("1100"), rows("0010"), rows("0110"), rows("0001"), rows("1111")];
    // The last selector is complex: it has a column of its own, and comes first.
    let degrees = vec![2, 2, 2, 2, 0];
    assert_eq!(process(&selectors, &degrees, 4), vec![vec![4], vec![0, 1, 3], vec![2]]);
    // Three in a column would have degree 3 - 1 + 2.
    assert_eq!(process(&selectors, &degrees, 3), vec![vec![4], vec![0, 1], vec![2, 3]]);
    assert_eq!(process(&vec![], &vec![], 3), Vec::<Vec<usize>>::new());
}

#[test]
fn a_combination_holds_the_number_of_its_selector() {
    let selectors = vec![rows("1100"), rows("0010"), rows("0000")];
    let column: Vec<Fr> = combination_assignment(&selectors, &vec![0, 1, 2], 4);
    assert_eq!(column, vec![f(1), f(1), f(2), f(0)]);
}

#[test]
fn replacements_are_non_zero_where_the_selector_is_active() {
    let mut cs = GpuConstraintSystem::<Fr>::default();
    let column = cs.fixed_column();
    let query: GpuExpression<Fr> = column.cur();
    for root in 1..=3 {
        let e = replacement(&query, root, 3);
        assert_eq!(e.degree(), 3);
        let values = Polynomial::<Fr, LagrangeCoeff>::new((0..4).map(f).collect());
        let out = evaluate(&e, 4, 1, &[values], &[], &[], &[]);
        for (v, value) in out.iter().enumerate() {
            assert_eq!(*value != f(0), v == root);
        }
    }
    assert_eq!(replacement(&query, 1, 1).identifier(), query.identifier());
}

fn system() -> (GpuConstraintSystem<Fr>, Vec<GpuSelector>) {
    let mut cs = GpuConstraintSystem::<Fr>::default();
    let a = cs.advice_column();
    let q0 = cs.selector();
    let q1 = cs.selector();
    let q2 = cs.complex_selector();
    for q in [q0, q1] {
        cs.create_gate("square", |cells| {
            let q = cells.query_selector(q);
            let a = cells.query_advice(a, Rotation::cur());
            vec![GpuConstraint::from(q * (a.clone() * a))]
        });
    }
    (cs, vec![q0, q1, q2])
}

#[test]
fn compressing_the_selectors_of_a_system() {
    let (mut cs, selectors) = system();
    cs.set_minimum_degree(4);
    assert!(selectors[0].is_simple() && !selectors[2].is_simple());
    let active = vec![rows("10"), rows("01"), rows("11")];
    let (cs, polys) = cs.compress_selectors(&active, 5);
    assert_eq!(cs.num_fixed_columns, 2);
    assert_eq!(polys, vec![vec![f(1), f(1)], vec![f(1), f(2)]]);
    assert_eq!(
        cs.selector_map.iter().map(|c| c.index()).collect::<Vec<_>>(),
        vec![1, 1, 0]
    );
    assert_eq!(cs.fixed_queries.len(), 2);
    // q (2 - q) a a
    let fixed = vec![
        Polynomial::<Fr, LagrangeCoeff>::new(polys[0].clone()),
        Polynomial::new(polys[1].clone()),
    ];
    let advice = vec![Polynomial::<Fr, LagrangeCoeff>::new(vec![f(3), f(3)])];
    let out = evaluate(&cs.gates[0].polys[0], 2, 1, &fixed, &advice, &[], &[]);
    assert_eq!(out, vec![f(9), f(0)]);
    let out = evaluate(&cs.gates[1].polys[0], 2, 1, &fixed, &advice, &[], &[]);
    assert_eq!(out, vec![f(0), f(2).neg().mul(&f(9))]);
}

#[test]
fn replacing_each_selector_by_a_column() {
    let (cs, _) = system();
    let active = vec![rows("10"), rows("01"), rows("11")];
    let (cs, polys) = cs.directly_convert_selectors_to_fixed(active);
    assert_eq!(cs.num_fixed_columns, 3);
    assert_eq!(cs.num_selectors, 0);
    assert_eq!(polys, vec![vec![f(1), f(0)], vec![f(0), f(1)], vec![f(1), f(1)]]);
    assert!(!cs.gates[1].polys[0].contains_simple_selector());
    assert_eq!(cs.gates[1].polys[0].extract_fixed(), vec![1]);
}

#[test]
fn columns_of_an_expression_are_listed_once() {
    let mut cs = GpuConstraintSystem::<Fr>::default();
    let a = cs.advice_column();
    let b = cs.advice_column();
    let c = cs.instance_column();
    let e: GpuExpression<Fr> = a.cur() * b.next() + b.prev() * a.next() + c.cur();
    assert_eq!(e.extract_advices(), vec![0, 1]);
    assert_eq!(e.extract_instances(), vec![0]);
    assert_eq!(e.extract_fixed(), Vec::<usize>::new());
}
