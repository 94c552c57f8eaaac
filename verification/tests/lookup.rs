use halo2_gpu::field::bn256::Fr;
use halo2_gpu::field::Field;
use halo2_gpu::plonk::constraint_system::GpuConstraintSystem;
use halo2_gpu::plonk::error::Error;
use halo2_gpu::plonk::expression::GpuExpression;
use halo2_gpu::plonk::lookup::permute::{
    inputs_in_table, permute_expression_pair_par, permute_expression_pair_seq, permute_grouped,
};
use halo2_gpu::plonk::lookup::prover::{
    compress_expressions, compress_path, evaluation_order, opening_order, CompressPath, LookupPoly,
};
use halo2_gpu::plonk::lookup::Argument;
use halo2_gpu::poly::{LagrangeCoeff, Polynomial, Rotation};

fn f(v: u64) -> Fr {
    Fr::from_u64(v)
}

fn column(values: &[u64]) -> Vec<Fr> {
    values.iter().map(|v| f(*v)).collect()
}

fn sorted(values: &[Fr]) -> Vec<Fr> {
    let mut values = values.to_vec();
    Fr::par_sort(&mut values);
    values
}

fn check_permuted(input: &[Fr], table: &[Fr], permuted: &(Vec<Fr>, Vec<Fr>), usable: usize) {
    let (a, s) = permuted;
    assert_eq!(a.len(), input.len());
    assert_eq!(s.len(), input.len());
    assert_eq!(sorted(&a[..usable]), sorted(&input[..usable]));
    assert_eq!(sorted(&s[..usable]), sorted(&table[..usable]));
    for i in 0..usable {
        assert!(a[i] == s[i] || i > 0 && a[i] == a[i - 1]);
    }
    for i in usable..a.len() {
        assert_eq!((a[i], s[i]), (f(0), f(0)));
    }
}

#[test]
fn test_permute() {
    let gen_test = |log_n: usize, log_k: usize| {
        let n = 1 << log_n;
        let m = 1 << log_k;
        let (beta, gamma) = if log_n == log_k { (f(77), f(991)) } else { (f(1), f(1)) };
        let mut input: Vec<Fr> = (0..m).map(|i| f(i as u64).mul(&beta).add(&gamma)).collect();
        while input.len() < n {
            let mut again = input.clone();
            input.append(&mut again);
        }
        let mut table: Vec<Fr> = (0..m).map(|i| f(i as u64).mul(&beta).add(&gamma)).collect();
        while table.len() < n {
            table.push(f(0));
        }
        let usable = n - 9;
        let seq = permute_expression_pair_seq(n, &input, &table, usable);
        check_permuted(&input, &table, &seq, usable);
        let par = permute_expression_pair_par(n, &input, &table, usable);
        check_permuted(&input, &table, &par, usable);
    };
    // sparse tests
    gen_test(8, 4);
    gen_test(8, 6);
    // dense tests
    for test_n in [5, 6, 7, 8] {
        gen_test(test_n, test_n);
    }
}

#[test]
fn repeated_inputs_take_what_is_left_of_the_table() {
    let input = column(&[3, 1, 3, 3]);
    let table = column(&[1, 2, 3, 4]);
    let (a, s) = permute_expression_pair_seq(4, &input, &table, 4);
    assert_eq!(a, column(&[1, 3, 3, 3]));
    assert_eq!(s, column(&[1, 3, 4, 2]));
    let (a, s) = permute_grouped(4, &column(&[3, 3, 3, 1]), &table, 4);
    assert_eq!(a, column(&[3, 3, 3, 1]));
    assert_eq!((s[0], s[3]), (f(3), f(1)));
    assert_eq!(sorted(&s), table);
}

#[test]
fn membership_in_the_table() {
    let table = column(&[5, 1, 9, 1]);
    assert!(inputs_in_table(&column(&[1, 9, 9, 5]), &table, 4));
    assert!(!inputs_in_table(&column(&[1, 9, 9, 6]), &table, 4));
    assert!(!inputs_in_table(&column(&[0, 1, 9, 5]), &table, 4));
    // Only the usable rows count, on both sides.
    assert!(inputs_in_table(&column(&[1, 5, 0, 0]), &table, 2));
    assert!(!inputs_in_table(&column(&[1, 9, 0, 0]), &table, 2));
    assert!(inputs_in_table(&column(&[]), &column(&[]), 0));
}

fn argument() -> (Argument<Fr>, Vec<Polynomial<Fr, LagrangeCoeff>>, Vec<Polynomial<Fr, LagrangeCoeff>>) {
    let mut cs = GpuConstraintSystem::<Fr>::default();
    let (a, b) = (cs.advice_column(), cs.advice_column());
    let (s, t) = (cs.fixed_column(), cs.fixed_column());
    let argument = Argument {
        name: "pairs".to_string(),
        input_expressions: vec![a.cur(), b.cur()],
        table_expressions: vec![s.cur(), t.cur()],
    };
    let fixed = vec![
        Polynomial::new(column(&[1, 2, 3, 4, 0, 0, 0, 0])),
        Polynomial::new(column(&[10, 20, 30, 40, 0, 0, 0, 0])),
    ];
    let advice = vec![
        Polynomial::new(column(&[2, 2, 4, 1, 0, 0, 0, 0])),
        Polynomial::new(column(&[20, 20, 40, 10, 0, 0, 0, 0])),
    ];
    (argument, fixed, advice)
}

#[test]
fn expressions_are_folded_by_theta() {
    let (argument, fixed, advice) = argument();
    let values = compress_expressions(
        &argument.input_expressions,
        f(100),
        8,
        &fixed,
        &advice,
        &vec![],
        &vec![],
    );
    // theta a + b
    assert_eq!(values[..4], column(&[220, 220, 440, 110])[..]);
}

#[test]
fn products_close_where_inputs_are_in_the_table() {
    let (argument, fixed, advice) = argument();
    let permuted = argument
        .commit_permuted(f(100), 8, 3, &fixed, &advice, &vec![], &vec![])
        .unwrap();
    let (beta, gamma) = (f(1234567), f(7654321));
    let product = permuted.product(beta, gamma, &column(&[91, 92, 93]));
    assert_eq!(product[0], f(1));
    assert_eq!(product[4], f(1));
    assert_eq!(product[5..], column(&[91, 92, 93])[..]);
    // z(omega X) (a' + beta) (s' + gamma) = z(X) (a + beta) (s + gamma)
    for i in 0..4 {
        let right = permuted.compressed_input_expression[i]
            .add(&beta)
            .mul(&permuted.compressed_table_expression[i].add(&gamma));
        let left = permuted.permuted_input_expression[i]
            .add(&beta)
            .mul(&permuted.permuted_table_expression[i].add(&gamma));
        assert_eq!(product[i + 1].mul(&left), product[i].mul(&right));
    }
}

#[test]
fn an_input_outside_of_the_table_is_an_error() {
    let (argument, fixed, mut advice) = argument();
    advice[1] = Polynomial::new(column(&[20, 21, 40, 10, 0, 0, 0, 0]));
    let result = argument.commit_permuted(f(100), 8, 3, &fixed, &advice, &vec![], &vec![]);
    assert!(matches!(result, Err(Error::ConstraintSystemFailure)));
}

#[test]
fn evaluations_and_openings() {
    let evaluations = evaluation_order();
    assert_eq!(evaluations.len(), 5);
    assert_eq!(evaluations[0], (LookupPoly::Product, Rotation::cur()));
    assert_eq!(evaluations[3], (LookupPoly::PermutedInput, Rotation::prev()));
    let openings = opening_order();
    assert_eq!(openings[4], (LookupPoly::Product, Rotation::next()));
    for item in evaluations {
        assert!(openings.contains(&item));
    }
}

#[test]
fn required_degrees() {
    let (argument, _, _) = argument();
    assert_eq!(argument.required_degree(), 4);
    let square: GpuExpression<Fr> = argument.input_expressions[0].clone().square();
    let squares = Argument {
        name: "squares".to_string(),
        input_expressions: vec![square.clone() * square],
        table_expressions: vec![argument.table_expressions[0].clone()],
    };
    assert_eq!(squares.required_degree(), 7);
}

#[test]
fn the_device_is_tried_before_the_host() {
    assert_eq!(compress_path(true, false, false), CompressPath::Fused);
    assert_eq!(compress_path(true, true, false), CompressPath::Device);
    assert_eq!(compress_path(true, true, true), CompressPath::Host);
    assert_eq!(compress_path(false, false, false), CompressPath::Host);
}
