use halo2_gpu::field::bn256::Fr;
use halo2_gpu::field::Field;
use halo2_gpu::plonk::assigned::GpuAssigned;
use halo2_gpu::plonk::circuit::{GpuAny, GpuColumn};
use halo2_gpu::plonk::constraint_system::{GpuConstraint, GpuConstraintSystem};
use halo2_gpu::plonk::evaluations::{
    evaluate_queries, CommittedUnpacked, Constructed, ConstructedSet,
};
use halo2_gpu::plonk::evaluator::Evaluator;
use halo2_gpu::plonk::keygen::Assembly;
use halo2_gpu::plonk::keys::keygen_pk2;
use halo2_gpu::plonk::quotient::{
    evaluate_h, CircuitPolys, FoldingChallenges, KeyPolys, LookupPolys,
};
use halo2_gpu::plonk::vanishing::{fold_pieces, quotient_pieces};
use halo2_gpu::plonk::witness::{synthesize_witness, WitnessCollection};
use halo2_gpu::poly::domain::EvaluationDomain;
use halo2_gpu::poly::{Coeff, LagrangeCoeff, Polynomial, Rotation};
use rand::RngCore;

fn random() -> Fr {
    let mut rng = rand::thread_rng();
    let limbs = [rng.next_u64(), rng.next_u64(), rng.next_u64(), rng.next_u64() >> 4];
    Fr::from_limbs(limbs).unwrap()
}

fn f(v: u64) -> Fr {
    Fr::from_u64(v)
}

fn random_column(n: usize) -> Vec<Fr> {
    (0..n).map(|_| random()).collect()
}

const K: u32 = 4;
const N: usize = 16;

/// What the folded constraints of the circuit below come to at a point, and what
/// the quotient gives there.
struct Outcome {
    folded: Fr,
    quotient_times_vanishing: Fr,
}

/// Proves that `a b = c` in the first two rows, that `c` in the first row is the
/// instance and equals `a` in the second, and that all of `a` is below ten; up to
/// the quotient.
fn prove(compress_selectors: bool, first_product: u64, batch: usize) -> Outcome {
    let mut cs = GpuConstraintSystem::<Fr>::default();
    let a = cs.advice_column();
    let b = cs.advice_column();
    let c = cs.advice_column();
    let inst = cs.instance_column();
    let q = cs.selector();
    let table = cs.lookup_table_column();
    cs.enable_equality(GpuColumn::<GpuAny>::from(a));
    cs.enable_equality(GpuColumn::<GpuAny>::from(c));
    cs.enable_equality(GpuColumn::<GpuAny>::from(inst));
    cs.create_gate("product", |cells| {
        let q = cells.query_selector(q);
        let qa = cells.query_advice(a, Rotation::cur());
        let qb = cells.query_advice(b, Rotation::cur());
        let qc = cells.query_advice(c, Rotation::cur());
        vec![GpuConstraint::from(q * (qa * qb - qc))]
    });
    cs.lookup("below ten", |cells| {
        let qa = cells.query_advice(a, Rotation::cur());
        vec![(qa, table)]
    });
    let degree = cs.degree(5);
    assert_eq!(degree, 4);
    let bf = cs.blinding_factors();
    assert_eq!(bf, 5);
    let chunk_len = degree - 2;
    let domain = EvaluationDomain::<Fr>::new(degree as u32, K);
    assert_eq!(domain.extended_k, 6);

    let mut assembly = Assembly::new(K, N, &cs).unwrap();
    assert_eq!(assembly.usable_rows, 10);
    assembly.enable_selector(&q, 0).unwrap();
    assembly.enable_selector(&q, 1).unwrap();
    for i in 0..10 {
        assembly.assign_fixed(table.inner(), i, GpuAssigned::Trivial(f(i as u64)));
    }
    assembly.copy(GpuColumn::from(c), 0, GpuColumn::from(a), 1);
    assembly.copy(GpuColumn::from(inst), 0, GpuColumn::from(c), 0);
    let pk = keygen_pk2(&domain, cs, assembly, compress_selectors, 5);
    let cs = &pk.vk.cs;
    assert_eq!(pk.vk.fixed.len(), 2);
    let evaluator = Evaluator::new(cs);

    let mut witness = WitnessCollection::new(K, N, cs, vec![vec![f(6)]]);
    witness.assign_advice(a, 0, GpuAssigned::Trivial(f(2)));
    witness.assign_advice(b, 0, GpuAssigned::Trivial(f(3)));
    witness.assign_advice(c, 0, GpuAssigned::Trivial(f(first_product)));
    witness.assign_advice(a, 1, GpuAssigned::Rational(f(12), f(2)));
    witness.assign_advice(b, 1, GpuAssigned::Trivial(f(1)));
    witness.assign_advice(c, 1, GpuAssigned::Trivial(f(6)));
    let blinders = (0..3).map(|_| random_column(bf + 1)).collect();
    witness.close_phase(&domain, &blinders);
    witness.next_phase(&vec![]);
    let (instance, advice, challenges) = synthesize_witness(cs, witness).unwrap();
    assert_eq!(advice.advice_values[0].at(1), f(6));

    let (theta, beta, gamma, y) = (random(), random(), random(), random());
    let permuted = cs.lookups[0].permuted(
        theta,
        N,
        bf,
        &pk.vk.fixed,
        &advice.advice_values,
        &instance.instance_values,
        &challenges,
    );
    let product = permuted.product(beta, gamma, &random_column(bf));
    assert_eq!(product[N - bf - 1], f(1));
    let num_sets = 2;
    let blinds = (0..num_sets).map(|_| random_column(bf)).collect();
    let products = cs.permutation.products(
        degree,
        bf,
        N,
        &advice.advice_values,
        &pk.vk.fixed,
        &instance.instance_values,
        &pk.vk.permutations,
        domain.omega,
        beta,
        gamma,
        &blinds,
    );
    assert_eq!(products.len(), num_sets);
    if first_product == 6 {
        assert_eq!(products[1].at(N - bf - 1), f(1));
    }

    let x = random();
    let xn = x.pow_vartime(N as u64);
    let to_coeff = |v: Vec<Fr>| domain.lagrange_to_coeff(Polynomial::new(v));
    let sets: Vec<Polynomial<Fr, Coeff>> =
        products.into_iter().map(|p| domain.lagrange_to_coeff(p)).collect();
    let constructed = Constructed {
        sets: sets
            .iter()
            .map(|p| ConstructedSet {
                permutation_product_poly: Polynomial::new(p.values().clone()),
            })
            .collect(),
    };
    // z_0(x), z_0(omega x), z_0(omega^last x), z_1(x), z_1(omega x)
    let z = constructed.evaluate(&domain, bf, x);
    assert_eq!(z.len(), 5);
    let unpacked = CommittedUnpacked {
        permuted_input_poly: to_coeff(permuted.permuted_input_expression.clone()),
        permuted_table_poly: to_coeff(permuted.permuted_table_expression.clone()),
        product_poly: to_coeff(product.clone()),
    };
    let l = unpacked.evaluate(&domain, x);
    let cur = |polys: &Vec<Polynomial<Fr, Coeff>>| {
        let queries = (0..polys.len()).map(|i| (i, Rotation::cur())).collect();
        evaluate_queries(&domain, polys, &queries, x)
    };
    let advice_x = cur(&advice.advice_polys);
    let instance_x = cur(&instance.instance_polys);
    let fixed_x = cur(&pk.fixed_polys);
    let sigma_x = cur(&pk.permutation_polys);
    let at_x = |p: &Polynomial<Fr, Coeff>| Fr::eval_polynomial(p.values(), x);
    let (l0, l_last, l_active) = (at_x(&pk.l0), at_x(&pk.l_last), at_x(&pk.l_active_row));

    // The constraints at x, folded by y.
    let one = f(1);
    let mut terms = vec![];
    let (ax, bx, cx) = (advice_x[0], advice_x[1], advice_x[2]);
    terms.push(fixed_x[1].mul(&ax.mul(&bx).sub(&cx)));
    terms.push(one.sub(&z[0]).mul(&l0));
    terms.push(z[3].mul(&z[3]).sub(&z[3]).mul(&l_last));
    terms.push(z[3].sub(&z[2]).mul(&l0));
    let columns = [ax, cx, instance_x[0]];
    let delta = Fr::delta();
    let mut label = beta.mul(&x);
    for (set, from, to) in [(0, 0, 2), (1, 2, 3)] {
        let (mut right, mut left) = (z[3 * set], z[3 * set + 1]);
        for j in from..to {
            left = left.mul(&columns[j].add(&beta.mul(&sigma_x[j])).add(&gamma));
            right = right.mul(&columns[j].add(&label).add(&gamma));
            label = label.mul(&delta);
        }
        terms.push(left.sub(&right).mul(&l_active));
    }
    let (zx, z_next, a_x, a_prev, s_x) = (l[0], l[1], l[2], l[3], l[4]);
    terms.push(one.sub(&zx).mul(&l0));
    terms.push(zx.mul(&zx).sub(&zx).mul(&l_last));
    let permuted_pair = z_next.mul(&a_x.add(&beta)).mul(&s_x.add(&gamma));
    let table_pair = ax.add(&beta).mul(&fixed_x[0].add(&gamma));
    terms.push(permuted_pair.sub(&zx.mul(&table_pair)).mul(&l_active));
    terms.push(a_x.sub(&s_x).mul(&l0));
    terms.push(a_x.sub(&s_x).mul(&a_x.sub(&a_prev)).mul(&l_active));
    let fold = |start: Fr| terms.iter().fold(start, |acc, t| acc.mul(&y).add(t));
    let folded = (0..batch).fold(f(0), |acc, _| fold(acc));

    let key = KeyPolys {
        fixed: pk.fixed_polys,
        l0: pk.l0,
        l_last: pk.l_last,
        l_active: pk.l_active_row,
        sigmas: pk.permutation_polys,
    };
    let copies = |polys: &Vec<Polynomial<Fr, Coeff>>| {
        polys.iter().map(|p| Polynomial::new(p.values().clone())).collect::<Vec<_>>()
    };
    let circuits = (0..batch)
        .map(|_| CircuitPolys {
            advice: copies(&advice.advice_polys),
            instance: copies(&instance.instance_polys),
            products: copies(&sets),
            lookups: vec![LookupPolys {
                product: to_coeff(product.clone()),
                permuted_input: Polynomial::<Fr, LagrangeCoeff>::new(
                    permuted.permuted_input_expression.clone(),
                ),
                permuted_table: Polynomial::new(permuted.permuted_table_expression.clone()),
            }],
        })
        .collect();
    let folding = FoldingChallenges { y, beta, gamma, theta };
    let h = evaluate_h(
        &evaluator,
        &domain,
        &key,
        &cs.permutation.columns,
        &circuits,
        &challenges,
        folding,
        chunk_len,
        -(bf as i32 + 1),
    );
    assert_eq!(h.len(), 64);
    let pieces = quotient_pieces(&domain, &h);
    assert_eq!(pieces.len(), 3);
    let h_x = Fr::eval_polynomial(&fold_pieces(&pieces, xn, N), x);
    Outcome { folded, quotient_times_vanishing: h_x.mul(&xn.sub(&one)) }
}

#[test]
fn a_satisfied_circuit_has_a_quotient() {
    let outcome = prove(false, 6, 1);
    assert_eq!(outcome.folded, outcome.quotient_times_vanishing);
}

#[test]
fn a_satisfied_circuit_has_a_quotient_with_compressed_selectors() {
    let outcome = prove(true, 6, 1);
    assert_eq!(outcome.folded, outcome.quotient_times_vanishing);
}

#[test]
fn an_unsatisfied_circuit_has_none() {
    let outcome = prove(false, 7, 1);
    assert_ne!(outcome.folded, outcome.quotient_times_vanishing);
}

#[test]
fn a_batch_of_satisfied_circuits_has_a_quotient() {
    let outcome = prove(false, 6, 2);
    assert_eq!(outcome.folded, outcome.quotient_times_vanishing);
    assert_ne!(outcome.folded, prove(false, 6, 1).folded);
}

#[test]
fn the_uncut_degree_is_that_of_the_largest_constraint() {
    let mut cs = GpuConstraintSystem::<Fr>::default();
    let a = cs.advice_column();
    let q = cs.selector();
    // The permutation argument asks for three.
    assert_eq!(cs.uncapped_degree(), 3);
    cs.create_gate("a power", |cells| {
        let q = cells.query_selector(q);
        let x = cells.query_advice(a, Rotation::cur());
        let y = cells.query_advice(a, Rotation::next());
        let z = cells.query_advice(a, Rotation::prev());
        let w = cells.query_advice(a, Rotation(2));
        let v = cells.query_advice(a, Rotation(3));
        vec![GpuConstraint::from(q * (x * y * z * w * v))]
    });
    assert_eq!(cs.uncapped_degree(), 6);
    // The cap cuts it off.
    assert_eq!(cs.degree(5), 5);
    assert_eq!(cs.degree(6), 6);
    assert_eq!(cs.degree(9), 6);
}
