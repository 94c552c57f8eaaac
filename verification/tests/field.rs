use halo2_axiom::halo2curves::bn256::Fr as CurveScalar;
use halo2_gpu::field::bn256::Fr;
use halo2_gpu::field::Field;
use halo2_gpu::plonk::assigned::GpuAssigned;
use halo2_gpu::poly::arithmetic::{
    kate_division, multiply_add, powers, scale, subtract_short, zeros,
};
use halo2_gpu::poly::{batch_invert_assigned, Coeff, LagrangeCoeff, Polynomial};
use rand::RngCore;

fn f(v: u64) -> Fr {
    Fr::from_u64(v)
}

fn random() -> Fr {
    let mut rng = rand::thread_rng();
    let limbs = [rng.next_u64(), rng.next_u64(), rng.next_u64(), rng.next_u64() >> 4];
    Fr::from_limbs(limbs).unwrap()
}

fn random_column(n: usize) -> Vec<Fr> {
    (0..n).map(|_| random()).collect()
}

/// The modulus less one.
fn minus_one() -> Fr {
    Fr::from_limbs([
        0x43e1f593f0000000,
        0x2833e84879b97091,
        0xb85045b68181585d,
        0x30644e72e131a029,
    ])
    .unwrap()
}

#[test]
fn limbs_are_below_the_modulus() {
    let modulus = [
        0x43e1f593f0000001,
        0x2833e84879b97091,
        0xb85045b68181585d,
        0x30644e72e131a029,
    ];
    assert!(Fr::from_limbs(modulus).is_none());
    assert!(Fr::from_limbs([u64::MAX; 4]).is_none());
    assert_eq!(minus_one().add(&f(1)), f(0));
    assert_eq!(f(77).to_limbs(), [77, 0, 0, 0]);
}

#[test]
fn arithmetic_is_that_of_residues() {
    assert_eq!(f(5).add(&f(9)), f(14));
    assert_eq!(f(9).sub(&f(5)), f(4));
    assert_eq!(f(0).sub(&f(1)), minus_one());
    assert_eq!(f(5).mul(&f(9)), f(45));
    assert_eq!(f(1).neg(), minus_one());
    assert_eq!(f(0).neg(), f(0));
    assert_eq!(f(7).double(), f(14));
    assert_eq!(f(7).square(), f(49));
    assert_eq!(minus_one().square(), f(1));
    assert_eq!(f(3).pow_vartime(5), f(243));
    assert_eq!(f(3).pow_vartime(0), f(1));
    assert_eq!(Fr::zero(), f(0));
    assert_eq!(Fr::one(), f(1));
    assert!(f(4).equals(&f(4)));
    assert!(!f(4).equals(&f(5)));
}

#[test]
fn inverses() {
    assert_eq!(f(0).invert(), None);
    let inverse = f(7).invert().unwrap();
    assert_ne!(inverse, f(7));
    assert_eq!(inverse.mul(&f(7)), f(1));
}

#[test]
fn constants_have_their_orders() {
    assert_eq!(Fr::s(), 28);
    let root = Fr::root_of_unity();
    assert_eq!(root.pow_vartime(1 << 28), f(1));
    assert_eq!(root.pow_vartime(1 << 27), minus_one());
    let zeta = Fr::zeta();
    assert_ne!(zeta, f(1));
    assert_eq!(zeta.pow_vartime(3), f(1));
    assert_ne!(Fr::delta(), f(1));
    assert_eq!(Fr::delta(), f(7).pow_vartime(1 << 28));
}

#[test]
fn elements_read_as_hexadecimal() {
    assert_eq!(
        f(255).debug_string(),
        "0x00000000000000000000000000000000000000000000000000000000000000ff"
    );
    assert_eq!(f(255).debug_string(), format!("{:?}", CurveScalar::from(255)));
}

#[test]
fn sorting_is_by_representatives() {
    let mut values = vec![f(3), minus_one(), f(0), f(3), f(1)];
    Fr::par_sort(&mut values);
    assert_eq!(values, vec![f(0), f(1), f(3), f(3), minus_one()]);
}

#[test]
fn test_batch_invert_gpu() {
    let n = 1 << 20;
    let scalars = random_column(n);
    let mut batched = scalars.clone();
    Fr::batch_invert(&mut batched);
    for (a, b) in scalars.iter().zip(batched.iter()) {
        assert_eq!(a.invert(), Some(*b));
    }
    let mut with_zero = vec![f(2), f(0), f(5)];
    Fr::batch_invert(&mut with_zero);
    assert_eq!(with_zero[1], f(0));
    assert_eq!(with_zero[0].mul(&f(2)), f(1));
}

#[test]
fn test_batch_invert_par() {
    let n = 1 << 19;
    let column: Vec<GpuAssigned<Fr>> =
        (0..n).map(|j| GpuAssigned::from((f(1), f(j as u64)))).collect();
    let expected: Vec<Fr> = column.iter().map(|a| a.evaluate()).collect();
    let polys = batch_invert_assigned(&vec![column]);
    assert_eq!(polys[0].values(), &expected);
    // A denominator of zero maps to zero.
    assert_eq!(polys[0].at(0), f(0));
}

#[test]
fn test_batch_invert_assigned_gpu() {
    for k in 19..=20 {
        let n = 1 << k;
        let column: Vec<GpuAssigned<Fr>> =
            (0..n).map(|j| GpuAssigned::from((f(1), f(j as u64 + 1)))).collect();
        let polys: Vec<Polynomial<Fr, LagrangeCoeff>> = batch_invert_assigned(&vec![column]);
        for j in 0..n {
            assert_eq!(polys[0].at(j).mul(&f(j as u64 + 1)), f(1));
        }
    }
}

#[test]
fn test_decode_assigned_to_num_denom_device_vs_host() {
    for log_n in [12, 18, 20] {
        let n = 1 << log_n;
        let column: Vec<GpuAssigned<Fr>> = (0..n)
            .map(|j| match (j + 7) % 3 {
                0 => GpuAssigned::Zero,
                1 => GpuAssigned::Trivial(random()),
                _ => GpuAssigned::Rational(random(), random()),
            })
            .collect();
        let polys = batch_invert_assigned(&vec![column.clone()]);
        for (j, a) in column.iter().enumerate() {
            let denominator = a.denominator().unwrap_or(f(1));
            assert_eq!(polys[0].at(j).mul(&denominator), a.numerator());
        }
    }
}

fn horner(poly: &[Fr], point: Fr) -> Fr {
    poly.iter().rev().fold(f(0), |acc, c| acc.mul(&point).add(c))
}

#[test]
fn test_eval_polynomial() {
    let poly = random_column(1 << 20);
    let point = random();
    for k in 6..=20 {
        let n = 1 << k;
        let part = poly[..n].to_vec();
        assert_eq!(Fr::eval_polynomial(&part, point), horner(&part, point));
    }
    assert_eq!(Fr::eval_polynomial(&vec![f(1), f(2), f(3)], f(10)), f(321));
    assert_eq!(Fr::eval_polynomial(&vec![], f(10)), f(0));
}

#[test]
fn vanishing_and_interpolation() {
    let roots = vec![f(2), f(5)];
    assert_eq!(Fr::evaluate_vanishing_polynomial(&roots, f(7)), f(10));
    assert_eq!(Fr::evaluate_vanishing_polynomial(&roots, f(5)), f(0));
    assert_eq!(Fr::evaluate_vanishing_polynomial(&vec![], f(5)), f(1));
    // 3 + 2 x
    assert_eq!(Fr::lagrange_interpolate(&vec![f(0), f(1)], &vec![f(3), f(5)]), vec![f(3), f(2)]);
    assert_eq!(Fr::lagrange_interpolate(&vec![f(9)], &vec![f(4)]), vec![f(4)]);
}

#[test]
fn test_poly_multiply_add() {
    let point = random();
    for k in 6..=19 {
        let n = 1 << k;
        let poly_in = Polynomial::<Fr, Coeff>::new(random_column(n));
        let mut acc = zeros(n);
        multiply_add(&mut acc, poly_in.values(), &point);
        let expected: Vec<Fr> = poly_in.values().iter().map(|v| v.mul(&point)).collect();
        assert_eq!(acc, expected);
        multiply_add(&mut acc, poly_in.values(), &point);
        let twice: Vec<Fr> = expected.iter().map(|v| v.double()).collect();
        assert_eq!(acc, twice);
    }
}

#[test]
fn test_power_of_omega() {
    let omega = random();
    let pow = u32::MAX;
    let mut square = omega;
    let mut product = f(1);
    for _ in 0..32 {
        product = product.mul(&square);
        square = square.square();
    }
    assert_eq!(omega.pow_vartime(pow as u64), product);
}

#[test]
fn test_omega_powers_generation() {
    let omega = random();
    let list = powers(omega, 1 << 18);
    assert_eq!(list.len(), 1 << 18);
    for (i, v) in list.iter().enumerate() {
        assert_eq!(*v, omega.pow_vartime(i as u64));
    }
}

#[test]
fn dividing_by_a_linear_factor() {
    // x^2 - 5 x + 6 = (x - 2) (x - 3)
    let poly = vec![f(6), f(5).neg(), f(1)];
    assert_eq!(kate_division(&poly, f(2)), vec![f(3).neg(), f(1)]);
    let poly = random_column(9);
    let (z, x) = (random(), random());
    let q = kate_division(&poly, z);
    let expected = horner(&poly, x).sub(&horner(&poly, z));
    assert_eq!(horner(&q, x).mul(&x.sub(&z)), expected);
}

#[test]
fn short_subtraction_and_scaling() {
    assert_eq!(
        subtract_short(&vec![f(9), f(8), f(7)], &vec![f(1), f(2)]),
        vec![f(8), f(6), f(7)]
    );
    let mut values = vec![f(1), f(2)];
    scale(&mut values, &f(10));
    assert_eq!(values, vec![f(10), f(20)]);
}
