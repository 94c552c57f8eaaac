use halo2_gpu::field::bn256::Fr;
use halo2_gpu::field::Field;
use halo2_gpu::poly::domain::EvaluationDomain;
use halo2_gpu::poly::{Coeff, LagrangeCoeff, Polynomial, Rotation};
use rand::RngCore;

fn random() -> Fr {
    let mut rng = rand::thread_rng();
    let limbs = [rng.next_u64(), rng.next_u64(), rng.next_u64(), rng.next_u64() >> 4];
    Fr::from_limbs(limbs).unwrap()
}

fn f(v: u64) -> Fr {
    Fr::from_u64(v)
}

fn random_column(n: usize) -> Vec<Fr> {
    (0..n).map(|_| random()).collect()
}

#[test]
fn test_rotate() {
    let domain = EvaluationDomain::<Fr>::new(1, 3);

    let poly = domain.empty_lagrange();
    assert_eq!(poly.len(), 8);
    let poly = Polynomial::<Fr, LagrangeCoeff>::new(random_column(8));

    let poly_rotated_cur = poly.rotate(Rotation::cur());
    let poly_rotated_next = poly.rotate(Rotation::next());
    let poly_rotated_prev = poly.rotate(Rotation::prev());

    let poly = domain.lagrange_to_coeff(poly);
    let poly_rotated_cur = domain.lagrange_to_coeff(poly_rotated_cur);
    let poly_rotated_next = domain.lagrange_to_coeff(poly_rotated_next);
    let poly_rotated_prev = domain.lagrange_to_coeff(poly_rotated_prev);

    let x = random();

    assert_eq!(
        Fr::eval_polynomial(poly.values(), x),
        Fr::eval_polynomial(poly_rotated_cur.values(), x)
    );
    assert_eq!(
        Fr::eval_polynomial(poly.values(), x.mul(&domain.omega)),
        Fr::eval_polynomial(poly_rotated_next.values(), x)
    );
    assert_eq!(
        Fr::eval_polynomial(poly.values(), x.mul(&domain.omega_inv)),
        Fr::eval_polynomial(poly_rotated_prev.values(), x)
    );
}

#[test]
fn test_l_i() {
    let domain = EvaluationDomain::<Fr>::new(1, 3);

    let mut l = vec![];
    let mut points = vec![];
    for i in 0..8 {
        points.push(domain.omega.pow_vartime(i));
    }
    for i in 0..8 {
        let mut l_i = vec![f(0); 8];
        l_i[i] = f(1);
        let l_i = Fr::lagrange_interpolate(&points, &l_i);
        l.push(l_i);
    }

    let x = random();
    let xn = x.pow_vartime(8);

    let rotations: Vec<i32> = (-7..=7).collect();
    let evaluations = domain.l_i_range(x, xn, &rotations);
    for i in 0..8 {
        assert_eq!(Fr::eval_polynomial(&l[i], x), evaluations[7 + i]);
        assert_eq!(Fr::eval_polynomial(&l[(8 - i) % 8], x), evaluations[7 - i]);
    }
}

#[test]
fn test_coeff_to_extended_part() {
    for k in 5..17 {
        let domain = EvaluationDomain::<Fr>::new(3, k);

        let poly = Polynomial::<Fr, Coeff>::new(random_column(1 << k));

        let got = {
            let parts = domain.coeff_to_extended_parts(&poly);
            domain.extended_from_lagrange_vec(parts)
        };
        let expected = domain.coeff_to_extended(&poly);
        assert_eq!(expected.values(), got.values());
    }
}

#[test]
fn test_coeff_to_extended_part_many() {
    let batch_size = 8;
    let k = 13;
    let domain = EvaluationDomain::<Fr>::new(5, k);

    let values = random_column(1 << k);
    let polys: Vec<Polynomial<Fr, Coeff>> =
        (0..batch_size).map(|_| Polynomial::new(values.clone())).collect();

    let mut extended_omega_factor = f(1);
    let num_parts = domain.extended_len() >> domain.k;
    assert_eq!(num_parts, 4);
    for _ in 0..num_parts {
        let part_many = domain.coeff_to_extended_part_many(&polys, extended_omega_factor);
        for i in 0..batch_size {
            let part = domain.coeff_to_extended_part(&polys[i], extended_omega_factor);
            assert_eq!(part.values(), part_many[i].values());
        }
        extended_omega_factor = extended_omega_factor.mul(&domain.extended_omega);
    }
}

#[test]
fn bench_coeff_to_extended_parts() {
    let k = 16;
    let domain = EvaluationDomain::<Fr>::new(3, k);
    let poly = Polynomial::<Fr, Coeff>::new(random_column(1 << k));

    let expected = domain.coeff_to_extended(&poly);
    let parts = domain.coeff_to_extended_parts(&poly);
    let got = domain.extended_from_lagrange_vec(parts);
    assert_eq!(got.values(), expected.values());
}

#[test]
fn test_modular_fft() {
    // Exercises `lagrange_to_extend_part` against the unfused two-step path.
    let max_log_n = 16;
    let min_log_n = 10;
    let a = (0..(1u64 << max_log_n)).map(f).collect::<Vec<_>>();
    for log_n in min_log_n..=max_log_n {
        let domain = EvaluationDomain::<Fr>::new(1, log_n);
        let a0 = a[0..(1 << log_n)].to_vec();
        let extended_omega_factor = random();

        let b0 = domain.lagrange_to_coeff(Polynomial::new(a0.clone()));
        let b0 = domain.coeff_to_extended_part(&b0, extended_omega_factor);

        let b1 = domain.lagrange_to_extend_part(Polynomial::new(a0), extended_omega_factor);
        assert_eq!(b0.values(), b1.values());
    }
}

#[test]
fn basis_polynomials_at_points_of_the_domain() {
    let domain = EvaluationDomain::<Fr>::new(1, 3);
    assert_eq!(domain.l_i_range(f(1), f(1), &vec![0, 1]), vec![f(1), f(0)]);
    let rotations: Vec<i32> = (-8..8).collect();
    for j in 0..8 {
        let x = domain.omega.pow_vartime(j);
        let values = domain.l_i_range(x, f(1), &rotations);
        for (i, value) in rotations.iter().zip(values.iter()) {
            let expected = if i.rem_euclid(8) as u64 == j { f(1) } else { f(0) };
            assert_eq!(*value, expected);
        }
    }
}

#[test]
fn basis_polynomials_add_up_to_one() {
    let domain = EvaluationDomain::<Fr>::new(1, 3);
    let x = random();
    let xn = x.pow_vartime(8);
    let values = domain.l_i_range(x, xn, &(0..8).collect());
    let sum = values.iter().fold(f(0), |sum, v| sum.add(v));
    assert_eq!(sum, f(1));
    assert_eq!(domain.l_i_range(x, xn, &(-8..0).collect()), values);
}
