use halo2_axiom::arithmetic::best_fft;
use halo2_axiom::fft::recursive::FFTData;
use halo2_axiom::halo2curves::bn256::Fr as CurveScalar;
use halo2_gpu::field::bn256::Fr;
use halo2_gpu::field::Field;
use halo2_gpu::plonk::assigned::GpuAssigned;
use halo2_gpu::poly::arithmetic::scale;
use halo2_gpu::poly::domain::EvaluationDomain;
use halo2_gpu::poly::fft::fft;
use halo2_gpu::poly::residency::{all_on_device, chunk_offsets, DevicePolynomial, MaybeDevice};
use halo2_gpu::poly::{Coeff, ExtendedLagrangeCoeff, LagrangeCoeff, Polynomial, Rotation};
use rand::RngCore;

fn f(v: u64) -> Fr {
    Fr::from_u64(v)
}

fn random() -> Fr {
    let mut rng = rand::thread_rng();
    let limbs = [rng.next_u64(), rng.next_u64(), rng.next_u64(), rng.next_u64() >> 4];
    Fr::from_limbs(limbs).unwrap()
}

fn random_column(n: usize) -> Vec<Fr> {
    (0..n).map(|_| random()).collect()
}

fn outside(value: &Fr) -> CurveScalar {
    CurveScalar::from_raw(value.to_limbs())
}

/// The transform of `a` that halo2 computes on the processor.
fn reference(a: &[Fr], omega: Fr, omega_inv: Fr, log_n: u32, inverse: bool) -> Vec<Fr> {
    let mut values: Vec<CurveScalar> = a.iter().map(outside).collect();
    let data = FFTData::new(values.len(), outside(&omega), outside(&omega_inv));
    let base = if inverse { outside(&omega_inv) } else { outside(&omega) };
    best_fft(&mut values, base, log_n, &data, inverse);
    values.iter().map(|v| Fr::from_limbs((*v).into()).unwrap()).collect()
}

#[test]
fn test_fft() {
    let max_log_n = 14;
    let min_log_n = 10;
    let a = random_column(1 << max_log_n);
    for log_n in min_log_n..=max_log_n {
        let domain = EvaluationDomain::<Fr>::new(1, log_n);
        let a0 = a[0..(1 << log_n)].to_vec();
        let expected = reference(&a0, domain.omega, domain.omega_inv, log_n, false);
        assert_eq!(fft(&a0, domain.omega, log_n), expected);
    }

    for log_n in min_log_n..=max_log_n {
        let domain = EvaluationDomain::<Fr>::new(1, log_n);
        let a0 = a[0..(1 << log_n)].to_vec();
        let mut expected = reference(&a0, domain.omega, domain.omega_inv, log_n, true);
        scale(&mut expected, &domain.ifft_divisor);
        let got = domain.lagrange_to_coeff(Polynomial::new(a0));
        assert_eq!(got.values(), &expected);
    }

    for log_n in min_log_n..=max_log_n {
        let domain = EvaluationDomain::<Fr>::new(5, log_n);
        let a0 = a[0..(1 << log_n)].to_vec();
        let mut c = a0.clone();
        c.resize(domain.extended_len(), f(0));
        domain.distribute_powers_zeta(&mut c, true);
        let expected = reference(
            &c,
            domain.extended_omega,
            domain.extended_omega_inv,
            domain.extended_k,
            false,
        );
        let got = domain.coeff_to_extended(&Polynomial::new(a0));
        assert_eq!(got.values(), &expected);
    }

    for log_n in min_log_n..=max_log_n {
        let domain = EvaluationDomain::<Fr>::new(5, log_n);
        let mut a0 = a[0..(1 << log_n)].to_vec();
        a0.resize(domain.extended_len(), f(0));
        let mut expected = reference(
            &a0,
            domain.extended_omega,
            domain.extended_omega_inv,
            domain.extended_k,
            true,
        );
        scale(&mut expected, &domain.extended_ifft_divisor);
        domain.distribute_powers_zeta(&mut expected, false);
        let got = domain.extended_to_coeff(Polynomial::new(a0));
        assert_eq!(got.values(), &expected);
    }
}

#[test]
fn test_ifft_many() {
    let min_log_n = 10;
    let max_log_n = 13;
    let a = random_column(1 << max_log_n);
    for log_n in min_log_n..=max_log_n {
        let a0 = a[0..(1 << log_n)].to_vec();
        let domain = EvaluationDomain::<Fr>::new(1, log_n);
        let task_num = 15;
        let a0_many: Vec<Polynomial<Fr, LagrangeCoeff>> =
            (0..task_num).map(|_| Polynomial::new(a0.clone())).collect();
        let mut result_base = reference(&a0, domain.omega, domain.omega_inv, log_n, true);
        scale(&mut result_base, &domain.ifft_divisor);
        let result_many = domain.lagrange_to_coeff_many(a0_many);
        assert_eq!(result_many.len(), task_num);
        for result in result_many.iter() {
            assert_eq!(result.values(), &result_base);
        }
    }
}

#[test]
fn test_cosetfft_many() {
    let log_n = 12;
    let domain = EvaluationDomain::<Fr>::new(5, log_n);
    let a0 = random_column(1 << domain.k);
    let task_num = 15;
    let a0_many: Vec<Polynomial<Fr, Coeff>> =
        (0..task_num).map(|_| Polynomial::new(a0.clone())).collect();

    let mut cpu_result = a0.clone();
    cpu_result.resize(domain.extended_len(), f(0));
    domain.distribute_powers_zeta(&mut cpu_result, true);
    let cpu_result = reference(
        &cpu_result,
        domain.extended_omega,
        domain.extended_omega_inv,
        domain.extended_k,
        false,
    );

    let result_many = domain.coeff_to_extended_many(&a0_many);
    assert_eq!(result_many.len(), task_num);
    for result in result_many.iter() {
        assert_eq!(result.values(), &cpu_result);
    }
    let single_result = domain.coeff_to_extended(&a0_many[0]);
    assert_eq!(single_result.values(), &cpu_result);
}

#[test]
fn sizes_of_a_domain() {
    let domain = EvaluationDomain::<Fr>::new(5, 4);
    assert_eq!((domain.k(), domain.extended_k()), (4, 6));
    assert_eq!((domain.get_n(), domain.rows(), domain.extended_len()), (16, 16, 64));
    assert_eq!(domain.get_quotient_poly_degree(), 4);
    assert_eq!(domain.get_omega().pow_vartime(16), f(1));
    assert_ne!(domain.get_omega().pow_vartime(8), f(1));
    assert_eq!(domain.get_omega().mul(&domain.get_omega_inv()), f(1));
    assert_eq!(domain.get_extended_omega().pow_vartime(4), domain.get_omega());
    // A quotient of degree 2 still fits into the next power of two.
    assert_eq!(EvaluationDomain::<Fr>::new(3, 4).extended_k(), 5);
    assert_eq!(EvaluationDomain::<Fr>::new(4, 4).extended_k(), 6);
}

#[test]
fn constant_and_empty_polynomials() {
    let domain = EvaluationDomain::<Fr>::new(3, 2);
    assert_eq!(domain.empty_coeff().values(), &vec![f(0); 4]);
    assert_eq!(domain.constant_lagrange(f(7)).values(), &vec![f(7); 4]);
    assert_eq!(domain.constant_extended(f(7)).values(), &vec![f(7); 8]);
    assert_eq!(domain.empty_extended().values(), &vec![f(0); 8]);
    let assigned = domain.lagrange_assigned_from_vec(vec![GpuAssigned::Trivial(f(3)); 4]);
    assert_eq!(assigned.values()[2].evaluate(), f(3));
}

#[test]
fn rotating_an_extended_polynomial() {
    let domain = EvaluationDomain::<Fr>::new(3, 2);
    let values: Vec<Fr> = (0..8).map(f).collect();
    let poly = Polynomial::<Fr, ExtendedLagrangeCoeff>::new(values);
    let next = domain.rotate_extended(&poly, Rotation::next());
    assert_eq!(next.values(), &vec![f(2), f(3), f(4), f(5), f(6), f(7), f(0), f(1)]);
    let back = domain.rotate_extended(&next, Rotation::prev());
    assert_eq!(back.values(), poly.values());
    let x = random();
    assert_eq!(domain.rotate_omega(x, Rotation(3)), x.mul(&domain.omega.pow_vartime(3)));
    assert_eq!(domain.rotate_omega(domain.rotate_omega(x, Rotation(-2)), Rotation(2)), x);
}

#[test]
fn dividing_by_the_vanishing_polynomial() {
    let domain = EvaluationDomain::<Fr>::new(3, 2);
    // (X^4 - 1)(3 + 5 X)
    let product = vec![f(3).neg(), f(5).neg(), f(0), f(0), f(3), f(5), f(0), f(0)];
    let mut values = product.clone();
    domain.distribute_powers_zeta(&mut values, true);
    let values = fft(&values, domain.extended_omega, domain.extended_k);
    let extended = Polynomial::<Fr, ExtendedLagrangeCoeff>::new(values);
    let quotient = domain.divide_by_vanishing_poly(&extended);
    let coefficients = domain.extended_to_coeff(quotient);
    assert_eq!(coefficients.values()[..3], [f(3), f(5), f(0)]);
    assert!(coefficients.values()[2..].iter().all(|c| *c == f(0)));
}

#[test]
fn polynomials_on_the_device() {
    assert_eq!(chunk_offsets(12, 4), vec![0, 4, 8]);
    let host = MaybeDevice::<Fr, Coeff>::Host(Polynomial::new(vec![f(1), f(2)]));
    let device = MaybeDevice::<Fr, Coeff>::Device(DevicePolynomial::from_device(9, 2));
    assert!(!host.is_device() && device.is_device());
    assert_eq!((host.len(), device.len()), (2, 2));
    let copied = vec![f(8), f(9)];
    assert_eq!(host.values_host(&copied), &vec![f(1), f(2)]);
    assert_eq!(device.values_host(&copied), &copied);
    let both = vec![host, device];
    assert!(!all_on_device(&both));
    assert!(all_on_device(&vec![MaybeDevice::<Fr, Coeff>::Device(
        DevicePolynomial::from_device(1, 4)
    )]));
}
