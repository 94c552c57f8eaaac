use halo2_gpu::field::bn256::Fr;
use halo2_gpu::field::Field;
use halo2_gpu::poly::arithmetic::powers;
use halo2_gpu::poly::gwc::{witness_at_point, OpenedAt, ProverGWC};
use halo2_gpu::poly::point_sets::{construct_intermediate_sets, OpeningQuery};
use halo2_gpu::poly::query::{PolyRef, ProverQuery, VerifierQuery};
use halo2_gpu::poly::residency::{
    all_on_device, chunk_offsets, DevicePolynomial, MaybeDevice,
};
use halo2_gpu::poly::shplonk::{witness_polynomial, Commitment, ProverSHPLONK, RotationSet};
use halo2_gpu::poly::{Coeff, Polynomial};
use rand::RngCore;

fn f(v: u64) -> Fr {
    Fr::from_u64(v)
}

fn random() -> Fr {
    let mut rng = rand::thread_rng();
    let limbs = [rng.next_u64(), rng.next_u64(), rng.next_u64(), rng.next_u64() >> 4];
    Fr::from_limbs(limbs).unwrap()
}

fn random_poly(n: usize) -> Polynomial<Fr, Coeff> {
    Polynomial::new((0..n).map(|_| random()).collect())
}

fn eval(poly: &Polynomial<Fr, Coeff>, x: Fr) -> Fr {
    Fr::eval_polynomial(poly.values(), x)
}

#[test]
fn test_multiopen_poly_calculation() {
    let batch_size = 31;
    let n = 1 << 12;
    let (v, z, x) = (random(), random(), random());
    let polys: Vec<_> = (0..batch_size).map(|_| random_poly(n)).collect();
    let witness = witness_at_point(&polys.iter().collect(), v, z, n);
    // sum v^i p_i(x) = (x - z) w(x) + sum v^i p_i(z)
    let folded = |at: Fr| {
        polys
            .iter()
            .zip(powers(v, batch_size))
            .fold(f(0), |acc, (p, power)| acc.add(&eval(p, at).mul(&power)))
    };
    let w = Fr::eval_polynomial(&witness, x);
    assert_eq!(folded(x).sub(&folded(z)), w.mul(&x.sub(&z)));
}

#[test]
fn gwc_makes_a_witness_for_each_point() {
    let n = 8;
    let (a, b) = (random_poly(n), random_poly(n));
    let points =
        vec![OpenedAt { point: f(3), polys: vec![&a, &b] }, OpenedAt { point: f(4), polys: vec![&b] }];
    let v = random();
    assert!(!ProverGWC::query_instance());
    let witnesses = ProverGWC::new(n).create_proof(v, &points);
    assert_eq!(witnesses.len(), 2);
    assert_eq!(witnesses[0], witness_at_point(&vec![&a, &b], v, f(3), n));
    assert_eq!(witnesses[1], witness_at_point(&vec![&b], v, f(4), n));
}

#[test]
fn test_batch_eval_polynomial() {
    let batch_size = 31;
    for log_n in 3..=12 {
        let n = 1 << log_n;
        let polys: Vec<_> = (0..batch_size).map(|_| random_poly(n)).collect();
        let points: Vec<Fr> = (0..batch_size).map(|_| random()).collect();
        let queries: Vec<ProverQuery<'_, Fr>> = polys
            .iter()
            .zip(points.iter())
            .map(|(poly, point)| ProverQuery { point: *point, poly: PolyRef::Host(poly) })
            .collect();
        let values = ProverQuery::batch_get_evals(&queries, &vec![]);
        for i in 0..batch_size {
            assert_eq!(values[i], eval(&polys[i], points[i]));
            assert_eq!(queries[i].get_eval(), Some(values[i]));
        }
    }
}

#[test]
fn device_queries_take_the_values_of_the_device() {
    let a = random_poly(4);
    let device: DevicePolynomial<Coeff> = DevicePolynomial::from_device(17, 4);
    let queries = vec![
        ProverQuery { point: f(1), poly: PolyRef::Device(&device) },
        ProverQuery { point: f(2), poly: PolyRef::Host(&a) },
        ProverQuery { point: f(3), poly: PolyRef::Device(&device) },
    ];
    assert_eq!(ProverQuery::device_slots(&queries), vec![0, 2]);
    assert_eq!(queries[0].get_eval(), None);
    let values = ProverQuery::batch_get_evals(&queries, &vec![f(100), f(200)]);
    assert_eq!(values, vec![f(100), eval(&a, f(2)), f(200)]);
}

#[test]
fn verifier_queries_hold_what_they_were_made_of() {
    let commitment = 5u64;
    let query = VerifierQuery::<'_, Fr, u64, u8>::new_commitment(&commitment, f(2), f(3));
    assert_eq!(query.get_point(), f(2));
    assert_eq!(query.get_eval(), f(3));
    let msm = 7u8;
    let query = VerifierQuery::<'_, Fr, u64, u8>::new_msm(&msm, f(4), f(5));
    assert_eq!((query.get_point(), query.get_eval()), (f(4), f(5)));
}

#[test]
fn residency() {
    let host: MaybeDevice<Fr, Coeff> = MaybeDevice::Host(random_poly(4));
    let device: MaybeDevice<Fr, Coeff> = MaybeDevice::Device(DevicePolynomial::from_device(1, 3));
    assert!(!host.is_device() && device.is_device());
    assert_eq!((host.len(), device.len()), (4, 3));
    let copied = vec![f(1), f(2), f(3)];
    assert_eq!(device.values_host(&copied), &copied);
    assert_eq!(device.to_host_polynomial(copied.clone()).values(), &copied);
    let values = host.values_host(&copied).clone();
    assert_eq!(host.to_host_polynomial(vec![]).values(), &values);
    assert!(!all_on_device(&vec![host, device]));
    assert_eq!(chunk_offsets(12, 4), vec![0, 4, 8]);
}

#[test]
fn polynomials_with_the_same_points_share_a_set() {
    let q = |poly: usize, point: u64, eval: u64| OpeningQuery { poly, point: f(point), eval: f(eval) };
    // 3 at {1, 2}, 5 at {1}, 4 at {2, 1}, 6 at {1}
    let sets = construct_intermediate_sets(&vec![
        q(3, 1, 10),
        q(5, 1, 20),
        q(3, 2, 11),
        q(4, 2, 31),
        q(4, 1, 30),
        q(6, 1, 40),
    ]);
    assert_eq!(sets.super_point_set, vec![f(1), f(2)]);
    assert_eq!(sets.rotation_sets.len(), 2);
    let set = &sets.rotation_sets[0];
    assert_eq!(set.points, vec![f(1), f(2)]);
    assert_eq!(set.members.iter().map(|m| m.poly).collect::<Vec<_>>(), vec![3, 4]);
    assert_eq!(set.members[1].evals, vec![f(30), f(31)]);
    let set = &sets.rotation_sets[1];
    assert_eq!(set.points, vec![f(1)]);
    assert_eq!(set.members.iter().map(|m| m.poly).collect::<Vec<_>>(), vec![5, 6]);
    assert_eq!(set.members[1].evals, vec![f(40)]);
}

#[test]
fn shplonk_linearisation_vanishes() {
    let n = 8;
    let (a, b) = (random_poly(n), random_poly(n));
    let (p, q) = (f(11), f(12));
    let points = vec![p, q];
    let sets = vec![
        RotationSet {
            points: vec![p, q],
            commitments: vec![Commitment {
                evals: vec![eval(&a, p), eval(&a, q)],
                poly: Polynomial::new(a.values().clone()),
            }],
        },
        RotationSet {
            points: vec![p],
            commitments: vec![Commitment {
                evals: vec![eval(&b, p)],
                poly: Polynomial::new(b.values().clone()),
            }],
        },
    ];
    let (y, v, u) = (random(), random(), random());
    let opening = ProverSHPLONK::new(n).create_proof(y, v, sets);
    let h = opening.h.clone();
    // (a - r_a) / ((X - p) (X - q)) + v (b - r_b) / (X - p) at x
    let x = random();
    let low = Fr::lagrange_interpolate(&points, &vec![eval(&a, p), eval(&a, q)]);
    let z = Fr::evaluate_vanishing_polynomial(&points, x).invert().unwrap();
    let first = eval(&a, x).sub(&Fr::eval_polynomial(&low, x)).mul(&z);
    let second = eval(&b, x).sub(&eval(&b, p)).mul(&x.sub(&p).invert().unwrap());
    assert_eq!(Fr::eval_polynomial(&h, x), first.add(&v.mul(&second)));

    let witness = witness_polynomial(
        &opening.rotation_sets,
        &points,
        &opening.h,
        opening.p_xs,
        y,
        v,
        u,
        n,
    );
    // L(X) = (X - u) W(X), as L vanishes at u.
    let low_u = Fr::eval_polynomial(&low, u);
    let zt = Fr::evaluate_vanishing_polynomial(&points, u);
    let l_x = eval(&a, x)
        .sub(&low_u)
        .add(&v.mul(&u.sub(&q)).mul(&eval(&b, x).sub(&eval(&b, p))))
        .sub(&zt.mul(&Fr::eval_polynomial(&h, x)));
    assert_eq!(l_x, x.sub(&u).mul(&Fr::eval_polynomial(&witness, x)));
}
