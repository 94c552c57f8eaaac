//! The scalar field of the BN254 curve.

use crate::field::{fadd, finv, fmul, fneg, fpow, fsub, is_inverse, Field};
use crate::poly::arithmetic::{poly_eval, vanishing};
use crate::text::hex_digits;
use ff::{BatchInvert, Field as OutsideField, PrimeField, WithSmallOrderMulGroup};
use halo2_axiom::arithmetic::{
    eval_polynomial, evaluate_vanishing_polynomial, lagrange_interpolate,
};
use halo2curves_axiom::bn256::Fr as OutsideFr;
use rayon::slice::ParallelSliceMut;
use vstd::arithmetic::div_mod::lemma_small_mod;
use vstd::prelude::*;

verus! {

/// The order of the scalar field.
pub open spec fn fr_modulus() -> int {
    0x30644e72e131a029b85045b68181585d2833e84879b9709143e1f593f0000001int
}

/// A root of unity of order `2^28`.
pub open spec fn fr_root_of_unity_val() -> int {
    0x03ddb9f5166d18b798865ea93dd31f743215cf6dd39329c8d34f1ed960c37c9cint
}

/// A non-trivial cube root of one.
pub open spec fn fr_zeta_val() -> int {
    0x30644e72e131a029048b6e193fd84104cc37a73fec2bc5e9b8ca0b2d36636f23int
}

/// A generator of the subgroup of odd order.
pub open spec fn fr_delta_val() -> int {
    0x09226b6e22c6f0ca64ec26aad4c86e715b5f898e5e963f25870e56bbe533e9a2int
}

/// The integer that four little-endian limbs stand for.
pub open spec fn limbs_value(l: Seq<u64>) -> int {
    l[0] + l[1] * 0x1_0000_0000_0000_0000int + l[2]
        * 0x1_0000_0000_0000_0000_0000_0000_0000_0000int + l[3]
        * 0x1_0000_0000_0000_0000_0000_0000_0000_0000_0000_0000_0000_0000int
}

/// An element of the scalar field of BN254, held as its canonical
/// representative in four little-endian limbs.
#[derive(Clone, Copy, PartialEq, Eq, Debug, Hash)]
pub struct Fr {
    limbs: [u64; 4],
}

/// The canonical representative that an element stands for.
pub closed spec fn fr_val(a: Fr) -> int {
    limbs_value(a.limbs@) % fr_modulus()
}

/// The canonical representatives of a sequence of elements.
pub open spec fn fr_vals(s: Seq<Fr>) -> Seq<int> {
    Seq::new(s.len(), |i: int| fr_val(s[i]))
}

/// `Fr::add` of halo2curves: the sum modulo the field's order.
#[verifier::external_body]
fn fr_add(a: [u64; 4], b: [u64; 4]) -> (r: [u64; 4])
    ensures
        limbs_value(r@) == fadd(fr_modulus(), limbs_value(a@), limbs_value(b@)),
{
    (OutsideFr::from_raw(a) + OutsideFr::from_raw(b)).into()
}

/// `Fr::sub` of halo2curves: the difference modulo the field's order.
#[verifier::external_body]
fn fr_sub(a: [u64; 4], b: [u64; 4]) -> (r: [u64; 4])
    ensures
        limbs_value(r@) == fsub(fr_modulus(), limbs_value(a@), limbs_value(b@)),
{
    (OutsideFr::from_raw(a) - OutsideFr::from_raw(b)).into()
}

/// `Fr::mul` of halo2curves: the product modulo the field's order.
#[verifier::external_body]
fn fr_mul(a: [u64; 4], b: [u64; 4]) -> (r: [u64; 4])
    ensures
        limbs_value(r@) == fmul(fr_modulus(), limbs_value(a@), limbs_value(b@)),
{
    (OutsideFr::from_raw(a) * OutsideFr::from_raw(b)).into()
}

/// `Fr::neg` of halo2curves: the negative modulo the field's order.
#[verifier::external_body]
fn fr_neg(a: [u64; 4]) -> (r: [u64; 4])
    ensures
        limbs_value(r@) == fneg(fr_modulus(), limbs_value(a@)),
{
    (-OutsideFr::from_raw(a)).into()
}

/// `Fr::double` of halo2curves: twice the element.
#[verifier::external_body]
fn fr_double(a: [u64; 4]) -> (r: [u64; 4])
    ensures
        limbs_value(r@) == fadd(fr_modulus(), limbs_value(a@), limbs_value(a@)),
{
    OutsideFr::from_raw(a).double().into()
}

/// `Fr::square` of halo2curves: the element times itself.
#[verifier::external_body]
fn fr_square(a: [u64; 4]) -> (r: [u64; 4])
    ensures
        limbs_value(r@) == fmul(fr_modulus(), limbs_value(a@), limbs_value(a@)),
{
    OutsideFr::from_raw(a).square().into()
}

/// `Fr::invert` of halo2curves: fails on zero alone, and otherwise gives the
/// residue whose product with the argument is one.
#[verifier::external_body]
fn fr_invert(a: [u64; 4]) -> (r: Option<[u64; 4]>)
    requires
        limbs_value(a@) < fr_modulus(),
    ensures
        r is None <==> limbs_value(a@) == 0,
        r matches Some(b) ==> is_inverse(fr_modulus(), limbs_value(a@), limbs_value(b@)),
{
    Option::<OutsideFr>::from(OutsideFr::from_raw(a).invert()).map(|b: OutsideFr| b.into())
}

/// `Field::pow_vartime` of ff: the power with the exponent as its only limb.
#[verifier::external_body]
fn fr_pow_vartime(a: [u64; 4], exponent: u64) -> (r: [u64; 4])
    ensures
        limbs_value(r@) == fpow(fr_modulus(), limbs_value(a@), exponent as nat),
{
    OutsideFr::from_raw(a).pow_vartime([exponent]).into()
}

/// `Fr::from(u64)` of halo2curves: the residue of the integer, which is below
/// the order.
#[verifier::external_body]
fn fr_from_u64(v: u64) -> (r: [u64; 4])
    ensures
        limbs_value(r@) == v,
{
    OutsideFr::from(v).into()
}

/// `BatchInvert::batch_invert` of ff: inverts every element but the zeros,
/// which stay as they are.
#[verifier::external_body]
fn fr_batch_invert(values: &Vec<Fr>) -> (r: Vec<Fr>)
    ensures
        r@.len() == values@.len(),
        forall|i: int|
            0 <= i < values@.len() ==> fr_val(#[trigger] r@[i]) == finv(
                fr_modulus(),
                fr_val(values@[i]),
            ),
{
    let mut outside: Vec<OutsideFr> = values.iter().map(|v| OutsideFr::from_raw(v.limbs)).collect();
    outside.iter_mut().batch_invert();
    outside.into_iter().map(|v| Fr { limbs: v.into() }).collect()
}

/// `ParallelSliceMut::par_sort` of rayon over halo2curves' order of `Fr`, which
/// compares the canonical representatives: the same elements in ascending
/// order.
#[verifier::external_body]
fn fr_par_sort(values: &Vec<Fr>) -> (r: Vec<Fr>)
    ensures
        fr_vals(r@).to_multiset() == fr_vals(values@).to_multiset(),
        r@.len() == values@.len(),
        forall|i: int, j: int|
            0 <= i <= j < r@.len() ==> fr_val(#[trigger] r@[i]) <= fr_val(#[trigger] r@[j]),
{
    let mut outside: Vec<OutsideFr> = values.iter().map(|v| OutsideFr::from_raw(v.limbs)).collect();
    outside.par_sort();
    outside.into_iter().map(|v| Fr { limbs: v.into() }).collect()
}

/// `arithmetic::eval_polynomial` of halo2_axiom: the value at the point of the
/// polynomial with the given coefficients, lowest degree first.
#[verifier::external_body]
fn fr_eval_polynomial(poly: &Vec<Fr>, point: Fr) -> (r: Fr)
    ensures
        fr_val(r) == poly_eval(fr_modulus(), fr_vals(poly@), fr_val(point)),
{
    let outside: Vec<OutsideFr> = poly.iter().map(|v| OutsideFr::from_raw(v.limbs)).collect();
    let value = eval_polynomial(&outside, OutsideFr::from_raw(point.limbs));
    Fr { limbs: value.into() }
}

/// `arithmetic::evaluate_vanishing_polynomial` of halo2_axiom: the product of
/// the differences between the point and the roots.
#[verifier::external_body]
fn fr_evaluate_vanishing_polynomial(roots: &Vec<Fr>, z: Fr) -> (r: Fr)
    ensures
        fr_val(r) == vanishing(fr_modulus(), fr_vals(roots@), fr_val(z)),
{
    let outside: Vec<OutsideFr> = roots.iter().map(|v| OutsideFr::from_raw(v.limbs)).collect();
    let value = evaluate_vanishing_polynomial(&outside, OutsideFr::from_raw(z.limbs));
    Fr { limbs: value.into() }
}

/// `arithmetic::lagrange_interpolate` of halo2_axiom: as many coefficients as
/// there are points, of a polynomial with the given values at them. The points
/// must differ.
#[verifier::external_body]
fn fr_lagrange_interpolate(points: &Vec<Fr>, evals: &Vec<Fr>) -> (r: Vec<Fr>)
    requires
        points@.len() == evals@.len(),
        forall|i: int, j: int|
            0 <= i < j < points@.len() ==> fr_val(#[trigger] points@[i]) != fr_val(
                #[trigger] points@[j],
            ),
    ensures
        r@.len() == points@.len(),
        forall|i: int|
            0 <= i < points@.len() ==> poly_eval(
                fr_modulus(),
                fr_vals(r@),
                fr_val(#[trigger] points@[i]),
            ) == fr_val(evals@[i]),
{
    let xs: Vec<OutsideFr> = points.iter().map(|v| OutsideFr::from_raw(v.limbs)).collect();
    let ys: Vec<OutsideFr> = evals.iter().map(|v| OutsideFr::from_raw(v.limbs)).collect();
    let coeffs = lagrange_interpolate(&xs, &ys);
    coeffs.into_iter().map(|v| Fr { limbs: v.into() }).collect()
}

/// `Debug` of halo2curves' `Fr`: `0x` and the 64 hexadecimal digits of the
/// canonical representative.
#[verifier::external_body]
fn fr_debug_string(a: [u64; 4]) -> (r: String)
    requires
        limbs_value(a@) < fr_modulus(),
    ensures
        r@ == seq!['0', 'x'] + hex_digits(limbs_value(a@) as nat, 64),
{
    format!("{:?}", OutsideFr::from_raw(a))
}

/// `PrimeField::ROOT_OF_UNITY` of halo2curves' `Fr`.
#[verifier::external_body]
fn fr_root_of_unity() -> (r: [u64; 4])
    ensures
        limbs_value(r@) == fr_root_of_unity_val(),
{
    OutsideFr::ROOT_OF_UNITY.into()
}

/// `WithSmallOrderMulGroup::<3>::ZETA` of halo2curves' `Fr`.
#[verifier::external_body]
fn fr_zeta() -> (r: [u64; 4])
    ensures
        limbs_value(r@) == fr_zeta_val(),
{
    OutsideFr::ZETA.into()
}

/// `PrimeField::DELTA` of halo2curves' `Fr`.
#[verifier::external_body]
fn fr_delta() -> (r: [u64; 4])
    ensures
        limbs_value(r@) == fr_delta_val(),
{
    OutsideFr::DELTA.into()
}

impl Fr {
    /// Whether the limbs hold the canonical representative.
    spec fn canonical(self) -> bool {
        limbs_value(self.limbs@) < fr_modulus()
    }

    #[verifier::type_invariant]
    spec fn inv(self) -> bool {
        self.canonical()
    }

    /// The element that four little-endian limbs stand for, where they hold a
    /// canonical representative.
    pub fn from_limbs(limbs: [u64; 4]) -> (r: Option<Self>)
        ensures
            r is Some <==> limbs_value(limbs@) < fr_modulus(),
            r matches Some(x) ==> x.val() == limbs_value(limbs@),
    {
        let m3: u64 = 0x30644e72e131a029;
        let m2: u64 = 0xb85045b68181585d;
        let m1: u64 = 0x2833e84879b97091;
        let m0: u64 = 0x43e1f593f0000001;
        let below: bool = limbs[3] < m3 || (limbs[3] == m3 && (limbs[2] < m2 || (limbs[2] == m2
            && (limbs[1] < m1 || (limbs[1] == m1 && limbs[0] < m0)))));
        if below {
            let r = Fr { limbs };
            proof {
                lemma_val_of_canonical(r);
            }
            Some(r)
        } else {
            None
        }
    }

    /// The canonical representative in little-endian limbs.
    pub fn to_limbs(&self) -> (r: [u64; 4])
        ensures
            limbs_value(r@) == self.val(),
    {
        proof {
            use_type_invariant(self);
            lemma_val_of_canonical(*self);
        }
        self.limbs
    }
}

proof fn lemma_val_of_canonical(a: Fr)
    requires
        a.canonical(),
    ensures
        a.val() == limbs_value(a.limbs@),
{
    lemma_small_mod(limbs_value(a.limbs@) as nat, fr_modulus() as nat);
}

/// The lowest limb and the rest are determined by their sum.
proof fn lemma_lowest_limb(a: u64, x: int, b: u64, y: int)
    requires
        a + x * 0x1_0000_0000_0000_0000int == b + y * 0x1_0000_0000_0000_0000int,
    ensures
        a == b,
        x == y,
{
}

proof fn lemma_limbs_unique(a: Seq<u64>, b: Seq<u64>)
    requires
        limbs_value(a) == limbs_value(b),
    ensures
        a[0] == b[0],
        a[1] == b[1],
        a[2] == b[2],
        a[3] == b[3],
{
    let base = 0x1_0000_0000_0000_0000int;
    let (a3, b3) = (a[3] as int, b[3] as int);
    let (a2, b2) = (a[2] + a3 * base, b[2] + b3 * base);
    let (a1, b1) = (a[1] + a2 * base, b[1] + b2 * base);
    lemma_lowest_limb(a[0], a1, b[0], b1);
    lemma_lowest_limb(a[1], a2, b[1], b2);
    lemma_lowest_limb(a[2], a3, b[2], b3);
}

impl Field for Fr {
    open spec fn modulus() -> int {
        fr_modulus()
    }

    open spec fn val(self) -> int {
        fr_val(self)
    }

    open spec fn two_adicity() -> nat {
        28
    }

    open spec fn root_of_unity_val() -> int {
        fr_root_of_unity_val()
    }

    open spec fn zeta_val() -> int {
        fr_zeta_val()
    }

    open spec fn delta_val() -> int {
        fr_delta_val()
    }

    proof fn lemma_modulus() {
    }

    proof fn lemma_field() {
        crate::field::bn256_prime::lemma_modulus_prime();
    }

    proof fn lemma_val_range(self) {
    }

    proof fn lemma_constants() {
        crate::field::bn256_roots::lemma_root_of_unity();
    }

    fn zero() -> (r: Self) {
        let r = Fr { limbs: [0, 0, 0, 0] };
        proof {
            lemma_val_of_canonical(r);
        }
        r
    }

    fn one() -> (r: Self) {
        let r = Fr { limbs: [1, 0, 0, 0] };
        proof {
            lemma_val_of_canonical(r);
        }
        r
    }

    fn from_u64(v: u64) -> (r: Self) {
        let r = Fr { limbs: fr_from_u64(v) };
        proof {
            lemma_val_of_canonical(r);
            lemma_small_mod(v as nat, fr_modulus() as nat);
        }
        r
    }

    fn add(&self, rhs: &Self) -> (r: Self) {
        proof {
            use_type_invariant(self);
            use_type_invariant(rhs);
            lemma_val_of_canonical(*self);
            lemma_val_of_canonical(*rhs);
        }
        let r = Fr { limbs: fr_add(self.limbs, rhs.limbs) };
        proof {
            lemma_val_of_canonical(r);
        }
        r
    }

    fn sub(&self, rhs: &Self) -> (r: Self) {
        proof {
            use_type_invariant(self);
            use_type_invariant(rhs);
            lemma_val_of_canonical(*self);
            lemma_val_of_canonical(*rhs);
        }
        let r = Fr { limbs: fr_sub(self.limbs, rhs.limbs) };
        proof {
            lemma_val_of_canonical(r);
        }
        r
    }

    fn mul(&self, rhs: &Self) -> (r: Self) {
        proof {
            use_type_invariant(self);
            use_type_invariant(rhs);
            lemma_val_of_canonical(*self);
            lemma_val_of_canonical(*rhs);
        }
        let r = Fr { limbs: fr_mul(self.limbs, rhs.limbs) };
        proof {
            lemma_val_of_canonical(r);
        }
        r
    }

    fn neg(&self) -> (r: Self) {
        proof {
            use_type_invariant(self);
            lemma_val_of_canonical(*self);
        }
        let r = Fr { limbs: fr_neg(self.limbs) };
        proof {
            lemma_val_of_canonical(r);
        }
        r
    }

    fn double(&self) -> (r: Self) {
        proof {
            use_type_invariant(self);
            lemma_val_of_canonical(*self);
        }
        let r = Fr { limbs: fr_double(self.limbs) };
        proof {
            lemma_val_of_canonical(r);
        }
        r
    }

    fn square(&self) -> (r: Self) {
        proof {
            use_type_invariant(self);
            lemma_val_of_canonical(*self);
        }
        let r = Fr { limbs: fr_square(self.limbs) };
        proof {
            lemma_val_of_canonical(r);
        }
        r
    }

    fn invert(&self) -> (r: Option<Self>) {
        proof {
            use_type_invariant(self);
            lemma_val_of_canonical(*self);
        }
        match fr_invert(self.limbs) {
            Some(limbs) => {
                let r = Fr { limbs };
                proof {
                    lemma_val_of_canonical(r);
                }
                Some(r)
            },
            None => None,
        }
    }

    fn pow_vartime(&self, exponent: u64) -> (r: Self) {
        proof {
            use_type_invariant(self);
            lemma_val_of_canonical(*self);
            crate::field::lemma_fpow_range(fr_modulus(), limbs_value(self.limbs@), exponent as nat);
        }
        let r = Fr { limbs: fr_pow_vartime(self.limbs, exponent) };
        proof {
            lemma_val_of_canonical(r);
        }
        r
    }

    fn batch_invert(values: &mut Vec<Self>) {
        let inverted = fr_batch_invert(values);
        *values = inverted;
    }

    fn eval_polynomial(poly: &Vec<Self>, point: Self) -> (r: Self) {
        let r = fr_eval_polynomial(poly, point);
        assert(fr_vals(poly@) =~= Seq::new(poly@.len(), |i: int| poly@[i].val()));
        r
    }

    fn evaluate_vanishing_polynomial(roots: &Vec<Self>, z: Self) -> (r: Self) {
        let r = fr_evaluate_vanishing_polynomial(roots, z);
        assert(fr_vals(roots@) =~= Seq::new(roots@.len(), |i: int| roots@[i].val()));
        r
    }

    fn lagrange_interpolate(points: &Vec<Self>, evals: &Vec<Self>) -> (r: Vec<Self>) {
        let r = fr_lagrange_interpolate(points, evals);
        assert(fr_vals(r@) =~= Seq::new(r@.len(), |i: int| r@[i].val()));
        r
    }

    fn equals(&self, rhs: &Self) -> (r: bool) {
        proof {
            use_type_invariant(self);
            use_type_invariant(rhs);
            lemma_val_of_canonical(*self);
            lemma_val_of_canonical(*rhs);
            if self.val() == rhs.val() {
                lemma_limbs_unique(self.limbs@, rhs.limbs@);
            }
        }
        self.limbs[0] == rhs.limbs[0] && self.limbs[1] == rhs.limbs[1] && self.limbs[2]
            == rhs.limbs[2] && self.limbs[3] == rhs.limbs[3]
    }

    fn par_sort(values: &mut Vec<Self>) {
        let sorted = fr_par_sort(values);
        proof {
            assert(Seq::new(sorted@.len(), |i: int| sorted@[i].val()) =~= fr_vals(sorted@));
            assert(Seq::new(values@.len(), |i: int| values@[i].val()) =~= fr_vals(values@));
        }
        *values = sorted;
    }

    fn debug_string(&self) -> (r: String) {
        proof {
            use_type_invariant(self);
            lemma_val_of_canonical(*self);
        }
        fr_debug_string(self.limbs)
    }

    fn s() -> (r: u32) {
        28
    }

    fn root_of_unity() -> (r: Self) {
        let r = Fr { limbs: fr_root_of_unity() };
        proof {
            lemma_val_of_canonical(r);
        }
        r
    }

    fn zeta() -> (r: Self) {
        let r = Fr { limbs: fr_zeta() };
        proof {
            lemma_val_of_canonical(r);
        }
        r
    }

    fn delta() -> (r: Self) {
        let r = Fr { limbs: fr_delta() };
        proof {
            lemma_val_of_canonical(r);
        }
        r
    }
}

} // verus!
