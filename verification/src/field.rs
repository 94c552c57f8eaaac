//! Prime fields: the residues that specifications compute with, and the trait
//! that executable field elements implement.

pub mod bn256;
pub mod bn256_roots;
pub mod bn256_prime;
pub mod primality;
pub mod small_primes;

use crate::poly::arithmetic::{poly_eval, vanishing};
use crate::text::hex_digits;
use vstd::arithmetic::power2::pow2;
use vstd::prelude::*;
use vstd::arithmetic::div_mod::{
    lemma_add_mod_noop, lemma_mod_twice, lemma_mul_mod_noop_left, lemma_mul_mod_noop_right,
    lemma_small_mod, lemma_sub_mod_noop,
};

verus! {

/// `a + b` modulo `p`.
pub open spec fn fadd(p: int, a: int, b: int) -> int {
    (a + b) % p
}

/// `a - b` modulo `p`.
pub open spec fn fsub(p: int, a: int, b: int) -> int {
    (a - b) % p
}

/// `a * b` modulo `p`.
pub open spec fn fmul(p: int, a: int, b: int) -> int {
    (a * b) % p
}

/// `-a` modulo `p`.
pub open spec fn fneg(p: int, a: int) -> int {
    (-a) % p
}

/// `a` to the power `n`, modulo `p`.
pub open spec fn fpow(p: int, a: int, n: nat) -> int
    decreases n,
{
    if n == 0 {
        1int % p
    } else {
        fmul(p, fpow(p, a, (n - 1) as nat), a)
    }
}

/// Whether `b` is the inverse of `a` modulo `p`.
pub open spec fn is_inverse(p: int, a: int, b: int) -> bool {
    0 <= b < p && fmul(p, a, b) == 1
}

/// The inverse of `a` modulo `p`, or zero where there is none.
pub open spec fn finv(p: int, a: int) -> int {
    if has_inverse(p, a) {
        choose|b: int| is_inverse(p, a, b)
    } else {
        0
    }
}

/// Whether `a` has an inverse modulo `p`.
pub open spec fn has_inverse(p: int, a: int) -> bool {
    exists|b: int| is_inverse(p, a, b)
}

/// Whether the residues modulo `p` form a field.
pub open spec fn is_field(p: int) -> bool {
    &&& p > 1
    &&& forall|a: int| 0 < a < p ==> #[trigger] has_inverse(p, a)
}

/// A prime field whose elements the verified code computes with.
///
/// `val` is the canonical representative of an element in `0..modulus()`.
pub trait Field: Copy {
    /// The field's order.
    spec fn modulus() -> int;

    /// The canonical representative of the element.
    spec fn val(self) -> int;

    /// The exponent `S` of the largest power of two that divides `modulus() - 1`.
    spec fn two_adicity() -> nat;

    /// A root of unity of order `2^S`.
    spec fn root_of_unity_val() -> int;

    /// A non-trivial cube root of one.
    spec fn zeta_val() -> int;

    /// A generator of the subgroup of odd order `t`, where `t * 2^S = modulus() - 1`.
    spec fn delta_val() -> int;

    proof fn lemma_modulus()
        ensures
            Self::modulus() > 2,
            Self::modulus() % 2 == 1,
            Self::two_adicity() < 64,
    ;

    /// Every residue but zero has an inverse.
    proof fn lemma_field()
        ensures
            is_field(Self::modulus()),
    ;

    proof fn lemma_val_range(self)
        ensures
            0 <= self.val() < Self::modulus(),
    ;

    proof fn lemma_constants()
        ensures
            0 <= Self::root_of_unity_val() < Self::modulus(),
            0 <= Self::zeta_val() < Self::modulus(),
            0 <= Self::delta_val() < Self::modulus(),
            fmul(
                Self::modulus(),
                fmul(Self::modulus(), Self::zeta_val(), Self::zeta_val()),
                Self::zeta_val(),
            ) == 1,
            Self::zeta_val() != 1,
            fpow(Self::modulus(), Self::root_of_unity_val(), pow2(Self::two_adicity())) == 1,
            Self::two_adicity() > 0,
            fpow(
                Self::modulus(),
                Self::root_of_unity_val(),
                pow2((Self::two_adicity() - 1) as nat),
            ) == Self::modulus() - 1,
    ;

    fn zero() -> (r: Self)
        ensures
            r.val() == 0,
    ;

    fn one() -> (r: Self)
        ensures
            r.val() == 1,
    ;

    fn from_u64(v: u64) -> (r: Self)
        ensures
            r.val() == v as int % Self::modulus(),
    ;

    fn add(&self, rhs: &Self) -> (r: Self)
        ensures
            r.val() == fadd(Self::modulus(), self.val(), rhs.val()),
    ;

    fn sub(&self, rhs: &Self) -> (r: Self)
        ensures
            r.val() == fsub(Self::modulus(), self.val(), rhs.val()),
    ;

    fn mul(&self, rhs: &Self) -> (r: Self)
        ensures
            r.val() == fmul(Self::modulus(), self.val(), rhs.val()),
    ;

    fn neg(&self) -> (r: Self)
        ensures
            r.val() == fneg(Self::modulus(), self.val()),
    ;

    fn double(&self) -> (r: Self)
        ensures
            r.val() == fadd(Self::modulus(), self.val(), self.val()),
    ;

    fn square(&self) -> (r: Self)
        ensures
            r.val() == fmul(Self::modulus(), self.val(), self.val()),
    ;

    /// The inverse, which every element but zero has.
    fn invert(&self) -> (r: Option<Self>)
        ensures
            r is None <==> self.val() == 0,
            r matches Some(b) ==> is_inverse(Self::modulus(), self.val(), b.val()),
    ;

    fn pow_vartime(&self, exponent: u64) -> (r: Self)
        ensures
            r.val() == fpow(Self::modulus(), self.val(), exponent as nat),
    ;

    /// Replaces every non-zero value by its inverse and keeps the zeros.
    fn batch_invert(values: &mut Vec<Self>)
        ensures
            final(values)@.len() == old(values)@.len(),
            forall|i: int|
                0 <= i < old(values)@.len() ==> (#[trigger] final(values)@[i]).val() == finv(
                    Self::modulus(),
                    old(values)@[i].val(),
                ),
    ;

    fn equals(&self, rhs: &Self) -> (r: bool)
        ensures
            r == (self.val() == rhs.val()),
    ;

    /// Sorts the values in ascending order of their canonical representatives.
    fn par_sort(values: &mut Vec<Self>)
        ensures
            Seq::new(final(values)@.len(), |i: int| final(values)@[i].val()).to_multiset()
                == Seq::new(old(values)@.len(), |i: int| old(values)@[i].val()).to_multiset(),
            final(values)@.len() == old(values)@.len(),
            forall|i: int, j: int|
                0 <= i <= j < final(values)@.len() ==> #[trigger] final(values)@[i].val()
                    <= #[trigger] final(values)@[j].val(),
    ;

    /// The value of a polynomial, given by its coefficients, at a point.
    fn eval_polynomial(poly: &Vec<Self>, point: Self) -> (r: Self)
        ensures
            r.val() == poly_eval(
                Self::modulus(),
                Seq::new(poly@.len(), |i: int| poly@[i].val()),
                point.val(),
            ),
    ;

    /// The value at `z` of the polynomial that vanishes at the roots.
    fn evaluate_vanishing_polynomial(roots: &Vec<Self>, z: Self) -> (r: Self)
        ensures
            r.val() == vanishing(
                Self::modulus(),
                Seq::new(roots@.len(), |i: int| roots@[i].val()),
                z.val(),
            ),
    ;

    /// The coefficients of the polynomial that has the given values at the
    /// given points, which all differ.
    fn lagrange_interpolate(points: &Vec<Self>, evals: &Vec<Self>) -> (r: Vec<Self>)
        requires
            points@.len() == evals@.len(),
            forall|i: int, j: int|
                0 <= i < j < points@.len() ==> (#[trigger] points@[i]).val() != (
                #[trigger] points@[j]).val(),
        ensures
            r@.len() == points@.len(),
            forall|i: int|
                0 <= i < points@.len() ==> poly_eval(
                    Self::modulus(),
                    Seq::new(r@.len(), |j: int| r@[j].val()),
                    (#[trigger] points@[i]).val(),
                ) == evals@[i].val(),
    ;

    /// The element in hexadecimal notation, with all digits of a 256-bit number.
    fn debug_string(&self) -> (r: String)
        ensures
            r@ == seq!['0', 'x'] + hex_digits(self.val() as nat, 64),
    ;

    fn s() -> (r: u32)
        ensures
            r == Self::two_adicity(),
    ;

    fn root_of_unity() -> (r: Self)
        ensures
            r.val() == Self::root_of_unity_val(),
    ;

    fn zeta() -> (r: Self)
        ensures
            r.val() == Self::zeta_val(),
    ;

    fn delta() -> (r: Self)
        ensures
            r.val() == Self::delta_val(),
    ;
}

/// The canonical representatives of a sequence of elements.
pub open spec fn vals<F: Field>(s: Seq<F>) -> Seq<int> {
    Seq::new(s.len(), |i: int| s[i].val())
}

pub proof fn lemma_fadd_comm(p: int, a: int, b: int)
    ensures
        fadd(p, a, b) == fadd(p, b, a),
{
}

pub proof fn lemma_fmul_comm(p: int, a: int, b: int)
    ensures
        fmul(p, a, b) == fmul(p, b, a),
{
    assert(a * b == b * a) by (nonlinear_arith);
}

pub proof fn lemma_fadd_assoc(p: int, a: int, b: int, c: int)
    requires
        p > 0,
    ensures
        fadd(p, fadd(p, a, b), c) == fadd(p, a, fadd(p, b, c)),
        fadd(p, fadd(p, a, b), c) == (a + b + c) % p,
{
    lemma_mod_add_left(p, a + b, c);
    lemma_mod_add_right(p, a, b + c);
}

pub proof fn lemma_mod_add_left(p: int, a: int, b: int)
    requires
        p > 0,
    ensures
        (a % p + b) % p == (a + b) % p,
{
    lemma_add_mod_noop(a, b, p);
    lemma_add_mod_noop(a % p, b, p);
    lemma_mod_twice(a, p);
}

pub proof fn lemma_mod_add_right(p: int, a: int, b: int)
    requires
        p > 0,
    ensures
        (a + b % p) % p == (a + b) % p,
{
    lemma_mod_add_left(p, b, a);
}

pub proof fn lemma_mod_sub_left(p: int, a: int, b: int)
    requires
        p > 0,
    ensures
        (a % p - b) % p == (a - b) % p,
{
    lemma_sub_mod_noop(a, b, p);
    lemma_sub_mod_noop(a % p, b, p);
    lemma_mod_twice(a, p);
}

pub proof fn lemma_mod_sub_right(p: int, a: int, b: int)
    requires
        p > 0,
    ensures
        (a - b % p) % p == (a - b) % p,
{
    lemma_sub_mod_noop(a, b, p);
    lemma_sub_mod_noop(a, b % p, p);
    lemma_mod_twice(b, p);
}

pub proof fn lemma_mod_mul_left(p: int, a: int, b: int)
    requires
        p > 0,
    ensures
        ((a % p) * b) % p == (a * b) % p,
{
    lemma_mul_mod_noop_left(a, b, p);
}

pub proof fn lemma_mod_mul_right(p: int, a: int, b: int)
    requires
        p > 0,
    ensures
        (a * (b % p)) % p == (a * b) % p,
{
    lemma_mul_mod_noop_right(a, b, p);
}

pub proof fn lemma_fmul_assoc(p: int, a: int, b: int, c: int)
    requires
        p > 0,
    ensures
        fmul(p, fmul(p, a, b), c) == fmul(p, a, fmul(p, b, c)),
        fmul(p, fmul(p, a, b), c) == (a * b * c) % p,
{
    lemma_mod_mul_left(p, a * b, c);
    lemma_mod_mul_right(p, a, b * c);
    assert(a * b * c == a * (b * c)) by (nonlinear_arith);
}

pub proof fn lemma_fmul_distrib(p: int, a: int, b: int, c: int)
    requires
        p > 0,
    ensures
        fmul(p, a, fadd(p, b, c)) == fadd(p, fmul(p, a, b), fmul(p, a, c)),
        fmul(p, fadd(p, b, c), a) == fadd(p, fmul(p, b, a), fmul(p, c, a)),
        fmul(p, a, fadd(p, b, c)) == (a * b + a * c) % p,
{
    lemma_mod_mul_right(p, a, b + c);
    assert(a * (b + c) == a * b + a * c) by (nonlinear_arith);
    lemma_mod_add_left(p, a * b, (a * c) % p);
    lemma_mod_add_right(p, a * b, a * c);
    lemma_fmul_comm(p, a, fadd(p, b, c));
    lemma_fmul_comm(p, a, b);
    lemma_fmul_comm(p, a, c);
}

pub proof fn lemma_fsub_is_add_neg(p: int, a: int, b: int)
    requires
        p > 0,
    ensures
        fsub(p, a, b) == fadd(p, a, fneg(p, b)),
{
    lemma_mod_add_right(p, a, -b);
}

pub proof fn lemma_fneg_fneg(p: int, a: int)
    requires
        0 <= a < p,
    ensures
        fneg(p, fneg(p, a)) == a,
{
    lemma_mod_sub_right(p, 0, -a);
    lemma_small_mod(a as nat, p as nat);
}

pub proof fn lemma_fmul_neg(p: int, a: int, b: int)
    requires
        p > 0,
    ensures
        fmul(p, fneg(p, a), b) == fneg(p, fmul(p, a, b)),
        fmul(p, a, fneg(p, b)) == fneg(p, fmul(p, a, b)),
{
    lemma_mod_mul_left(p, -a, b);
    lemma_mod_mul_right(p, a, -b);
    assert((-a) * b == -(a * b)) by (nonlinear_arith);
    assert(a * (-b) == -(a * b)) by (nonlinear_arith);
    lemma_mod_sub_right(p, 0, a * b);
}

/// Zero and one are neutral, and zero absorbs.
pub proof fn lemma_units(p: int, a: int)
    requires
        p > 1,
        0 <= a < p,
    ensures
        fadd(p, a, 0) == a,
        fadd(p, 0, a) == a,
        fsub(p, a, 0) == a,
        fsub(p, a, a) == 0,
        fsub(p, 0, a) == fneg(p, a),
        fmul(p, a, 1) == a,
        fmul(p, 1, a) == a,
        fmul(p, a, 0) == 0,
        fmul(p, 0, a) == 0,
        fneg(p, 0) == 0,
        fmul(p, 2, a) == fadd(p, a, a),
        fmul(p, a, 2) == fadd(p, a, a),
{
    lemma_small_mod(a as nat, p as nat);
    lemma_small_mod(0, p as nat);
    assert(a * 0 == 0 && 0 * a == 0);
}

/// A residue has at most one inverse.
pub proof fn lemma_inverse_unique(p: int, a: int, b: int, c: int)
    requires
        p > 1,
        is_inverse(p, a, b),
        is_inverse(p, a, c),
    ensures
        b == c,
{
    // b = b (a c) = (b a) c = c
    lemma_units(p, b);
    lemma_units(p, c);
    lemma_fmul_assoc(p, b, a, c);
    lemma_fmul_comm(p, b, a);
}

/// What `finv` gives where an inverse is known.
pub proof fn lemma_finv_is(p: int, a: int, b: int)
    requires
        p > 1,
        is_inverse(p, a, b),
    ensures
        finv(p, a) == b,
{
    lemma_inverse_unique(p, a, finv(p, a), b);
}

pub proof fn lemma_finv_zero(p: int)
    requires
        p > 1,
    ensures
        finv(p, 0) == 0,
{
    assert forall|b: int| !is_inverse(p, 0, b) by {
        assert(0 * b == 0);
        lemma_small_mod(0, p as nat);
    }
}

pub proof fn lemma_finv_range(p: int, a: int)
    requires
        p > 1,
    ensures
        0 <= finv(p, a) < p,
{
}

pub proof fn lemma_f_range(p: int, a: int, b: int)
    requires
        p > 0,
    ensures
        0 <= fadd(p, a, b) < p,
        0 <= fsub(p, a, b) < p,
        0 <= fmul(p, a, b) < p,
        0 <= fneg(p, a) < p,
{
}

pub proof fn lemma_fpow_range(p: int, a: int, n: nat)
    requires
        p > 0,
    ensures
        0 <= fpow(p, a, n) < p,
{
}

pub proof fn lemma_fpow_add(p: int, a: int, m: nat, n: nat)
    requires
        p > 1,
    ensures
        fpow(p, a, m + n) == fmul(p, fpow(p, a, m), fpow(p, a, n)),
    decreases n,
{
    lemma_fpow_range(p, a, m);
    lemma_small_mod(1, p as nat);
    if n == 0 {
        lemma_units(p, fpow(p, a, m));
    } else {
        let k = (n - 1) as nat;
        lemma_fpow_add(p, a, m, k);
        assert((m + n - 1) as nat == m + k);
        lemma_fmul_assoc(p, fpow(p, a, m), fpow(p, a, k), a);
    }
}

pub proof fn lemma_fpow_one(p: int, n: nat)
    requires
        p > 1,
    ensures
        fpow(p, 1, n) == 1,
    decreases n,
{
    lemma_small_mod(1, p as nat);
    if n > 0 {
        lemma_fpow_one(p, (n - 1) as nat);
    }
}

pub proof fn lemma_fpow_mul(p: int, a: int, m: nat, n: nat)
    requires
        p > 1,
    ensures
        fpow(p, a, m * n) == fpow(p, fpow(p, a, m), n),
    decreases n,
{
    if n == 0 {
        assert(m * n == 0);
    } else {
        let k = (n - 1) as nat;
        assert(m * n == m * k + m) by (nonlinear_arith)
            requires
                n == k + 1,
        ;
        lemma_fpow_mul(p, a, m, k);
        lemma_fpow_add(p, a, m * k, m);
    }
}

} // verus!
