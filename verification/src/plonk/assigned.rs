//! Cell values as fractions, so that inversions can be deferred and batched.

use crate::field::{
    fadd, finv, fmul, fneg, fsub, has_inverse, is_field, is_inverse, lemma_f_range,
    lemma_finv_is, lemma_finv_zero, lemma_fmul_assoc, lemma_fmul_comm, lemma_fmul_distrib,
    lemma_fmul_neg, lemma_fsub_is_add_neg, lemma_units, Field,
};
use std::ops::{Add, Mul, Neg, Sub};
use vstd::arithmetic::div_mod::lemma_small_mod;
use vstd::prelude::*;
use vstd::std_specs::convert::FromSpecImpl;
use vstd::std_specs::ops::{AddSpecImpl, MulSpecImpl, NegSpecImpl, SubSpecImpl};

verus! {

/// A value assigned to a cell within a circuit.
///
/// Stored as a fraction, so that a backend can use batch inversion.
///
/// A denominator of zero maps to an assigned value of zero.
#[derive(Clone, Copy, Debug)]
pub enum GpuAssigned<F> {
    /// The field element zero.
    Zero,
    /// A value that does not require inversion to evaluate.
    Trivial(F),
    /// A value stored as a fraction to enable batch inversion.
    Rational(F, F),
}

/// A cell value over canonical representatives.
pub enum AssignedModel {
    Zero,
    Trivial(int),
    Rational(int, int),
}

impl AssignedModel {
    /// Whether all parts are canonical representatives modulo `p`.
    pub open spec fn wf(self, p: int) -> bool {
        match self {
            AssignedModel::Zero => true,
            AssignedModel::Trivial(x) => 0 <= x < p,
            AssignedModel::Rational(n, d) => 0 <= n < p && 0 <= d < p,
        }
    }

    /// The field element that the fraction stands for; `n/0` is zero.
    pub open spec fn value(self, p: int) -> int {
        match self {
            AssignedModel::Zero => 0,
            AssignedModel::Trivial(x) => x,
            AssignedModel::Rational(n, d) => fmul(p, n, finv(p, d)),
        }
    }

    pub open spec fn neg(self, p: int) -> AssignedModel {
        match self {
            AssignedModel::Zero => AssignedModel::Zero,
            AssignedModel::Trivial(x) => AssignedModel::Trivial(fneg(p, x)),
            AssignedModel::Rational(n, d) => AssignedModel::Rational(fneg(p, n), d),
        }
    }

    /// Whether the value is a fraction with denominator zero.
    pub open spec fn over_zero(self) -> bool {
        self matches AssignedModel::Rational(_, d) && d == 0
    }

    /// The sum: fractions over zero count as zero, and the others are brought
    /// to a common denominator.
    pub open spec fn plus(self, rhs: AssignedModel, p: int) -> AssignedModel {
        if self is Zero {
            rhs
        } else if rhs is Zero {
            self
        } else if self.over_zero() {
            rhs
        } else if rhs.over_zero() {
            self
        } else {
            match (self, rhs) {
                (AssignedModel::Trivial(a), AssignedModel::Trivial(b)) => AssignedModel::Trivial(
                    fadd(p, a, b),
                ),
                (AssignedModel::Rational(n, d),
                    AssignedModel::Trivial(o)) => AssignedModel::Rational(
                    fadd(p, n, fmul(p, d, o)),
                    d,
                ),
                (AssignedModel::Trivial(o), AssignedModel::Rational(n,
                    d)) => AssignedModel::Rational(
                    fadd(p, n, fmul(p, d, o)),
                    d,
                ),
                (AssignedModel::Rational(n1, d1), AssignedModel::Rational(n2, d2)) =>
                    AssignedModel::Rational(
                    fadd(p, fmul(p, n1, d2), fmul(p, d1, n2)),
                    fmul(p, d1, d2),
                ),
                _ => AssignedModel::Zero,
            }
        }
    }

    pub open spec fn minus(self, rhs: AssignedModel, p: int) -> AssignedModel {
        self.plus(rhs.neg(p), p)
    }

    /// The product, numerator by numerator and denominator by denominator.
    pub open spec fn times(self, rhs: AssignedModel, p: int) -> AssignedModel {
        match (self, rhs) {
            (AssignedModel::Trivial(a), AssignedModel::Trivial(b)) => AssignedModel::Trivial(
                fmul(p, a, b),
            ),
            (AssignedModel::Rational(n, d), AssignedModel::Trivial(o)) => AssignedModel::Rational(
                fmul(p, n, o),
                d,
            ),
            (AssignedModel::Trivial(o), AssignedModel::Rational(n, d)) => AssignedModel::Rational(
                fmul(p, n, o),
                d,
            ),
            (AssignedModel::Rational(n1, d1), AssignedModel::Rational(n2, d2)) =>
                AssignedModel::Rational(fmul(p, n1, n2), fmul(p, d1, d2)),
            _ => AssignedModel::Zero,
        }
    }

    pub open spec fn doubled(self, p: int) -> AssignedModel {
        match self {
            AssignedModel::Zero => AssignedModel::Zero,
            AssignedModel::Trivial(x) => AssignedModel::Trivial(fadd(p, x, x)),
            AssignedModel::Rational(n, d) => AssignedModel::Rational(fadd(p, n, n), d),
        }
    }

    pub open spec fn squared(self, p: int) -> AssignedModel {
        match self {
            AssignedModel::Zero => AssignedModel::Zero,
            AssignedModel::Trivial(x) => AssignedModel::Trivial(fmul(p, x, x)),
            AssignedModel::Rational(n, d) => AssignedModel::Rational(
                fmul(p, n, n),
                fmul(p, d, d),
            ),
        }
    }

    pub open spec fn cubed(self, p: int) -> AssignedModel {
        self.squared(p).times(self, p)
    }

    /// The inverse, with the inverse of zero taken to be zero.
    pub open spec fn inverted(self) -> AssignedModel {
        match self {
            AssignedModel::Zero => AssignedModel::Zero,
            AssignedModel::Trivial(x) => AssignedModel::Rational(1, x),
            AssignedModel::Rational(n, d) => AssignedModel::Rational(d, n),
        }
    }

    /// Whether the fraction stands for zero.
    pub open spec fn is_zero(self) -> bool {
        match self {
            AssignedModel::Zero => true,
            AssignedModel::Trivial(x) => x == 0,
            AssignedModel::Rational(n, d) => n == 0 || d == 0,
        }
    }

    /// Equality of what the fractions stand for, decided without inversions.
    pub open spec fn same(self, rhs: AssignedModel, p: int) -> bool {
        if self is Zero || self.over_zero() {
            rhs.is_zero()
        } else if rhs is Zero || rhs.over_zero() {
            self.is_zero()
        } else {
            match (self, rhs) {
                (AssignedModel::Trivial(a), AssignedModel::Trivial(b)) => a == b,
                (AssignedModel::Trivial(x), AssignedModel::Rational(n, d)) => fmul(p, x, d) == n,
                (AssignedModel::Rational(n, d), AssignedModel::Trivial(x)) => fmul(p, x, d) == n,
                (AssignedModel::Rational(n1, d1), AssignedModel::Rational(n2, d2)) => fmul(
                    p,
                    n1,
                    d2,
                ) == fmul(p, d1, n2),
                _ => true,
            }
        }
    }
}

impl<F: Field> View for GpuAssigned<F> {
    type V = AssignedModel;

    open spec fn view(&self) -> AssignedModel {
        match *self {
            GpuAssigned::Zero => AssignedModel::Zero,
            GpuAssigned::Trivial(x) => AssignedModel::Trivial(x.val()),
            GpuAssigned::Rational(n, d) => AssignedModel::Rational(n.val(), d.val()),
        }
    }
}

impl<F: Field> From<F> for GpuAssigned<F> {
    fn from(numerator: F) -> (r: Self) {
        GpuAssigned::Trivial(numerator)
    }
}

impl<F: Field> FromSpecImpl<F> for GpuAssigned<F> {
    open spec fn obeys_from_spec() -> bool {
        true
    }

    open spec fn from_spec(numerator: F) -> Self {
        GpuAssigned::Trivial(numerator)
    }
}

impl<F: Field> From<(F, F)> for GpuAssigned<F> {
    fn from(fraction: (F, F)) -> (r: Self) {
        GpuAssigned::Rational(fraction.0, fraction.1)
    }
}

impl<F: Field> FromSpecImpl<(F, F)> for GpuAssigned<F> {
    open spec fn obeys_from_spec() -> bool {
        true
    }

    open spec fn from_spec(fraction: (F, F)) -> Self {
        GpuAssigned::Rational(fraction.0, fraction.1)
    }
}

impl<F: Field> PartialEq for GpuAssigned<F> {
    fn eq(&self, other: &Self) -> (r: bool) {
        match (self, other) {
            // At least one side is directly zero.
            (GpuAssigned::Zero, x) => x.is_zero_vartime(),
            (x, GpuAssigned::Zero) => x.is_zero_vartime(),
            (GpuAssigned::Trivial(lhs), GpuAssigned::Trivial(rhs)) => lhs.equals(rhs),
            (GpuAssigned::Trivial(x), GpuAssigned::Rational(numerator, denominator)) => {
                if is_zero(denominator) {
                    is_zero(x)
                } else {
                    x.mul(denominator).equals(numerator)
                }
            },
            (GpuAssigned::Rational(numerator, denominator), GpuAssigned::Trivial(x)) => {
                if is_zero(denominator) {
                    is_zero(x)
                } else {
                    x.mul(denominator).equals(numerator)
                }
            },
            (GpuAssigned::Rational(n1, d1), GpuAssigned::Rational(n2, d2)) => {
                if is_zero(d1) {
                    other.is_zero_vartime()
                } else if is_zero(d2) {
                    self.is_zero_vartime()
                } else {
                    n1.mul(d2).equals(&d1.mul(n2))
                }
            },
        }
    }
}

impl<F: Field> vstd::std_specs::cmp::PartialEqSpecImpl for GpuAssigned<F> {
    open spec fn obeys_eq_spec() -> bool {
        true
    }

    open spec fn eq_spec(&self, other: &Self) -> bool {
        self@.same(other@, F::modulus())
    }
}

impl<F: Field> Eq for GpuAssigned<F> {

}

fn is_zero<F: Field>(x: &F) -> (r: bool)
    ensures
        r == (x.val() == 0),
{
    x.equals(&F::zero())
}

impl<F: Field> Neg for GpuAssigned<F> {
    type Output = GpuAssigned<F>;

    fn neg(self) -> (r: GpuAssigned<F>)
        ensures
            r@ == self@.neg(F::modulus()),
    {
        match self {
            GpuAssigned::Zero => GpuAssigned::Zero,
            GpuAssigned::Trivial(numerator) => GpuAssigned::Trivial(numerator.neg()),
            GpuAssigned::Rational(numerator, denominator) => GpuAssigned::Rational(
                numerator.neg(),
                denominator,
            ),
        }
    }
}

impl<F: Field> NegSpecImpl for GpuAssigned<F> {
    open spec fn obeys_neg_spec() -> bool {
        false
    }

    open spec fn neg_req(self) -> bool {
        true
    }

    open spec fn neg_spec(self) -> GpuAssigned<F> {
        self
    }
}

impl<F: Field> Add for GpuAssigned<F> {
    type Output = GpuAssigned<F>;

    fn add(self, rhs: GpuAssigned<F>) -> (r: GpuAssigned<F>)
        ensures
            r@ == self@.plus(rhs@, F::modulus()),
    {
        match (self, rhs) {
            // One side is directly zero.
            (GpuAssigned::Zero, _) => rhs,
            (_, GpuAssigned::Zero) => self,
            (GpuAssigned::Trivial(a), GpuAssigned::Trivial(b)) => GpuAssigned::Trivial(a.add(&b)),
            (GpuAssigned::Rational(numerator, denominator), GpuAssigned::Trivial(other)) => {
                if is_zero(&denominator) {
                    rhs
                } else {
                    GpuAssigned::Rational(numerator.add(&denominator.mul(&other)), denominator)
                }
            },
            (GpuAssigned::Trivial(other), GpuAssigned::Rational(numerator, denominator)) => {
                if is_zero(&denominator) {
                    self
                } else {
                    GpuAssigned::Rational(numerator.add(&denominator.mul(&other)), denominator)
                }
            },
            (GpuAssigned::Rational(n1, d1), GpuAssigned::Rational(n2, d2)) => {
                // A side over zero counts as zero.
                if is_zero(&d1) {
                    rhs
                } else if is_zero(&d2) {
                    self
                } else {
                    GpuAssigned::Rational(n1.mul(&d2).add(&d1.mul(&n2)), d1.mul(&d2))
                }
            },
        }
    }
}

impl<F: Field> AddSpecImpl for GpuAssigned<F> {
    open spec fn obeys_add_spec() -> bool {
        false
    }

    open spec fn add_req(self, rhs: GpuAssigned<F>) -> bool {
        true
    }

    open spec fn add_spec(self, rhs: GpuAssigned<F>) -> GpuAssigned<F> {
        self
    }
}

impl<F: Field> Sub for GpuAssigned<F> {
    type Output = GpuAssigned<F>;

    fn sub(self, rhs: GpuAssigned<F>) -> (r: GpuAssigned<F>)
        ensures
            r@ == self@.minus(rhs@, F::modulus()),
    {
        self + rhs.neg()
    }
}

impl<F: Field> SubSpecImpl for GpuAssigned<F> {
    open spec fn obeys_sub_spec() -> bool {
        false
    }

    open spec fn sub_req(self, rhs: GpuAssigned<F>) -> bool {
        true
    }

    open spec fn sub_spec(self, rhs: GpuAssigned<F>) -> GpuAssigned<F> {
        self
    }
}

impl<F: Field> Mul for GpuAssigned<F> {
    type Output = GpuAssigned<F>;

    fn mul(self, rhs: GpuAssigned<F>) -> (r: GpuAssigned<F>)
        ensures
            r@ == self@.times(rhs@, F::modulus()),
    {
        match (self, rhs) {
            (GpuAssigned::Zero, _) => GpuAssigned::Zero,
            (_, GpuAssigned::Zero) => GpuAssigned::Zero,
            (GpuAssigned::Trivial(a), GpuAssigned::Trivial(b)) => GpuAssigned::Trivial(a.mul(&b)),
            (GpuAssigned::Rational(numerator, denominator), GpuAssigned::Trivial(other)) =>
                GpuAssigned::Rational(numerator.mul(&other), denominator),
            (GpuAssigned::Trivial(other), GpuAssigned::Rational(numerator, denominator)) =>
                GpuAssigned::Rational(numerator.mul(&other), denominator),
            (GpuAssigned::Rational(n1, d1), GpuAssigned::Rational(n2, d2)) =>
                GpuAssigned::Rational(n1.mul(&n2), d1.mul(&d2)),
        }
    }
}

impl<F: Field> MulSpecImpl for GpuAssigned<F> {
    open spec fn obeys_mul_spec() -> bool {
        false
    }

    open spec fn mul_req(self, rhs: GpuAssigned<F>) -> bool {
        true
    }

    open spec fn mul_spec(self, rhs: GpuAssigned<F>) -> GpuAssigned<F> {
        self
    }
}

impl<F: Field> GpuAssigned<F> {
    /// Adds `rhs` in place.
    pub fn add_assign(&mut self, rhs: GpuAssigned<F>)
        ensures
            final(self)@ == old(self)@.plus(rhs@, F::modulus()),
    {
        *self = *self + rhs;
    }

    /// Subtracts `rhs` in place.
    pub fn sub_assign(&mut self, rhs: GpuAssigned<F>)
        ensures
            final(self)@ == old(self)@.minus(rhs@, F::modulus()),
    {
        *self = *self - rhs;
    }

    /// Multiplies by `rhs` in place.
    pub fn mul_assign(&mut self, rhs: GpuAssigned<F>)
        ensures
            final(self)@ == old(self)@.times(rhs@, F::modulus()),
    {
        *self = *self * rhs;
    }

    /// Returns the numerator.
    pub fn numerator(&self) -> (r: F)
        ensures
            r.val() == (match self@ {
                AssignedModel::Zero => 0,
                AssignedModel::Trivial(x) => x,
                AssignedModel::Rational(n, _) => n,
            }),
    {
        match self {
            GpuAssigned::Zero => F::zero(),
            GpuAssigned::Trivial(x) => *x,
            GpuAssigned::Rational(numerator, _) => *numerator,
        }
    }

    /// Returns the denominator, if non-trivial.
    pub fn denominator(&self) -> (r: Option<F>)
        ensures
            r == (match *self {
                GpuAssigned::Rational(_, d) => Some(d),
                _ => None,
            }),
    {
        match self {
            GpuAssigned::Zero => None,
            GpuAssigned::Trivial(_) => None,
            GpuAssigned::Rational(_, denominator) => Some(*denominator),
        }
    }

    /// Returns true iff this element is zero.
    pub fn is_zero_vartime(&self) -> (r: bool)
        ensures
            r == self@.is_zero(),
    {
        match self {
            GpuAssigned::Zero => true,
            GpuAssigned::Trivial(x) => is_zero(x),
            // x/0 maps to zero.
            GpuAssigned::Rational(numerator, denominator) => is_zero(numerator) || is_zero(
                denominator,
            ),
        }
    }

    /// Doubles this element.
    #[must_use]
    pub fn double(&self) -> (r: Self)
        ensures
            r@ == self@.doubled(F::modulus()),
    {
        match self {
            GpuAssigned::Zero => GpuAssigned::Zero,
            GpuAssigned::Trivial(x) => GpuAssigned::Trivial(x.double()),
            GpuAssigned::Rational(numerator, denominator) => GpuAssigned::Rational(
                numerator.double(),
                *denominator,
            ),
        }
    }

    /// Squares this element.
    #[must_use]
    pub fn square(&self) -> (r: Self)
        ensures
            r@ == self@.squared(F::modulus()),
    {
        match self {
            GpuAssigned::Zero => GpuAssigned::Zero,
            GpuAssigned::Trivial(x) => GpuAssigned::Trivial(x.square()),
            GpuAssigned::Rational(numerator, denominator) => GpuAssigned::Rational(
                numerator.square(),
                denominator.square(),
            ),
        }
    }

    /// Cubes this element.
    #[must_use]
    pub fn cube(&self) -> (r: Self)
        ensures
            r@ == self@.cubed(F::modulus()),
    {
        self.square() * *self
    }

    /// Inverts this assigned value (taking the inverse of zero to be zero).
    pub fn invert(&self) -> (r: Self)
        ensures
            r@ == self@.inverted(),
    {
        match self {
            GpuAssigned::Zero => GpuAssigned::Zero,
            GpuAssigned::Trivial(x) => GpuAssigned::Rational(F::one(), *x),
            GpuAssigned::Rational(numerator, denominator) => GpuAssigned::Rational(
                *denominator,
                *numerator,
            ),
        }
    }

    /// Evaluates this assigned value directly, performing an unbatched inversion if
    /// necessary.
    ///
    /// If the denominator is zero, this returns zero.
    pub fn evaluate(self) -> (r: F)
        ensures
            r.val() == self@.value(F::modulus()),
    {
        let ghost p = F::modulus();
        proof {
            F::lemma_modulus();
        }
        match self {
            GpuAssigned::Zero => F::zero(),
            GpuAssigned::Trivial(x) => x,
            GpuAssigned::Rational(numerator, denominator) => {
                proof {
                    numerator.lemma_val_range();
                    lemma_units(p, numerator.val());
                    lemma_finv_zero(p);
                    lemma_small_mod(1, p as nat);
                    assert(is_inverse(p, 1, 1));
                    lemma_finv_is(p, 1, 1);
                }
                if denominator.equals(&F::one()) {
                    numerator
                } else {
                    match denominator.invert() {
                        Some(inverse) => {
                            proof {
                                lemma_finv_is(p, denominator.val(), inverse.val());
                            }
                            numerator.mul(&inverse)
                        },
                        None => numerator.mul(&F::zero()),
                    }
                }
            },
        }
    }
}

/// A cell value's parts are canonical representatives.
pub proof fn law_assigned_wf<F: Field>(a: GpuAssigned<F>)
    ensures
        a@.wf(F::modulus()),
{
    match a {
        GpuAssigned::Zero => {},
        GpuAssigned::Trivial(x) => {
            x.lemma_val_range();
        },
        GpuAssigned::Rational(n, d) => {
            n.lemma_val_range();
            d.lemma_val_range();
        },
    }
}

/// `(a b) (c d) = (a c) (b d)`.
pub proof fn lemma_fmul_interchange(p: int, a: int, b: int, c: int, d: int)
    requires
        p > 0,
    ensures
        fmul(p, fmul(p, a, b), fmul(p, c, d)) == fmul(p, fmul(p, a, c), fmul(p, b, d)),
{
    lemma_fmul_assoc(p, a, b, fmul(p, c, d));
    lemma_fmul_assoc(p, b, c, d);
    lemma_fmul_comm(p, b, c);
    lemma_fmul_assoc(p, c, b, d);
    lemma_fmul_assoc(p, a, c, fmul(p, b, d));
}

/// In a field every non-zero residue times its `finv` is one.
pub proof fn lemma_field_inverse(p: int, a: int)
    requires
        is_field(p),
        0 < a < p,
    ensures
        is_inverse(p, a, finv(p, a)),
        fmul(p, a, finv(p, a)) == 1,
        finv(p, a) != 0,
{
    assert(has_inverse(p, a));
    lemma_units(p, a);
}

/// In a field a product is zero only where a factor is.
pub proof fn lemma_no_zero_divisors(p: int, a: int, b: int)
    requires
        is_field(p),
        0 < a < p,
        0 < b < p,
    ensures
        fmul(p, a, b) != 0,
{
    lemma_field_inverse(p, a);
    lemma_units(p, b);
    if fmul(p, a, b) == 0 {
        // b = (a' a) b = a' (a b) = 0
        lemma_fmul_comm(p, a, finv(p, a));
        lemma_fmul_assoc(p, finv(p, a), a, b);
        lemma_units(p, finv(p, a));
    }
}

/// The inverse of a product is the product of the inverses.
pub proof fn lemma_finv_mul(p: int, a: int, b: int)
    requires
        is_field(p),
        0 <= a < p,
        0 <= b < p,
    ensures
        finv(p, fmul(p, a, b)) == fmul(p, finv(p, a), finv(p, b)),
{
    lemma_finv_zero(p);
    crate::field::lemma_finv_range(p, a);
    crate::field::lemma_finv_range(p, b);
    lemma_units(p, a);
    lemma_units(p, b);
    lemma_units(p, finv(p, a));
    lemma_units(p, finv(p, b));
    if a != 0 && b != 0 {
        let i = finv(p, a);
        let j = finv(p, b);
        lemma_field_inverse(p, a);
        lemma_field_inverse(p, b);
        lemma_fmul_interchange(p, a, b, i, j);
        lemma_small_mod(1, p as nat);
        lemma_f_range(p, i, j);
        assert(is_inverse(p, fmul(p, a, b), fmul(p, i, j)));
        lemma_finv_is(p, fmul(p, a, b), fmul(p, i, j));
    }
}

/// Negation commutes with evaluation.
pub proof fn law_neg(p: int, a: AssignedModel)
    requires
        is_field(p),
        a.wf(p),
    ensures
        a.neg(p).wf(p),
        a.neg(p).value(p) == fneg(p, a.value(p)),
{
    lemma_units(p, 0);
    if let AssignedModel::Rational(n, d) = a {
        lemma_fmul_neg(p, n, finv(p, d));
    }
}

/// Addition of fractions commutes with evaluation.
pub proof fn law_add(p: int, a: AssignedModel, b: AssignedModel)
    requires
        is_field(p),
        a.wf(p),
        b.wf(p),
    ensures
        a.plus(b, p).wf(p),
        a.plus(b, p).value(p) == fadd(p, a.value(p), b.value(p)),
{
    lemma_finv_zero(p);
    lemma_value_range(p, a);
    lemma_value_range(p, b);
    lemma_units(p, a.value(p));
    lemma_units(p, b.value(p));
    match (a, b) {
        (AssignedModel::Rational(n1, d1), AssignedModel::Rational(n2, d2)) => {
            lemma_units(p, n1);
            lemma_units(p, n2);
            if d1 != 0 && d2 != 0 {
                let i = finv(p, d1);
                let j = finv(p, d2);
                lemma_field_inverse(p, d1);
                lemma_field_inverse(p, d2);
                lemma_finv_mul(p, d1, d2);
                lemma_fmul_distrib(p, fmul(p, i, j), fmul(p, n1, d2), fmul(p, d1, n2));
                lemma_fmul_interchange(p, n1, d2, i, j);
                lemma_fmul_interchange(p, d1, n2, i, j);
                lemma_f_range(p, n1, i);
                lemma_f_range(p, n2, j);
                lemma_units(p, fmul(p, n1, i));
                lemma_units(p, fmul(p, n2, j));
            }
        },
        (AssignedModel::Rational(n, d), AssignedModel::Trivial(o)) => {
            lemma_units(p, n);
            if d != 0 {
                lemma_add_trivial(p, n, d, o);
            }
        },
        (AssignedModel::Trivial(o), AssignedModel::Rational(n, d)) => {
            lemma_units(p, n);
            if d != 0 {
                lemma_add_trivial(p, n, d, o);
            }
        },
        _ => {},
    }
}

proof fn lemma_add_trivial(p: int, n: int, d: int, o: int)
    requires
        is_field(p),
        0 <= n < p,
        0 < d < p,
        0 <= o < p,
    ensures
        fmul(p, fadd(p, n, fmul(p, d, o)), finv(p, d)) == fadd(p, fmul(p, n, finv(p, d)), o),
        fmul(p, fadd(p, n, fmul(p, d, o)), finv(p, d)) == fadd(p, o, fmul(p, n, finv(p, d))),
{
    let i = finv(p, d);
    lemma_field_inverse(p, d);
    lemma_fmul_distrib(p, i, n, fmul(p, d, o));
    lemma_fmul_comm(p, d, o);
    lemma_fmul_assoc(p, o, d, i);
    lemma_units(p, o);
}

proof fn lemma_value_range(p: int, a: AssignedModel)
    requires
        p > 1,
        a.wf(p),
    ensures
        0 <= a.value(p) < p,
{
}

/// Subtraction of fractions commutes with evaluation.
pub proof fn law_sub(p: int, a: AssignedModel, b: AssignedModel)
    requires
        is_field(p),
        a.wf(p),
        b.wf(p),
    ensures
        a.minus(b, p).wf(p),
        a.minus(b, p).value(p) == fsub(p, a.value(p), b.value(p)),
{
    law_neg(p, b);
    law_add(p, a, b.neg(p));
    lemma_fsub_is_add_neg(p, a.value(p), b.value(p));
}

/// Multiplication of fractions commutes with evaluation.
pub proof fn law_mul(p: int, a: AssignedModel, b: AssignedModel)
    requires
        is_field(p),
        a.wf(p),
        b.wf(p),
    ensures
        a.times(b, p).wf(p),
        a.times(b, p).value(p) == fmul(p, a.value(p), b.value(p)),
{
    lemma_value_range(p, a);
    lemma_value_range(p, b);
    lemma_units(p, a.value(p));
    lemma_units(p, b.value(p));
    match (a, b) {
        (AssignedModel::Rational(n1, d1), AssignedModel::Rational(n2, d2)) => {
            lemma_finv_mul(p, d1, d2);
            lemma_fmul_interchange(p, n1, n2, finv(p, d1), finv(p, d2));
        },
        (AssignedModel::Rational(n, d), AssignedModel::Trivial(o)) => {
            lemma_fmul_assoc(p, n, o, finv(p, d));
            lemma_fmul_comm(p, o, finv(p, d));
            lemma_fmul_assoc(p, n, finv(p, d), o);
        },
        (AssignedModel::Trivial(o), AssignedModel::Rational(n, d)) => {
            lemma_fmul_comm(p, n, o);
            lemma_fmul_assoc(p, o, n, finv(p, d));
        },
        _ => {},
    }
}

/// Doubling commutes with evaluation.
pub proof fn law_double(p: int, a: AssignedModel)
    requires
        is_field(p),
        a.wf(p),
    ensures
        a.doubled(p).wf(p),
        a.doubled(p).value(p) == fadd(p, a.value(p), a.value(p)),
{
    lemma_units(p, 0);
    if let AssignedModel::Rational(n, d) = a {
        lemma_fmul_distrib(p, finv(p, d), n, n);
    }
}

/// Squaring commutes with evaluation.
pub proof fn law_square(p: int, a: AssignedModel)
    requires
        is_field(p),
        a.wf(p),
    ensures
        a.squared(p).wf(p),
        a.squared(p).value(p) == fmul(p, a.value(p), a.value(p)),
{
    lemma_units(p, 0);
    if let AssignedModel::Rational(n, d) = a {
        lemma_finv_mul(p, d, d);
        lemma_fmul_interchange(p, n, n, finv(p, d), finv(p, d));
    }
}

/// Cubing commutes with evaluation.
pub proof fn law_cube(p: int, a: AssignedModel)
    requires
        is_field(p),
        a.wf(p),
    ensures
        a.cubed(p).wf(p),
        a.cubed(p).value(p) == fmul(p, fmul(p, a.value(p), a.value(p)), a.value(p)),
{
    law_square(p, a);
    law_mul(p, a.squared(p), a);
}

/// Deferred inversion commutes with evaluation, zero being its own inverse.
pub proof fn law_invert(p: int, a: AssignedModel)
    requires
        is_field(p),
        a.wf(p),
    ensures
        a.inverted().wf(p),
        a.inverted().value(p) == finv(p, a.value(p)),
{
    lemma_finv_zero(p);
    match a {
        AssignedModel::Zero => {},
        AssignedModel::Trivial(x) => {
            crate::field::lemma_finv_range(p, x);
            lemma_units(p, finv(p, x));
        },
        AssignedModel::Rational(n, d) => {
            crate::field::lemma_finv_range(p, n);
            crate::field::lemma_finv_range(p, d);
            lemma_units(p, n);
            lemma_units(p, d);
            lemma_units(p, finv(p, n));
            lemma_units(p, finv(p, d));
            lemma_finv_mul(p, n, finv(p, d));
            if d != 0 {
                lemma_field_inverse(p, d);
                lemma_fmul_comm(p, d, finv(p, d));
                lemma_finv_is(p, finv(p, d), d);
                lemma_fmul_comm(p, finv(p, n), d);
            }
        },
    }
}

/// `same` holds exactly of fractions that stand for the same element, and
/// `is_zero` exactly of those that stand for zero.
pub proof fn law_eq(p: int, a: AssignedModel, b: AssignedModel)
    requires
        is_field(p),
        a.wf(p),
        b.wf(p),
    ensures
        a.same(b, p) <==> a.value(p) == b.value(p),
        a.is_zero() <==> a.value(p) == 0,
{
    lemma_is_zero(p, a);
    lemma_is_zero(p, b);
    match (a, b) {
        (AssignedModel::Rational(n1, d1), AssignedModel::Rational(n2, d2)) => {
            if d1 != 0 && d2 != 0 {
                lemma_cross(p, n1, d1, fmul(p, n2, finv(p, d2)));
                lemma_cross(p, n2, d2, fmul(p, n1, d2));
                lemma_cross_fraction(p, n1, d1, n2, d2);
            }
        },
        (AssignedModel::Trivial(x), AssignedModel::Rational(n, d)) => {
            if d != 0 {
                lemma_cross(p, n, d, x);
            }
        },
        (AssignedModel::Rational(n, d), AssignedModel::Trivial(x)) => {
            if d != 0 {
                lemma_cross(p, n, d, x);
            }
        },
        _ => {},
    }
}

proof fn lemma_is_zero(p: int, a: AssignedModel)
    requires
        is_field(p),
        a.wf(p),
    ensures
        a.is_zero() <==> a.value(p) == 0,
{
    lemma_finv_zero(p);
    if let AssignedModel::Rational(n, d) = a {
        lemma_units(p, n);
        crate::field::lemma_finv_range(p, d);
        lemma_units(p, finv(p, d));
        if n != 0 && d != 0 {
            lemma_field_inverse(p, d);
            lemma_no_zero_divisors(p, n, finv(p, d));
        }
    }
}

/// `n / d = x` exactly where `x d = n`.
proof fn lemma_cross(p: int, n: int, d: int, x: int)
    requires
        is_field(p),
        0 <= n < p,
        0 < d < p,
        0 <= x < p,
    ensures
        fmul(p, n, finv(p, d)) == x <==> fmul(p, x, d) == n,
{
    let i = finv(p, d);
    lemma_field_inverse(p, d);
    lemma_units(p, n);
    lemma_units(p, x);
    lemma_fmul_assoc(p, n, i, d);
    lemma_fmul_comm(p, i, d);
    lemma_fmul_assoc(p, x, d, i);
}

/// `n1 / d1 = n2 / d2` exactly where `n1 d2 = d1 n2`.
proof fn lemma_cross_fraction(p: int, n1: int, d1: int, n2: int, d2: int)
    requires
        is_field(p),
        0 <= n1 < p,
        0 < d1 < p,
        0 <= n2 < p,
        0 < d2 < p,
    ensures
        fmul(p, n1, finv(p, d1)) == fmul(p, n2, finv(p, d2)) <==> fmul(p, n1, d2) == fmul(p, d1,
            n2),
{
    let j = finv(p, d2);
    let x = fmul(p, n2, j);
    lemma_f_range(p, n2, j);
    lemma_cross(p, n1, d1, x);
    // x d1 = (n2 j) d1 = (d1 n2) j, which is n1 exactly where n1 d2 = d1 n2
    lemma_fmul_comm(p, x, d1);
    lemma_fmul_assoc(p, d1, n2, j);
    lemma_f_range(p, d1, n2);
    lemma_cross(p, fmul(p, d1, n2), d2, n1);
}

/// One operation on cell values.
pub enum UnaryOperator {
    Neg,
    Double,
    Square,
    Cube,
    Inv0,
}

/// One operation on two cell values.
pub enum BinaryOperator {
    Add,
    Sub,
    Mul,
}

/// A computation over cell values.
pub enum Computation {
    Value(AssignedModel),
    Unary(UnaryOperator, Box<Computation>),
    Binary(BinaryOperator, Box<Computation>, Box<Computation>),
}

impl Computation {
    pub open spec fn wf(self, p: int) -> bool
        decreases self,
    {
        match self {
            Computation::Value(m) => m.wf(p),
            Computation::Unary(_, a) => a.wf(p),
            Computation::Binary(_, a, b) => a.wf(p) && b.wf(p),
        }
    }

    /// The computation carried out on fractions.
    pub open spec fn deferred(self, p: int) -> AssignedModel
        decreases self,
    {
        match self {
            Computation::Value(m) => m,
            Computation::Unary(op, a) => {
                let a = a.deferred(p);
                match op {
                    UnaryOperator::Neg => a.neg(p),
                    UnaryOperator::Double => a.doubled(p),
                    UnaryOperator::Square => a.squared(p),
                    UnaryOperator::Cube => a.cubed(p),
                    UnaryOperator::Inv0 => a.inverted(),
                }
            },
            Computation::Binary(op, a, b) => {
                let a = a.deferred(p);
                let b = b.deferred(p);
                match op {
                    BinaryOperator::Add => a.plus(b, p),
                    BinaryOperator::Sub => a.minus(b, p),
                    BinaryOperator::Mul => a.times(b, p),
                }
            },
        }
    }

    /// The computation carried out on field elements.
    pub open spec fn direct(self, p: int) -> int
        decreases self,
    {
        match self {
            Computation::Value(m) => m.value(p),
            Computation::Unary(op, a) => {
                let a = a.direct(p);
                match op {
                    UnaryOperator::Neg => fneg(p, a),
                    UnaryOperator::Double => fadd(p, a, a),
                    UnaryOperator::Square => fmul(p, a, a),
                    UnaryOperator::Cube => fmul(p, fmul(p, a, a), a),
                    UnaryOperator::Inv0 => finv(p, a),
                }
            },
            Computation::Binary(op, a, b) => {
                let a = a.direct(p);
                let b = b.direct(p);
                match op {
                    BinaryOperator::Add => fadd(p, a, b),
                    BinaryOperator::Sub => fsub(p, a, b),
                    BinaryOperator::Mul => fmul(p, a, b),
                }
            },
        }
    }
}

/// Deferred inversion commutes with every computation: evaluating the fraction
/// that a computation yields gives what the same computation yields on the
/// evaluated inputs.
pub proof fn law_operation_commutativity(p: int, c: Computation)
    requires
        is_field(p),
        c.wf(p),
    ensures
        c.deferred(p).wf(p),
        c.deferred(p).value(p) == c.direct(p),
    decreases c,
{
    match c {
        Computation::Value(_) => {},
        Computation::Unary(op, a) => {
            law_operation_commutativity(p, *a);
            let m = a.deferred(p);
            match op {
                UnaryOperator::Neg => law_neg(p, m),
                UnaryOperator::Double => law_double(p, m),
                UnaryOperator::Square => law_square(p, m),
                UnaryOperator::Cube => law_cube(p, m),
                UnaryOperator::Inv0 => law_invert(p, m),
            }
        },
        Computation::Binary(op, a, b) => {
            law_operation_commutativity(p, *a);
            law_operation_commutativity(p, *b);
            let m = a.deferred(p);
            let n = b.deferred(p);
            match op {
                BinaryOperator::Add => law_add(p, m, n),
                BinaryOperator::Sub => law_sub(p, m, n),
                BinaryOperator::Mul => law_mul(p, m, n),
            }
        },
    }
}

} // verus!
