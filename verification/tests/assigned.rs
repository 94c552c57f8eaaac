use halo2_gpu::field::bn256::Fr;
use halo2_gpu::field::Field;
use halo2_gpu::plonk::assigned::GpuAssigned;

fn f(v: u64) -> Fr {
    Fr::from_u64(v)
}

// We use (numerator, denominator) in the comments below to denote a rational.
#[test]
fn add_trivial_to_inv0_rational() {
    // a = 2
    // b = (1,0)
    let a = GpuAssigned::Trivial(f(2));
    let b = GpuAssigned::Rational(f(1), f(0));

    // 2 + (1,0) = 2 + 0 = 2
    // This fails if addition is implemented using normal rules for rationals.
    assert_eq!((a + b).evaluate(), a.evaluate());
    assert_eq!((b + a).evaluate(), a.evaluate());
}

#[test]
fn add_rational_to_inv0_rational() {
    // a = (1,2)
    // b = (1,0)
    let a = GpuAssigned::Rational(f(1), f(2));
    let b = GpuAssigned::Rational(f(1), f(0));

    // (1,2) + (1,0) = (1,2) + 0 = (1,2)
    // This fails if addition is implemented using normal rules for rationals.
    assert_eq!((a + b).evaluate(), a.evaluate());
    assert_eq!((b + a).evaluate(), a.evaluate());
}

#[test]
fn sub_trivial_from_inv0_rational() {
    // a = 2
    // b = (1,0)
    let a = GpuAssigned::Trivial(f(2));
    let b = GpuAssigned::Rational(f(1), f(0));

    // (1,0) - 2 = 0 - 2 = -2
    // This fails if subtraction is implemented using normal rules for rationals.
    assert_eq!((b - a).evaluate(), (-a).evaluate());

    // 2 - (1,0) = 2 - 0 = 2
    assert_eq!((a - b).evaluate(), a.evaluate());
}

#[test]
fn sub_rational_from_inv0_rational() {
    // a = (1,2)
    // b = (1,0)
    let a = GpuAssigned::Rational(f(1), f(2));
    let b = GpuAssigned::Rational(f(1), f(0));

    // (1,0) - (1,2) = 0 - (1,2) = -(1,2)
    // This fails if subtraction is implemented using normal rules for rationals.
    assert_eq!((b - a).evaluate(), (-a).evaluate());

    // (1,2) - (1,0) = (1,2) - 0 = (1,2)
    assert_eq!((a - b).evaluate(), a.evaluate());
}

#[test]
fn mul_rational_by_inv0_rational() {
    // a = (1,2)
    // b = (1,0)
    let a = GpuAssigned::Rational(f(1), f(2));
    let b = GpuAssigned::Rational(f(1), f(0));

    // (1,2) * (1,0) = (1,2) * 0 = 0
    assert_eq!((a * b).evaluate(), f(0));

    // (1,0) * (1,2) = 0 * (1,2) = 0
    assert_eq!((b * a).evaluate(), f(0));
}

#[test]
fn equality_is_that_of_the_values() {
    let half = GpuAssigned::Rational(f(1), f(2));
    let two_quarters = GpuAssigned::Rational(f(2), f(4));
    assert!(half == two_quarters);
    assert!(half == GpuAssigned::Trivial(half.evaluate()));
    assert!(GpuAssigned::Rational(f(5), f(0)) == GpuAssigned::Zero);
    assert!(!(half == GpuAssigned::Trivial(f(2))));
}

#[test]
fn inversion_is_deferred() {
    let a = GpuAssigned::Trivial(f(7)).invert();
    assert_eq!(a.denominator(), Some(f(7)));
    assert_eq!(a.numerator(), f(1));
    assert_eq!(a.evaluate().mul(&f(7)), f(1));
    assert_eq!(GpuAssigned::Trivial(f(0)).invert().evaluate(), f(0));
}

#[test]
fn squares_and_cubes() {
    let a = GpuAssigned::Rational(f(3), f(5));
    assert!(a.square() == a * a);
    assert!(a.cube() == a * a * a);
    assert!(a.double() == a + a);
    assert_eq!(GpuAssigned::Trivial(f(3)).cube().evaluate(), f(27));
}
