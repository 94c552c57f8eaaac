//! Sums over the powers of roots of unity.

use crate::field::{
    fadd, fmul, fneg, fpow, fsub, lemma_f_range, lemma_fadd_assoc, lemma_fadd_comm,
    lemma_fmul_assoc, lemma_fmul_comm, lemma_fmul_distrib, lemma_fmul_neg, lemma_fneg_fneg,
    lemma_fpow_add, lemma_fpow_mul, lemma_fpow_one, lemma_fpow_range, lemma_fsub_is_add_neg,
    lemma_units,
};
use crate::poly::arithmetic::{canonical, poly_eval};
use crate::poly::fft::{is_primitive, lemma_fpow_square, transform};
use vstd::arithmetic::div_mod::lemma_small_mod;
use vstd::arithmetic::power2::{lemma2_to64, lemma_pow2_unfold, pow2};
use vstd::prelude::*;

verus! {

/// The sum of the first `n` values of a function.
pub open spec fn fsum(p: int, n: nat, f: spec_fn(nat) -> int) -> int
    decreases n,
{
    if n == 0 {
        0
    } else {
        fadd(p, fsum(p, (n - 1) as nat, f), f((n - 1) as nat))
    }
}

pub proof fn lemma_fsum_range(p: int, n: nat, f: spec_fn(nat) -> int)
    requires
        p > 0,
    ensures
        0 <= fsum(p, n, f) < p,
{
}

pub proof fn lemma_fsum_equal(p: int, n: nat, f: spec_fn(nat) -> int, g: spec_fn(nat) -> int)
    requires
        forall|i: nat| i < n ==> #[trigger] f(i) == g(i),
    ensures
        fsum(p, n, f) == fsum(p, n, g),
    decreases n,
{
    if n > 0 {
        lemma_fsum_equal(p, (n - 1) as nat, f, g);
    }
}

pub proof fn lemma_fsum_zero(p: int, n: nat, f: spec_fn(nat) -> int)
    requires
        p > 0,
        forall|i: nat| i < n ==> #[trigger] f(i) == 0,
    ensures
        fsum(p, n, f) == 0,
    decreases n,
{
    lemma_small_mod(0, p as nat);
    if n > 0 {
        lemma_fsum_zero(p, (n - 1) as nat, f);
    }
}

/// A sum with one value that may differ from zero is that value.
pub proof fn lemma_fsum_single(p: int, n: nat, f: spec_fn(nat) -> int, k: nat)
    requires
        p > 0,
        k < n,
        0 <= f(k) < p,
        forall|i: nat| i < n && i != k ==> #[trigger] f(i) == 0,
    ensures
        fsum(p, n, f) == f(k),
    decreases n,
{
    let m = (n - 1) as nat;
    lemma_small_mod(f(k) as nat, p as nat);
    if m == k {
        lemma_fsum_zero(p, m, f);
    } else {
        lemma_fsum_single(p, m, f, k);
        assert(f(m) == 0);
    }
}

pub proof fn lemma_fsum_multiple(
    p: int,
    n: nat,
    f: spec_fn(nat) -> int,
    c: int,
    g: spec_fn(nat) -> int,
)
    requires
        p > 0,
        forall|i: nat| i < n ==> #[trigger] g(i) == fmul(p, c, f(i)),
    ensures
        fsum(p, n, g) == fmul(p, c, fsum(p, n, f)),
    decreases n,
{
    if n == 0 {
        lemma_small_mod(0, p as nat);
        assert(c * 0 == 0);
    } else {
        let m = (n - 1) as nat;
        lemma_fsum_multiple(p, m, f, c, g);
        lemma_fmul_distrib(p, c, fsum(p, m, f), f(m));
        assert(g(m) == fmul(p, c, f(m)));
    }
}

pub proof fn lemma_fsum_add(
    p: int,
    n: nat,
    f: spec_fn(nat) -> int,
    g: spec_fn(nat) -> int,
    h: spec_fn(nat) -> int,
)
    requires
        p > 0,
        forall|i: nat| i < n ==> #[trigger] h(i) == fadd(p, f(i), g(i)),
    ensures
        fsum(p, n, h) == fadd(p, fsum(p, n, f), fsum(p, n, g)),
    decreases n,
{
    lemma_small_mod(0, p as nat);
    if n > 0 {
        let m = (n - 1) as nat;
        lemma_fsum_add(p, m, f, g, h);
        let (a, b) = (fsum(p, m, f), fsum(p, m, g));
        let (x, y) = (f(m), g(m));
        assert(h(m) == fadd(p, x, y));
        // (a + b) + (x + y) = (a + x) + (b + y)
        lemma_fadd_assoc(p, a, b, fadd(p, x, y));
        lemma_fadd_assoc(p, b, x, y);
        lemma_fadd_comm(p, b, x);
        lemma_fadd_assoc(p, x, b, y);
        lemma_fadd_assoc(p, a, x, fadd(p, b, y));
    }
}

/// Sums over the first and over the rest.
pub proof fn lemma_fsum_split(
    p: int,
    m: nat,
    n: nat,
    f: spec_fn(nat) -> int,
    g: spec_fn(nat) -> int,
)
    requires
        p > 0,
        forall|i: nat| i < n ==> #[trigger] g(i) == f(m + i),
    ensures
        fsum(p, m + n, f) == fadd(p, fsum(p, m, f), fsum(p, n, g)),
    decreases n,
{
    if n == 0 {
        lemma_fsum_range(p, m, f);
        lemma_small_mod(fsum(p, m, f) as nat, p as nat);
    } else {
        let k = (n - 1) as nat;
        lemma_fsum_split(p, m, k, f, g);
        assert((m + n - 1) as nat == m + k);
        assert(g(k) == f(m + k));
        lemma_fadd_assoc(p, fsum(p, m, f), fsum(p, k, g), g(k));
    }
}

/// The order of summation does not matter.
pub proof fn lemma_fsum_swap(p: int, m: nat, n: nat, f: spec_fn(nat, nat) -> int)
    requires
        p > 0,
    ensures
        fsum(p, m, |i: nat| fsum(p, n, |j: nat| f(i, j))) == fsum(
            p,
            n,
            |j: nat| fsum(p, m, |i: nat| f(i, j)),
        ),
    decreases m,
{
    if m == 0 {
        let g = |j: nat| fsum(p, m, |i: nat| f(i, j));
        lemma_fsum_zero(p, n, g);
    } else {
        let k = (m - 1) as nat;
        lemma_fsum_swap(p, k, n, f);
        let rows = |i: nat| fsum(p, n, |j: nat| f(i, j));
        let before = |j: nat| fsum(p, k, |i: nat| f(i, j));
        let last = |j: nat| f(k, j);
        let all = |j: nat| fsum(p, m, |i: nat| f(i, j));
        assert forall|j: nat| j < n implies #[trigger] all(j) == fadd(p, before(j), last(j)) by {
            let column = |i: nat| f(i, j);
            assert(fsum(p, m, column) == fadd(p, fsum(p, k, column), column(k)));
        }
        lemma_fsum_add(p, n, before, last, all);
        assert(fsum(p, m, rows) == fadd(p, fsum(p, k, rows), rows(k)));
    }
}

/// A polynomial's value is the sum of its terms.
pub proof fn lemma_poly_eval_is_sum(p: int, a: Seq<int>, x: int)
    requires
        p > 1,
    ensures
        poly_eval(p, a, x) == fsum(
            p,
            a.len(),
            |j: nat| fmul(p, a[j as int], fpow(p, x, j)),
        ),
    decreases a.len(),
{
    let f = |j: nat| fmul(p, a[j as int], fpow(p, x, j));
    if a.len() > 0 {
        let b = a.drop_first();
        lemma_poly_eval_is_sum(p, b, x);
        let g = |j: nat| fmul(p, b[j as int], fpow(p, x, j));
        let h = |j: nat| f(1 + j);
        lemma_fsum_split(p, 1, b.len(), f, h);
        assert(1 + b.len() == a.len());
        // x g(j) = f(1 + j)
        assert forall|j: nat| j < b.len() implies #[trigger] h(j) == fmul(p, x, g(j)) by {
            assert(a[(1 + j) as int] == b[j as int]);
            let (c, e) = (b[j as int], fpow(p, x, j));
            assert(fpow(p, x, 1 + j) == fmul(p, e, x));
            // c (e x) = x (c e)
            lemma_fmul_assoc(p, c, e, x);
            lemma_fmul_comm(p, fmul(p, c, e), x);
        }
        lemma_fsum_multiple(p, b.len(), g, x, h);
        assert(fsum(p, 1, f) == fadd(p, 0, f(0))) by {
            reveal_with_fuel(fsum, 2);
        }
        lemma_small_mod(1, p as nat);
        crate::field::lemma_mod_add_left(p, a[0], fmul(p, x, poly_eval(p, b, x)));
        assert(a[0] * 1 == a[0]);
        assert(f(0) == a[0] % p);
        vstd::arithmetic::div_mod::lemma_mod_twice(a[0], p);
    }
}

/// The order of a primitive root: its power `2^k` is one.
pub proof fn lemma_root_power(p: int, w: int, k: nat)
    requires
        p > 2,
        k > 0,
        is_primitive(p, w, k),
    ensures
        fpow(p, w, pow2(k)) == 1,
{
    let h = pow2((k - 1) as nat);
    lemma_pow2_unfold(k);
    lemma_fpow_add(p, w, h, h);
    assert(pow2(k) == h + h);
    lemma_fmul_neg(p, fneg(p, 1), 1);
    lemma_small_mod(1, p as nat);
    lemma_f_range(p, 1, 1);
    lemma_units(p, fneg(p, 1));
    lemma_fneg_fneg(p, 1);
}

/// Odd powers of minus one.
proof fn lemma_minus_one_odd(p: int, i: nat)
    requires
        p > 2,
    ensures
        fpow(p, fneg(p, 1), 2 * i) == 1,
        fpow(p, fneg(p, 1), 2 * i + 1) == fneg(p, 1),
    decreases i,
{
    let m = fneg(p, 1);
    lemma_small_mod(1, p as nat);
    lemma_f_range(p, 1, 1);
    assert(fmul(p, m, m) == 1) by {
        lemma_fmul_neg(p, m, 1);
        lemma_units(p, m);
        lemma_fneg_fneg(p, 1);
    }
    lemma_fpow_square(p, m, i);
    lemma_fpow_one(p, i);
    assert(fpow(p, m, 2 * i + 1) == fmul(p, fpow(p, m, 2 * i), m));
    lemma_units(p, m);
}

/// An odd power of a primitive root is primitive.
pub proof fn lemma_odd_power_primitive(p: int, w: int, k: nat, i: nat)
    requires
        p > 2,
        is_primitive(p, w, k),
    ensures
        is_primitive(p, fpow(p, w, 2 * i + 1), k),
{
    if k > 0 {
        let h = pow2((k - 1) as nat);
        let d = 2 * i + 1;
        lemma_fpow_mul(p, w, d, h);
        lemma_fpow_mul(p, w, h, d);
        assert(d * h == h * d) by (nonlinear_arith);
        lemma_minus_one_odd(p, i);
    }
}

/// No smaller power of a primitive root is one.
pub proof fn lemma_root_order(p: int, w: int, k: nat, i: nat)
    requires
        p > 2,
        is_primitive(p, w, k),
        0 < i < pow2(k),
    ensures
        fpow(p, w, i) != 1,
    decreases k,
{
    lemma2_to64();
    if k > 0 {
        lemma_pow2_unfold(k);
        let h = pow2((k - 1) as nat);
        lemma_small_mod(1, p as nat);
        assert(fneg(p, 1) == p - 1) by {
            lemma_small_mod((p - 1) as nat, p as nat);
            vstd::arithmetic::div_mod::lemma_mod_add_multiples_vanish(-1, p);
        }
        if i % 2 == 0 {
            let j = i / 2;
            lemma_square_primitive(p, w, k);
            lemma_root_order(p, fmul(p, w, w), (k - 1) as nat, j);
            lemma_fpow_square(p, w, j);
            assert(2 * j == i);
        } else {
            let j = i / 2;
            assert(i == 2 * j + 1);
            lemma_odd_power_primitive(p, w, k, j);
            if fpow(p, w, i) == 1 {
                lemma_fpow_one(p, h);
            }
        }
    }
}

/// The square of a primitive root is primitive of half the order.
pub proof fn lemma_square_primitive(p: int, w: int, k: nat)
    requires
        p > 2,
        k > 0,
        is_primitive(p, w, k),
    ensures
        is_primitive(p, fmul(p, w, w), (k - 1) as nat),
{
    if k > 1 {
        let m = pow2((k - 2) as nat);
        lemma_pow2_unfold((k - 1) as nat);
        assert(pow2((k - 1) as nat) == 2 * m);
        lemma_fpow_square(p, w, m);
    }
}

/// The powers of an element.
pub open spec fn power_of(p: int, x: int) -> spec_fn(nat) -> int {
    |j: nat| fpow(p, x, j)
}

/// The powers of a primitive root of order two or more sum to zero.
proof fn lemma_primitive_sum(p: int, x: int, k: nat)
    requires
        p > 2,
        k > 0,
        is_primitive(p, x, k),
    ensures
        fsum(p, pow2(k), power_of(p, x)) == 0,
{
    let h = pow2((k - 1) as nat);
    lemma_pow2_unfold(k);
    let f = power_of(p, x);
    let g = |j: nat| f(h + j);
    lemma_fsum_split(p, h, h, f, g);
    let m = fneg(p, 1);
    assert forall|j: nat| j < h implies #[trigger] g(j) == fmul(p, m, f(j)) by {
        lemma_fpow_add(p, x, h, j);
    }
    lemma_fsum_multiple(p, h, f, m, g);
    let s = fsum(p, h, f);
    lemma_fsum_range(p, h, f);
    // s - s = 0
    lemma_fmul_neg(p, 1, s);
    lemma_units(p, s);
    lemma_fmul_comm(p, 1, s);
    lemma_fsub_is_add_neg(p, s, s);
    lemma_small_mod(0, p as nat);
}

/// The powers of a power of a primitive root that is not one sum to zero.
pub proof fn lemma_root_sum(p: int, w: int, k: nat, d: nat)
    requires
        p > 2,
        is_primitive(p, w, k),
        0 < d < pow2(k),
    ensures
        fsum(p, pow2(k), power_of(p, fpow(p, w, d))) == 0,
    decreases k,
{
    lemma2_to64();
    let x = fpow(p, w, d);
    if k > 0 {
        lemma_pow2_unfold(k);
        let h = pow2((k - 1) as nat);
        if d % 2 == 1 {
            lemma_odd_power_primitive(p, w, k, d / 2);
            assert(d == 2 * (d / 2) + 1);
            lemma_primitive_sum(p, x, k);
        } else {
            let e = d / 2;
            assert(d == 2 * e);
            lemma_square_primitive(p, w, k);
            let v = fmul(p, w, w);
            lemma_root_sum(p, v, (k - 1) as nat, e);
            lemma_fpow_square(p, w, e);
            assert(x == fpow(p, v, e));
            let f = power_of(p, x);
            let g = |j: nat| f(h + j);
            lemma_fsum_split(p, h, h, f, g);
            // x^h = 1
            assert(fpow(p, x, h) == 1) by {
                lemma_fpow_mul(p, w, d, h);
                assert(d * h == (2 * h) * e) by (nonlinear_arith)
                    requires
                        d == 2 * e,
                ;
                lemma_fpow_mul(p, w, 2 * h, e);
                lemma_root_power(p, w, k);
                lemma_fpow_one(p, e);
            }
            assert forall|j: nat| j < h implies #[trigger] g(j) == f(j) by {
                lemma_fpow_add(p, x, h, j);
                lemma_fpow_range(p, x, j);
                lemma_units(p, fpow(p, x, j));
                lemma_fmul_comm(p, 1, fpow(p, x, j));
            }
            lemma_fsum_equal(p, h, g, f);
            lemma_small_mod(0, p as nat);
        }
    }
}

/// The sum of `n` ones.
proof fn lemma_ones_sum(p: int, n: nat, f: spec_fn(nat) -> int)
    requires
        p > 1,
        forall|i: nat| i < n ==> #[trigger] f(i) == 1,
    ensures
        fsum(p, n, f) == n as int % p,
    decreases n,
{
    lemma_small_mod(0, p as nat);
    if n > 0 {
        let m = (n - 1) as nat;
        lemma_ones_sum(p, m, f);
        assert(f(m) == 1);
        crate::field::lemma_mod_add_left(p, m as int, 1);
    }
}

/// Powers of inverses cancel.
pub proof fn lemma_inverse_powers(p: int, w: int, v: int, i: nat)
    requires
        p > 1,
        fmul(p, w, v) == 1,
    ensures
        fmul(p, fpow(p, w, i), fpow(p, v, i)) == 1,
    decreases i,
{
    lemma_small_mod(1, p as nat);
    assert(fmul(p, 1, 1) == 1);
    if i > 0 {
        let j = (i - 1) as nat;
        lemma_inverse_powers(p, w, v, j);
        let (a, b) = (fpow(p, w, j), fpow(p, v, j));
        // (a w) (b v) = (a b) (w v)
        lemma_fmul_assoc(p, a, w, fmul(p, b, v));
        lemma_fmul_assoc(p, w, b, v);
        lemma_fmul_comm(p, w, b);
        lemma_fmul_assoc(p, b, w, v);
        lemma_fpow_range(p, v, j);
        lemma_units(p, b);
    }
}

/// The product of a power of a root and a power of its inverse is a power of
/// the root below the order.
proof fn lemma_power_difference(p: int, w: int, v: int, k: nat, a: nat, b: nat)
    requires
        p > 2,
        k > 0,
        is_primitive(p, w, k),
        fmul(p, w, v) == 1,
        a < pow2(k),
        b < pow2(k),
        a != b,
    ensures
        exists|d: nat|
            0 < d < pow2(k) && #[trigger] fpow(p, w, d) == fmul(p, fpow(p, w, a), fpow(p, v, b)),
{
    let n = pow2(k);
    let d: nat = if a > b {
        (a - b) as nat
    } else {
        (n + a - b) as nat
    };
    // w^d w^b = w^a, so w^d = w^a v^b.
    lemma_fpow_add(p, w, d, b);
    if a < b {
        lemma_root_power(p, w, k);
        lemma_fpow_add(p, w, n, a);
        lemma_fpow_range(p, w, a);
        lemma_units(p, fpow(p, w, a));
        lemma_fmul_comm(p, 1, fpow(p, w, a));
        assert(d + b == n + a);
    }
    assert(fmul(p, fpow(p, w, d), fpow(p, w, b)) == fpow(p, w, a));
    lemma_fmul_assoc(p, fpow(p, w, d), fpow(p, w, b), fpow(p, v, b));
    lemma_inverse_powers(p, w, v, b);
    lemma_fpow_range(p, w, d);
    lemma_units(p, fpow(p, w, d));
}

/// Orthogonality: the sum over `j` of `w^(a j) v^(b j)`, where `v` is the
/// inverse of the root `w` of order `n`, is `n` for equal exponents and zero
/// for others.
pub proof fn lemma_orthogonal(p: int, w: int, v: int, k: nat, a: nat, b: nat)
    requires
        p > 2,
        is_primitive(p, w, k),
        fmul(p, w, v) == 1,
        a < pow2(k),
        b < pow2(k),
    ensures
        fsum(
            p,
            pow2(k),
            |j: nat| fmul(p, fpow(p, fpow(p, w, j), a), fpow(p, fpow(p, v, b), j)),
        ) == if a == b {
            pow2(k) as int % p
        } else {
            0
        },
{
    let n = pow2(k);
    lemma2_to64();
    let f = |j: nat| fmul(p, fpow(p, fpow(p, w, j), a), fpow(p, fpow(p, v, b), j));
    let x = fmul(p, fpow(p, w, a), fpow(p, v, b));
    let g = power_of(p, x);
    assert forall|j: nat| j < n implies #[trigger] f(j) == g(j) by {
        // (w^j)^a = (w^a)^j
        lemma_fpow_mul(p, w, j, a);
        lemma_fpow_mul(p, w, a, j);
        assert(j * a == a * j) by (nonlinear_arith);
        lemma_fpow_product(p, fpow(p, w, a), fpow(p, v, b), j);
    }
    lemma_fsum_equal(p, n, f, g);
    if a == b {
        lemma_inverse_powers(p, w, v, a);
        assert forall|j: nat| j < n implies #[trigger] g(j) == 1 by {
            lemma_fpow_one(p, j);
        }
        lemma_ones_sum(p, n, g);
    } else {
        assert(k > 0);
        lemma_power_difference(p, w, v, k, a, b);
        let d = choose|d: nat|
            0 < d < pow2(k) && #[trigger] fpow(p, w, d) == fmul(
                p,
                fpow(p, w, a),
                fpow(p, v, b),
            );
        lemma_root_sum(p, w, k, d);
    }
}

/// The power of a product.
pub proof fn lemma_fpow_product(p: int, a: int, b: int, n: nat)
    requires
        p > 1,
    ensures
        fpow(p, fmul(p, a, b), n) == fmul(p, fpow(p, a, n), fpow(p, b, n)),
    decreases n,
{
    lemma_small_mod(1, p as nat);
    assert(fmul(p, 1, 1) == 1);
    if n > 0 {
        let m = (n - 1) as nat;
        lemma_fpow_product(p, a, b, m);
        let (x, y) = (fpow(p, a, m), fpow(p, b, m));
        // (x y) (a b) = (x a) (y b)
        lemma_fmul_assoc(p, x, y, fmul(p, a, b));
        lemma_fmul_assoc(p, y, a, b);
        lemma_fmul_comm(p, y, a);
        lemma_fmul_assoc(p, a, y, b);
        lemma_fmul_assoc(p, x, a, fmul(p, y, b));
    }
}

/// The inverse transform undoes the transform: for the inverse `v` of a
/// primitive root `w` of order `n`, and the inverse of `n`.
pub proof fn law_transform_inverse(
    p: int,
    a: Seq<int>,
    w: int,
    v: int,
    k: nat,
    n_inv: int,
    i: int,
)
    requires
        p > 2,
        is_primitive(p, w, k),
        fmul(p, w, v) == 1,
        fmul(p, n_inv, pow2(k) as int % p) == 1,
        a.len() == pow2(k),
        canonical(p, a),
        0 <= i < a.len(),
    ensures
        fmul(p, n_inv, transform(p, transform(p, a, w, pow2(k)), v, pow2(k))[i]) == a[i],
{
    let n = pow2(k);
    let t = transform(p, a, w, n);
    let z = fpow(p, v, i as nat);
    let total = poly_eval(p, t, z);
    lemma_poly_eval_is_sum(p, t, z);
    // The double sum over `j` (positions of `t`) and `m` (positions of `a`).
    let term = |j: nat, m: nat|
        fmul(p, fmul(p, a[m as int], fpow(p, fpow(p, w, j), m)), fpow(p, z, j));
    let outer = |j: nat| fmul(p, t[j as int], fpow(p, z, j));
    let rows = |j: nat| fsum(p, n, |m: nat| term(j, m));
    assert forall|j: nat| j < n implies #[trigger] outer(j) == rows(j) by {
        let x = fpow(p, w, j);
        lemma_poly_eval_is_sum(p, a, x);
        let f = |m: nat| fmul(p, a[m as int], fpow(p, x, m));
        let row = |m: nat| term(j, m);
        assert forall|m: nat| m < n implies #[trigger] row(m) == fmul(
            p,
            fpow(p, z, j),
            f(m),
        ) by {
            lemma_fmul_comm(p, f(m), fpow(p, z, j));
        }
        lemma_fsum_multiple(p, n, f, fpow(p, z, j), row);
        lemma_fmul_comm(p, t[j as int], fpow(p, z, j));
        assert(rows(j) == fsum(p, n, row));
    }
    lemma_fsum_equal(p, n, outer, rows);
    assert(total == fsum(p, n, rows)) by {
        assert(t.len() == n);
        lemma_fsum_equal(
            p,
            n,
            |j: nat| fmul(p, t[j as int], fpow(p, z, j)),
            outer,
        );
    }
    lemma_fsum_swap(p, n, n, term);
    let columns = |m: nat| fsum(p, n, |j: nat| term(j, m));
    assert(fsum(p, n, rows) == fsum(p, n, columns)) by {
        lemma_fsum_equal(p, n, |j: nat| fsum(p, n, |m: nat| term(j, m)), rows);
        lemma_fsum_equal(p, n, |m: nat| fsum(p, n, |j: nat| term(j, m)), columns);
    }
    // Each column is `a[m]` times an orthogonality sum.
    let selected = |m: nat|
        if m == i {
            fmul(p, a[i], n as int % p)
        } else {
            0
        };
    assert forall|m: nat| m < n implies #[trigger] columns(m) == selected(m) by {
        let g = |j: nat| fmul(p, fpow(p, fpow(p, w, j), m), fpow(p, fpow(p, v, i as nat), j));
        let column = |j: nat| term(j, m);
        assert forall|j: nat| j < n implies #[trigger] column(j) == fmul(
            p,
            a[m as int],
            g(j),
        ) by {
            lemma_fmul_assoc(p, a[m as int], fpow(p, fpow(p, w, j), m), fpow(p, z, j));
        }
        lemma_fsum_multiple(p, n, g, a[m as int], column);
        lemma_orthogonal(p, w, v, k, m, i as nat);
        assert(columns(m) == fsum(p, n, column));
        assert(a[m as int] * 0 == 0);
        lemma_small_mod(0, p as nat);
    }
    lemma_fsum_equal(p, n, columns, selected);
    let c = n as int % p;
    lemma_f_range(p, a[i], c);
    lemma_fsum_single(p, n, selected, i as nat);
    assert(total == fmul(p, a[i], c));
    // n_inv (a c) = a (n_inv c) = a
    lemma_fmul_comm(p, a[i], c);
    lemma_fmul_assoc(p, n_inv, c, a[i]);
    lemma_fmul_comm(p, 1, a[i]);
    lemma_units(p, a[i]);
}

/// A geometric sum: `(x - 1) (1 + x + ... + x^(n-1)) = x^n - 1`.
pub proof fn lemma_geometric(p: int, x: int, n: nat)
    requires
        p > 1,
    ensures
        fmul(p, fsub(p, x, 1), fsum(p, n, power_of(p, x))) == fsub(p, fpow(p, x, n), 1),
    decreases n,
{
    let d = fsub(p, x, 1);
    lemma_small_mod(0, p as nat);
    lemma_small_mod(1, p as nat);
    if n == 0 {
        assert(d * 0 == 0);
    } else {
        let m = (n - 1) as nat;
        lemma_geometric(p, x, m);
        let (s, e) = (fsum(p, m, power_of(p, x)), fpow(p, x, m));
        lemma_fmul_distrib(p, d, s, e);
        // (e - 1) + (x - 1) e = x e - 1
        crate::field::lemma_mod_mul_left(p, x - 1, e);
        crate::field::lemma_mod_add_left(p, e - 1, fmul(p, d, e));
        crate::field::lemma_mod_add_right(p, e - 1, (x - 1) * e);
        assert((e - 1) + (x - 1) * e == e * x - 1) by (nonlinear_arith);
        crate::field::lemma_mod_sub_left(p, e * x, 1);
        assert(fpow(p, x, n) == fmul(p, e, x));
    }
}

} // verus!
