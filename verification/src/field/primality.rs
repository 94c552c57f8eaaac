//! Primality from the orders of elements: where the integers modulo every
//! divisor of `n` hold an element whose order exceeds the square root of `n`,
//! `n` is prime, and the residues modulo `n` form a field.

use crate::field::{
    fmul, fpow, has_inverse, is_field, is_inverse, lemma_fpow_add, lemma_fpow_mul, lemma_fpow_one,
    lemma_fpow_range, lemma_mod_mul_left, lemma_mod_mul_right, lemma_units,
};
use crate::poly::roots::lemma_fpow_product;
use vstd::arithmetic::div_mod::{
    lemma_fundamental_div_mod, lemma_mod_mod, lemma_mod_multiples_vanish, lemma_small_mod,
};
use vstd::prelude::*;
use vstd::set_lib::{lemma_int_range, lemma_len_subset, set_int_range};

verus! {

/// Whether nothing strictly between one and `n` divides `n`.
pub open spec fn is_prime(n: int) -> bool {
    &&& n > 1
    &&& forall|d: int| 1 < d < n ==> #[trigger] (n % d) != 0
}

proof fn lemma_prime_inverse(p: int, a: int)
    requires
        is_prime(p),
        0 < a < p,
    ensures
        has_inverse(p, a),
    decreases a,
{
    lemma_small_mod(1, p as nat);
    if a == 1 {
        assert(is_inverse(p, 1, 1));
    } else {
        // p = a q + r, so that a q = -r: from an inverse s of r to one of a.
        let (q, r) = (p / a, p % a);
        lemma_fundamental_div_mod(p, a);
        assert(p % a != 0);
        lemma_prime_inverse(p, r);
        let s = choose|s: int| is_inverse(p, r, s);
        let b = (-q * s) % p;
        lemma_mod_mul_right(p, a, -q * s);
        assert(a * (-q * s) == r * s + p * (-s)) by (nonlinear_arith)
            requires
                p == a * q + r,
        ;
        lemma_mod_multiples_vanish(-s, r * s, p);
        assert(is_inverse(p, a, b));
    }
}

/// The residues modulo a prime form a field.
pub proof fn lemma_prime_field(p: int)
    requires
        is_prime(p),
    ensures
        is_field(p),
{
    assert forall|a: int| 0 < a < p implies #[trigger] has_inverse(p, a) by {
        lemma_prime_inverse(p, a);
    }
}

/// Whether `m` is the least positive exponent that takes `b` to one modulo `l`.
pub open spec fn has_order(l: int, b: int, m: nat) -> bool {
    &&& m > 0
    &&& fpow(l, b, m) == 1
    &&& forall|k: nat| 0 < k < m ==> #[trigger] fpow(l, b, k) != 1
}

/// Whether some element modulo `l` has the order `m`.
pub open spec fn order_occurs(l: int, m: nat) -> bool {
    exists|b: int| has_order(l, b, m)
}

/// Whether the order `m` occurs modulo every divisor of `n` but one.
pub open spec fn order_occurs_below(n: int, m: nat) -> bool {
    forall|l: int| 1 < l && n % l == 0 ==> #[trigger] order_occurs(l, m)
}

/// The powers of an element below its order differ, so that the order is at
/// most the number of residues.
proof fn lemma_order_bound(l: int, b: int, m: nat)
    requires
        l > 1,
        has_order(l, b, m),
    ensures
        m <= l,
{
    let s = Seq::new(m, |k: int| fpow(l, b, k as nat));
    assert forall|i: int, j: int| 0 <= i < j < m implies s[i] != s[j] by {
        if s[i] == s[j] {
            let rest = (m - j) as nat;
            lemma_fpow_add(l, b, i as nat, rest);
            lemma_fpow_add(l, b, j as nat, rest);
            assert(fpow(l, b, i as nat + rest) == 1);
        }
    }
    assert(s.no_duplicates());
    s.unique_seq_to_set();
    lemma_int_range(0, l);
    assert forall|x: int| s.to_set().contains(x) implies set_int_range(0, l).contains(x) by {
        let k = choose|k: int| 0 <= k < s.len() && s[k] == x;
        lemma_fpow_range(l, b, k as nat);
    }
    lemma_len_subset(s.to_set(), set_int_range(0, l));
}

/// A multiple of an exponent that takes `b` to one does so too.
proof fn lemma_multiple_exponent(l: int, b: int, m: nat, c: nat)
    requires
        l > 1,
        fpow(l, b, m) == 1,
    ensures
        fpow(l, b, m * c) == 1,
{
    lemma_fpow_mul(l, b, m, c);
    lemma_fpow_one(l, c);
}

/// The order divides every exponent that takes the element to one.
proof fn lemma_order_divides(l: int, b: int, m: nat, k: nat)
    requires
        l > 1,
        has_order(l, b, m),
        fpow(l, b, k) == 1,
    ensures
        k % m == 0,
{
    let (q, r) = (k / m, k % m);
    lemma_fundamental_div_mod(k as int, m as int);
    lemma_multiple_exponent(l, b, m, q);
    lemma_fpow_add(l, b, m * q, r);
    lemma_fpow_range(l, b, r);
    lemma_units(l, fpow(l, b, r));
}

/// Elements of coprime orders `m` and `n`, where `m s - n t = 1`: the order of
/// the product is the product of the orders.
proof fn lemma_product_order(l: int, x: int, m: nat, y: int, n: nat, s: int, t: int)
    requires
        l > 1,
        has_order(l, x, m),
        has_order(l, y, n),
        m * s - n * t == 1,
    ensures
        has_order(l, fmul(l, x, y), m * n),
{
    let z = fmul(l, x, y);
    lemma_small_mod(1, l as nat);
    assert(m * n > 0) by (nonlinear_arith)
        requires
            m > 0,
            n > 0,
    ;
    assert(fpow(l, z, m * n) == 1) by {
        lemma_fpow_product(l, x, y, m * n);
        lemma_multiple_exponent(l, x, m, n);
        lemma_multiple_exponent(l, y, n, m);
        assert(m * n == n * m) by (nonlinear_arith);
    }
    assert forall|k: nat| 0 < k < m * n implies #[trigger] fpow(l, z, k) != 1 by {
        if fpow(l, z, k) == 1 {
            // z^(k n) = x^(k n) and z^(k m) = y^(k m)
            lemma_multiple_exponent(l, z, k, n);
            lemma_fpow_product(l, x, y, k * n);
            lemma_multiple_exponent(l, y, n, k);
            assert(n * k == k * n) by (nonlinear_arith);
            lemma_fpow_range(l, x, k * n);
            lemma_units(l, fpow(l, x, k * n));
            lemma_order_divides(l, x, m, k * n);
            lemma_multiple_exponent(l, z, k, m);
            lemma_fpow_product(l, x, y, k * m);
            lemma_multiple_exponent(l, x, m, k);
            assert(m * k == k * m) by (nonlinear_arith);
            lemma_fpow_range(l, y, k * m);
            lemma_units(l, fpow(l, y, k * m));
            lemma_order_divides(l, y, n, k * m);
            let c = (k * n) / m;
            let d = (k * m) / n;
            lemma_fundamental_div_mod((k * n) as int, m as int);
            lemma_fundamental_div_mod((k * m) as int, n as int);
            // k = k m s - k n t = n d s - m c t: a multiple of both orders
            assert(k == m * (k * s - c * t)) by (nonlinear_arith)
                requires
                    k * n == m * c,
                    m * s - n * t == 1,
            ;
            assert(k == n * (d * s - k * t)) by (nonlinear_arith)
                requires
                    k * m == n * d,
                    m * s - n * t == 1,
            ;
            let (u, v) = (k * s - c * t, d * s - k * t);
            assert(k == (m * n) * (v * s - u * t)) by (nonlinear_arith)
                requires
                    k == m * u,
                    k == n * v,
                    m * s - n * t == 1,
            ;
            let e = v * s - u * t;
            assert(e > 0) by (nonlinear_arith)
                requires
                    k == (m * n) * e,
                    k > 0,
                    m * n > 0,
            ;
            assert(k >= m * n) by (nonlinear_arith)
                requires
                    k == (m * n) * e,
                    e > 0,
                    m * n > 0,
            ;
        }
    }
}

/// Coprime orders that occur modulo every divisor: their product does.
pub proof fn lemma_orders_multiply(n: int, a: nat, b: nat, s: int, t: int)
    requires
        order_occurs_below(n, a),
        order_occurs_below(n, b),
        a * s - b * t == 1,
    ensures
        order_occurs_below(n, a * b),
{
    assert forall|l: int| 1 < l && n % l == 0 implies #[trigger] order_occurs(l, a * b) by {
        assert(order_occurs(l, a) && order_occurs(l, b));
        let x = choose|x: int| has_order(l, x, a);
        let y = choose|y: int| has_order(l, y, b);
        lemma_product_order(l, x, a, y, b, s, t);
    }
}

/// Powers modulo a divisor.
pub proof fn lemma_fpow_divisor(n: int, l: int, b: int, k: nat)
    requires
        n > 1,
        l > 1,
        n % l == 0,
    ensures
        fpow(n, b, k) % l == fpow(l, b, k),
    decreases k,
{
    lemma_fundamental_div_mod(n, l);
    let c = n / l;
    assert(c > 0) by (nonlinear_arith)
        requires
            n == l * c,
            n > 1,
            l > 1,
    ;
    lemma_small_mod(1, n as nat);
    lemma_small_mod(1, l as nat);
    if k > 0 {
        let j = (k - 1) as nat;
        lemma_fpow_divisor(n, l, b, j);
        lemma_mod_mod(fpow(n, b, j) * b, l, c);
        lemma_mod_mul_left(l, fpow(n, b, j), b);
    }
}

/// An element other than one whose power with a prime exponent is one has that
/// prime as its order, modulo every divisor of `n` in which the difference
/// from one has an inverse.
pub proof fn lemma_prime_order(n: int, b: int, q: nat, u: int)
    requires
        n > 1,
        is_prime(q as int),
        fpow(n, b, q) == 1,
        ((b - 1) * u) % n == 1,
    ensures
        order_occurs_below(n, q),
{
    lemma_prime_field(q as int);
    assert forall|l: int| 1 < l && n % l == 0 implies #[trigger] order_occurs(l, q) by {
        lemma_small_mod(1, l as nat);
        lemma_fpow_divisor(n, l, b, q);
        assert(fpow(l, b, 1) != 1) by {
            reveal_with_fuel(fpow, 2);
            lemma_mod_mul_left(l, 1, b);
            if b % l == 1 {
                lemma_fundamental_div_mod(b, l);
                lemma_fundamental_div_mod(n, l);
                lemma_fundamental_div_mod((b - 1) * u, n);
                let (c, d, e) = (b / l, n / l, ((b - 1) * u) / n);
                // 1 = (b - 1) u - n e = l (c u - d e)
                assert(1 == l * (c * u - d * e)) by (nonlinear_arith)
                    requires
                        b == l * c + 1,
                        n == l * d,
                        (b - 1) * u == n * e + 1,
                ;
                assert(false) by (nonlinear_arith)
                    requires
                        1 == l * (c * u - d * e),
                        l > 1,
                ;
            }
        }
        assert forall|k: nat| 0 < k < q implies #[trigger] fpow(l, b, k) != 1 by {
            if fpow(l, b, k) == 1 {
                assert(has_inverse(q as int, k as int));
                let c = choose|c: int| is_inverse(q as int, k as int, c);
                lemma_fundamental_div_mod(k * c, q as int);
                let e = (k * c) / (q as int);
                assert(e >= 0) by (nonlinear_arith)
                    requires
                        k * c == q * e + 1,
                        k > 0,
                        c >= 0,
                        q > 1,
                ;
                lemma_multiple_exponent(l, b, k, c as nat);
                lemma_multiple_exponent(l, b, q, e as nat);
                lemma_fpow_add(l, b, q * (e as nat), 1);
                lemma_fpow_range(l, b, 1);
                lemma_units(l, fpow(l, b, 1));
            }
        }
        assert(has_order(l, b, q));
    }
}

/// An order above the square root of `n` that occurs modulo every divisor:
/// `n` is prime.
pub proof fn lemma_prime_by_order(n: int, m: nat)
    requires
        n > 1,
        order_occurs_below(n, m),
        m * m > n,
    ensures
        is_prime(n),
{
    assert forall|d: int| 1 < d < n implies #[trigger] (n % d) != 0 by {
        if n % d == 0 {
            lemma_fundamental_div_mod(n, d);
            let c = n / d;
            assert(1 < c < n) by (nonlinear_arith)
                requires
                    n == d * c,
                    1 < d < n,
            ;
            let l = if d <= c { d } else { c };
            assert(n % c == 0) by {
                lemma_mod_multiples_vanish(d, 0, c);
                lemma_small_mod(0, c as nat);
                assert(c * d + 0 == n) by (nonlinear_arith)
                    requires
                        n == d * c,
                ;
            }
            assert(l * l <= n) by (nonlinear_arith)
                requires
                    n == d * c,
                    1 < d,
                    1 < c,
                    l == d && d <= c || l == c && c <= d,
            ;
            assert(order_occurs(l, m));
            let b = choose|b: int| has_order(l, b, m);
            lemma_order_bound(l, b, m);
            assert(m * m <= l * l) by (nonlinear_arith)
                requires
                    m <= l,
            ;
        }
    }
}

/// Whether nothing from two to `k` divides `n`.
pub open spec fn no_divisor_to(n: int, k: nat) -> bool
    decreases k,
{
    k < 2 || n % (k as int) != 0 && no_divisor_to(n, (k - 1) as nat)
}

proof fn lemma_no_divisor(n: int, k: nat, d: int)
    requires
        no_divisor_to(n, k),
        2 <= d <= k,
    ensures
        n % d != 0,
    decreases k,
{
    if d < k {
        lemma_no_divisor(n, (k - 1) as nat, d);
    }
}

/// Trial division up to the square root.
pub proof fn lemma_prime_by_trial(n: int, k: nat)
    requires
        n > 1,
        no_divisor_to(n, k),
        k * k > n,
    ensures
        is_prime(n),
{
    assert forall|d: int| 1 < d < n implies #[trigger] (n % d) != 0 by {
        if n % d == 0 {
            lemma_fundamental_div_mod(n, d);
            let c = n / d;
            assert(1 < c && (d <= k || c <= k)) by (nonlinear_arith)
                requires
                    n == d * c,
                    1 < d < n,
                    k * k > n,
            ;
            if d <= k {
                lemma_no_divisor(n, k, d);
            } else {
                lemma_no_divisor(n, k, c);
                lemma_mod_multiples_vanish(d, 0, c);
                lemma_small_mod(0, c as nat);
                assert(c * d + 0 == n) by (nonlinear_arith)
                    requires
                        n == d * c,
                ;
            }
        }
    }
}

/// One binary digit of an exponent: zero.
pub proof fn lemma_power_even(n: int, b: int, e: nat, x: int, y: int)
    requires
        n > 1,
        fpow(n, b, e) == x,
        (x * x) % n == y,
    ensures
        fpow(n, b, 2 * e) == y,
{
    lemma_fpow_add(n, b, e, e);
    assert(e + e == 2 * e);
}

/// One binary digit of an exponent: one.
pub proof fn lemma_power_odd(n: int, b: int, e: nat, x: int, y: int)
    requires
        n > 1,
        fpow(n, b, e) == x,
        (x * x * b) % n == y,
    ensures
        fpow(n, b, 2 * e + 1) == y,
{
    lemma_power_even(n, b, e, x, (x * x) % n);
    lemma_mod_mul_left(n, x * x, b);
    assert(fpow(n, b, 2 * e + 1) == fmul(n, fpow(n, b, 2 * e), b));
}

} // verus!
