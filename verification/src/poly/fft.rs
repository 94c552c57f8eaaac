//! The fast Fourier transform.

use crate::field::{
    fadd, fmul, fneg, fpow, fsub, lemma_f_range, lemma_fmul_neg, lemma_fneg_fneg, lemma_fpow_add,
    lemma_fpow_range, lemma_fsub_is_add_neg, lemma_mod_add_left, lemma_mod_add_right,
    lemma_mod_mul_right, vals, Field,
};
use crate::poly::arithmetic::poly_eval;
use vstd::arithmetic::div_mod::lemma_small_mod;
use vstd::arithmetic::power2::{lemma2_to64, lemma_pow2_unfold, pow2};
use vstd::prelude::*;

verus! {

/// Whether `w` is a primitive root of unity of order `2^k`: its power that is
/// half the order is minus one.
pub open spec fn is_primitive(p: int, w: int, k: nat) -> bool {
    k > 0 ==> fpow(p, w, pow2((k - 1) as nat)) == fneg(p, 1)
}

/// The values of a polynomial at the first `n` powers of `w`.
pub open spec fn transform(p: int, a: Seq<int>, w: int, n: nat) -> Seq<int> {
    Seq::new(n, |i: int| poly_eval(p, a, fpow(p, w, i as nat)))
}

/// The coefficients at even positions.
pub open spec fn evens(a: Seq<int>) -> Seq<int> {
    Seq::new(a.len() / 2, |i: int| a[2 * i])
}

/// The coefficients at odd positions.
pub open spec fn odds(a: Seq<int>) -> Seq<int> {
    Seq::new(a.len() / 2, |i: int| a[2 * i + 1])
}

/// A polynomial by its even and odd coefficients: `a(x) = e(x^2) + x o(x^2)`.
proof fn lemma_split(p: int, a: Seq<int>, x: int)
    requires
        p > 1,
        a.len() % 2 == 0,
    ensures
        poly_eval(p, a, x) == fadd(
            p,
            poly_eval(p, evens(a), fmul(p, x, x)),
            fmul(p, x, poly_eval(p, odds(a), fmul(p, x, x))),
        ),
    decreases a.len(),
{
    let s = fmul(p, x, x);
    if a.len() == 0 {
        lemma_small_mod(0, p as nat);
        assert(x * 0 == 0);
    } else {
        let b = a.drop_first().drop_first();
        lemma_split(p, b, x);
        assert(evens(a).drop_first() =~= evens(b));
        assert(odds(a).drop_first() =~= odds(b));
        let (a0, a1) = (a[0], a[1]);
        assert(a.drop_first()[0] == a1);
        let (e, o) = (poly_eval(p, evens(b), s), poly_eval(p, odds(b), s));
        // a0 + x (a1 + x (e + x o)) = (a0 + x^2 e) + x (a1 + x^2 o)
        let inner = fadd(p, e, fmul(p, x, o));
        lemma_mod_add_right(p, e, x * o);
        assert(inner == (e + x * o) % p);
        lemma_mod_mul_right(p, x, e + x * o);
        lemma_mod_add_right(p, a1, x * (e + x * o));
        let tail = a.drop_first();
        assert(poly_eval(p, tail, x) == fadd(p, a1, fmul(p, x, inner)));
        assert(poly_eval(p, tail, x) == (a1 + x * (e + x * o)) % p);
        lemma_mod_mul_right(p, x, a1 + x * (e + x * o));
        lemma_mod_add_right(p, a0, x * (a1 + x * (e + x * o)));
        assert(poly_eval(p, a, x) == (a0 + x * (a1 + x * (e + x * o))) % p);
        crate::field::lemma_mod_mul_left(p, x * x, e);
        crate::field::lemma_mod_mul_left(p, x * x, o);
        lemma_mod_add_right(p, a0, x * x * e);
        lemma_mod_add_right(p, a1, x * x * o);
        lemma_mod_mul_right(p, x, a1 + x * x * o);
        lemma_mod_add_left(p, a0 + x * x * e, fmul(p, x, fadd(p, a1, fmul(p, s, o))));
        lemma_mod_add_right(p, a0 + x * x * e, x * (a1 + x * x * o));
        assert((a0 + x * x * e) + x * (a1 + x * x * o) == a0 + x * (a1 + x * (e + x * o)))
            by (nonlinear_arith);
    }
}

/// Powers of the square are squares of the powers.
pub proof fn lemma_fpow_square(p: int, w: int, i: nat)
    requires
        p > 1,
    ensures
        fpow(p, fmul(p, w, w), i) == fmul(p, fpow(p, w, i), fpow(p, w, i)),
        fpow(p, fmul(p, w, w), i) == fpow(p, w, 2 * i),
{
    lemma_fpow_add(p, w, i, i);
    assert(i + i == 2 * i);
    assert(fpow(p, w, 2) == fmul(p, w, w)) by {
        reveal_with_fuel(fpow, 3);
        lemma_small_mod(1, p as nat);
        crate::field::lemma_mod_mul_left(p, w, w);
        assert(1 * w == w);
    }
    crate::field::lemma_fpow_mul(p, w, 2, i);
}

/// The square of a primitive root is one of half the order.
proof fn lemma_primitive_square(p: int, w: int, k: nat)
    requires
        p > 1,
        k > 0,
        is_primitive(p, w, k),
    ensures
        is_primitive(p, fmul(p, w, w), (k - 1) as nat),
{
    if k > 1 {
        let m = pow2((k - 2) as nat);
        lemma_pow2_unfold((k - 1) as nat);
        assert(pow2((k - 1) as nat) == 2 * m);
        lemma_fpow_square(p, w, m);
    }
}

/// Both halves of a transform from the transforms of the even and the odd
/// coefficients.
proof fn lemma_butterfly(p: int, a: Seq<int>, w: int, h: nat, i: nat)
    requires
        p > 1,
        a.len() == 2 * h,
        i < h,
        fpow(p, w, h) == fneg(p, 1),
    ensures
        ({
            let s = fmul(p, w, w);
            let e = transform(p, evens(a), s, h)[i as int];
            let o = transform(p, odds(a), s, h)[i as int];
            let t = fmul(p, fpow(p, w, i), o);
            &&& poly_eval(p, a, fpow(p, w, i)) == fadd(p, e, t)
            &&& poly_eval(p, a, fpow(p, w, i + h)) == fsub(p, e, t)
        }),
{
    let s = fmul(p, w, w);
    let x = fpow(p, w, i);
    let y = fpow(p, w, i + h);
    let e = poly_eval(p, evens(a), fpow(p, s, i));
    let o = poly_eval(p, odds(a), fpow(p, s, i));
    let t = fmul(p, x, o);
    lemma_fpow_square(p, w, i);
    lemma_split(p, a, x);
    lemma_split(p, a, y);
    // y = -x
    lemma_fpow_add(p, w, i, h);
    lemma_fpow_range(p, w, i);
    crate::field::lemma_units(p, x);
    lemma_fmul_neg(p, x, 1);
    assert(y == fneg(p, x));
    // y^2 = x^2
    lemma_fmul_neg(p, x, x);
    lemma_fmul_neg(p, fneg(p, x), x);
    lemma_f_range(p, x, x);
    lemma_fneg_fneg(p, fmul(p, x, x));
    assert(fmul(p, y, y) == fmul(p, x, x));
    lemma_fmul_neg(p, x, o);
    lemma_fsub_is_add_neg(p, e, t);
}

/// The values of the polynomial with the coefficients `a` at the powers of
/// `omega`, a primitive root of unity of order `a.len()`.
pub fn fft<F: Field>(a: &Vec<F>, omega: F, log_n: u32) -> (r: Vec<F>)
    requires
        log_n < 64,
        a@.len() == pow2(log_n as nat),
        is_primitive(F::modulus(), omega.val(), log_n as nat),
    ensures
        vals(r@) == transform(F::modulus(), vals(a@), omega.val(), a@.len()),
    decreases log_n,
{
    let ghost p = F::modulus();
    let ghost all = vals(a@);
    let ghost w = omega.val();
    proof {
        F::lemma_modulus();
        lemma2_to64();
    }
    if log_n == 0 {
        let mut out: Vec<F> = Vec::new();
        out.push(a[0]);
        proof {
            a@[0].lemma_val_range();
            let v = a@[0].val();
            assert(all.drop_first() =~= seq![]);
            assert(poly_eval(p, all.drop_first(), fpow(p, w, 0)) == 0);
            lemma_small_mod(v as nat, p as nat);
            lemma_small_mod(0, p as nat);
            assert(fpow(p, w, 0) * 0 == 0);
            assert(poly_eval(p, all, fpow(p, w, 0)) == v);
            assert(vals(out@) =~= transform(p, all, w, 1));
        }
        return out;
    }
    let half = a.len() / 2;
    let ghost h = pow2((log_n - 1) as nat);
    proof {
        lemma_pow2_unfold(log_n as nat);
        assert(half == h);
        assert(a.len() == a@.len());
        lemma_primitive_square(p, w, log_n as nat);
    }
    let mut even: Vec<F> = Vec::new();
    let mut odd: Vec<F> = Vec::new();
    let mut i: usize = 0;
    while i < half
        invariant
            i <= half,
            a@.len() == 2 * half,
            2 * half <= usize::MAX,
            even@.len() == i,
            odd@.len() == i,
            forall|j: int| 0 <= j < i ==> #[trigger] even@[j] == a@[2 * j],
            forall|j: int| 0 <= j < i ==> #[trigger] odd@[j] == a@[2 * j + 1],
        decreases half - i,
    {
        even.push(a[2 * i]);
        odd.push(a[2 * i + 1]);
        i += 1;
    }
    assert(vals(even@) =~= evens(all));
    assert(vals(odd@) =~= odds(all));
    let square = omega.square();
    let e = fft(&even, square, log_n - 1);
    let o = fft(&odd, square, log_n - 1);
    let mut low: Vec<F> = Vec::new();
    let mut high: Vec<F> = Vec::new();
    let mut power = F::one();
    let mut i: usize = 0;
    proof {
        lemma_small_mod(1, p as nat);
        assert(vals(e@).len() == half);
        assert(vals(o@).len() == half);
    }
    while i < half
        invariant
            i <= half,
            half == h,
            p == F::modulus(),
            p > 1,
            w == omega.val(),
            all == vals(a@),
            all.len() == 2 * h,
            fpow(p, w, h) == fneg(p, 1),
            e@.len() == half,
            o@.len() == half,
            vals(e@) == transform(p, evens(all), fmul(p, w, w), h),
            vals(o@) == transform(p, odds(all), fmul(p, w, w), h),
            power.val() == fpow(p, w, i as nat),
            low@.len() == i,
            high@.len() == i,
            forall|j: int|
                0 <= j < i ==> (#[trigger] low@[j]).val() == poly_eval(
                    p,
                    all,
                    fpow(p, w, j as nat),
                ),
            forall|j: int|
                0 <= j < i ==> (#[trigger] high@[j]).val() == poly_eval(
                    p,
                    all,
                    fpow(p, w, (j + h) as nat),
                ),
        decreases half - i,
    {
        let t = power.mul(&o[i]);
        proof {
            lemma_butterfly(p, all, w, h, i as nat);
            assert(vals(e@)[i as int] == e@[i as int].val());
            assert(vals(o@)[i as int] == o@[i as int].val());
        }
        low.push(e[i].add(&t));
        high.push(e[i].sub(&t));
        power = power.mul(&omega);
        i += 1;
    }
    let ghost first = low@;
    low.append(&mut high);
    proof {
        let r = transform(p, all, w, a@.len());
        assert forall|j: int| 0 <= j < low@.len() implies vals(low@)[j] == r[j] by {
            if j < half {
                assert(low@[j] == first[j]);
            } else {
                assert(low@[j].val() == poly_eval(p, all, fpow(p, w, (j - h + h) as nat)));
            }
        }
        assert(vals(low@) =~= r);
    }
    low
}

} // verus!
