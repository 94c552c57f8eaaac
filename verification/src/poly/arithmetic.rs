//! Univariate polynomials as sequences of coefficients, lowest degree first.

use crate::field::{
    fadd, fmul, fsub, lemma_fmul_comm, lemma_mod_add_left, lemma_mod_add_right, lemma_mod_mul_left,
    lemma_mod_mul_right, lemma_mod_sub_left, lemma_mod_sub_right, vals, Field,
};
use vstd::arithmetic::div_mod::lemma_small_mod;
use vstd::prelude::*;

verus! {

/// The value of a polynomial at `x`.
pub open spec fn poly_eval(p: int, coeffs: Seq<int>, x: int) -> int
    decreases coeffs.len(),
{
    if coeffs.len() == 0 {
        0
    } else {
        fadd(p, coeffs[0], fmul(p, x, poly_eval(p, coeffs.drop_first(), x)))
    }
}

/// The value at `x` of the polynomial that vanishes at the given roots.
pub open spec fn vanishing(p: int, roots: Seq<int>, x: int) -> int
    decreases roots.len(),
{
    if roots.len() == 0 {
        1int % p
    } else {
        fmul(p, vanishing(p, roots.drop_last(), x), fsub(p, x, roots.last()))
    }
}

/// The sum of two polynomials, as long as the first.
pub open spec fn poly_add(p: int, a: Seq<int>, b: Seq<int>) -> Seq<int> {
    Seq::new(
        a.len(),
        |i: int|
            if i < b.len() {
                fadd(p, a[i], b[i])
            } else {
                a[i]
            },
    )
}

/// The difference of two polynomials, as long as the first.
pub open spec fn poly_sub(p: int, a: Seq<int>, b: Seq<int>) -> Seq<int> {
    Seq::new(
        a.len(),
        |i: int|
            if i < b.len() {
                fsub(p, a[i], b[i])
            } else {
                a[i]
            },
    )
}

/// The polynomial times a scalar.
pub open spec fn poly_scale(p: int, a: Seq<int>, s: int) -> Seq<int> {
    Seq::new(a.len(), |i: int| fmul(p, a[i], s))
}

/// The zero polynomial of `n` coefficients.
pub open spec fn poly_zero(n: nat) -> Seq<int> {
    Seq::new(n, |i: int| 0)
}

/// The quotient of a polynomial by `X - b`.
pub open spec fn quotient(p: int, a: Seq<int>, b: int) -> Seq<int>
    decreases a.len(),
{
    if a.len() <= 1 {
        seq![]
    } else {
        let q = quotient(p, a.drop_first(), b);
        seq![poly_eval(p, a.drop_first(), b)] + q
    }
}

/// Whether all coefficients are canonical representatives.
pub open spec fn canonical(p: int, a: Seq<int>) -> bool {
    forall|i: int| 0 <= i < a.len() ==> 0 <= #[trigger] a[i] < p
}

pub proof fn lemma_vals_canonical<F: Field>(s: Seq<F>)
    ensures
        canonical(F::modulus(), vals(s)),
{
    assert forall|i: int| 0 <= i < s.len() implies 0 <= #[trigger] vals(s)[i] < F::modulus() by {
        s[i].lemma_val_range();
    }
}

pub proof fn lemma_poly_eval_range(p: int, a: Seq<int>, x: int)
    requires
        p > 0,
    ensures
        0 <= poly_eval(p, a, x) < p,
{
}

/// The value of a polynomial with `v` as one more coefficient.
pub proof fn lemma_poly_eval_sum(p: int, a: Seq<int>, b: Seq<int>, x: int)
    requires
        p > 0,
        b.len() <= a.len(),
    ensures
        poly_eval(p, poly_add(p, a, b), x) == fadd(p, poly_eval(p, a, x), poly_eval(p, b, x)),
        poly_eval(p, poly_sub(p, a, b), x) == fsub(p, poly_eval(p, a, x), poly_eval(p, b, x)),
    decreases a.len(),
{
    if a.len() == 0 {
        lemma_small_mod(0, p as nat);
    } else if b.len() == 0 {
        assert(poly_add(p, a, b) =~= a);
        assert(poly_sub(p, a, b) =~= a);
        let v = poly_eval(p, a, x);
        lemma_poly_eval_range(p, a, x);
        lemma_small_mod(v as nat, p as nat);
    } else {
        let (a1, b1) = (a.drop_first(), b.drop_first());
        lemma_poly_eval_sum(p, a1, b1, x);
        assert(poly_add(p, a, b).drop_first() =~= poly_add(p, a1, b1));
        assert(poly_sub(p, a, b).drop_first() =~= poly_sub(p, a1, b1));
        let (u, v) = (poly_eval(p, a1, x), poly_eval(p, b1, x));
        // ((a0 + b0) + x (u + v)) = (a0 + x u) + (b0 + x v)
        lemma_split_sum(p, a[0], b[0], x, u, v);
    }
}

proof fn lemma_split_sum(p: int, a0: int, b0: int, x: int, u: int, v: int)
    requires
        p > 0,
    ensures
        fadd(p, fadd(p, a0, b0), fmul(p, x, fadd(p, u, v))) == fadd(
            p,
            fadd(p, a0, fmul(p, x, u)),
            fadd(p, b0, fmul(p, x, v)),
        ),
        fadd(p, fsub(p, a0, b0), fmul(p, x, fsub(p, u, v))) == fsub(
            p,
            fadd(p, a0, fmul(p, x, u)),
            fadd(p, b0, fmul(p, x, v)),
        ),
{
    assert(x * (u + v) == x * u + x * v) by (nonlinear_arith);
    assert(x * (u - v) == x * u - x * v) by (nonlinear_arith);
    // Left sides.
    lemma_mod_mul_right(p, x, u + v);
    lemma_mod_mul_right(p, x, u - v);
    lemma_mod_add_left(p, a0 + b0, fmul(p, x, fadd(p, u, v)));
    lemma_mod_add_right(p, a0 + b0, x * u + x * v);
    lemma_mod_add_left(p, a0 - b0, fmul(p, x, fsub(p, u, v)));
    lemma_mod_add_right(p, a0 - b0, x * u - x * v);
    // Right sides.
    let s = fadd(p, a0, fmul(p, x, u));
    let t = fadd(p, b0, fmul(p, x, v));
    lemma_mod_add_right(p, a0, x * u);
    lemma_mod_add_right(p, b0, x * v);
    assert(s == (a0 + x * u) % p);
    assert(t == (b0 + x * v) % p);
    lemma_mod_add_left(p, a0 + x * u, t);
    lemma_mod_add_right(p, a0 + x * u, b0 + x * v);
    lemma_mod_sub_left(p, a0 + x * u, t);
    lemma_mod_sub_right(p, a0 + x * u, b0 + x * v);
    assert((a0 + x * u) + (b0 + x * v) == a0 + b0 + (x * u + x * v));
    assert((a0 + x * u) - (b0 + x * v) == a0 - b0 + (x * u - x * v));
}

pub proof fn lemma_poly_eval_scale(p: int, a: Seq<int>, s: int, x: int)
    requires
        p > 0,
    ensures
        poly_eval(p, poly_scale(p, a, s), x) == fmul(p, poly_eval(p, a, x), s),
    decreases a.len(),
{
    if a.len() == 0 {
        lemma_small_mod(0, p as nat);
        assert(0 * s == 0);
    } else {
        let a1 = a.drop_first();
        let u = poly_eval(p, a1, x);
        lemma_poly_eval_scale(p, a1, s, x);
        assert(poly_scale(p, a, s).drop_first() =~= poly_scale(p, a1, s));
        // a0 s + x (u s) = (a0 + x u) s
        let l = fadd(p, fmul(p, a[0], s), fmul(p, x, fmul(p, u, s)));
        lemma_mod_mul_right(p, x, u * s);
        lemma_mod_add_left(p, a[0] * s, (x * (u * s)) % p);
        lemma_mod_add_right(p, a[0] * s, x * (u * s));
        assert(l == (a[0] * s + x * (u * s)) % p);
        lemma_mod_add_right(p, a[0], x * u);
        lemma_mod_mul_left(p, a[0] + x * u, s);
        assert((a[0] + x * u) * s == a[0] * s + x * (u * s)) by (nonlinear_arith);
    }
}

pub proof fn lemma_poly_eval_zero(p: int, n: nat, x: int)
    requires
        p > 0,
    ensures
        poly_eval(p, poly_zero(n), x) == 0,
    decreases n,
{
    if n > 0 {
        lemma_poly_eval_zero(p, (n - 1) as nat, x);
        assert(poly_zero(n).drop_first() =~= poly_zero((n - 1) as nat));
        lemma_small_mod(0, p as nat);
        assert(x * 0 == 0);
    }
}

/// Zeros behind the coefficients do not change the value.
pub proof fn lemma_poly_eval_padded(p: int, a: Seq<int>, n: nat, x: int)
    requires
        p > 0,
    ensures
        poly_eval(p, a + poly_zero(n), x) == poly_eval(p, a, x),
    decreases a.len(),
{
    if a.len() == 0 {
        assert(a + poly_zero(n) =~= poly_zero(n));
        lemma_poly_eval_zero(p, n, x);
    } else {
        lemma_poly_eval_padded(p, a.drop_first(), n, x);
        assert((a + poly_zero(n)).drop_first() =~= a.drop_first() + poly_zero(n));
    }
}

/// Division by `X - b`: a polynomial is its quotient times `X - b`, plus its
/// value at `b`.
pub proof fn law_division(p: int, a: Seq<int>, b: int, x: int)
    requires
        p > 1,
    ensures
        quotient(p, a, b).len() == if a.len() == 0 {
            0int
        } else {
            a.len() - 1
        },
        poly_eval(p, a, x) == fadd(
            p,
            fmul(p, fsub(p, x, b), poly_eval(p, quotient(p, a, b), x)),
            poly_eval(p, a, b),
        ),
    decreases a.len(),
{
    let d = fsub(p, x, b);
    if a.len() <= 1 {
        assert(quotient(p, a, b) =~= seq![]);
        lemma_small_mod(0, p as nat);
        assert(d * 0 == 0);
        if a.len() == 1 {
            assert(a.drop_first() =~= seq![]);
            assert(x * 0 == 0 && b * 0 == 0);
            lemma_small_mod((a[0] % p) as nat, p as nat);
            assert((a[0] + 0) % p == a[0] % p);
        }
    } else {
        let a1 = a.drop_first();
        law_division(p, a1, b, x);
        let q1 = quotient(p, a1, b);
        let q = quotient(p, a, b);
        let r = poly_eval(p, a1, b);
        assert(q.drop_first() =~= q1);
        assert(q[0] == r);
        let w = poly_eval(p, q1, x);
        // a(x) = a0 + x a1(x) = a0 + x ((x - b) w + r)
        // q(x) = r + x w;  (x - b) (r + x w) + a0 + b r
        let y = x - b;
        lemma_mod_mul_left(p, y, w);
        lemma_mod_add_left(p, y * w, r);
        let a1x = poly_eval(p, a1, x);
        assert(a1x == (y * w + r) % p);
        lemma_mod_mul_right(p, x, y * w + r);
        lemma_mod_add_right(p, a[0], x * (y * w + r));
        assert(poly_eval(p, a, x) == (a[0] + x * (y * w + r)) % p);
        lemma_mod_add_right(p, r, x * w);
        assert(poly_eval(p, q, x) == (r + x * w) % p);
        lemma_mod_mul_left(p, y, (r + x * w) % p);
        lemma_mod_mul_right(p, y, r + x * w);
        lemma_mod_add_right(p, a[0], b * r);
        assert(poly_eval(p, a, b) == (a[0] + b * r) % p);
        lemma_mod_add_left(p, y * (r + x * w), poly_eval(p, a, b));
        lemma_mod_add_right(p, y * (r + x * w), a[0] + b * r);
        assert(y * (r + x * w) + (a[0] + b * r) == a[0] + x * (y * w + r)) by (nonlinear_arith)
            requires
                y == x - b,
        ;
    }
}

/// The powers of `base`, starting from one.
pub fn powers<F: Field>(base: F, n: usize) -> (r: Vec<F>)
    ensures
        r@.len() == n,
        forall|i: int|
            0 <= i < n ==> (#[trigger] r@[i]).val() == crate::field::fpow(
                F::modulus(),
                base.val(),
                i as nat,
            ),
{
    let mut out: Vec<F> = Vec::new();
    let mut power = F::one();
    let mut i: usize = 0;
    proof {
        F::lemma_modulus();
        lemma_small_mod(1, F::modulus() as nat);
    }
    while i < n
        invariant
            i <= n,
            out@.len() == i,
            power.val() == crate::field::fpow(F::modulus(), base.val(), i as nat),
            forall|j: int|
                0 <= j < i ==> (#[trigger] out@[j]).val() == crate::field::fpow(
                    F::modulus(),
                    base.val(),
                    j as nat,
                ),
        decreases n - i,
    {
        out.push(power);
        proof {
            lemma_fmul_comm(F::modulus(), base.val(), power.val());
        }
        power = base.mul(&power);
        i += 1;
    }
    out
}

/// Divides a polynomial by `X - b`, dropping the remainder.
pub fn kate_division<F: Field>(a: &Vec<F>, b: F) -> (r: Vec<F>)
    requires
        a@.len() > 0,
    ensures
        vals(r@) == quotient(F::modulus(), vals(a@), b.val()),
{
    let ghost p = F::modulus();
    let ghost all = vals(a@);
    let n = a.len();
    let mut reversed: Vec<F> = Vec::new();
    let mut tmp = F::zero();
    let mut i: usize = n;
    proof {
        assert(all.skip(n as int) =~= seq![]);
        assert(quotient(p, all.skip(n as int), b.val()) =~= seq![]);
        F::lemma_modulus();
    }
    // Walking down the coefficients, `tmp` is the value at `b` of those above.
    while i > 1
        invariant
            1 <= i <= n,
            n == a@.len(),
            p == F::modulus(),
            p > 2,
            all == vals(a@),
            tmp.val() == poly_eval(p, all.skip(i as int), b.val()),
            reversed@.len() == n - i,
            vals(reversed@).reverse() == quotient(p, all.skip(i - 1), b.val()),
        decreases i,
    {
        i -= 1;
        let ghost before = reversed@;
        let ghost above = all.skip(i + 1);
        tmp = a[i].add(&b.mul(&tmp));
        proof {
            let s = all.skip(i as int);
            assert(s.drop_first() =~= above);
            assert(s[0] == a@[i as int].val());
        }
        reversed.push(tmp);
        proof {
            let s = all.skip(i - 1);
            assert(s.drop_first() =~= all.skip(i as int));
            assert(vals(reversed@).reverse() =~= seq![tmp.val()] + vals(before).reverse());
        }
    }
    let mut q: Vec<F> = Vec::new();
    let m = reversed.len();
    let mut j: usize = 0;
    while j < m
        invariant
            j <= m,
            m == reversed@.len(),
            q@.len() == j,
            forall|k: int| 0 <= k < j ==> #[trigger] q@[k] == reversed@[m - 1 - k],
        decreases m - j,
    {
        q.push(reversed[m - 1 - j]);
        j += 1;
    }
    proof {
        assert(all.skip(0) =~= all);
        assert(vals(q@) =~= vals(reversed@).reverse());
    }
    q
}

/// Adds `scale` times `b` to the coefficients of `a`.
pub fn multiply_add<F: Field>(a: &mut Vec<F>, b: &Vec<F>, scale: &F)
    requires
        b@.len() <= old(a)@.len(),
    ensures
        vals(final(a)@) == poly_add(
            F::modulus(),
            vals(old(a)@),
            poly_scale(F::modulus(), vals(b@), scale.val()),
        ),
{
    let mut i: usize = 0;
    while i < b.len()
        invariant
            i <= b@.len(),
            b@.len() <= a@.len(),
            a@.len() == old(a)@.len(),
            forall|j: int|
                0 <= j < i ==> (#[trigger] a@[j]).val() == fadd(
                    F::modulus(),
                    old(a)@[j].val(),
                    fmul(F::modulus(), b@[j].val(), scale.val()),
                ),
            forall|j: int| i <= j < a@.len() ==> #[trigger] a@[j] == old(a)@[j],
        decreases b@.len() - i,
    {
        let v = a[i].add(&b[i].mul(scale));
        a.set(i, v);
        i += 1;
    }
    proof {
        let l = vals(a@);
        let r = poly_add(
            F::modulus(),
            vals(old(a)@),
            poly_scale(F::modulus(), vals(b@), scale.val()),
        );
        assert forall|j: int| 0 <= j < l.len() implies l[j] == r[j] by {
            let _ = a@[j];
        }
        assert(l =~= r);
    }
}

/// Subtracts the coefficients of `b` from those of `a`.
pub fn subtract_short<F: Field>(a: &Vec<F>, b: &Vec<F>) -> (r: Vec<F>)
    requires
        b@.len() <= a@.len(),
    ensures
        vals(r@) == poly_sub(F::modulus(), vals(a@), vals(b@)),
{
    let mut out: Vec<F> = Vec::new();
    let mut i: usize = 0;
    while i < a.len()
        invariant
            i <= a@.len(),
            b@.len() <= a@.len(),
            out@.len() == i,
            forall|j: int|
                0 <= j < i ==> (#[trigger] out@[j]).val() == poly_sub(
                    F::modulus(),
                    vals(a@),
                    vals(b@),
                )[j],
        decreases a@.len() - i,
    {
        if i < b.len() {
            out.push(a[i].sub(&b[i]));
        } else {
            out.push(a[i]);
        }
        i += 1;
    }
    assert(vals(out@) =~= poly_sub(F::modulus(), vals(a@), vals(b@)));
    out
}

/// Multiplies all coefficients by `s`.
pub fn scale<F: Field>(a: &mut Vec<F>, s: &F)
    ensures
        vals(final(a)@) == poly_scale(F::modulus(), vals(old(a)@), s.val()),
{
    let mut i: usize = 0;
    while i < a.len()
        invariant
            i <= a@.len(),
            a@.len() == old(a)@.len(),
            forall|j: int|
                0 <= j < i ==> (#[trigger] a@[j]).val() == fmul(
                    F::modulus(),
                    old(a)@[j].val(),
                    s.val(),
                ),
            forall|j: int| i <= j < a@.len() ==> #[trigger] a@[j] == old(a)@[j],
        decreases a@.len() - i,
    {
        let v = a[i].mul(s);
        a.set(i, v);
        i += 1;
    }
    assert(vals(a@) =~= poly_scale(F::modulus(), vals(old(a)@), s.val()));
}

/// A polynomial of `n` zero coefficients.
pub fn zeros<F: Field>(n: usize) -> (r: Vec<F>)
    ensures
        vals(r@) == poly_zero(n as nat),
{
    let mut out: Vec<F> = Vec::new();
    let mut i: usize = 0;
    while i < n
        invariant
            i <= n,
            out@.len() == i,
            forall|j: int| 0 <= j < i ==> (#[trigger] out@[j]).val() == 0,
        decreases n - i,
    {
        out.push(F::zero());
        i += 1;
    }
    assert(vals(out@) =~= poly_zero(n as nat));
    out
}

} // verus!
