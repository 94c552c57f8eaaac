//! Functions on residues that polynomials of bounded degree compute.

use crate::field::{
    fadd, fmul, fneg, fsub, lemma_f_range, lemma_fmul_assoc, lemma_fmul_comm, lemma_fmul_distrib,
    lemma_mod_mul_left,
};
use crate::plonk::graph_values::horner;
use crate::poly::arithmetic::{
    lemma_poly_eval_padded, lemma_poly_eval_range, lemma_poly_eval_scale, lemma_poly_eval_sum,
    poly_add, poly_eval, poly_scale, poly_sub, poly_zero,
};
use crate::poly::transforms::{distributed, law_distributed};
use vstd::arithmetic::div_mod::lemma_small_mod;
use vstd::prelude::*;

verus! {

/// Whether the polynomial with the given coefficients computes the function.
pub open spec fn computes(p: int, c: Seq<int>, f: spec_fn(int) -> int) -> bool {
    forall|x: int| 0 <= x < p ==> #[trigger] f(x) == poly_eval(p, c, x)
}

/// Whether a polynomial of degree `d` or less computes the function.
pub open spec fn has_degree(p: int, f: spec_fn(int) -> int, d: nat) -> bool {
    exists|c: Seq<int>| c.len() == d + 1 && #[trigger] computes(p, c, f)
}

/// The product of two polynomials, neither of which is without coefficients.
pub open spec fn poly_mul(p: int, a: Seq<int>, b: Seq<int>) -> Seq<int>
    decreases a.len(),
{
    if a.len() <= 1 {
        poly_scale(p, b, a[0])
    } else {
        poly_add(p, seq![0int] + poly_mul(p, a.drop_first(), b), poly_scale(p, b, a[0]))
    }
}

proof fn lemma_poly_mul(p: int, a: Seq<int>, b: Seq<int>, x: int)
    requires
        p > 1,
        a.len() > 0,
        b.len() > 0,
    ensures
        poly_mul(p, a, b).len() == a.len() + b.len() - 1,
        poly_eval(p, poly_mul(p, a, b), x) == fmul(p, poly_eval(p, a, x), poly_eval(p, b, x)),
    decreases a.len(),
{
    let v = poly_eval(p, b, x);
    lemma_poly_eval_scale(p, b, a[0], x);
    lemma_poly_eval_range(p, b, x);
    lemma_fmul_comm(p, v, a[0]);
    if a.len() == 1 {
        assert(a.drop_first() =~= seq![]);
        assert(x * 0 == 0);
        lemma_small_mod(0, p as nat);
        assert(poly_eval(p, a, x) == a[0] % p);
        lemma_mod_mul_left(p, a[0], v);
    } else {
        let rest = poly_mul(p, a.drop_first(), b);
        let shifted = seq![0int] + rest;
        lemma_poly_mul(p, a.drop_first(), b, x);
        assert(shifted.drop_first() =~= rest);
        let u = poly_eval(p, a.drop_first(), x);
        lemma_f_range(p, x, fmul(p, u, v));
        lemma_small_mod(fmul(p, x, fmul(p, u, v)) as nat, p as nat);
        assert(poly_eval(p, shifted, x) == fmul(p, x, fmul(p, u, v)));
        lemma_poly_eval_sum(p, shifted, poly_scale(p, b, a[0]), x);
        // x (u v) + a0 v = (a0 + x u) v
        lemma_fmul_assoc(p, x, u, v);
        lemma_fmul_distrib(p, v, a[0], fmul(p, x, u));
        lemma_fmul_comm(p, v, fadd(p, a[0], fmul(p, x, u)));
    }
}

/// A function that agrees with one of degree `d` is of any higher degree.
pub proof fn lemma_degree_raise(
    p: int,
    f: spec_fn(int) -> int,
    g: spec_fn(int) -> int,
    d: nat,
    e: nat,
)
    requires
        p > 1,
        has_degree(p, f, d),
        d <= e,
        forall|x: int| 0 <= x < p ==> #[trigger] g(x) == f(x),
    ensures
        has_degree(p, g, e),
{
    let c = choose|c: Seq<int>| c.len() == d + 1 && #[trigger] computes(p, c, f);
    let more = c + poly_zero((e - d) as nat);
    assert forall|x: int| 0 <= x < p implies #[trigger] g(x) == poly_eval(p, more, x) by {
        lemma_poly_eval_padded(p, c, (e - d) as nat, x);
        assert(f(x) == poly_eval(p, c, x));
    }
    assert(more.len() == e + 1 && computes(p, more, g));
}

/// A constant function.
pub proof fn lemma_degree_constant(p: int, f: spec_fn(int) -> int, value: int, d: nat)
    requires
        p > 1,
        0 <= value < p,
        forall|x: int| 0 <= x < p ==> #[trigger] f(x) == value,
    ensures
        has_degree(p, f, d),
{
    let c = seq![value];
    assert forall|x: int| 0 <= x < p implies #[trigger] f(x) == poly_eval(p, c, x) by {
        assert(c.drop_first() =~= seq![]);
        assert(poly_eval(p, c.drop_first(), x) == 0);
        assert(x * 0 == 0);
        lemma_small_mod(0, p as nat);
        lemma_small_mod(value as nat, p as nat);
    }
    assert(c.len() == 0 + 1 && computes(p, c, f));
    lemma_degree_raise(p, f, f, 0, d);
}

/// A multiple of the argument.
pub proof fn lemma_degree_linear(p: int, f: spec_fn(int) -> int, factor: int, d: nat)
    requires
        p > 1,
        d >= 1,
        forall|x: int| 0 <= x < p ==> #[trigger] f(x) == fmul(p, factor, x),
    ensures
        has_degree(p, f, d),
{
    let c = seq![0int, factor];
    assert forall|x: int| 0 <= x < p implies #[trigger] f(x) == poly_eval(p, c, x) by {
        let c1 = c.drop_first();
        assert(c1 =~= seq![factor]);
        assert(c1.drop_first() =~= seq![]);
        assert(poly_eval(p, c1.drop_first(), x) == 0);
        assert(x * 0 == 0);
        lemma_small_mod(0, p as nat);
        assert(poly_eval(p, c1, x) == factor % p);
        lemma_mod_mul_left(p, factor, x);
        lemma_fmul_comm(p, x, factor % p);
        lemma_f_range(p, factor, x);
        lemma_small_mod(fmul(p, factor, x) as nat, p as nat);
    }
    assert(c.len() == 1 + 1 && computes(p, c, f));
    lemma_degree_raise(p, f, f, 1, d);
}

/// A polynomial at a multiple of the argument.
pub proof fn lemma_degree_column(p: int, f: spec_fn(int) -> int, a: Seq<int>, w: int, d: nat)
    requires
        p > 1,
        a.len() <= d + 1,
        forall|x: int| 0 <= x < p ==> #[trigger] f(x) == poly_eval(p, a, fmul(p, x, w)),
    ensures
        has_degree(p, f, d),
{
    let c = distributed(p, a, w);
    let more = c + poly_zero((d + 1 - a.len()) as nat);
    assert forall|x: int| 0 <= x < p implies #[trigger] f(x) == poly_eval(p, more, x) by {
        law_distributed(p, a, w, x);
        lemma_fmul_comm(p, x, w);
        lemma_poly_eval_padded(p, c, (d + 1 - a.len()) as nat, x);
    }
    assert(more.len() == d + 1 && computes(p, more, f));
}

/// Sums and differences.
pub proof fn lemma_degree_sum(
    p: int,
    f: spec_fn(int) -> int,
    g: spec_fn(int) -> int,
    h: spec_fn(int) -> int,
    d: nat,
)
    requires
        p > 1,
        has_degree(p, f, d),
        has_degree(p, g, d),
        (forall|x: int| 0 <= x < p ==> #[trigger] h(x) == fadd(p, f(x), g(x))) || (forall|x: int|
            0 <= x < p ==> #[trigger] h(x) == fsub(p, f(x), g(x))),
    ensures
        has_degree(p, h, d),
{
    let a = choose|c: Seq<int>| c.len() == d + 1 && #[trigger] computes(p, c, f);
    let b = choose|c: Seq<int>| c.len() == d + 1 && #[trigger] computes(p, c, g);
    let (s, t) = (poly_add(p, a, b), poly_sub(p, a, b));
    if forall|x: int| 0 <= x < p ==> #[trigger] h(x) == fadd(p, f(x), g(x)) {
        assert forall|x: int| 0 <= x < p implies #[trigger] h(x) == poly_eval(p, s, x) by {
            lemma_poly_eval_sum(p, a, b, x);
            assert(f(x) == poly_eval(p, a, x) && g(x) == poly_eval(p, b, x));
        }
        assert(s.len() == d + 1 && computes(p, s, h));
    } else {
        assert forall|x: int| 0 <= x < p implies #[trigger] h(x) == poly_eval(p, t, x) by {
            lemma_poly_eval_sum(p, a, b, x);
            assert(f(x) == poly_eval(p, a, x) && g(x) == poly_eval(p, b, x));
        }
        assert(t.len() == d + 1 && computes(p, t, h));
    }
}

/// The negative of a function.
pub proof fn lemma_degree_negative(
    p: int,
    f: spec_fn(int) -> int,
    h: spec_fn(int) -> int,
    d: nat,
)
    requires
        p > 1,
        has_degree(p, f, d),
        forall|x: int| 0 <= x < p ==> #[trigger] h(x) == fneg(p, f(x)),
    ensures
        has_degree(p, h, d),
{
    let zero = |x: int| 0int;
    lemma_degree_constant(p, zero, 0, d);
    assert forall|x: int| 0 <= x < p implies #[trigger] h(x) == fsub(p, zero(x), f(x)) by {
        assert(h(x) == fneg(p, f(x)));
    }
    lemma_degree_sum(p, zero, f, h, d);
}

/// A product.
pub proof fn lemma_degree_product(
    p: int,
    f: spec_fn(int) -> int,
    g: spec_fn(int) -> int,
    h: spec_fn(int) -> int,
    d: nat,
    e: nat,
)
    requires
        p > 1,
        has_degree(p, f, d),
        has_degree(p, g, e),
        forall|x: int| 0 <= x < p ==> #[trigger] h(x) == fmul(p, f(x), g(x)),
    ensures
        has_degree(p, h, d + e),
{
    let a = choose|c: Seq<int>| c.len() == d + 1 && #[trigger] computes(p, c, f);
    let b = choose|c: Seq<int>| c.len() == e + 1 && #[trigger] computes(p, c, g);
    let c = poly_mul(p, a, b);
    lemma_poly_mul(p, a, b, 0);
    assert forall|x: int| 0 <= x < p implies #[trigger] h(x) == poly_eval(p, c, x) by {
        lemma_poly_mul(p, a, b, x);
        assert(f(x) == poly_eval(p, a, x) && g(x) == poly_eval(p, b, x));
    }
    assert(c.len() == d + e + 1 && computes(p, c, h));
}

/// The `j`th of a list of functions.
pub open spec fn nth(f: spec_fn(int) -> Seq<int>, j: int) -> spec_fn(int) -> int {
    |x: int| f(x)[j]
}

/// Whether polynomials of degree `d` or less compute a list of `m` functions.
pub open spec fn have_degree(p: int, f: spec_fn(int) -> Seq<int>, m: nat, d: nat) -> bool {
    &&& forall|x: int| 0 <= x < p ==> (#[trigger] f(x)).len() == m
    &&& forall|j: int| 0 <= j < m ==> has_degree(p, #[trigger] nth(f, j), d)
}

/// All functions of a list but the last.
pub proof fn lemma_front_degree(
    p: int,
    f: spec_fn(int) -> Seq<int>,
    front: spec_fn(int) -> Seq<int>,
    m: nat,
    d: nat,
)
    requires
        p > 1,
        m > 0,
        have_degree(p, f, m, d),
        forall|x: int| 0 <= x < p ==> #[trigger] front(x) == f(x).drop_last(),
    ensures
        have_degree(p, front, (m - 1) as nat, d),
{
    let k = (m - 1) as nat;
    assert forall|x: int| 0 <= x < p implies (#[trigger] front(x)).len() == k by {
        assert(f(x).len() == m);
    }
    assert forall|j: int| 0 <= j < k implies has_degree(p, #[trigger] nth(front, j), d) by {
        let (u, v) = (nth(f, j), nth(front, j));
        assert forall|x: int| 0 <= x < p implies #[trigger] v(x) == u(x) by {
            assert(f(x).len() == m);
            assert(front(x) == f(x).drop_last());
        }
        lemma_degree_raise(p, u, v, d, d);
    }
}

/// Horner's rule over functions.
pub proof fn lemma_degree_horner(
    p: int,
    start: spec_fn(int) -> int,
    f: spec_fn(int) -> Seq<int>,
    h: spec_fn(int) -> int,
    factor: int,
    m: nat,
    d: nat,
)
    requires
        p > 1,
        0 <= factor < p,
        has_degree(p, start, d),
        have_degree(p, f, m, d),
        forall|x: int| 0 <= x < p ==> #[trigger] h(x) == horner(p, start(x), f(x), factor),
    ensures
        has_degree(p, h, d),
    decreases m,
{
    if m == 0 {
        assert forall|x: int| 0 <= x < p implies #[trigger] h(x) == start(x) by {
            assert(f(x).len() == 0);
        }
        lemma_degree_raise(p, start, h, d, d);
    } else {
        let k = (m - 1) as nat;
        let front = |x: int| f(x).drop_last();
        let before = |x: int| horner(p, start(x), front(x), factor);
        lemma_front_degree(p, f, front, m, d);
        lemma_degree_horner(p, start, front, before, factor, k, d);
        let constant = |x: int| factor;
        lemma_degree_constant(p, constant, factor, 0);
        let multiple = |x: int| fmul(p, before(x), constant(x));
        lemma_degree_product(p, before, constant, multiple, d, 0);
        let last = nth(f, m - 1);
        assert forall|x: int| 0 <= x < p implies #[trigger] h(x) == fadd(
            p,
            multiple(x),
            last(x),
        ) by {
            assert(f(x).len() == m);
        }
        lemma_degree_sum(p, multiple, last, h, d);
    }
}

} // verus!
