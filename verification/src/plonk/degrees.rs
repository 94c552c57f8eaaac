//! The folded constraints are a polynomial in the point, of the degree that a
//! constraint system says.

use crate::field::{fadd, fmul, fpow, fsub, lemma_fpow_range, vals, Field};
use crate::plonk::constraints::{bound_to, ends_in_bit, spread, starts_at_one};
use crate::plonk::evaluation::rotated;
use crate::plonk::evaluator::values_of;
use crate::plonk::expression::{CellValues, GpuExpression};
use crate::plonk::permutation::prover::labelled;
use crate::plonk::points::{at_rotation, lemma_part_cell, lemma_through};
use crate::plonk::quotient::{CircuitPolys, QuotientModel};
use crate::poly::arithmetic::lemma_poly_eval_range;
use crate::poly::domain::EvaluationDomain;
use crate::poly::functions::{
    has_degree, have_degree, lemma_degree_column, lemma_degree_constant, lemma_degree_negative,
    lemma_degree_product, lemma_degree_raise, lemma_degree_sum, lemma_front_degree, nth,
};
use vstd::prelude::*;

verus! {

/// The cells that gates see at a point.
pub open spec fn point_cells<F: Field>(
    model: QuotientModel<F>,
    circuit: CircuitPolys<F>,
    x: int,
) -> CellValues {
    model.columns_through(circuit, x).cells(0)
}

/// The values of a polynomial at a rotation of the point.
pub open spec fn column_fn<F: Field>(
    domain: EvaluationDomain<F>,
    a: Seq<int>,
    rotation: int,
) -> spec_fn(int) -> int {
    |x: int| at_rotation(domain, a, x, rotation)
}

/// The values of an expression at the point.
pub open spec fn expression_fn<F: Field>(
    model: QuotientModel<F>,
    circuit: CircuitPolys<F>,
    e: GpuExpression<F>,
) -> spec_fn(int) -> int {
    |x: int| e.value(point_cells(model, circuit, x))
}

/// The values of expressions at the point.
pub open spec fn expressions_fn<F: Field>(
    model: QuotientModel<F>,
    circuit: CircuitPolys<F>,
    s: Seq<GpuExpression<F>>,
) -> spec_fn(int) -> Seq<int> {
    |x: int| values_of(s, point_cells(model, circuit, x))
}

/// A column has the degree of its polynomial.
pub proof fn lemma_column_degree<F: Field>(
    domain: EvaluationDomain<F>,
    a: Seq<int>,
    rotation: int,
)
    requires
        domain.wf(),
        a.len() == domain.size(),
    ensures
        has_degree(
            F::modulus(),
            column_fn(domain, a, rotation),
            (domain.size() - 1) as nat,
        ),
{
    domain.lemma_domain();
    vstd::arithmetic::power2::lemma_pow2_pos(domain.k as nat);
    lemma_degree_column(
        F::modulus(),
        column_fn(domain, a, rotation),
        a,
        domain.omega_power(rotation),
        (domain.size() - 1) as nat,
    );
}

/// What is read from a column of the part that begins at a point.
pub proof fn lemma_cell_through<F: Field>(
    model: QuotientModel<F>,
    a: Seq<int>,
    x: int,
    rotation: i32,
)
    requires
        model.domain.wf(),
        model.domain.size() <= i32::MAX,
        0 <= x < F::modulus(),
    ensures
        ({
            let values = model.domain.part_values(a, model.through(x));
            let row = rotated(0, rotation, 1, model.domain.size() as i32);
            &&& 0 <= row < model.domain.size()
            &&& values.len() == model.domain.size()
            &&& values[row] == column_fn(model.domain, a, rotation as int)(x)
            &&& values[0] == column_fn(model.domain, a, 0)(x)
        }),
{
    vstd::arithmetic::power2::lemma_pow2_pos(model.domain.k as nat);
    lemma_through(model, x);
    lemma_part_cell(model.domain, a, model.through(x), 0, rotation);
}

/// All cells of a part are canonical representatives.
pub proof fn lemma_part_cells_in_range<F: Field>(
    model: QuotientModel<F>,
    circuit: CircuitPolys<F>,
    at: int,
    i: usize,
)
    requires
        model.domain.wf(),
    ensures
        model.columns(circuit, at).cells(i).in_range(F::modulus()),
{
    let p = F::modulus();
    let d = model.domain;
    let cells = model.columns(circuit, at).cells(i);
    F::lemma_modulus();
    assert forall|a: Seq<int>, at: int, i: int| 0 <= i < d.size() implies 0
        <= #[trigger] d.part_values(a, at)[i] < p by {
        lemma_poly_eval_range(p, a, d.part_point(at, i));
    }
    assert forall|c: usize| 0 <= #[trigger] (cells.challenge)(c) < p by {
        if c < model.challenges.len() {
            model.challenges[c as int].lemma_val_range();
        }
    }
}

/// All cells at a point are canonical representatives.
pub proof fn lemma_point_cells_in_range<F: Field>(
    model: QuotientModel<F>,
    circuit: CircuitPolys<F>,
    x: int,
)
    requires
        model.domain.wf(),
    ensures
        point_cells(model, circuit, x).in_range(F::modulus()),
{
    lemma_part_cells_in_range(model, circuit, model.through(x), 0);
}

/// An expression has the degree that it says.
pub proof fn lemma_expression_degree<F: Field>(
    model: QuotientModel<F>,
    circuit: CircuitPolys<F>,
    e: GpuExpression<F>,
)
    requires
        model.complete(circuit),
    ensures
        has_degree(
            F::modulus(),
            expression_fn(model, circuit, e),
            e.spec_degree() * ((model.domain.size() - 1) as nat),
        ),
    decreases e,
{
    let p = F::modulus();
    let d = model.domain;
    let n = (d.size() - 1) as nat;
    let f = expression_fn(model, circuit, e);
    d.lemma_domain();
    assert(0 * n == 0 && 1 * n == n) by (nonlinear_arith);
    match e {
        GpuExpression::Constant(scalar) => {
            scalar.lemma_val_range();
            lemma_degree_constant(p, f, scalar.val(), 0);
        },
        GpuExpression::Selector(_) => {
            lemma_degree_constant(p, f, 0, n);
        },
        GpuExpression::Fixed(query) => {
            let (c, r) = (query.column_index as int, query.rotation.0);
            if c < model.key.fixed@.len() {
                let a = vals(model.key.fixed@[c]@);
                assert(model.key.fixed@[c]@.len() == d.size());
                lemma_column_degree(d, a, r as int);
                let g = column_fn(d, a, r as int);
                assert forall|x: int| 0 <= x < p implies #[trigger] f(x) == g(x) by {
                    lemma_cell_through(model, a, x, r);
                }
                lemma_degree_raise(p, g, f, n, n);
            } else {
                lemma_degree_constant(p, f, 0, n);
            }
        },
        GpuExpression::Advice(query) => {
            let (c, r) = (query.column_index as int, query.rotation.0);
            if c < circuit.advice@.len() {
                let a = vals(circuit.advice@[c]@);
                assert(circuit.advice@[c]@.len() == d.size());
                lemma_column_degree(d, a, r as int);
                let g = column_fn(d, a, r as int);
                assert forall|x: int| 0 <= x < p implies #[trigger] f(x) == g(x) by {
                    lemma_cell_through(model, a, x, r);
                }
                lemma_degree_raise(p, g, f, n, n);
            } else {
                lemma_degree_constant(p, f, 0, n);
            }
        },
        GpuExpression::Instance(query) => {
            let (c, r) = (query.column_index as int, query.rotation.0);
            if c < circuit.instance@.len() {
                let a = vals(circuit.instance@[c]@);
                assert(circuit.instance@[c]@.len() == d.size());
                lemma_column_degree(d, a, r as int);
                let g = column_fn(d, a, r as int);
                assert forall|x: int| 0 <= x < p implies #[trigger] f(x) == g(x) by {
                    lemma_cell_through(model, a, x, r);
                }
                lemma_degree_raise(p, g, f, n, n);
            } else {
                lemma_degree_constant(p, f, 0, n);
            }
        },
        GpuExpression::Challenge(challenge) => {
            let i = challenge.index as int;
            if i < model.challenges.len() {
                model.challenges[i].lemma_val_range();
                lemma_degree_constant(p, f, model.challenges[i].val(), 0);
            } else {
                lemma_degree_constant(p, f, 0, 0);
            }
        },
        GpuExpression::Negated(a) => {
            lemma_expression_degree(model, circuit, *a);
            let g = expression_fn(model, circuit, *a);
            lemma_degree_negative(p, g, f, a.spec_degree() * n);
        },
        GpuExpression::Sum(a, b) => {
            lemma_expression_degree(model, circuit, *a);
            lemma_expression_degree(model, circuit, *b);
            let g = expression_fn(model, circuit, *a);
            let h = expression_fn(model, circuit, *b);
            let (u, v, w) = (a.spec_degree(), b.spec_degree(), e.spec_degree());
            assert(u * n <= w * n && v * n <= w * n) by (nonlinear_arith)
                requires
                    u <= w,
                    v <= w,
            ;
            lemma_degree_raise(p, g, g, u * n, w * n);
            lemma_degree_raise(p, h, h, v * n, w * n);
            lemma_degree_sum(p, g, h, f, w * n);
        },
        GpuExpression::Product(a, b) => {
            lemma_expression_degree(model, circuit, *a);
            lemma_expression_degree(model, circuit, *b);
            let g = expression_fn(model, circuit, *a);
            let h = expression_fn(model, circuit, *b);
            let (u, v) = (a.spec_degree(), b.spec_degree());
            lemma_degree_product(p, g, h, f, u * n, v * n);
            assert((u + v) * n == u * n + v * n) by (nonlinear_arith);
        },
        GpuExpression::Scaled(a, s) => {
            lemma_expression_degree(model, circuit, *a);
            let g = expression_fn(model, circuit, *a);
            let h = |x: int| s.val();
            s.lemma_val_range();
            lemma_degree_constant(p, h, s.val(), 0);
            lemma_degree_product(p, g, h, f, a.spec_degree() * n, 0);
        },
    }
}

/// Expressions of degree `d` or less.
pub proof fn lemma_expressions_degree<F: Field>(
    model: QuotientModel<F>,
    circuit: CircuitPolys<F>,
    s: Seq<GpuExpression<F>>,
    d: nat,
)
    requires
        model.complete(circuit),
        forall|i: int| 0 <= i < s.len() ==> (#[trigger] s[i]).spec_degree() <= d,
    ensures
        have_degree(
            F::modulus(),
            expressions_fn(model, circuit, s),
            s.len(),
            d * ((model.domain.size() - 1) as nat),
        ),
{
    let p = F::modulus();
    let n = (model.domain.size() - 1) as nat;
    let f = expressions_fn(model, circuit, s);
    model.domain.lemma_domain();
    assert forall|j: int| 0 <= j < s.len() implies has_degree(p, #[trigger] nth(f, j), d * n) by {
        lemma_expression_degree(model, circuit, s[j]);
        let e = s[j].spec_degree();
        assert(e * n <= d * n) by (nonlinear_arith)
            requires
                e <= d,
        ;
        lemma_degree_raise(p, expression_fn(model, circuit, s[j]), nth(f, j), e * n, d * n);
    }
}

/// A value with a label of another column, and one more summand.
proof fn lemma_labelled_degree(
    p: int,
    v: spec_fn(int) -> int,
    label: spec_fn(int) -> int,
    h: spec_fn(int) -> int,
    beta: int,
    gamma: int,
    d: nat,
)
    requires
        p > 1,
        0 <= beta < p,
        0 <= gamma < p,
        has_degree(p, v, d),
        has_degree(p, label, d),
        forall|x: int|
            0 <= x < p ==> #[trigger] h(x) == labelled(p, v(x), label(x), beta, gamma),
    ensures
        has_degree(p, h, d),
{
    let b = |x: int| beta;
    lemma_degree_constant(p, b, beta, 0);
    let bl = |x: int| fmul(p, b(x), label(x));
    lemma_degree_product(p, b, label, bl, 0, d);
    let s = |x: int| fadd(p, v(x), bl(x));
    lemma_degree_sum(p, v, bl, s, d);
    let g = |x: int| gamma;
    lemma_degree_constant(p, g, gamma, d);
    assert forall|x: int| 0 <= x < p implies #[trigger] h(x) == fadd(p, s(x), g(x)) by {}
    lemma_degree_sum(p, s, g, h, d);
}

/// The degree of a product of values bound to the labels of other columns.
pub proof fn lemma_bound_degree(
    p: int,
    z: spec_fn(int) -> int,
    values: spec_fn(int) -> Seq<int>,
    labels: spec_fn(int) -> Seq<int>,
    h: spec_fn(int) -> int,
    beta: int,
    gamma: int,
    m: nat,
    e: nat,
    d: nat,
)
    requires
        p > 1,
        0 <= beta < p,
        0 <= gamma < p,
        has_degree(p, z, e),
        have_degree(p, values, m, d),
        have_degree(p, labels, m, d),
        forall|x: int|
            0 <= x < p ==> #[trigger] h(x) == bound_to(
                p,
                z(x),
                values(x),
                labels(x),
                beta,
                gamma,
            ),
    ensures
        has_degree(p, h, e + m * d),
    decreases m,
{
    if m == 0 {
        assert(0 * d == 0) by (nonlinear_arith);
        assert forall|x: int| 0 <= x < p implies #[trigger] h(x) == z(x) by {
            assert(values(x).len() == 0);
        }
        lemma_degree_raise(p, z, h, e, e);
    } else {
        let k = (m - 1) as nat;
        let vs = |x: int| values(x).drop_last();
        let ls = |x: int| labels(x).drop_last();
        lemma_front_degree(p, values, vs, m, d);
        lemma_front_degree(p, labels, ls, m, d);
        let before = |x: int| bound_to(p, z(x), vs(x), ls(x), beta, gamma);
        lemma_bound_degree(p, z, vs, ls, before, beta, gamma, k, e, d);
        let (v, l) = (nth(values, k as int), nth(labels, k as int));
        let factor = |x: int| labelled(p, v(x), l(x), beta, gamma);
        lemma_labelled_degree(p, v, l, factor, beta, gamma, d);
        assert forall|x: int| 0 <= x < p implies #[trigger] h(x) == fmul(
            p,
            before(x),
            factor(x),
        ) by {
            assert(values(x).len() == m && labels(x).len() == m);
        }
        lemma_degree_product(p, before, factor, h, e + k * d, d);
        assert(e + k * d + d == e + m * d) by (nonlinear_arith)
            requires
                m == k + 1,
        ;
    }
}

/// The degree of a product of values bound to their own labels.
pub proof fn lemma_spread_degree(
    p: int,
    z: spec_fn(int) -> int,
    values: spec_fn(int) -> Seq<int>,
    start: spec_fn(int) -> int,
    h: spec_fn(int) -> int,
    first: nat,
    delta: int,
    gamma: int,
    m: nat,
    e: nat,
    d: nat,
)
    requires
        p > 1,
        0 <= gamma < p,
        has_degree(p, z, e),
        has_degree(p, start, d),
        have_degree(p, values, m, d),
        forall|x: int|
            0 <= x < p ==> #[trigger] h(x) == spread(
                p,
                z(x),
                values(x),
                first,
                start(x),
                delta,
                gamma,
            ),
    ensures
        has_degree(p, h, e + m * d),
    decreases m,
{
    if m == 0 {
        assert(0 * d == 0) by (nonlinear_arith);
        assert forall|x: int| 0 <= x < p implies #[trigger] h(x) == z(x) by {
            assert(values(x).len() == 0);
        }
        lemma_degree_raise(p, z, h, e, e);
    } else {
        let k = (m - 1) as nat;
        let vs = |x: int| values(x).drop_last();
        lemma_front_degree(p, values, vs, m, d);
        let before = |x: int| spread(p, z(x), vs(x), first, start(x), delta, gamma);
        lemma_spread_degree(p, z, vs, start, before, first, delta, gamma, k, e, d);
        let v = nth(values, k as int);
        let power = fpow(p, delta, first + k);
        lemma_fpow_range(p, delta, first + k);
        let c = |x: int| power;
        lemma_degree_constant(p, c, power, 0);
        let label = |x: int| fmul(p, start(x), c(x));
        lemma_degree_product(p, start, c, label, d, 0);
        let s = |x: int| fadd(p, v(x), label(x));
        lemma_degree_sum(p, v, label, s, d);
        let g = |x: int| gamma;
        lemma_degree_constant(p, g, gamma, d);
        let factor = |x: int| fadd(p, s(x), g(x));
        lemma_degree_sum(p, s, g, factor, d);
        assert forall|x: int| 0 <= x < p implies #[trigger] h(x) == fmul(
            p,
            before(x),
            factor(x),
        ) by {
            assert(values(x).len() == m);
        }
        lemma_degree_product(p, before, factor, h, e + k * d, d);
        assert(e + k * d + d == e + m * d) by (nonlinear_arith)
            requires
                m == k + 1,
        ;
    }
}

/// The degree of `(1 - z) l_0`.
pub proof fn lemma_starts_degree(
    p: int,
    z: spec_fn(int) -> int,
    l: spec_fn(int) -> int,
    h: spec_fn(int) -> int,
    n: nat,
)
    requires
        p > 1,
        has_degree(p, z, n),
        has_degree(p, l, n),
        forall|x: int| 0 <= x < p ==> #[trigger] h(x) == starts_at_one(p, z(x), l(x)),
    ensures
        has_degree(p, h, 2 * n),
{
    let one = |x: int| 1int;
    lemma_degree_constant(p, one, 1, n);
    let s = |x: int| fsub(p, one(x), z(x));
    lemma_degree_sum(p, one, z, s, n);
    assert forall|x: int| 0 <= x < p implies #[trigger] h(x) == fmul(p, s(x), l(x)) by {}
    lemma_degree_product(p, s, l, h, n, n);
}

/// The degree of `(z^2 - z) l_last`.
pub proof fn lemma_ends_degree(
    p: int,
    z: spec_fn(int) -> int,
    l: spec_fn(int) -> int,
    h: spec_fn(int) -> int,
    n: nat,
)
    requires
        p > 1,
        has_degree(p, z, n),
        has_degree(p, l, n),
        forall|x: int| 0 <= x < p ==> #[trigger] h(x) == ends_in_bit(p, z(x), l(x)),
    ensures
        has_degree(p, h, 3 * n),
{
    let zz = |x: int| fmul(p, z(x), z(x));
    lemma_degree_product(p, z, z, zz, n, n);
    lemma_degree_raise(p, z, z, n, n + n);
    let s = |x: int| fsub(p, zz(x), z(x));
    lemma_degree_sum(p, zz, z, s, n + n);
    assert forall|x: int| 0 <= x < p implies #[trigger] h(x) == fmul(p, s(x), l(x)) by {}
    lemma_degree_product(p, s, l, h, n + n, n);
}

/// The degree of a difference times a factor.
pub proof fn lemma_difference_degree(
    p: int,
    a: spec_fn(int) -> int,
    b: spec_fn(int) -> int,
    l: spec_fn(int) -> int,
    h: spec_fn(int) -> int,
    d: nat,
    n: nat,
)
    requires
        p > 1,
        has_degree(p, a, d),
        has_degree(p, b, d),
        has_degree(p, l, n),
        forall|x: int| 0 <= x < p ==> #[trigger] h(x) == fmul(p, fsub(p, a(x), b(x)), l(x)),
    ensures
        has_degree(p, h, d + n),
{
    let s = |x: int| fsub(p, a(x), b(x));
    lemma_degree_sum(p, a, b, s, d);
    assert forall|x: int| 0 <= x < p implies #[trigger] h(x) == fmul(p, s(x), l(x)) by {}
    lemma_degree_product(p, s, l, h, d, n);
}

} // verus!
