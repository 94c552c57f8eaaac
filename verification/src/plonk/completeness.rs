//! Satisfied circuits have quotients: where the folded constraints vanish in all
//! rows, what the quotient's numerator is divided into is a polynomial whose
//! product with `X^n - 1` is the folded constraints at every point.

use crate::field::{
    fadd, fmul, fpow, fsub, lemma_fmul_assoc, lemma_fpow_range, lemma_units, vals, Field,
};
use crate::plonk::constraint_system::{
    lemma_max_gate_degree, lemma_max_lookup_degree, lemma_max_poly_degree, max_gate_degree,
    max_lookup_degree, GpuGate,
};
use crate::plonk::constraints::{
    bound_to, ends_in_bit, lemma_next_chunk, spread, starts_at_one,
};
use crate::plonk::degrees::{
    column_fn, expressions_fn, lemma_bound_degree, lemma_cell_through, lemma_column_degree,
    lemma_difference_degree, lemma_ends_degree, lemma_expressions_degree,
    lemma_point_cells_in_range, lemma_spread_degree, lemma_starts_degree, point_cells,
};
use crate::plonk::evaluator::{
    custom_gates_graph, gate_polys, law_custom_gates_value, law_lookup_value, lookup_graph,
    values_of,
};
use crate::plonk::expression::GpuExpression;
use crate::plonk::graph::{all_selector_free, GraphModel};
use crate::plonk::graph_values::horner;
use crate::plonk::lookup;
use crate::plonk::lookup::lemma_max_degree_bounds;
use crate::plonk::permutation::prover::chunk_start;
use crate::plonk::points::{
    law_rows_are_points, lemma_first_label, lemma_permuted_part, lemma_same_cells, lemma_through,
    permutation_part,
};
use crate::plonk::quotient::{
    lemma_horner_append, CircuitColumns, CircuitPolys, QuotientModel,
};
use crate::plonk::satisfaction::{
    all_zero, law_row_value_folds_constraints, law_satisfied_constraints_fold_to_zero,
};
use crate::poly::arithmetic::{canonical, poly_eval};
use crate::poly::domain::EvaluationDomain;
use crate::poly::exact::{divided, law_exact_quotient};
use crate::poly::functions::{
    computes, has_degree, have_degree, lemma_degree_constant, lemma_degree_horner,
    lemma_degree_linear, lemma_degree_product, lemma_degree_raise, lemma_degree_sum, nth,
};
use crate::poly::transforms::{law_interpolated, lemma_zeta};
use vstd::prelude::*;

verus! {

/// The constraints of the permutation argument at the point.
pub open spec fn permutation_fn<F: Field>(
    model: QuotientModel<F>,
    circuit: CircuitPolys<F>,
) -> spec_fn(int) -> Seq<int> {
    |x: int|
        permutation_part(model, circuit, model.through(x)).terms(
            F::modulus(),
            0,
            fmul(F::modulus(), model.folding.beta.val(), x),
        )
}

/// The number of constraints of the permutation argument.
pub open spec fn permutation_count(sets: nat) -> nat {
    if sets == 0 {
        0
    } else {
        2 * sets + 1
    }
}

/// The row of a chunk of columns at the point.
proof fn lemma_chunk_degree<F: Field>(
    model: QuotientModel<F>,
    circuit: CircuitPolys<F>,
    values: spec_fn(int) -> Seq<int>,
    labels: spec_fn(int) -> Seq<int>,
    k: int,
)
    requires
        model.complete(circuit),
        0 <= k,
        forall|x: int|
            0 <= x < F::modulus() ==> {
                let part = permutation_part(model, circuit, model.through(x));
                &&& #[trigger] values(x) == part.chunk_row(part.columns, k, 0)
                &&& #[trigger] labels(x) == part.chunk_row(part.sigmas, k, 0)
            },
    ensures
        ({
            let from = chunk_start(model.columns.len(), model.chunk_len, k as nat);
            let to = chunk_start(model.columns.len(), model.chunk_len, (k + 1) as nat);
            let n = (model.domain.size() - 1) as nat;
            &&& from <= to <= from + model.chunk_len
            &&& have_degree(F::modulus(), values, (to - from) as nat, n)
            &&& have_degree(F::modulus(), labels, (to - from) as nat, n)
        }),
{
    let p = F::modulus();
    let d = model.domain;
    let n = (d.size() - 1) as nat;
    d.lemma_domain();
    lemma_next_chunk(model.columns.len(), model.chunk_len, k as nat);
    let from = chunk_start(model.columns.len(), model.chunk_len, k as nat);
    let to = chunk_start(model.columns.len(), model.chunk_len, (k + 1) as nat);
    assert forall|x: int| 0 <= x < p implies (#[trigger] values(x)).len() == to - from by {
        let _ = labels(x);
    }
    assert forall|x: int| 0 <= x < p implies (#[trigger] labels(x)).len() == to - from by {
        let _ = values(x);
    }
    assert forall|j: int| 0 <= j < to - from implies has_degree(p, #[trigger] nth(values, j),
        n) by {
        let a = model.permuted(circuit, from + j);
        lemma_permuted_part(model, circuit, 0, from + j);
        lemma_column_degree(d, a, 0);
        let (f, g) = (column_fn(d, a, 0), nth(values, j));
        assert forall|x: int| 0 <= x < p implies #[trigger] g(x) == f(x) by {
            let _ = labels(x);
            assert(values(x).len() == to - from);
            lemma_permuted_part(model, circuit, model.through(x), from + j);
            lemma_cell_through(model, a, x, 0);
        }
        lemma_degree_raise(p, f, g, n, n);
    }
    assert forall|j: int| 0 <= j < to - from implies has_degree(p, #[trigger] nth(labels, j),
        n) by {
        let a = vals(model.key.sigmas@[from + j]@);
        assert(model.key.sigmas@[from + j]@.len() == d.size());
        lemma_column_degree(d, a, 0);
        let (f, g) = (column_fn(d, a, 0), nth(labels, j));
        assert forall|x: int| 0 <= x < p implies #[trigger] g(x) == f(x) by {
            let _ = values(x);
            assert(labels(x).len() == to - from);
            lemma_cell_through(model, a, x, 0);
        }
        lemma_degree_raise(p, f, g, n, n);
    }
}

/// A product goes on: the degree of the constraint.
proof fn lemma_goes_on_degree<F: Field>(
    model: QuotientModel<F>,
    circuit: CircuitPolys<F>,
    h: spec_fn(int) -> int,
    k: int,
    d: nat,
)
    requires
        model.complete(circuit),
        0 <= k < circuit.products@.len(),
        model.chunk_len + 2 <= d,
        forall|x: int|
            0 <= x < F::modulus() ==> #[trigger] h(x) == permutation_part(
                model,
                circuit,
                model.through(x),
            ).goes_on(F::modulus(), 0, fmul(F::modulus(), model.folding.beta.val(), x), k),
    ensures
        has_degree(F::modulus(), h, d * ((model.domain.size() - 1) as nat)),
{
    let p = F::modulus();
    let domain = model.domain;
    let n = (domain.size() - 1) as nat;
    domain.lemma_domain();
    let part = |x: int| permutation_part(model, circuit, model.through(x));
    let values = |x: int| part(x).chunk_row(part(x).columns, k, 0);
    let labels = |x: int| part(x).chunk_row(part(x).sigmas, k, 0);
    lemma_chunk_degree(model, circuit, values, labels, k);
    let from = chunk_start(model.columns.len(), model.chunk_len, k as nat);
    let to = chunk_start(model.columns.len(), model.chunk_len, (k + 1) as nat);
    let m = (to - from) as nat;
    let (beta, gamma) = (model.folding.beta.val(), model.folding.gamma.val());
    model.folding.beta.lemma_val_range();
    model.folding.gamma.lemma_val_range();
    let z = vals(circuit.products@[k]@);
    assert(circuit.products@[k]@.len() == domain.size());
    lemma_column_degree(domain, z, 0);
    lemma_column_degree(domain, z, 1);
    let (here, next) = (column_fn(domain, z, 0), column_fn(domain, z, 1));
    let left = |x: int| bound_to(p, next(x), values(x), labels(x), beta, gamma);
    lemma_bound_degree(p, next, values, labels, left, beta, gamma, m, n, n);
    let start = |x: int| fmul(p, beta, x);
    lemma_degree_linear(p, start, beta, n);
    let right = |x: int|
        spread(p, here(x), values(x), from, start(x), F::delta_val(), gamma);
    lemma_spread_degree(p, here, values, start, right, from, F::delta_val(), gamma, m, n, n);
    let l = vals(model.key.l_active@);
    lemma_column_degree(domain, l, 0);
    let active = column_fn(domain, l, 0);
    assert forall|x: int| 0 <= x < p implies #[trigger] h(x) == fmul(
        p,
        fsub(p, left(x), right(x)),
        active(x),
    ) by {
        lemma_cell_through(model, z, x, 1);
        lemma_cell_through(model, l, x, 0);
        lemma_permuted_len(model, circuit, model.through(x));
    }
    lemma_difference_degree(p, left, right, active, h, n + m * n, n);
    assert(n + m * n + n <= d * n) by (nonlinear_arith)
        requires
            m + 2 <= d,
    ;
    lemma_degree_raise(p, h, h, n + m * n + n, d * n);
}

proof fn lemma_permuted_len<F: Field>(
    model: QuotientModel<F>,
    circuit: CircuitPolys<F>,
    at: int,
)
    ensures
        permutation_part(model, circuit, at).columns.len() == model.columns.len(),
        permutation_part(model, circuit, at).products.len() == circuit.products@.len(),
{
}

/// The degree of the constraints of the permutation argument.
proof fn lemma_permutation_degree<F: Field>(
    model: QuotientModel<F>,
    circuit: CircuitPolys<F>,
    d: nat,
)
    requires
        model.complete(circuit),
        3 <= d,
        model.chunk_len + 2 <= d,
    ensures
        have_degree(
            F::modulus(),
            permutation_fn(model, circuit),
            permutation_count(circuit.products@.len()),
            d * ((model.domain.size() - 1) as nat),
        ),
{
    let p = F::modulus();
    let domain = model.domain;
    let n = (domain.size() - 1) as nat;
    let f = permutation_fn(model, circuit);
    let m = circuit.products@.len();
    domain.lemma_domain();
    assert(2 * n <= d * n && 3 * n <= d * n) by (nonlinear_arith)
        requires
            3 <= d,
    ;
    assert forall|x: int| 0 <= x < p implies (#[trigger] f(x)).len() == permutation_count(m) by {
        lemma_permuted_len(model, circuit, model.through(x));
    }
    assert forall|t: int| 0 <= t < permutation_count(m) implies has_degree(
        p,
        #[trigger] nth(f, t),
        d * n,
    ) by {
        let h = nth(f, t);
        let l0 = vals(model.key.l0@);
        let l_last = vals(model.key.l_last@);
        if t == 0 {
            let z = vals(circuit.products@[0]@);
            assert(circuit.products@[0]@.len() == domain.size());
            lemma_column_degree(domain, z, 0);
            lemma_column_degree(domain, l0, 0);
            let (u, v) = (column_fn(domain, z, 0), column_fn(domain, l0, 0));
            assert forall|x: int| 0 <= x < p implies #[trigger] h(x) == starts_at_one(
                p,
                u(x),
                v(x),
            ) by {
                lemma_cell_through(model, z, x, 0);
                lemma_cell_through(model, l0, x, 0);
            }
            lemma_starts_degree(p, u, v, h, n);
            lemma_degree_raise(p, h, h, 2 * n, d * n);
        } else if t == 1 {
            let z = vals(circuit.products@[m - 1]@);
            assert(circuit.products@[m - 1]@.len() == domain.size());
            lemma_column_degree(domain, z, 0);
            lemma_column_degree(domain, l_last, 0);
            let (u, v) = (column_fn(domain, z, 0), column_fn(domain, l_last, 0));
            assert forall|x: int| 0 <= x < p implies #[trigger] h(x)
                == ends_in_bit(p, u(x), v(x)) by {
                lemma_cell_through(model, z, x, 0);
                lemma_cell_through(model, l_last, x, 0);
            }
            lemma_ends_degree(p, u, v, h, n);
            lemma_degree_raise(p, h, h, 3 * n, d * n);
        } else if t < m + 1 {
            let k = t - 2;
            let a = vals(circuit.products@[k + 1]@);
            let b = vals(circuit.products@[k]@);
            assert(circuit.products@[k + 1]@.len() == domain.size());
            assert(circuit.products@[k]@.len() == domain.size());
            let r = model.last as int;
            lemma_column_degree(domain, a, 0);
            lemma_column_degree(domain, b, r);
            lemma_column_degree(domain, l0, 0);
            let (u, v, w) = (
                column_fn(domain, a, 0),
                column_fn(domain, b, r),
                column_fn(domain, l0, 0),
            );
            assert forall|x: int| 0 <= x < p implies #[trigger] h(x) == fmul(
                p,
                fsub(p, u(x), v(x)),
                w(x),
            ) by {
                let part = permutation_part(model, circuit, model.through(x));
                lemma_cell_through(model, a, x, 0);
                lemma_cell_through(model, b, x, model.last);
                lemma_cell_through(model, l0, x, 0);
                assert(f(x)[t] == part.chained(p, 0, k));
            }
            lemma_difference_degree(p, u, v, w, h, n, n);
            lemma_degree_raise(p, h, h, n + n, d * n);
        } else {
            let k = t - (m + 1);
            assert forall|x: int| 0 <= x < p implies #[trigger] h(x) == permutation_part(
                model,
                circuit,
                model.through(x),
            ).goes_on(p, 0, fmul(p, model.folding.beta.val(), x), k) by {
                lemma_permuted_len(model, circuit, model.through(x));
            }
            lemma_goes_on_degree(model, circuit, h, k, d);
        }
    }
}

impl<F: Field> QuotientModel<F> {
    /// Whether the graphs are those of the gates and lookups.
    pub open spec fn describes(
        self,
        gates: Seq<GpuGate<F>>,
        lookups: Seq<lookup::Argument<F>>,
    ) -> bool {
        &&& self.gates == custom_gates_graph(gates)
        &&& self.gates.fits()
        &&& all_selector_free(gate_polys(gates))
        &&& self.graphs.len() == lookups.len()
        &&& forall|k: int|
            0 <= k < lookups.len() ==> {
                let inputs = (#[trigger] lookups[k]).input_expressions@;
                let tables = lookups[k].table_expressions@;
                &&& self.graphs[k] == lookup_graph(inputs, tables)
                &&& self.graphs[k].fits()
                &&& all_selector_free(inputs)
                &&& all_selector_free(tables)
            }
    }

    /// Whether no constraint has a degree above `d`.
    pub open spec fn within_degree(
        self,
        gates: Seq<GpuGate<F>>,
        lookups: Seq<lookup::Argument<F>>,
        d: nat,
    ) -> bool {
        &&& 3 <= d
        &&& self.chunk_len + 2 <= d
        &&& max_gate_degree(gates) <= d
        &&& max_lookup_degree(lookups) <= d
    }
}

/// The folded expressions of a lookup, with one more summand.
proof fn lemma_compressed_degree<F: Field>(
    model: QuotientModel<F>,
    circuit: CircuitPolys<F>,
    s: Seq<GpuExpression<F>>,
    h: spec_fn(int) -> int,
    factor: F,
    summand: F,
)
    requires
        model.complete(circuit),
        forall|x: int|
            0 <= x < F::modulus() ==> #[trigger] h(x) == fadd(
                F::modulus(),
                horner(
                    F::modulus(),
                    0,
                    values_of(s, point_cells(model, circuit, x)),
                    factor.val(),
                ),
                summand.val(),
            ),
    ensures
        has_degree(
            F::modulus(),
            h,
            lookup::max_degree(s) * ((model.domain.size() - 1) as nat),
        ),
{
    let p = F::modulus();
    let n = (model.domain.size() - 1) as nat;
    model.domain.lemma_domain();
    let d = lookup::max_degree(s) * n;
    assert forall|i: int| 0 <= i < s.len() implies (#[trigger] s[i]).spec_degree()
        <= lookup::max_degree(s) by {
        lemma_max_degree_bounds(s, i);
    }
    lemma_expressions_degree(model, circuit, s, lookup::max_degree(s));
    factor.lemma_val_range();
    summand.lemma_val_range();
    let f = expressions_fn(model, circuit, s);
    let zero = |x: int| 0int;
    lemma_degree_constant(p, zero, 0, d);
    let folded = |x: int| horner(p, zero(x), f(x), factor.val());
    lemma_degree_horner(p, zero, f, folded, factor.val(), s.len(), d);
    let c = |x: int| summand.val();
    lemma_degree_constant(p, c, summand.val(), d);
    assert forall|x: int| 0 <= x < p implies #[trigger] h(x) == fadd(p, folded(x), c(x)) by {}
    lemma_degree_sum(p, folded, c, h, d);
}

/// The degree of `((z_next (a + beta)) (s + gamma) - z t) l_active`.
proof fn lemma_lookup_product_degree(
    p: int,
    z: spec_fn(int) -> int,
    z_next: spec_fn(int) -> int,
    a: spec_fn(int) -> int,
    s: spec_fn(int) -> int,
    t: spec_fn(int) -> int,
    l: spec_fn(int) -> int,
    h: spec_fn(int) -> int,
    beta: int,
    gamma: int,
    n: nat,
    e: nat,
)
    requires
        p > 1,
        0 <= beta < p,
        0 <= gamma < p,
        has_degree(p, z, n),
        has_degree(p, z_next, n),
        has_degree(p, a, n),
        has_degree(p, s, n),
        has_degree(p, l, n),
        has_degree(p, t, e),
        n + n <= e,
        forall|x: int|
            0 <= x < p ==> #[trigger] h(x) == fmul(
                p,
                fsub(
                    p,
                    fmul(p, fmul(p, z_next(x), fadd(p, a(x), beta)), fadd(p, s(x), gamma)),
                    fmul(p, z(x), t(x)),
                ),
                l(x),
            ),
    ensures
        has_degree(p, h, n + e + n),
{
    let b = |x: int| beta;
    lemma_degree_constant(p, b, beta, n);
    let ab = |x: int| fadd(p, a(x), b(x));
    lemma_degree_sum(p, a, b, ab, n);
    let g = |x: int| gamma;
    lemma_degree_constant(p, g, gamma, n);
    let sg = |x: int| fadd(p, s(x), g(x));
    lemma_degree_sum(p, s, g, sg, n);
    let za = |x: int| fmul(p, z_next(x), ab(x));
    lemma_degree_product(p, z_next, ab, za, n, n);
    let left = |x: int| fmul(p, za(x), sg(x));
    lemma_degree_product(p, za, sg, left, n + n, n);
    lemma_degree_raise(p, left, left, n + n + n, n + e);
    let right = |x: int| fmul(p, z(x), t(x));
    lemma_degree_product(p, z, t, right, n, e);
    assert forall|x: int| 0 <= x < p implies #[trigger] h(x) == fmul(
        p,
        fsub(p, left(x), right(x)),
        l(x),
    ) by {}
    lemma_difference_degree(p, left, right, l, h, n + e, n);
}

/// The constraints of a lookup at the point.
pub open spec fn lookup_fn<F: Field>(
    model: QuotientModel<F>,
    circuit: CircuitPolys<F>,
    k: int,
) -> spec_fn(int) -> Seq<int> {
    |x: int|
        model.columns_through(circuit, x).lookup_terms(F::modulus(), model.graphs[k], k, 0)
}

/// The degree of the constraints of a lookup.
proof fn lemma_lookup_degree<F: Field>(
    model: QuotientModel<F>,
    circuit: CircuitPolys<F>,
    gates: Seq<GpuGate<F>>,
    lookups: Seq<lookup::Argument<F>>,
    k: int,
    d: nat,
)
    requires
        model.complete(circuit),
        model.describes(gates, lookups),
        model.within_degree(gates, lookups, d),
        0 <= k < lookups.len(),
    ensures
        have_degree(
            F::modulus(),
            lookup_fn(model, circuit, k),
            5,
            d * ((model.domain.size() - 1) as nat),
        ),
{
    let p = F::modulus();
    let domain = model.domain;
    let n = (domain.size() - 1) as nat;
    domain.lemma_domain();
    let f = lookup_fn(model, circuit, k);
    let lookup = circuit.lookups@[k];
    assert(lookup.product@.len() == domain.size());
    let inputs = lookups[k].input_expressions@;
    let tables = lookups[k].table_expressions@;
    let (beta, gamma, theta) = (model.folding.beta, model.folding.gamma, model.folding.theta);
    beta.lemma_val_range();
    gamma.lemma_val_range();
    // The columns.
    let cz = vals(lookup.product@);
    let ca = domain.coefficients(vals(lookup.permuted_input@));
    let cs = domain.coefficients(vals(lookup.permuted_table@));
    let c0 = vals(model.key.l0@);
    let cl = vals(model.key.l_last@);
    let cx = vals(model.key.l_active@);
    lemma_column_degree(domain, cz, 0);
    lemma_column_degree(domain, cz, 1);
    lemma_column_degree(domain, ca, 0);
    lemma_column_degree(domain, ca, -1);
    lemma_column_degree(domain, cs, 0);
    lemma_column_degree(domain, c0, 0);
    lemma_column_degree(domain, cl, 0);
    lemma_column_degree(domain, cx, 0);
    let z = column_fn(domain, cz, 0);
    let z_next = column_fn(domain, cz, 1);
    let a = column_fn(domain, ca, 0);
    let a_prev = column_fn(domain, ca, -1);
    let s = column_fn(domain, cs, 0);
    let l0 = column_fn(domain, c0, 0);
    let l_last = column_fn(domain, cl, 0);
    let l_active = column_fn(domain, cx, 0);
    // The compressed expressions.
    let left = |x: int|
        fadd(
            p,
            horner(p, 0, values_of(inputs, point_cells(model, circuit, x)), theta.val()),
            beta.val(),
        );
    let right = |x: int|
        fadd(
            p,
            horner(p, 0, values_of(tables, point_cells(model, circuit, x)), theta.val()),
            gamma.val(),
        );
    lemma_compressed_degree(model, circuit, inputs, left, theta, beta);
    lemma_compressed_degree(model, circuit, tables, right, theta, gamma);
    let t = |x: int| fmul(p, left(x), right(x));
    let (u, v) = (lookup::max_degree(inputs), lookup::max_degree(tables));
    lemma_degree_product(p, left, right, t, u * n, v * n);
    lemma_max_lookup_degree(lookups, k);
    lemma_max_degree_positive(inputs);
    lemma_max_degree_positive(tables);
    let e = u * n + v * n;
    assert(n + n <= e && n + e + n <= d * n && 2 * n <= d * n && 3 * n <= d * n)
        by (nonlinear_arith)
        requires
            1 <= u,
            1 <= v,
            2 + u + v <= d,
            e == u * n + v * n,
    ;
    assert forall|x: int| 0 <= x < p implies #[trigger] f(x) == seq![
        starts_at_one(p, z(x), l0(x)),
        ends_in_bit(p, z(x), l_last(x)),
        fmul(
            p,
            fsub(
                p,
                fmul(
                    p,
                    fmul(p, z_next(x), fadd(p, a(x), beta.val())),
                    fadd(p, s(x), gamma.val()),
                ),
                fmul(p, z(x), t(x)),
            ),
            l_active(x),
        ),
        fmul(p, fsub(p, a(x), s(x)), l0(x)),
        fmul(p, fmul(p, fsub(p, a(x), s(x)), fsub(p, a(x), a_prev(x))), l_active(x)),
    ] by {
        lemma_cell_through(model, cz, x, 1);
        lemma_cell_through(model, ca, x, -1i32);
        lemma_cell_through(model, cs, x, 0);
        lemma_cell_through(model, c0, x, 0);
        lemma_cell_through(model, cl, x, 0);
        lemma_cell_through(model, cx, x, 0);
        lemma_point_cells_in_range(model, circuit, x);
        law_lookup_value(
            inputs,
            tables,
            point_cells(model, circuit, x),
            model.columns_through(circuit, x).scalars(0),
        );
        assert(model.graphs[k] == lookup_graph(inputs, tables));
    }
    assert forall|j: int| 0 <= j < 5 implies has_degree(p, #[trigger] nth(f, j), d * n) by {
        let h = nth(f, j);
        if j == 0 {
            assert forall|x: int| 0 <= x < p implies #[trigger] h(x) == starts_at_one(
                p,
                z(x),
                l0(x),
            ) by {
                let _ = f(x);
            }
            lemma_starts_degree(p, z, l0, h, n);
            lemma_degree_raise(p, h, h, 2 * n, d * n);
        } else if j == 1 {
            assert forall|x: int| 0 <= x < p implies #[trigger] h(x)
                == ends_in_bit(p, z(x), l_last(x)) by {
                let _ = f(x);
            }
            lemma_ends_degree(p, z, l_last, h, n);
            lemma_degree_raise(p, h, h, 3 * n, d * n);
        } else if j == 2 {
            assert forall|x: int| 0 <= x < p implies #[trigger] h(x) == fmul(
                p,
                fsub(
                    p,
                    fmul(
                        p,
                        fmul(p, z_next(x), fadd(p, a(x), beta.val())),
                        fadd(p, s(x), gamma.val()),
                    ),
                    fmul(p, z(x), t(x)),
                ),
                l_active(x),
            ) by {
                let _ = f(x);
            }
            lemma_lookup_product_degree(
                p,
                z,
                z_next,
                a,
                s,
                t,
                l_active,
                h,
                beta.val(),
                gamma.val(),
                n,
                e,
            );
            lemma_degree_raise(p, h, h, n + e + n, d * n);
        } else if j == 3 {
            assert forall|x: int| 0 <= x < p implies #[trigger] h(x) == fmul(
                p,
                fsub(p, a(x), s(x)),
                l0(x),
            ) by {
                let _ = f(x);
            }
            lemma_difference_degree(p, a, s, l0, h, n, n);
            lemma_degree_raise(p, h, h, n + n, d * n);
        } else {
            let b = |x: int| fsub(p, a(x), a_prev(x));
            lemma_degree_sum(p, a, a_prev, b, n);
            let c = |x: int| fmul(p, fsub(p, a(x), s(x)), b(x));
            lemma_difference_degree(p, a, s, b, c, n, n);
            assert forall|x: int| 0 <= x < p implies #[trigger] h(x) == fmul(
                p,
                c(x),
                l_active(x),
            ) by {
                let _ = f(x);
            }
            lemma_degree_product(p, c, l_active, h, n + n, n);
            lemma_degree_raise(p, h, h, n + n + n, d * n);
        }
    }
}

proof fn lemma_max_degree_positive<F: Field>(s: Seq<GpuExpression<F>>)
    ensures
        lookup::max_degree(s) >= 1,
    decreases s.len(),
{
    if s.len() > 0 {
        lemma_max_degree_positive(s.drop_last());
    }
}

/// Folding the constraints of the lookups keeps the degree.
proof fn lemma_lookups_degree<F: Field>(
    model: QuotientModel<F>,
    circuit: CircuitPolys<F>,
    gates: Seq<GpuGate<F>>,
    lookups: Seq<lookup::Argument<F>>,
    start: spec_fn(int) -> int,
    h: spec_fn(int) -> int,
    k: nat,
    d: nat,
)
    requires
        model.complete(circuit),
        model.describes(gates, lookups),
        model.within_degree(gates, lookups, d),
        k <= lookups.len(),
        has_degree(F::modulus(), start, d * ((model.domain.size() - 1) as nat)),
        forall|x: int|
            0 <= x < F::modulus() ==> #[trigger] h(x) == horner(
                F::modulus(),
                start(x),
                model.columns_through(circuit, x).lookups_terms(
                    F::modulus(),
                    model.graphs,
                    k,
                    0,
                ),
                model.folding.y.val(),
            ),
    ensures
        has_degree(F::modulus(), h, d * ((model.domain.size() - 1) as nat)),
    decreases k,
{
    let p = F::modulus();
    let e = d * ((model.domain.size() - 1) as nat);
    let y = model.folding.y.val();
    model.domain.lemma_domain();
    model.folding.y.lemma_val_range();
    if k == 0 {
        assert forall|x: int| 0 <= x < p implies #[trigger] h(x) == start(x) by {}
        lemma_degree_raise(p, start, h, e, e);
    } else {
        let j = (k - 1) as nat;
        let before = |x: int|
            horner(
                p,
                start(x),
                model.columns_through(circuit, x).lookups_terms(p, model.graphs, j, 0),
                y,
            );
        lemma_lookups_degree(model, circuit, gates, lookups, start, before, j, d);
        let f = lookup_fn(model, circuit, j as int);
        lemma_lookup_degree(model, circuit, gates, lookups, j as int, d);
        assert forall|x: int| 0 <= x < p implies #[trigger] h(x) == horner(
            p,
            before(x),
            f(x),
            y,
        ) by {
            let columns = model.columns_through(circuit, x);
            lemma_horner_append(
                p,
                start(x),
                columns.lookups_terms(p, model.graphs, j, 0),
                columns.lookup_terms(p, model.graphs[j as int], j as int, 0),
                y,
            );
        }
        lemma_degree_horner(p, before, f, h, y, 5, e);
    }
}

/// No polynomial of a gate has a degree above that of the gates.
proof fn lemma_gate_polys_degree<F: Field>(gates: Seq<GpuGate<F>>, i: int)
    requires
        0 <= i < gate_polys(gates).len(),
    ensures
        gate_polys(gates)[i].spec_degree() <= max_gate_degree(gates),
    decreases gates.len(),
{
    if gates.len() > 0 {
        let front = gate_polys(gates.drop_last());
        if i < front.len() {
            lemma_gate_polys_degree(gates.drop_last(), i);
        } else {
            let polys = gates.last().polys@;
            lemma_max_poly_degree(polys, i - front.len());
            lemma_max_gate_degree(gates, gates.len() - 1);
        }
    }
}

/// The folded constraints of the first `c` circuits at the point.
pub open spec fn point_fn<F: Field>(
    model: QuotientModel<F>,
    circuits: Seq<CircuitPolys<F>>,
    c: nat,
) -> spec_fn(int) -> int {
    |x: int| model.point_value(circuits, c, x)
}

/// The folded constraints of a batch are a polynomial in the point, whose degree
/// is that of the constraints times the degree of a column.
pub proof fn law_constraints_degree<F: Field>(
    model: QuotientModel<F>,
    circuits: Seq<CircuitPolys<F>>,
    c: nat,
    gates: Seq<GpuGate<F>>,
    lookups: Seq<lookup::Argument<F>>,
    d: nat,
)
    requires
        model.all_complete(circuits),
        c <= circuits.len(),
        model.describes(gates, lookups),
        model.within_degree(gates, lookups, d),
    ensures
        has_degree(
            F::modulus(),
            point_fn(model, circuits, c),
            d * ((model.domain.size() - 1) as nat),
        ),
    decreases c,
{
    let p = F::modulus();
    let n = (model.domain.size() - 1) as nat;
    let e = d * n;
    let h = point_fn(model, circuits, c);
    model.domain.lemma_domain();
    if c == 0 {
        lemma_degree_constant(p, h, 0, e);
    } else {
        let circuit = circuits[c - 1];
        assert(model.complete(circuit));
        let y = model.folding.y.val();
        model.folding.y.lemma_val_range();
        let before = point_fn(model, circuits, (c - 1) as nat);
        law_constraints_degree(model, circuits, (c - 1) as nat, gates, lookups, d);
        let polys = gate_polys(gates);
        assert forall|i: int| 0 <= i < polys.len() implies (#[trigger] polys[i]).spec_degree()
            <= d by {
            lemma_gate_polys_degree(gates, i);
        }
        lemma_expressions_degree(model, circuit, polys, d);
        let f = expressions_fn(model, circuit, polys);
        let gated = |x: int| horner(p, before(x), f(x), y);
        lemma_degree_horner(p, before, f, gated, y, polys.len(), e);
        let g = permutation_fn(model, circuit);
        lemma_permutation_degree(model, circuit, d);
        let permuted = |x: int| horner(p, gated(x), g(x), y);
        lemma_degree_horner(
            p,
            gated,
            g,
            permuted,
            y,
            permutation_count(circuit.products@.len()),
            e,
        );
        assert forall|x: int| 0 <= x < p implies #[trigger] h(x) == horner(
            p,
            permuted(x),
            model.columns_through(circuit, x).lookups_terms(p, model.graphs, lookups.len(), 0),
            y,
        ) by {
            let columns = model.columns_through(circuit, x);
            lemma_point_cells_in_range(model, circuit, x);
            law_custom_gates_value(
                gates,
                point_cells(model, circuit, x),
                columns.scalars(before(x)),
            );
            lemma_first_label(model, model.through(x), 0);
            lemma_through(model, x);
        }
        lemma_lookups_degree(model, circuit, gates, lookups, permuted, h, lookups.len(), d);
    }
}

impl<F: Field> QuotientModel<F> {
    /// The columns of a circuit in the rows of the domain itself.
    pub open spec fn domain_columns(self, circuit: CircuitPolys<F>) -> CircuitColumns {
        self.columns(circuit, self.domain.g_coset_inv.val())
    }

    /// Whether all constraints hold in a row: those of the gates, of the
    /// permutation argument, and of the lookups.
    pub open spec fn holds_in_row(
        self,
        circuit: CircuitPolys<F>,
        gates: Seq<GpuGate<F>>,
        i: usize,
    ) -> bool {
        let p = F::modulus();
        let columns = self.domain_columns(circuit);
        let label = fmul(
            p,
            self.folding.beta.val(),
            fpow(p, self.domain.omega.val(), i as nat),
        );
        &&& all_zero(values_of(gate_polys(gates), columns.cells(i)))
        &&& all_zero(columns.permutation_terms::<F>(i, label))
        &&& forall|k: int|
            0 <= k < self.graphs.len() ==> all_zero(
                #[trigger] columns.lookup_terms(p, self.graphs[k], k, i),
            )
    }
}

/// The domain is the part of the coset that begins at one: the values there of
/// an interpolated column are the column.
pub proof fn law_domain_is_a_part<F: Field>(domain: EvaluationDomain<F>, a: Seq<int>)
    requires
        domain.wf(),
        a.len() == domain.size(),
        canonical(F::modulus(), a),
    ensures
        domain.part_values(domain.coefficients(a), domain.g_coset_inv.val()) == a,
{
    let p = F::modulus();
    domain.lemma_domain();
    let values = domain.part_values(domain.coefficients(a), domain.g_coset_inv.val());
    assert forall|i: int| 0 <= i < a.len() implies values[i] == a[i] by {
        let x = fpow(p, domain.omega.val(), i as nat);
        lemma_fpow_range(p, domain.omega.val(), i as nat);
        lemma_zeta::<F>();
        lemma_units(p, x);
        law_interpolated(
            p,
            a,
            domain.omega.val(),
            domain.omega_inv.val(),
            domain.k as nat,
            domain.ifft_divisor.val(),
            i,
        );
    }
    assert(values =~= a);
}

/// Folding the constraints of the lookups, all of which hold.
proof fn lemma_lookups_hold(
    columns: CircuitColumns,
    p: int,
    graphs: Seq<GraphModel>,
    k: nat,
    i: usize,
)
    requires
        k <= graphs.len(),
        forall|j: int|
            0 <= j < graphs.len() ==> all_zero(#[trigger] columns.lookup_terms(p, graphs[j], j, i)),
    ensures
        all_zero(columns.lookups_terms(p, graphs, k, i)),
    decreases k,
{
    if k > 0 {
        lemma_lookups_hold(columns, p, graphs, (k - 1) as nat, i);
        let front = columns.lookups_terms(p, graphs, (k - 1) as nat, i);
        let last = columns.lookup_terms(p, graphs[k - 1], k - 1, i);
        let all = columns.lookups_terms(p, graphs, k, i);
        assert forall|t: int| 0 <= t < all.len() implies #[trigger] all[t] == 0 by {
            if t < front.len() {
                assert(front[t] == 0);
            } else {
                assert(last[t - front.len()] == 0);
            }
        }
    }
}

/// The folded constraints vanish at the point of a row in which all constraints
/// of all circuits hold.
pub proof fn law_satisfied_rows_vanish<F: Field>(
    model: QuotientModel<F>,
    circuits: Seq<CircuitPolys<F>>,
    c: nat,
    gates: Seq<GpuGate<F>>,
    lookups: Seq<lookup::Argument<F>>,
    i: usize,
)
    requires
        model.all_complete(circuits),
        c <= circuits.len(),
        model.describes(gates, lookups),
        i < model.domain.size(),
        forall|k: int| 0 <= k < c ==> model.holds_in_row(#[trigger] circuits[k], gates, i),
    ensures
        model.point_value(
            circuits,
            c,
            fpow(F::modulus(), model.domain.omega.val(), i as nat),
        ) == 0,
    decreases c,
{
    if c > 0 {
        let p = F::modulus();
        let domain = model.domain;
        let at = domain.g_coset_inv.val();
        let circuit = circuits[c - 1];
        assert(model.complete(circuit));
        assert(model.holds_in_row(circuits[c - 1], gates, i));
        let columns = model.domain_columns(circuit);
        let x = fpow(p, domain.omega.val(), i as nat);
        domain.lemma_domain();
        lemma_fpow_range(p, domain.omega.val(), i as nat);
        assert(domain.part_point(at, i as int) == x) by {
            lemma_zeta::<F>();
            lemma_units(p, x);
        }
        law_satisfied_rows_vanish(model, circuits, (c - 1) as nat, gates, lookups, i);
        law_rows_are_points(model, circuits, (c - 1) as nat, at, i);
        law_rows_are_points(model, circuits, c, at, i);
        lemma_first_label(model, at, i as nat);
        let label = fmul(p, model.folding.beta.val(), x);
        // The cells are those at the point.
        lemma_through(model, x);
        vstd::arithmetic::power2::lemma_pow2_pos(domain.k as nat);
        lemma_same_cells(model, circuit, at, i, model.through(x), 0);
        lemma_point_cells_in_range(model, circuit, x);
        law_row_value_folds_constraints(columns, gates, model.graphs, i, 0, label);
        let a = values_of(gate_polys(gates), columns.cells(i));
        let b = columns.permutation_terms::<F>(i, label);
        let l = columns.lookups_terms(p, model.graphs, columns.lookups.len(), i);
        lemma_lookups_hold(columns, p, model.graphs, columns.lookups.len(), i);
        let all = a + b + l;
        assert forall|t: int| 0 <= t < all.len() implies #[trigger] all[t] == 0 by {
            if t < a.len() {
                assert(a[t] == 0);
            } else if t < a.len() + b.len() {
                assert(b[t - a.len()] == 0);
            } else {
                assert(l[t - a.len() - b.len()] == 0);
            }
        }
        law_satisfied_constraints_fold_to_zero(p, all, columns.y);
    }
}

impl<F: Field> QuotientModel<F> {
    /// Whether the numerator holds, on the coset, the folded constraints of a
    /// batch of circuits.
    pub open spec fn is_numerator(
        self,
        circuits: Seq<CircuitPolys<F>>,
        numerator: Seq<int>,
    ) -> bool {
        &&& numerator.len() == self.domain.extended_size()
        &&& forall|row: int, part: int|
            0 <= row < self.domain.size() && 0 <= part < self.domain.parts()
                ==> #[trigger] numerator[row * self.domain.parts() + part] == self.value(
                circuits,
                self.shift(part as nat),
                circuits.len(),
                row as usize,
            )
    }

    /// The coefficients of the quotient: the numerator, divided on the coset.
    pub open spec fn quotient(self, numerator: Seq<int>) -> Seq<int> {
        self.domain.coset_coefficients(divided(self.domain, numerator)).take(
            (self.domain.n * self.domain.quotient_poly_degree) as int,
        )
    }
}

/// Satisfied circuits have quotients. Where all constraints of all circuits hold
/// in every row, and the domain provides for their degree, the numerator on the
/// coset, divided there and turned into coefficients, is a polynomial `h` with
/// `h(x) (x^n - 1)` equal to the folded constraints at every point `x`.
pub proof fn law_satisfied_circuits_have_quotients<F: Field>(
    model: QuotientModel<F>,
    circuits: Seq<CircuitPolys<F>>,
    gates: Seq<GpuGate<F>>,
    lookups: Seq<lookup::Argument<F>>,
    numerator: Seq<int>,
    x: int,
)
    requires
        model.all_complete(circuits),
        model.describes(gates, lookups),
        model.within_degree(
            gates,
            lookups,
            (model.domain.quotient_poly_degree + 1) as nat,
        ),
        forall|k: int, i: usize|
            0 <= k < circuits.len() && i < model.domain.size() ==> #[trigger] model.holds_in_row(
                circuits[k],
                gates,
                i,
            ),
        model.is_numerator(circuits, numerator),
        0 <= x < F::modulus(),
    ensures
        fmul(
            F::modulus(),
            poly_eval(F::modulus(), model.quotient(numerator), x),
            fsub(F::modulus(), fpow(F::modulus(), x, model.domain.size()), 1),
        ) == model.point_value(circuits, circuits.len(), x),
{
    let p = F::modulus();
    let domain = model.domain;
    let n = domain.size();
    let q = domain.quotient_poly_degree as nat;
    let d = q + 1;
    domain.lemma_domain();
    law_constraints_degree(model, circuits, circuits.len(), gates, lookups, d);
    let f = point_fn(model, circuits, circuits.len());
    let e = d * ((n - 1) as nat);
    let c = choose|c: Seq<int>| c.len() == e + 1 && #[trigger] computes(p, c, f);
    assert(e + 1 <= n + n * q) by (nonlinear_arith)
        requires
            e == (q + 1) * (n - 1),
            n > 1,
    ;
    assert forall|i: nat| i < n implies poly_eval(
        p,
        c,
        #[trigger] fpow(p, domain.omega.val(), i),
    ) == 0 by {
        let w = fpow(p, domain.omega.val(), i);
        lemma_fpow_range(p, domain.omega.val(), i);
        assert forall|k: int| 0 <= k < circuits.len() implies model.holds_in_row(
            #[trigger] circuits[k],
            gates,
            i as usize,
        ) by {}
        law_satisfied_rows_vanish(
            model,
            circuits,
            circuits.len(),
            gates,
            lookups,
            i as usize,
        );
        assert(f(w) == poly_eval(p, c, w));
    }
    assert forall|i: int| 0 <= i < numerator.len() implies #[trigger] numerator[i] == poly_eval(
        p,
        c,
        domain.coset_point(i),
    ) by {
        lemma_numerator_is_point(model, circuits, numerator, i);
        let w = domain.coset_point(i);
        assert(0 <= w < p);
        assert(f(w) == poly_eval(p, c, w));
    }
    law_exact_quotient(domain, c, numerator, x);
    assert(f(x) == poly_eval(p, c, x));
}

/// The numerator on the coset holds the folded constraints at its points.
proof fn lemma_numerator_is_point<F: Field>(
    model: QuotientModel<F>,
    circuits: Seq<CircuitPolys<F>>,
    numerator: Seq<int>,
    i: int,
)
    requires
        model.all_complete(circuits),
        model.is_numerator(circuits, numerator),
        0 <= i < numerator.len(),
    ensures
        numerator[i] == model.point_value(
            circuits,
            circuits.len(),
            model.domain.coset_point(i),
        ),
{
    let p = F::modulus();
    let domain = model.domain;
    let m = domain.parts();
    domain.lemma_domain();
    vstd::arithmetic::power2::lemma_pow2_pos((domain.extended_k - domain.k) as nat);
    let (row, part) = (i / (m as int), i % (m as int));
    vstd::arithmetic::div_mod::lemma_fundamental_div_mod(i, m as int);
    assert(row * m + part == i) by (nonlinear_arith)
        requires
            i == m * row + part,
    ;
    assert(0 <= row < domain.size()) by (nonlinear_arith)
        requires
            i == m * row + part,
            0 <= part < m,
            0 <= i < domain.size() * m,
    ;
    let w = domain.extended_omega.val();
    let at = fpow(p, w, part as nat);
    assert(numerator[row * m + part] == model.value(circuits, at, circuits.len(), row as usize));
    law_rows_are_points(model, circuits, circuits.len(), at, row as usize);
    // The point of the row: zeta w^part omega^row = zeta w^(row m + part).
    crate::field::lemma_fpow_mul(p, w, m, row as nat);
    crate::field::lemma_fpow_add(p, w, part as nat, m * (row as nat));
    assert(part as nat + m * (row as nat) == i as nat);
    lemma_fmul_assoc(p, domain.g_coset.val(), at, fpow(p, domain.omega.val(), row as nat));
}

} // verus!
