//! The constraints that a proof is about, in ordinary arithmetic and in their order.

use crate::field::{
    fadd, fmul, fpow, fsub, lemma_mod_add_left, lemma_mod_add_right, lemma_mod_mul_left,
    lemma_mod_mul_right, Field,
};
use crate::plonk::circuit::{GpuAny, GpuColumn};
use crate::plonk::constraint_system::GpuGate;
use crate::plonk::constraints::{
    bound_to, permuted_columns, spread, LookupColumns, PermutationColumns,
};
use crate::plonk::evaluation::rotated;
use crate::plonk::evaluator::{gate_polys, values_of};
use crate::plonk::expression::{CellValues, GpuExpression};
use crate::plonk::graph::GraphModel;
use crate::plonk::graph_values::horner;
use crate::plonk::permutation::keygen::label;
use crate::plonk::permutation::prover::{chunk_start, product_column, ProductInputs};
use crate::plonk::quotient::{first_label, CircuitColumns};
use vstd::prelude::*;

verus! {

/// Folding goes from the first value to the last: what has been folded is multiplied by
/// the factor, and the next value is added. Folding two lists one after the other is
/// folding both.
pub proof fn law_folding(p: int, start: int, a: Seq<int>, b: Seq<int>, value: int, factor: int)
    requires
        p > 0,
    ensures
        horner(p, start, Seq::empty(), factor) == start,
        horner(p, start, seq![value], factor) == (start * factor + value) % p,
        horner(p, start, a + b, factor) == horner(p, horner(p, start, a, factor), b, factor),
    decreases b.len(),
{
    let one = seq![value];
    assert(one.drop_last() =~= Seq::empty());
    assert(horner(p, start, one.drop_last(), factor) == start);
    lemma_mod_add_left(p, start * factor, value);
    if b.len() == 0 {
        assert(a + b =~= a);
    } else {
        law_folding(p, start, a, b.drop_last(), value, factor);
        assert((a + b).drop_last() =~= a + b.drop_last());
    }
}

/// `(a - b) c` modulo `p`.
proof fn lemma_difference_times(p: int, a: int, b: int, c: int)
    requires
        p > 0,
    ensures
        fmul(p, fsub(p, a, b), c) == ((a - b) * c) % p,
{
    lemma_mod_mul_left(p, a - b, c);
}

/// The constraints of a lookup in a row: its product starts at one and ends in zero or
/// one; goes on by the factor of the row; and the permuted inputs begin as the permuted
/// table does, and repeat the one before or agree with the table.
pub proof fn law_lookup_constraints(c: LookupColumns, p: int, i: usize, pair: int)
    requires
        p > 0,
    ensures
        ({
            let t = c.terms(p, i, pair);
            let z = c.product[i as int];
            let next = c.product[(i + 1) % (c.size as int)];
            let a = c.permuted_input[i as int];
            let before = c.permuted_input[(i - 1) % (c.size as int)];
            let s = c.permuted_table[i as int];
            let (l0, l_last, l_active) = (
                c.l0[i as int],
                c.l_last[i as int],
                c.l_active[i as int],
            );
            &&& t.len() == 5
            &&& t[0] == ((1 - z) * l0) % p
            &&& t[1] == ((z * z - z) * l_last) % p
            &&& t[2] == ((next * (a + c.beta) * (s + c.gamma) - z * pair) * l_active) % p
            &&& t[3] == ((a - s) * l0) % p
            &&& t[4] == ((a - s) * (a - before) * l_active) % p
        }),
{
    let z = c.product[i as int];
    let next = c.product[rotated(i, 1, 1, c.size)];
    let a = c.permuted_input[i as int];
    let before = c.permuted_input[rotated(i, -1i32, 1, c.size)];
    let s = c.permuted_table[i as int];
    let (l0, l_last, l_active) = (c.l0[i as int], c.l_last[i as int], c.l_active[i as int]);
    lemma_difference_times(p, 1, z, l0);
    // (z z mod p - z) l_last
    lemma_mod_add_left(p, z * z, -z);
    lemma_mod_mul_left(p, z * z - z, l_last);
    // next (a + beta) (s + gamma)
    lemma_mod_mul_right(p, next, a + c.beta);
    let f = next * (a + c.beta);
    lemma_mod_mul_left(p, f, fadd(p, s, c.gamma));
    lemma_mod_mul_right(p, f, s + c.gamma);
    let g = f * (s + c.gamma);
    lemma_mod_add_left(p, g, -((z * pair) % p));
    lemma_mod_sub(p, g, z * pair);
    lemma_mod_mul_left(p, g - z * pair, l_active);
    lemma_difference_times(p, a, s, l0);
    lemma_mod_mul_left(p, a - s, fsub(p, a, before));
    lemma_mod_mul_right(p, a - s, a - before);
    lemma_mod_mul_left(p, (a - s) * (a - before), l_active);
}

proof fn lemma_mod_sub(p: int, a: int, b: int)
    requires
        p > 0,
    ensures
        (a - b % p) % p == (a - b) % p,
{
    vstd::arithmetic::div_mod::lemma_sub_mod_noop(a, b, p);
    vstd::arithmetic::div_mod::lemma_sub_mod_noop(a, b % p, p);
    vstd::arithmetic::div_mod::lemma_mod_twice(b, p);
}

/// The constraints of the permutation argument in a row, in their order: the first product
/// starts at one, the last ends in zero or one, each but the first starts where the one
/// before it has its last value, and each goes on by the factor of the row.
pub proof fn law_permutation_constraints(
    c: PermutationColumns,
    p: int,
    i: usize,
    start: int,
    k: int,
)
    requires
        p > 0,
        c.products.len() > 0,
    ensures
        ({
            let t = c.terms(p, i, start);
            let n = c.products.len();
            let first = c.products[0][i as int];
            let last = c.products[n - 1][i as int];
            &&& t.len() == 2 * n + 1
            &&& t[0] == ((1 - first) * c.l0[i as int]) % p
            &&& t[1] == ((last * last - last) * c.l_last[i as int]) % p
            &&& 0 <= k < n - 1 ==> t[2 + k] == ((c.products[k + 1][i as int] - c.products[k][(i
                + c.last) % (c.size as int)]) * c.l0[i as int]) % p
            &&& 0 <= k < n ==> t[1 + n + k] == ((bound_to(
                p,
                c.products[k][(i + 1) % (c.size as int)],
                c.chunk_row(c.columns, k, i as int),
                c.chunk_row(c.sigmas, k, i as int),
                c.beta,
                c.gamma,
            ) - spread(
                p,
                c.products[k][i as int],
                c.chunk_row(c.columns, k, i as int),
                chunk_start(c.columns.len(), c.chunk_len, k as nat),
                start,
                c.delta,
                c.gamma,
            )) * c.l_active[i as int]) % p
        }),
{
    let n = c.products.len();
    let first = c.products[0][i as int];
    let last = c.products[n - 1][i as int];
    lemma_difference_times(p, 1, first, c.l0[i as int]);
    lemma_mod_add_left(p, last * last, -last);
    lemma_mod_mul_left(p, last * last - last, c.l_last[i as int]);
    assert(c.last * 1 == c.last);
    if 0 <= k < n - 1 {
        lemma_difference_times(
            p,
            c.products[k + 1][i as int],
            c.products[k][rotated(i, c.last, 1, c.size)],
            c.l0[i as int],
        );
        assert(c.terms(p, i, start)[2 + k] == c.chained(p, i, k));
    }
    if 0 <= k < n {
        lemma_difference_times(
            p,
            bound_to(
                p,
                c.products[k][rotated(i, 1, 1, c.size)],
                c.chunk_row(c.columns, k, i as int),
                c.chunk_row(c.sigmas, k, i as int),
                c.beta,
                c.gamma,
            ),
            spread(
                p,
                c.products[k][i as int],
                c.chunk_row(c.columns, k, i as int),
                chunk_start(c.columns.len(), c.chunk_len, k as nat),
                start,
                c.delta,
                c.gamma,
            ),
            c.l_active[i as int],
        );
        assert(c.terms(p, i, start)[1 + n + k] == c.goes_on(p, i, start, k));
    }
}

/// What a product is multiplied by in a row: on one side a cell with `beta` times the label
/// that the permutation gives it and `gamma`, on the other a cell with `beta` times its
/// own label, which is the first one's times the power of `delta` of its column, and
/// `gamma`; cell by cell.
pub proof fn law_permutation_factors(
    p: int,
    z: int,
    values: Seq<int>,
    labels: Seq<int>,
    value: int,
    label: int,
    first: nat,
    start: int,
    delta: int,
    beta: int,
    gamma: int,
)
    requires
        p > 0,
        values.len() == labels.len(),
    ensures
        bound_to(p, z, Seq::empty(), Seq::empty(), beta, gamma) == z,
        bound_to(p, z, values.push(value), labels.push(label), beta, gamma) == (bound_to(
            p,
            z,
            values,
            labels,
            beta,
            gamma,
        ) * (value + beta * label + gamma)) % p,
        spread(p, z, Seq::empty(), first, start, delta, gamma) == z,
        spread(p, z, values.push(value), first, start, delta, gamma) == (spread(
            p,
            z,
            values,
            first,
            start,
            delta,
            gamma,
        ) * (value + start * fpow(p, delta, first + values.len()) + gamma)) % p,
{
    assert(values.push(value).drop_last() =~= values);
    assert(labels.push(label).drop_last() =~= labels);
    let a = bound_to(p, z, values, labels, beta, gamma);
    lemma_mod_add_right(p, value, beta * label);
    lemma_mod_add_left(p, value + beta * label, gamma);
    lemma_mod_mul_right(p, a, value + beta * label + gamma);
    let b = spread(p, z, values, first, start, delta, gamma);
    let own = start * fpow(p, delta, first + values.len());
    lemma_mod_add_right(p, value, own);
    lemma_mod_add_left(p, value + own, gamma);
    lemma_mod_mul_right(p, b, value + own + gamma);
}

/// The columns of a set: as many as fit, one set after another.
pub proof fn law_sets_of_columns(c: PermutationColumns, x: ProductInputs, k: nat, i: int, j: int)
    requires
        c.chunk_len > 0,
        x.chunk_len == c.chunk_len,
        x.columns == c.columns,
        k * c.chunk_len <= c.columns.len(),
    ensures
        chunk_start(c.columns.len(), c.chunk_len, k) == k * c.chunk_len,
        ({
            let row = c.chunk_row(c.columns, k as int, i);
            let chunk = x.chunk(x.columns, k);
            &&& row.len() == chunk.len()
            &&& row.len() == (if (k + 1) * c.chunk_len <= c.columns.len() {
                c.chunk_len as int
            } else {
                c.columns.len() - k * c.chunk_len
            })
            &&& 0 <= j < row.len() ==> row[j] == c.columns[k * c.chunk_len + j][i] && chunk[j]
                == c.columns[k * c.chunk_len + j]
        }),
{
    assert((k + 1) * c.chunk_len == k * c.chunk_len + c.chunk_len) by (nonlinear_arith);
}

/// Which column a permuted column is.
pub proof fn law_permuted_columns(
    columns: Seq<GpuColumn<GpuAny>>,
    advice: Seq<Seq<int>>,
    fixed: Seq<Seq<int>>,
    instance: Seq<Seq<int>>,
    j: int,
)
    requires
        0 <= j < columns.len(),
    ensures
        permuted_columns(columns, advice, fixed, instance).len() == columns.len(),
        columns[j].column_type is Advice ==> permuted_columns(columns, advice, fixed, instance)[j]
            == advice[columns[j].index as int],
        columns[j].column_type is Fixed ==> permuted_columns(columns, advice, fixed, instance)[j]
            == fixed[columns[j].index as int],
        columns[j].column_type is Instance ==> permuted_columns(
            columns,
            advice,
            fixed,
            instance,
        )[j] == instance[columns[j].index as int],
{
}

/// A product column starts where it is told, is multiplied by the factor of each row on
/// the way to the next, and ends in the random values.
pub proof fn law_product_rows(
    p: int,
    factors: Seq<int>,
    start: int,
    len: nat,
    blinds: Seq<int>,
    i: int,
)
    requires
        len > 0,
    ensures
        ({
            let z = product_column(p, factors, start, len, blinds);
            &&& z.len() == len + blinds.len()
            &&& z[0] == start
            &&& 0 <= i < len - 1 ==> z[i + 1] == (z[i] * factors[i]) % p
            &&& 0 <= i < blinds.len() ==> z[len + i] == blinds[i]
        }),
{
}

/// The products of the permutation argument are chained: the first starts at one, and each
/// of the others where the one before has its last value, in the row behind the usable
/// ones.
pub proof fn law_products_are_chained(x: ProductInputs, p: int, c: nat)
    requires
        x.acc_len > 0,
    ensures
        x.product(p, 0)[0] == 1,
        x.product(p, c + 1)[0] == x.product(p, c)[x.acc_len - 1],
        x.product(p, c).len() == x.acc_len + x.blinds[c as int].len(),
{
}

/// The label of a cell: `delta` to the power of its column, times `omega` to the power of
/// its row.
pub proof fn law_labels<F: Field>(omega: int, column: usize, row: usize)
    ensures
        label::<F>(omega, (column, row)) == (fpow(F::modulus(), F::delta_val(), column as nat)
            * fpow(F::modulus(), omega, row as nat)) % F::modulus(),
{
    let a = fpow(F::modulus(), F::delta_val(), column as nat);
    let b = fpow(F::modulus(), omega, row as nat);
    assert(a * b == b * a) by (nonlinear_arith);
}

/// The label of the first column's cell in a row of a part of the coset, times `beta`: the
/// point of the row is the shift of the coset, times that of the part, times `omega` to the
/// power of the row.
pub proof fn law_first_labels<F: Field>(beta: int, shift: int, omega: int, i: nat)
    ensures
        first_label::<F>(beta, shift, omega, i) == (beta * F::zeta_val() * (shift * fpow(
            F::modulus(),
            omega,
            i,
        ))) % F::modulus(),
{
    let p = F::modulus();
    F::lemma_modulus();
    let w = shift * fpow(p, omega, i);
    lemma_mod_mul_left(p, beta * F::zeta_val(), w % p);
    lemma_mod_mul_right(p, beta * F::zeta_val(), w);
}

proof fn lemma_lookups_terms_at(
    columns: CircuitColumns,
    p: int,
    graphs: Seq<GraphModel>,
    n: nat,
    i: usize,
    k: int,
    j: int,
)
    requires
        0 <= k < n,
        0 <= j < 5,
    ensures
        columns.lookups_terms(p, graphs, n, i).len() == 5 * n,
        columns.lookups_terms(p, graphs, n, i)[5 * k + j] == columns.lookup_terms(
            p,
            graphs[k],
            k,
            i,
        )[j],
    decreases n,
{
    if n == 1 {
        assert(columns.lookups_terms(p, graphs, 0, i).len() == 0);
    } else if k < n - 1 {
        lemma_lookups_terms_at(columns, p, graphs, (n - 1) as nat, i, k, j);
    } else {
        lemma_lookups_terms_at(columns, p, graphs, (n - 1) as nat, i, 0, j);
    }
}

/// The order of all constraints of a circuit: those of the permutation argument and then
/// those of one lookup after another are folded into the value of the gates.
pub proof fn law_constraints_in_order<F: Field>(
    columns: CircuitColumns,
    gates: GraphModel,
    graphs: Seq<GraphModel>,
    i: usize,
    previous: int,
    start: int,
    k: int,
    j: int,
)
    ensures
        ({
            let p = F::modulus();
            let n = columns.lookups.len();
            let terms = columns.permutation_terms::<F>(i, start);
            let lookups = columns.lookups_terms(p, graphs, n, i);
            &&& columns.row_value::<F>(gates, graphs, i, previous, start) == horner(
                p,
                gates.value(p, columns.cells(i), columns.scalars(previous)),
                terms + lookups,
                columns.y,
            )
            &&& lookups.len() == 5 * n
            &&& 0 <= k < n && 0 <= j < 5 ==> (terms + lookups)[terms.len() + 5 * k + j]
                == columns.lookup_terms(p, graphs[k], k, i)[j]
        }),
{
    let p = F::modulus();
    F::lemma_modulus();
    let n = columns.lookups.len();
    let terms = columns.permutation_terms::<F>(i, start);
    let lookups = columns.lookups_terms(p, graphs, n, i);
    law_folding(
        p,
        gates.value(p, columns.cells(i), columns.scalars(previous)),
        terms,
        lookups,
        0,
        columns.y,
    );
    if n > 0 {
        lemma_lookups_terms_at(columns, p, graphs, n, i, 0, 0);
    }
    if 0 <= k < n && 0 <= j < 5 {
        lemma_lookups_terms_at(columns, p, graphs, n, i, k, j);
    }
}

/// The polynomials of gates come gate by gate, and each gate's in its order.
pub proof fn law_gates_in_order<F: Field>(
    gates: Seq<GpuGate<F>>,
    more: Seq<GpuGate<F>>,
    gate: GpuGate<F>,
    s: Seq<GpuExpression<F>>,
    cells: CellValues,
    i: int,
)
    ensures
        gate_polys(Seq::<GpuGate<F>>::empty()) == Seq::<GpuExpression<F>>::empty(),
        gate_polys(seq![gate]) == gate.polys@,
        gate_polys(gates + more) == gate_polys(gates) + gate_polys(more),
        values_of(s, cells).len() == s.len(),
        0 <= i < s.len() ==> values_of(s, cells)[i] == s[i].value(cells),
    decreases more.len(),
{
    let one = seq![gate];
    assert(one.drop_last() =~= Seq::<GpuGate<F>>::empty());
    assert(gate_polys(one.drop_last()) =~= Seq::<GpuExpression<F>>::empty());
    assert(gate_polys(one) =~= gate.polys@);
    if more.len() == 0 {
        assert(gates + more =~= gates);
        assert(gate_polys(gates) + gate_polys(more) =~= gate_polys(gates));
    } else {
        law_gates_in_order(gates, more.drop_last(), gate, s, cells, i);
        assert((gates + more).drop_last() =~= gates + more.drop_last());
        assert(gate_polys(gates + more) =~= gate_polys(gates) + gate_polys(more));
    }
}

} // verus!
