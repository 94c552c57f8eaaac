//! What the graphs of a constraint system read: columns and challenges that there
//! are, at rows that can be computed.

use crate::field::Field;
use crate::plonk::checks::{all_rotate, all_within, Counts};
use crate::plonk::constraint_system::{GpuConstraintSystem, GpuGate};
use crate::plonk::evaluation::{rotated, row_present, sources_of};
use crate::plonk::evaluator::{
    folding, gate_polys, gates_selector_free, law_custom_gates_value, law_lookup_value,
    lookups_selector_free, Evaluator,
};
use crate::plonk::expression::GpuExpression;
use crate::plonk::graph::{
    all_selector_free, empty_graph, find, lemma_find, selector_free, zero_source, CalculationModel,
    GraphModel, ValueSource,
};
use crate::plonk::graph_entries::zero_cells;
use crate::plonk::graph_values::RuntimeScalars;
use crate::plonk::quotient::graph_present;
use crate::poly::{LagrangeCoeff, Polynomial, Rotation};
use vstd::prelude::*;

verus! {

/// Whether a source is of a column or a challenge that there is.
pub open spec fn known(s: ValueSource, counts: Counts) -> bool {
    match s {
        ValueSource::Fixed(c, _) => c < counts.fixed,
        ValueSource::Advice(c, _) => c < counts.advice,
        ValueSource::Instance(c, _) => c < counts.instance,
        ValueSource::Challenge(c) => c < counts.challenges,
        _ => true,
    }
}

/// Whether all sources of a calculation are known.
pub open spec fn all_known(c: CalculationModel, counts: Counts) -> bool {
    forall|j: int| 0 <= j < sources_of(c).len() ==> known(#[trigger] sources_of(c)[j], counts)
}

/// Whether a graph reads what there is, among columns of `n` rows.
pub open spec fn graph_reads(g: GraphModel, counts: Counts, n: int) -> bool {
    &&& forall|i: int| 0 <= i < g.rotations.len() ==> n + #[trigger] g.rotations[i] <= i32::MAX
    &&& forall|i: int|
        0 <= i < g.calculations.len() ==> all_known(#[trigger] g.calculations[i], counts)
}

/// An expression that reads columns and challenges alone is free of selectors.
pub proof fn lemma_within_selector_free<F: Field>(e: GpuExpression<F>, counts: Counts)
    requires
        e.within(counts),
    ensures
        selector_free(e),
    decreases e,
{
    match e {
        GpuExpression::Negated(a) => lemma_within_selector_free(*a, counts),
        GpuExpression::Sum(a, b) => {
            lemma_within_selector_free(*a, counts);
            lemma_within_selector_free(*b, counts);
        },
        GpuExpression::Product(a, b) => {
            lemma_within_selector_free(*a, counts);
            lemma_within_selector_free(*b, counts);
        },
        GpuExpression::Scaled(a, _) => lemma_within_selector_free(*a, counts),
        _ => {},
    }
}

proof fn lemma_all_within_selector_free<F: Field>(s: Seq<GpuExpression<F>>, counts: Counts)
    requires
        all_within(s, counts),
    ensures
        all_selector_free(s),
{
    assert forall|i: int| 0 <= i < s.len() implies selector_free(#[trigger] s[i]) by {
        lemma_within_selector_free(s[i], counts);
    }
}

proof fn lemma_calculated_reads(g: GraphModel, c: CalculationModel, counts: Counts, n: int)
    requires
        graph_reads(g, counts, n),
        all_known(c, counts),
    ensures
        graph_reads(g.calculated(c).0, counts, n),
        known(g.calculated(c).1, counts),
{
    lemma_find(g.calculations, c);
}

proof fn lemma_one(c: CalculationModel, a: ValueSource, counts: Counts)
    requires
        sources_of(c) == seq![a],
        known(a, counts),
    ensures
        all_known(c, counts),
{
}

proof fn lemma_two(c: CalculationModel, a: ValueSource, b: ValueSource, counts: Counts)
    requires
        sources_of(c) == seq![a, b],
        known(a, counts),
        known(b, counts),
    ensures
        all_known(c, counts),
{
}

proof fn lemma_cell_reads(
    g: GraphModel,
    rotation: Rotation,
    cell: spec_fn(usize) -> ValueSource,
    counts: Counts,
    n: int,
)
    requires
        graph_reads(g, counts, n),
        n + rotation.0 <= i32::MAX,
        forall|at: usize| known(#[trigger] cell(at), counts),
    ensures
        graph_reads(g.with_cell(rotation, cell).0, counts, n),
        known(g.with_cell(rotation, cell).1, counts),
{
    lemma_find(g.rotations, rotation.0);
    let h = g.with_rotation(rotation);
    let at = find(g.rotations, rotation.0) as usize;
    lemma_one(CalculationModel::Store(cell(at)), cell(at), counts);
    lemma_calculated_reads(h, CalculationModel::Store(cell(at)), counts, n);
}

/// Adding an expression to a graph that reads what there is gives such a graph.
proof fn lemma_expression_reads<F: Field>(
    g: GraphModel,
    e: GpuExpression<F>,
    counts: Counts,
    n: int,
)
    requires
        graph_reads(g, counts, n),
        e.within(counts),
        e.rotates(n),
    ensures
        graph_reads(g.with_expression(e).0, counts, n),
        known(g.with_expression(e).1, counts),
    decreases e,
{
    match e {
        GpuExpression::Constant(_) => {},
        GpuExpression::Selector(_) => {},
        GpuExpression::Fixed(query) => {
            lemma_cell_reads(
                g,
                query.rotation,
                |at: usize| ValueSource::Fixed(query.column_index, at),
                counts,
                n,
            );
        },
        GpuExpression::Advice(query) => {
            lemma_cell_reads(
                g,
                query.rotation,
                |at: usize| ValueSource::Advice(query.column_index, at),
                counts,
                n,
            );
        },
        GpuExpression::Instance(query) => {
            lemma_cell_reads(
                g,
                query.rotation,
                |at: usize| ValueSource::Instance(query.column_index, at),
                counts,
                n,
            );
        },
        GpuExpression::Challenge(challenge) => {
            let source = ValueSource::Challenge(challenge.index);
            lemma_one(CalculationModel::Store(source), source, counts);
            lemma_calculated_reads(g, CalculationModel::Store(source), counts, n);
        },
        GpuExpression::Negated(a) => match *a {
            GpuExpression::Constant(_) => {},
            _ => {
                lemma_expression_reads(g, *a, counts, n);
                let (h, x) = g.with_expression(*a);
                lemma_one(CalculationModel::Negate(x), x, counts);
                lemma_calculated_reads(h, CalculationModel::Negate(x), counts, n);
            },
        },
        GpuExpression::Sum(a, b) => {
            lemma_expression_reads(g, *a, counts, n);
            let (h, x) = g.with_expression(*a);
            assert(b.within(counts) && b.rotates(n));
            match *b {
                GpuExpression::Negated(c) => {
                    lemma_expression_reads(h, *c, counts, n);
                    let (k, y) = h.with_expression(*c);
                    lemma_one(CalculationModel::Negate(y), y, counts);
                    lemma_two(CalculationModel::Sub(x, y), x, y, counts);
                    lemma_calculated_reads(k, CalculationModel::Negate(y), counts, n);
                    lemma_calculated_reads(k, CalculationModel::Sub(x, y), counts, n);
                },
                _ => {
                    lemma_expression_reads(h, *b, counts, n);
                    let (k, y) = h.with_expression(*b);
                    lemma_two(CalculationModel::Add(x, y), x, y, counts);
                    lemma_two(CalculationModel::Add(y, x), y, x, counts);
                    lemma_calculated_reads(k, CalculationModel::Add(x, y), counts, n);
                    lemma_calculated_reads(k, CalculationModel::Add(y, x), counts, n);
                },
            }
        },
        GpuExpression::Product(a, b) => {
            lemma_expression_reads(g, *a, counts, n);
            let (h, x) = g.with_expression(*a);
            lemma_expression_reads(h, *b, counts, n);
            let (k, y) = h.with_expression(*b);
            lemma_one(CalculationModel::Double(x), x, counts);
            lemma_one(CalculationModel::Double(y), y, counts);
            lemma_one(CalculationModel::Square(x), x, counts);
            lemma_two(CalculationModel::Mul(x, y), x, y, counts);
            lemma_two(CalculationModel::Mul(y, x), y, x, counts);
            lemma_calculated_reads(k, CalculationModel::Double(x), counts, n);
            lemma_calculated_reads(k, CalculationModel::Double(y), counts, n);
            lemma_calculated_reads(k, CalculationModel::Square(x), counts, n);
            lemma_calculated_reads(k, CalculationModel::Mul(x, y), counts, n);
            lemma_calculated_reads(k, CalculationModel::Mul(y, x), counts, n);
        },
        GpuExpression::Scaled(a, f) => {
            lemma_expression_reads(g, *a, counts, n);
            let h = g.with_constant(f.val());
            lemma_expression_reads(h, *a, counts, n);
            let (k, x) = h.with_expression(*a);
            let y = g.constant(f.val());
            lemma_two(CalculationModel::Mul(x, y), x, y, counts);
            lemma_calculated_reads(k, CalculationModel::Mul(x, y), counts, n);
        },
    }
}

proof fn lemma_expressions_read<F: Field>(
    g: GraphModel,
    s: Seq<GpuExpression<F>>,
    counts: Counts,
    n: int,
)
    requires
        graph_reads(g, counts, n),
        all_within(s, counts),
        all_rotate(s, n),
    ensures
        graph_reads(g.with_expressions(s).0, counts, n),
        g.with_expressions(s).1.len() == s.len(),
        forall|i: int|
            0 <= i < s.len() ==> known(#[trigger] g.with_expressions(s).1[i], counts),
    decreases s.len(),
{
    if s.len() > 0 {
        let front = s.drop_last();
        assert forall|i: int| 0 <= i < front.len() implies (#[trigger] front[i]).within(counts) by {
            assert(s[i].within(counts));
        }
        assert forall|i: int| 0 <= i < front.len() implies (#[trigger] front[i]).rotates(n) by {
            assert(s[i].rotates(n));
        }
        lemma_expressions_read(g, front, counts, n);
        assert(s[s.len() - 1].within(counts) && s[s.len() - 1].rotates(n));
        lemma_expression_reads(g.with_expressions(front).0, s.last(), counts, n);
    }
}

proof fn lemma_folding_reads<F: Field>(
    g: GraphModel,
    s: Seq<GpuExpression<F>>,
    start: ValueSource,
    factor: ValueSource,
    counts: Counts,
    n: int,
)
    requires
        graph_reads(g, counts, n),
        all_within(s, counts),
        all_rotate(s, n),
        known(start, counts),
        known(factor, counts),
    ensures
        graph_reads(folding(g, s, start, factor).0, counts, n),
        known(folding(g, s, start, factor).1, counts),
{
    lemma_expressions_read(g, s, counts, n);
    let (h, parts) = g.with_expressions(s);
    let c = CalculationModel::Horner(start, parts, factor);
    assert forall|j: int| 0 <= j < sources_of(c).len() implies known(
        #[trigger] sources_of(c)[j],
        counts,
    ) by {
        if j >= 2 {
            assert(sources_of(c)[j] == parts[j - 2]);
        }
    }
    lemma_calculated_reads(h, c, counts, n);
}

/// A sound graph that reads what there is has all that it reads.
proof fn lemma_graph_present(g: GraphModel, counts: Counts, n: int)
    requires
        g.sound(),
        graph_reads(g, counts, n),
    ensures
        graph_present(
            g,
            counts.fixed as nat,
            counts.advice as nat,
            counts.instance as nat,
            counts.challenges as nat,
            n,
        ),
{
    assert forall|i: int, j: int|
        0 <= i < g.calculations.len() && 0 <= j < sources_of(
            g.calculations[i],
        ).len() implies g.valid(#[trigger] sources_of(g.calculations[i])[j], i as nat) && known(
        sources_of(g.calculations[i])[j],
        counts,
    ) by {
        let c = g.calculations[i];
        assert(all_known(c, counts));
        assert(g.valid_calculation(c, i as nat));
        if let CalculationModel::Horner(start, parts, factor) = c {
            if j >= 2 {
                assert(sources_of(c)[j] == parts[j - 2]);
            }
        }
    }
}

proof fn lemma_gate_polys_within<F: Field>(gates: Seq<GpuGate<F>>, counts: Counts, n: int)
    requires
        forall|i: int| 0 <= i < gates.len() ==> all_within((#[trigger] gates[i]).polys@, counts),
        forall|i: int| 0 <= i < gates.len() ==> all_rotate((#[trigger] gates[i]).polys@, n),
    ensures
        all_within(gate_polys(gates), counts),
        all_rotate(gate_polys(gates), n),
    decreases gates.len(),
{
    if gates.len() > 0 {
        let front = gates.drop_last();
        assert forall|i: int| 0 <= i < front.len() implies all_within(
            (#[trigger] front[i]).polys@,
            counts,
        ) && all_rotate(front[i].polys@, n) by {
            assert(front[i] == gates[i]);
        }
        lemma_gate_polys_within(front, counts, n);
        let last = gates[gates.len() - 1].polys@;
        assert(all_within(last, counts) && all_rotate(last, n));
        let all = gate_polys(gates);
        assert(all == gate_polys(front) + last);
        assert forall|i: int| 0 <= i < all.len() implies (#[trigger] all[i]).within(counts)
            && all[i].rotates(n) by {
            if i < gate_polys(front).len() {
                assert(all[i] == gate_polys(front)[i]);
            } else {
                assert(all[i] == last[i - gate_polys(front).len()]);
            }
        }
    }
}

/// The gates and lookups of a closed constraint system are free of selectors.
pub proof fn lemma_closed_selector_free<F: Field>(cs: GpuConstraintSystem<F>)
    requires
        cs.closed(),
    ensures
        gates_selector_free(cs.gates@),
        lookups_selector_free(cs.lookups@),
{
    assert forall|i: int| 0 <= i < cs.gates@.len() implies all_selector_free(
        (#[trigger] cs.gates@[i]).polys@,
    ) by {
        lemma_all_within_selector_free(cs.gates@[i].polys@, cs.spec_counts());
    }
    assert forall|k: int| 0 <= k < cs.lookups@.len() implies all_selector_free(
        (#[trigger] cs.lookups@[k]).input_expressions@,
    ) && all_selector_free(cs.lookups@[k].table_expressions@) by {
        lemma_all_within_selector_free(cs.lookups@[k].input_expressions@, cs.spec_counts());
        lemma_all_within_selector_free(cs.lookups@[k].table_expressions@, cs.spec_counts());
    }
}

/// The graphs of a closed constraint system read columns and challenges that there
/// are, at rows that can be computed.
pub proof fn law_graphs_read_what_there_is<F: Field>(
    cs: GpuConstraintSystem<F>,
    evaluator: Evaluator<F>,
    n: int,
)
    requires
        cs.closed(),
        cs.rotates(n),
        evaluator.evaluates(cs.gates@, cs.lookups@),
    ensures
        graph_present(
            evaluator.custom_gates@,
            cs.num_fixed_columns as nat,
            cs.num_advice_columns as nat,
            cs.num_instance_columns as nat,
            cs.num_challenges as nat,
            n,
        ),
        forall|k: int|
            0 <= k < evaluator.lookups@.len() ==> graph_present(
                (#[trigger] evaluator.lookups@[k])@,
                cs.num_fixed_columns as nat,
                cs.num_advice_columns as nat,
                cs.num_instance_columns as nat,
                cs.num_challenges as nat,
                n,
            ),
{
    let counts = cs.spec_counts();
    let scalars = RuntimeScalars { beta: 0, gamma: 0, theta: 0, y: 0, previous: 0 };
    F::lemma_modulus();
    lemma_closed_selector_free(cs);
    lemma_gate_polys_within(cs.gates@, counts, n);
    lemma_all_within_selector_free(gate_polys(cs.gates@), counts);
    let g = evaluator.custom_gates;
    assert(g.constants.len() <= usize::MAX && g.rotations.len() <= usize::MAX
        && g.calculations.len() <= usize::MAX);
    assert(g@.fits());
    law_custom_gates_value(cs.gates@, zero_cells(), scalars);
    lemma_folding_reads(
        empty_graph(),
        gate_polys(cs.gates@),
        ValueSource::PreviousValue(),
        ValueSource::Y(),
        counts,
        n,
    );
    lemma_graph_present(g@, counts, n);
    assert forall|k: int| 0 <= k < evaluator.lookups@.len() implies graph_present(
        (#[trigger] evaluator.lookups@[k])@,
        cs.num_fixed_columns as nat,
        cs.num_advice_columns as nat,
        cs.num_instance_columns as nat,
        cs.num_challenges as nat,
        n,
    ) by {
        let l = evaluator.lookups@[k];
        assert(l.constants.len() <= usize::MAX && l.rotations.len() <= usize::MAX
            && l.calculations.len() <= usize::MAX);
        assert(l@.fits());
        let inputs = cs.lookups@[k].input_expressions@;
        let tables = cs.lookups@[k].table_expressions@;
        assert(all_within(inputs, counts) && all_within(tables, counts));
        assert(all_rotate(inputs, n) && all_rotate(tables, n));
        lemma_all_within_selector_free(inputs, counts);
        lemma_all_within_selector_free(tables, counts);
        law_lookup_value(inputs, tables, zero_cells(), scalars);
        let g0 = empty_graph();
        lemma_folding_reads(g0, inputs, zero_source(), ValueSource::Theta(), counts, n);
        let (g1, input) = folding(g0, inputs, zero_source(), ValueSource::Theta());
        lemma_folding_reads(g1, tables, zero_source(), ValueSource::Theta(), counts, n);
        let (g2, table) = folding(g1, tables, zero_source(), ValueSource::Theta());
        let c3 = CalculationModel::Add(table, ValueSource::Gamma());
        lemma_two(c3, table, ValueSource::Gamma(), counts);
        lemma_calculated_reads(g2, c3, counts, n);
        let (g3, right) = g2.calculated(c3);
        let c4 = CalculationModel::Add(input, ValueSource::Beta());
        lemma_two(c4, input, ValueSource::Beta(), counts);
        lemma_calculated_reads(g3, c4, counts, n);
        let (g4, left) = g3.calculated(c4);
        let c5 = CalculationModel::Mul(left, right);
        lemma_two(c5, left, right, counts);
        lemma_calculated_reads(g4, c5, counts, n);
        lemma_graph_present(l@, counts, n);
    }
}

/// Whether there are as many columns, of `n` rows each.
pub open spec fn columns_fill<F: Field>(
    s: Seq<Polynomial<F, LagrangeCoeff>>,
    count: usize,
    n: nat,
) -> bool {
    &&& s.len() == count
    &&& forall|c: int| 0 <= c < s.len() ==> (#[trigger] s[c])@.len() == n
}

/// All that an expression reads in a row is there.
proof fn lemma_row_present<F: Field>(
    e: GpuExpression<F>,
    counts: Counts,
    fixed: Seq<Polynomial<F, LagrangeCoeff>>,
    advice: Seq<Polynomial<F, LagrangeCoeff>>,
    instance: Seq<Polynomial<F, LagrangeCoeff>>,
    challenges: Seq<F>,
    row: usize,
    n: usize,
)
    requires
        e.within(counts),
        e.rotates(n as int),
        0 < n <= i32::MAX,
        row < n,
        columns_fill(fixed, counts.fixed, n as nat),
        columns_fill(advice, counts.advice, n as nat),
        columns_fill(instance, counts.instance, n as nat),
        challenges.len() == counts.challenges,
    ensures
        row_present(e, fixed, advice, instance, challenges, row, 1, n as i32),
    decreases e,
{
    match e {
        GpuExpression::Fixed(q) => {
            assert(fixed[q.column_index as int]@.len() == n);
            assert(0 <= rotated(row, q.rotation.0, 1, n as i32) < n);
        },
        GpuExpression::Advice(q) => {
            assert(advice[q.column_index as int]@.len() == n);
            assert(0 <= rotated(row, q.rotation.0, 1, n as i32) < n);
        },
        GpuExpression::Instance(q) => {
            assert(instance[q.column_index as int]@.len() == n);
            assert(0 <= rotated(row, q.rotation.0, 1, n as i32) < n);
        },
        GpuExpression::Negated(a) => {
            lemma_row_present(*a, counts, fixed, advice, instance, challenges, row, n);
        },
        GpuExpression::Sum(a, b) => {
            lemma_row_present(*a, counts, fixed, advice, instance, challenges, row, n);
            lemma_row_present(*b, counts, fixed, advice, instance, challenges, row, n);
        },
        GpuExpression::Product(a, b) => {
            lemma_row_present(*a, counts, fixed, advice, instance, challenges, row, n);
            lemma_row_present(*b, counts, fixed, advice, instance, challenges, row, n);
        },
        GpuExpression::Scaled(a, _) => {
            lemma_row_present(*a, counts, fixed, advice, instance, challenges, row, n);
        },
        _ => {},
    }
}

/// All that a lookup of a closed constraint system reads is there, where all
/// columns and challenges are.
pub proof fn lemma_lookup_present<F: Field>(
    cs: GpuConstraintSystem<F>,
    l: int,
    fixed: Seq<Polynomial<F, LagrangeCoeff>>,
    advice: Seq<Polynomial<F, LagrangeCoeff>>,
    instance: Seq<Polynomial<F, LagrangeCoeff>>,
    challenges: Seq<F>,
    n: usize,
)
    requires
        cs.closed(),
        cs.rotates(n as int),
        0 <= l < cs.lookups@.len(),
        0 < n <= i32::MAX,
        columns_fill(fixed, cs.num_fixed_columns, n as nat),
        columns_fill(advice, cs.num_advice_columns, n as nat),
        columns_fill(instance, cs.num_instance_columns, n as nat),
        challenges.len() == cs.num_challenges,
    ensures
        cs.lookups@[l].present(fixed, advice, instance, challenges, n),
{
    let counts = cs.spec_counts();
    let argument = cs.lookups@[l];
    assert(all_within(argument.input_expressions@, counts));
    assert(all_within(argument.table_expressions@, counts));
    assert(all_rotate(argument.input_expressions@, n as int));
    assert(all_rotate(argument.table_expressions@, n as int));
    assert forall|e: int, row: usize|
        0 <= e < argument.input_expressions@.len() && row < n implies #[trigger] row_present(
        argument.input_expressions@[e],
        fixed,
        advice,
        instance,
        challenges,
        row,
        1,
        n as i32,
    ) by {
        assert(argument.input_expressions@[e].within(counts));
        assert(argument.input_expressions@[e].rotates(n as int));
        lemma_row_present(
            argument.input_expressions@[e],
            counts,
            fixed,
            advice,
            instance,
            challenges,
            row,
            n,
        );
    }
    assert forall|e: int, row: usize|
        0 <= e < argument.table_expressions@.len() && row < n implies #[trigger] row_present(
        argument.table_expressions@[e],
        fixed,
        advice,
        instance,
        challenges,
        row,
        1,
        n as i32,
    ) by {
        assert(argument.table_expressions@[e].within(counts));
        assert(argument.table_expressions@[e].rotates(n as int));
        lemma_row_present(
            argument.table_expressions@[e],
            counts,
            fixed,
            advice,
            instance,
            challenges,
            row,
            n,
        );
    }
}

} // verus!
