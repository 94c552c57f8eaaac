//! What the relations between systems, columns and lists come to, cell by cell.

use crate::field::{vals, Field};
use crate::plonk::lookup;
use crate::plonk::circuit::{GpuAny, GpuColumn, GpuFixed, GpuInstance, GpuSelector, Phase};
use crate::plonk::compress_selectors::{combinations, is_place, switched_degree};
use crate::plonk::constraint_system::{GpuConstraint, GpuConstraintSystem};
use crate::plonk::conversion::{law_new_columns_are_read, law_replacing_keeps_values};
use crate::plonk::evaluation::{cells_at, source_value};
use crate::plonk::evaluator::{gate_polys, values_of};
use crate::plonk::expression::{CellValues, GpuExpression};
use crate::plonk::gates::{gate_added, is_gate, joined, lookup_added, polys_of, registered_in};
use crate::plonk::graph::ValueSource;
use crate::plonk::graph_values::{horner, RuntimeScalars};
use crate::plonk::keygen::sets_cell;
use crate::plonk::proving::{Columns, ProofKey};
use crate::plonk::queries::with_queries;
use crate::plonk::registering::{law_queries_in_turn, law_registering_keeps_values};
use crate::plonk::selectors::{are_queries, is_indicator};
use crate::plonk::virtual_cells::GpuVirtualCells;
use crate::plonk::witness::{in_phase, law_phase_members};
use crate::poly::{LagrangeCoeff, Polynomial, Rotation};
use crate::poly::arithmetic::{poly_add, poly_eval, poly_scale, poly_sub, poly_zero};
use crate::poly::point_sets::{eval_of, OpeningQuery};
use crate::poly::shplonk::interpolates;
use vstd::prelude::*;

verus! {

/// What a source reads.
pub proof fn law_sources_read<F: Field, B>(
    rows: Seq<usize>,
    constants: Seq<F>,
    intermediates: Seq<F>,
    fixed: Seq<Polynomial<F, B>>,
    advice: Seq<Polynomial<F, B>>,
    instance: Seq<Polynomial<F, B>>,
    challenges: Seq<F>,
    scalars: RuntimeScalars,
    i: usize,
    at: usize,
)
    ensures
        ({
            let read = |s: ValueSource|
                source_value(
                    s,
                    rows,
                    constants,
                    intermediates,
                    fixed,
                    advice,
                    instance,
                    challenges,
                    scalars,
                );
            &&& read(ValueSource::Constant(i)) == constants[i as int].val()
            &&& read(ValueSource::Intermediate(i)) == intermediates[i as int].val()
            &&& read(ValueSource::Fixed(i, at)) == fixed[i as int]@[rows[at as int] as int].val()
            &&& read(ValueSource::Advice(i, at)) == advice[i as int]@[rows[at as int] as int].val()
            &&& read(ValueSource::Instance(i, at)) == instance[i as int]@[rows[at as int]
                as int].val()
            &&& read(ValueSource::Challenge(i)) == challenges[i as int].val()
            &&& read(ValueSource::Beta()) == scalars.beta
            &&& read(ValueSource::Gamma()) == scalars.gamma
            &&& read(ValueSource::Theta()) == scalars.theta
            &&& read(ValueSource::Y()) == scalars.y
            &&& read(ValueSource::PreviousValue()) == scalars.previous
        }),
{
}

/// A query reads the row that its rotation leads to, times the scale, around the end of
/// the column.
pub proof fn law_queries_read_rows<F: Field, B>(
    fixed: Seq<Polynomial<F, B>>,
    advice: Seq<Polynomial<F, B>>,
    instance: Seq<Polynomial<F, B>>,
    challenges: Seq<F>,
    row: usize,
    scale: i32,
    size: i32,
    c: usize,
    at: Rotation,
)
    requires
        size > 0,
    ensures
        ({
            let cells = cells_at(fixed, advice, instance, challenges, row, scale, size);
            let i = (row + at.0 * scale) % (size as int);
            &&& c < fixed.len() && fixed[c as int]@.len() == size ==> (cells.fixed)(c, at)
                == fixed[c as int]@[i].val()
            &&& c < advice.len() && advice[c as int]@.len() == size ==> (cells.advice)(c, at)
                == advice[c as int]@[i].val()
            &&& c < instance.len() && instance[c as int]@.len() == size ==> (cells.instance)(c, at)
                == instance[c as int]@[i].val()
            &&& c < challenges.len() ==> (cells.challenge)(c) == challenges[c as int].val()
        }),
{
    let i = (row + at.0 * scale) % (size as int);
    assert(0 <= i < size);
}

/// Whether one of the first `rows` entries of `s` is `x`.
pub open spec fn occurs(s: Seq<int>, rows: int, x: int) -> bool {
    exists|j: int| 0 <= j < rows && s[j] == x
}

/// A lookup's compressed columns hold, in each row, its expressions folded by `theta`; and
/// it holds where every compressed input of a usable row is a compressed table entry of
/// one.
pub proof fn law_lookups_compress<F: Field>(
    argument: lookup::Argument<F>,
    theta: int,
    n: usize,
    bf: usize,
    fixed: Seq<Polynomial<F, LagrangeCoeff>>,
    advice: Seq<Polynomial<F, LagrangeCoeff>>,
    instance: Seq<Polynomial<F, LagrangeCoeff>>,
    challenges: Seq<F>,
    row: int,
)
    requires
        0 <= row < n,
        bf < n <= i32::MAX,
    ensures
        ({
            let a = argument.compressed_inputs(theta, fixed, advice, instance, challenges, n);
            let s = argument.compressed_table(theta, fixed, advice, instance, challenges, n);
            let cells = cells_at(fixed, advice, instance, challenges, row as usize, 1, n as i32);
            &&& a.len() == n
            &&& s.len() == n
            &&& a[row] == horner(
                F::modulus(),
                0,
                values_of(argument.input_expressions@, cells),
                theta,
            )
            &&& s[row] == horner(
                F::modulus(),
                0,
                values_of(argument.table_expressions@, cells),
                theta,
            )
            &&& argument.holds(theta, n, bf, fixed, advice, instance, challenges) <==> (forall|
                i: int,
            |
                0 <= i < n - bf - 1 ==> occurs(s, n - bf - 1, #[trigger] a[i]))
        }),
{
    let a = argument.compressed_inputs(theta, fixed, advice, instance, challenges, n);
    let s = argument.compressed_table(theta, fixed, advice, instance, challenges, n);
    let rows = n - bf - 1;
    let usable = s.take(rows);
    if argument.holds(theta, n, bf, fixed, advice, instance, challenges) {
        assert forall|i: int| 0 <= i < rows implies occurs(s, rows, #[trigger] a[i]) by {
            assert(usable.contains(a[i]));
            let j = choose|j: int| 0 <= j < usable.len() && usable[j] == a[i];
            assert(s[j] == a[i]);
        }
    }
    if forall|i: int| 0 <= i < rows ==> occurs(s, rows, #[trigger] a[i]) {
        assert forall|i: int| 0 <= i < rows implies usable.contains(#[trigger] a[i]) by {
            assert(occurs(s, rows, a[i]));
            let j = choose|j: int| 0 <= j < rows && s[j] == a[i];
            assert(usable[j] == a[i]);
        }
    }
}

/// Setting a cell changes that cell alone.
pub proof fn law_cells_are_set<T>(
    new: Seq<Vec<T>>,
    old: Seq<Vec<T>>,
    column: int,
    row: int,
    value: T,
    c: int,
    r: int,
)
    requires
        sets_cell(new, old, column, row, value),
        0 <= column < old.len(),
        0 <= row < old[column]@.len(),
        0 <= c < old.len(),
        0 <= r < old[c]@.len(),
    ensures
        new.len() == old.len(),
        new[c]@.len() == old[c]@.len(),
        new[c]@[r] == (if c == column && r == row {
            value
        } else {
            old[c]@[r]
        }),
{
}

/// The columns of a proof: instances with zeros behind them; advice columns of the first
/// phase with random values in the rows that are not usable, each with its own; and all
/// other advice columns as they are.
pub proof fn law_columns_are_taken<F: Field>(
    columns: Columns<F>,
    key: ProofKey<F>,
    instances: Seq<Vec<F>>,
    advice: Seq<Vec<F>>,
    blinds: Seq<Vec<F>>,
    c: int,
    j: int,
    i: int,
)
    requires
        key.wf(),
        columns.taken_from(key, instances, advice, blinds),
        advice.len() == key.cs().num_advice_columns,
        0 <= i < key.n(),
    ensures
        columns.instance.instance_values@.len() == instances.len(),
        columns.advice.advice_values@.len() == advice.len(),
        0 <= c < instances.len() && i < instances[c]@.len() ==> vals(
            columns.instance.instance_values@[c]@,
        )[i] == instances[c]@[i].val(),
        0 <= c < instances.len() && i >= instances[c]@.len() ==> vals(
            columns.instance.instance_values@[c]@,
        )[i] == 0,
        0 <= c < advice.len() && key.cs().advice_column_phase@[c].0 != 0 ==> vals(
            columns.advice.advice_values@[c]@,
        ) == vals(advice[c]@),
        ({
            let listed = in_phase(key.cs().advice_column_phase@, 0);
            let first = key.n() - (key.bf() + 1);
            0 <= j < listed.len() && advice[listed[j] as int]@.len() == key.n() ==> {
                let column = vals(columns.advice.advice_values@[listed[j] as int]@);
                &&& i < first ==> column[i] == advice[listed[j] as int]@[i].val()
                &&& first <= i < first + blinds[j]@.len() ==> column[i] == blinds[j]@[i
                    - first].val()
            }
        }),
{
    let phases = key.cs().advice_column_phase@;
    let listed = in_phase(phases, 0);
    assert(key.cs().advice_column_phase.len() == phases.len());
    law_phase_members(phases, 0);
    if 0 <= c < instances.len() {
        let _ = columns.instance.instance_values@[c];
    }
    if 0 <= c < advice.len() && phases[c].0 != 0 {
        assert(!listed.contains(c as usize));
        let _ = columns.advice.advice_values@[c];
    }
    if 0 <= j < listed.len() {
        let _ = listed[j];
        assert(vals(advice[listed[j] as int]@).len() == advice[listed[j] as int]@.len());
    }
}

/// A gate that is added comes behind the others, with its name, and with a polynomial for
/// each constraint that has its value; columns and lookups stay.
pub proof fn law_gates_are_added<F: Field>(
    meta: GpuConstraintSystem<F>,
    before: GpuConstraintSystem<F>,
    cells: GpuVirtualCells<'_, F>,
    name: Seq<char>,
    constraints: Seq<GpuConstraint<F>>,
    values: CellValues,
    i: int,
)
    requires
        before == *cells.meta,
        gate_added(meta, cells, name, constraints),
    ensures
        meta.gates@.len() == before.gates@.len() + 1,
        meta.gates@.drop_last() == before.gates@,
        meta.gates@.last().name@ == name,
        meta.gates@.last().polys@.len() == constraints.len(),
        0 <= i < constraints.len() ==> meta.gates@.last().polys@[i].value(values)
            == constraints[i].poly.value(values) && meta.gates@.last().constraint_names@[i]
            == constraints[i].name,
        meta.lookups == before.lookups,
        meta.permutation == before.permutation,
        meta.num_fixed_columns == before.num_fixed_columns,
        meta.num_advice_columns == before.num_advice_columns,
        meta.num_instance_columns == before.num_instance_columns,
        meta.num_selectors == before.num_selectors,
        meta.num_challenges == before.num_challenges,
{
    let after = choose|after: GpuVirtualCells<'_, F>|
        {
            &&& #[trigger] after.registers(
                cells,
                joined(polys_of(constraints)),
            )
            &&& meta.gates@.len() == after.meta.gates@.len() + 1
            &&& meta.gates@.drop_last() == after.meta.gates@
            &&& is_gate(meta.gates@.last(), name, constraints, after)
            &&& meta == (GpuConstraintSystem { gates: meta.gates, ..*after.meta })
        };
    if 0 <= i < constraints.len() {
        let polys = polys_of(constraints);
        assert(polys[i] == constraints[i].poly);
        law_registering_keeps_values(
            polys[i],
            meta.gates@.last().polys@[i],
            after.meta.fixed_queries@,
            after.meta.advice_queries@,
            after.meta.instance_queries@,
            values,
        );
    }
}

/// A lookup that is added comes behind the others, with its name, and with the values of
/// its pairs: the inputs among the inputs, and the tables among the tables.
pub proof fn law_lookups_are_added<F: Field>(
    meta: GpuConstraintSystem<F>,
    before: GpuConstraintSystem<F>,
    cells: GpuVirtualCells<'_, F>,
    name: Seq<char>,
    pairs: Seq<(GpuExpression<F>, GpuExpression<F>)>,
    order: Seq<GpuExpression<F>>,
    values: CellValues,
    i: int,
)
    requires
        before == *cells.meta,
        lookup_added(meta, cells, name, pairs, order),
    ensures
        meta.lookups@.len() == before.lookups@.len() + 1,
        meta.lookups@.drop_last() == before.lookups@,
        meta.lookups@.last().name@ == name,
        meta.lookups@.last().input_expressions@.len() == pairs.len(),
        meta.lookups@.last().table_expressions@.len() == pairs.len(),
        0 <= i < pairs.len() ==> meta.lookups@.last().input_expressions@[i].value(values)
            == pairs[i].0.value(values) && meta.lookups@.last().table_expressions@[i].value(values)
            == pairs[i].1.value(values),
        meta.gates == before.gates,
        meta.permutation == before.permutation,
        meta.num_fixed_columns == before.num_fixed_columns,
        meta.num_advice_columns == before.num_advice_columns,
        meta.num_instance_columns == before.num_instance_columns,
{
    let added = meta.lookups@.last();
    let after = choose|after: GpuVirtualCells<'_, F>|
        {
            let added = meta.lookups@.last();
            &&& #[trigger] after.registers(cells, joined(order))
            &&& meta.lookups@.len() == after.meta.lookups@.len() + 1
            &&& meta.lookups@.drop_last() == after.meta.lookups@
            &&& added.name@ == name
            &&& added.input_expressions@.len() == pairs.len()
            &&& added.table_expressions@.len() == pairs.len()
            &&& forall|i: int|
                0 <= i < pairs.len() ==> registered_in(
                    (#[trigger] pairs[i]).0,
                    added.input_expressions@[i],
                    *after.meta,
                ) && registered_in(
                    pairs[i].1,
                    added.table_expressions@[i],
                    *after.meta,
                )
            &&& meta == (GpuConstraintSystem { lookups: meta.lookups, ..*after.meta })
        };
    if 0 <= i < pairs.len() {
        let pair = pairs[i];
        law_registering_keeps_values(
            pair.0,
            added.input_expressions@[i],
            after.meta.fixed_queries@,
            after.meta.advice_queries@,
            after.meta.instance_queries@,
            values,
        );
        law_registering_keeps_values(
            pair.1,
            added.table_expressions@[i],
            after.meta.fixed_queries@,
            after.meta.advice_queries@,
            after.meta.instance_queries@,
            values,
        );
    }
}

/// Adding a query adds it to the list of its kind of column alone, behind the others unless
/// it is there; its index says where it stands.
pub proof fn law_queries_are_added<F: Field>(
    new: GpuConstraintSystem<F>,
    old: GpuConstraintSystem<F>,
    column: GpuColumn<GpuAny>,
    at: Rotation,
    i: int,
)
    requires
        new.adds_query(old, column, at),
    ensures
        column.column_type matches GpuAny::Advice(advice) ==> new.advice_queries@ == with_queries(
            old.advice_queries@,
            seq![(GpuColumn { index: column.index, column_type: advice }, at)],
        ) && new.fixed_queries == old.fixed_queries && new.instance_queries
            == old.instance_queries,
        column.column_type is Fixed ==> new.fixed_queries@ == with_queries(
            old.fixed_queries@,
            seq![(GpuColumn { index: column.index, column_type: GpuFixed }, at)],
        ) && new.advice_queries == old.advice_queries && new.instance_queries
            == old.instance_queries,
        column.column_type is Instance ==> new.instance_queries@ == with_queries(
            old.instance_queries@,
            seq![(GpuColumn { index: column.index, column_type: GpuInstance }, at)],
        ) && new.advice_queries == old.advice_queries && new.fixed_queries == old.fixed_queries,
        new.is_query_index(column, at, i) ==> match column.column_type {
            GpuAny::Advice(advice) => 0 <= i < new.advice_queries@.len() && new.advice_queries@[i]
                == (GpuColumn { index: column.index, column_type: advice }, at),
            GpuAny::Fixed => 0 <= i < new.fixed_queries@.len() && new.fixed_queries@[i] == (
                GpuColumn { index: column.index, column_type: GpuFixed },
                at,
            ),
            GpuAny::Instance => 0 <= i < new.instance_queries@.len() && new.instance_queries@[i]
                == (GpuColumn { index: column.index, column_type: GpuInstance }, at),
        },
{
    match column.column_type {
        GpuAny::Advice(advice) => {
            let x = (GpuColumn { index: column.index, column_type: advice }, at);
            law_queries_in_turn(
                old.advice_queries@,
                seq![],
                seq![],
                x,
            );
        },
        GpuAny::Fixed => {
            let x = (GpuColumn { index: column.index, column_type: GpuFixed }, at);
            law_queries_in_turn(
                old.fixed_queries@,
                seq![],
                seq![],
                x,
            );
        },
        GpuAny::Instance => {
            let x = (GpuColumn { index: column.index, column_type: GpuInstance }, at);
            law_queries_in_turn(
                old.instance_queries@,
                seq![],
                seq![],
                x,
            );
        },
    }
}

/// A new advice column comes behind the others, in its phase, and has no queries yet.
pub proof fn law_advice_columns_are_added<F: Field>(
    new: GpuConstraintSystem<F>,
    old: GpuConstraintSystem<F>,
    phase: Phase,
)
    requires
        new.adds_advice_column(old, phase),
        old.wf(),
    ensures
        new.num_advice_columns == old.num_advice_columns + 1,
        new.advice_column_phase@.len() == old.advice_column_phase@.len() + 1,
        new.advice_column_phase@.last() == phase,
        new.advice_column_phase@.drop_last() == old.advice_column_phase@,
        new.num_advice_queries@.last() == 0,
        new.gates == old.gates,
        new.lookups == old.lookups,
        new.permutation == old.permutation,
        new.num_fixed_columns == old.num_fixed_columns,
        new.num_instance_columns == old.num_instance_columns,
{
    assert(new.advice_column_phase@.drop_last() =~= old.advice_column_phase@);
}

/// A system whose selectors have columns of their own has the gates that it had: each
/// selector reads the fixed column that is put behind the circuit's own for it, which holds
/// one where the selector is enabled and zero elsewhere.
pub proof fn law_direct_conversion_keeps_gates<F: Field>(
    old: GpuConstraintSystem<F>,
    new: GpuConstraintSystem<F>,
    selectors: Seq<Vec<bool>>,
    polys: Seq<Vec<F>>,
    cells: CellValues,
    i: int,
    j: int,
    s: int,
    row: int,
)
    requires
        old.converts_directly(selectors, new, polys),
        old.num_fixed_columns + old.num_selectors <= usize::MAX,
        0 <= i < old.gates@.len(),
        0 <= j < old.gates@[i].polys@.len(),
        old.gates@[i].polys@[j].selectors_below(old.num_selectors as int),
    ensures
        new.gates@.len() == old.gates@.len(),
        new.gates@[i].polys@.len() == old.gates@[i].polys@.len(),
        new.gates@[i].polys@[j].value(cells) == old.gates@[i].polys@[j].value(
            CellValues {
                selector: |x: GpuSelector|
                    (cells.fixed)((old.num_fixed_columns + x.0) as usize, Rotation(0)),
                ..cells
            },
        ),
        0 <= s < selectors.len() && 0 <= row < selectors[s]@.len() ==> polys[s]@[row].val() == (
        if selectors[s]@[row] {
            1int
        } else {
            0
        }),
{
    let replacements = choose|replacements: Seq<GpuExpression<F>>|
        {
            &&& #[trigger] are_queries(
                replacements,
                old.num_fixed_columns,
                old.num_selectors as nat,
                new.fixed_queries@,
            )
            &&& new.replaces_selectors(
                (GpuConstraintSystem {
                    num_fixed_columns: new.num_fixed_columns,
                    fixed_queries: new.fixed_queries,
                    num_selectors: 0,
                    ..old
                }),
                replacements,
            )
        };
    let e = old.gates@[i].polys@[j];
    let _ = new.gates@[i];
    law_replacing_keeps_values(e, replacements, cells);
    let a = CellValues {
        selector: |x: GpuSelector| replacements[x.0 as int].value(cells),
        ..cells
    };
    let b = CellValues {
        selector: |x: GpuSelector|
            (cells.fixed)((old.num_fixed_columns + x.0) as usize, Rotation(0)),
        ..cells
    };
    assert forall|x: GpuSelector| x.0 < old.num_selectors implies #[trigger] (a.selector)(x) == (
    b.selector)(x) by {
        law_new_columns_are_read(
            replacements,
            old.num_fixed_columns,
            old.num_selectors as nat,
            new.fixed_queries@,
            cells,
            x.0 as int,
        );
    }
    lemma_same_selectors(e, a, b, old.num_selectors as int);
    if 0 <= s < selectors.len() && 0 <= row < selectors[s]@.len() {
        assert(is_indicator(polys[s]@, selectors[s]@));
        let _ = polys[s]@[row];
    }
}

/// An expression has the same value over cells that agree on its selectors.
proof fn lemma_same_selectors<F: Field>(
    e: GpuExpression<F>,
    a: CellValues,
    b: CellValues,
    n: int,
)
    requires
        e.selectors_below(n),
        a.fixed == b.fixed,
        a.advice == b.advice,
        a.instance == b.instance,
        a.challenge == b.challenge,
        forall|x: GpuSelector| x.0 < n ==> #[trigger] (a.selector)(x) == (b.selector)(x),
    ensures
        e.value(a) == e.value(b),
    decreases e,
{
    match e {
        GpuExpression::Negated(x) => lemma_same_selectors(*x, a, b, n),
        GpuExpression::Sum(x, y) => {
            lemma_same_selectors(*x, a, b, n);
            lemma_same_selectors(*y, a, b, n);
        },
        GpuExpression::Product(x, y) => {
            lemma_same_selectors(*x, a, b, n);
            lemma_same_selectors(*y, a, b, n);
        },
        GpuExpression::Scaled(x, _) => lemma_same_selectors(*x, a, b, n),
        GpuExpression::Selector(x) => {
            assert((a.selector)(x) == (b.selector)(x));
        },
        _ => {},
    }
}

/// Which selectors a system combines: by the degrees of the gates that they switch, within
/// the degree of the system; and each selector's column, behind the circuit's own, is that
/// of its combination.
pub proof fn law_system_combinations<F: Field>(
    old: GpuConstraintSystem<F>,
    new: GpuConstraintSystem<F>,
    selectors: Seq<Vec<bool>>,
    max_degree: usize,
    polys: Seq<Vec<F>>,
    s: int,
    k: int,
    m: int,
)
    requires
        old.compresses(selectors, max_degree, new, polys),
    ensures
        ({
            let degrees = Seq::new(
                selectors.len(),
                |s: int| switched_degree(gate_polys(old.gates@), s) as usize,
            );
            let groups = combinations(
                selectors,
                degrees,
                old.spec_degree(max_degree as nat) as int,
            );
            &&& polys.len() == groups.len()
            &&& new.num_fixed_columns == old.num_fixed_columns + groups.len()
            &&& 0 <= k < groups.len() && 0 <= m < groups[k].len() && groups[k][m] == s
                ==> new.selector_map@[s].index == (old.num_fixed_columns + k) as usize
        }),
{
    let groups = old.selector_combinations(selectors, max_degree);
    if 0 <= k < groups.len() && 0 <= m < groups[k].len() && groups[k][m] == s {
        assert(is_place(groups, s, k, m));
    }
}

/// Polynomials are added, subtracted and scaled coefficient by coefficient.
pub proof fn law_coefficients_one_by_one(p: int, a: Seq<int>, b: Seq<int>, s: int, n: nat, i: int)
    ensures
        poly_add(p, a, b).len() == a.len(),
        poly_sub(p, a, b).len() == a.len(),
        poly_scale(p, a, s).len() == a.len(),
        poly_zero(n).len() == n,
        0 <= i < a.len() && i < b.len() ==> poly_add(p, a, b)[i] == (a[i] + b[i]) % p && poly_sub(
            p,
            a,
            b,
        )[i] == (a[i] - b[i]) % p,
        b.len() <= i < a.len() ==> poly_add(p, a, b)[i] == a[i] && poly_sub(p, a, b)[i] == a[i],
        0 <= i < a.len() ==> poly_scale(p, a, s)[i] == (a[i] * s) % p,
        0 <= i < n ==> poly_zero(n)[i] == 0,
{
}

/// The value of a polynomial at a point is the one that its first query there gives.
pub proof fn law_first_values<F: Field>(
    q: Seq<OpeningQuery<F>>,
    poly: usize,
    point: int,
    i: int,
)
    requires
        0 <= i < q.len(),
        q[i].poly == poly,
        q[i].point.val() == point,
        forall|j: int|
            0 <= j < i ==> !((#[trigger] q[j]).poly == poly && q[j].point.val() == point),
    ensures
        eval_of(q, poly, point) == q[i].eval.val(),
    decreases q.len(),
{
    if i > 0 {
        let rest = q.drop_first();
        assert(!(q[0].poly == poly && q[0].point.val() == point));
        assert forall|j: int| 0 <= j < i - 1 implies !((#[trigger] rest[j]).poly == poly
            && rest[j].point.val() == point) by {
            assert(q[j + 1] == rest[j]);
        }
        assert(rest[i - 1] == q[i]);
        law_first_values(rest, poly, point, i - 1);
    }
}

/// An interpolation has as many coefficients as points, and the values at them.
pub proof fn law_interpolations(
    p: int,
    coeffs: Seq<int>,
    points: Seq<int>,
    evals: Seq<int>,
    i: int,
)
    requires
        interpolates(p, coeffs, points, evals),
        0 <= i < points.len(),
    ensures
        coeffs.len() == points.len(),
        poly_eval(p, coeffs, points[i]) == evals[i],
{
}

} // verus!
