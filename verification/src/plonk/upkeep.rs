//! What the lists and columns that a proof is made from hold, entry by entry.

use crate::field::{vals, Field};
use crate::plonk::assigned::GpuAssigned;
use crate::plonk::circuit::{GpuSelector, Phase};
use crate::plonk::constraint_system::GpuConstraintSystem;
use crate::plonk::constraints::LookupParts;
use crate::plonk::conversion::law_replacing_keeps_values;
use crate::plonk::error::{GpuError, HaloGpuError};
use crate::plonk::expression::{combines_selectors, CellValues, GpuExpression};
use crate::plonk::graph::{CalculationModel, GraphEvaluator, GraphModel, ValueSource};
use crate::plonk::graph_values::{calculation_value, RuntimeScalars};
use crate::plonk::keys::appended;
use crate::plonk::launch::Seed;
use crate::plonk::lookup::permute::{ascending, heads, repeats};
use crate::plonk::openings::holds_values;
use crate::plonk::prover::Opened;
use crate::plonk::proving::{ProofKey, ProofState};
use crate::plonk::quotient::{
    graphs_of, lookup_columns_of, lookup_part_columns, part_columns, LookupPolys,
};
use crate::plonk::registering::{law_phases, law_registering_keeps_values};
use crate::plonk::relations::occurs;
use crate::plonk::running::ProofRun;
use crate::plonk::witness::{
    blinds_columns, buckets, cell, column_values, law_phase_members, WitnessCollection,
};
use crate::poly::{Coeff, LagrangeCoeff, Polynomial};
use crate::poly::arithmetic::poly_eval;
use crate::poly::device::too_large;
use crate::poly::domain::EvaluationDomain;
use crate::poly::point_sets::{eval_of, models, OpeningQuery, PointSet};
use crate::poly::query::{device_count, device_positions, ProverQuery};
use crate::poly::residency::MaybeDevice;
use crate::poly::shplonk::RotationSet;
use vstd::prelude::*;

verus! {

/// What each calculation computes.
pub proof fn law_calculations_compute(
    p: int,
    value: spec_fn(ValueSource) -> int,
    a: ValueSource,
    b: ValueSource,
    parts: Seq<ValueSource>,
    part: ValueSource,
)
    ensures
        calculation_value(p, CalculationModel::Add(a, b), value) == (value(a) + value(b)) % p,
        calculation_value(p, CalculationModel::Sub(a, b), value) == (value(a) - value(b)) % p,
        calculation_value(p, CalculationModel::Mul(a, b), value) == (value(a) * value(b)) % p,
        calculation_value(p, CalculationModel::Square(a), value) == (value(a) * value(a)) % p,
        calculation_value(p, CalculationModel::Double(a), value) == (value(a) + value(a)) % p,
        calculation_value(p, CalculationModel::Negate(a), value) == (-value(a)) % p,
        calculation_value(p, CalculationModel::Store(a), value) == value(a),
        calculation_value(p, CalculationModel::Horner(a, seq![], b), value) == value(a),
        calculation_value(p, CalculationModel::Horner(a, parts.push(part), b), value) == ((
        calculation_value(p, CalculationModel::Horner(a, parts, b), value) * value(b)) % p + value(
            part,
        )) % p,
{
    let s = Seq::new(parts.push(part).len(), |i: int| value(parts.push(part)[i]));
    assert(s.drop_last() =~= Seq::new(parts.len(), |i: int| value(parts[i])));
    assert(s.last() == value(part));
}

/// Each calculation is computed from those before it, and the last one is the graph's
/// value.
pub proof fn law_graphs_compute_in_turn(
    g: GraphModel,
    p: int,
    n: nat,
    cells: CellValues,
    scalars: RuntimeScalars,
)
    requires
        n < g.calculations.len(),
    ensures
        ({
            let before = g.intermediates(p, n, cells, scalars);
            let after = g.intermediates(p, n + 1, cells, scalars);
            &&& after.drop_last() == before
            &&& after.last() == calculation_value(
                p,
                g.calculations[n as int],
                |s: ValueSource| g.source(s, before, cells, scalars),
            )
            &&& n + 1 == g.calculations.len() ==> g.value(p, cells, scalars) == after.last()
        }),
{
    let before = g.intermediates(p, n, cells, scalars);
    let after = g.intermediates(p, n + 1, cells, scalars);
    assert(after.drop_last() =~= before);
}

/// Evaluating selectors combines those on both sides of an operator, passes a negation or
/// a factor by, and gives the identity where there are none.
pub proof fn law_selectors_combine<F: Field, T: Clone, S: Fn(GpuSelector) -> T, C: Fn(T, T) -> T>(
    a: GpuExpression<F>,
    b: GpuExpression<F>,
    c: F,
    s: GpuSelector,
    identity: T,
    select: S,
    combine: C,
    x: T,
    y: T,
    r: T,
)
    ensures
        combines_selectors(GpuExpression::<F>::Selector(s), identity, select, combine, r)
            <==> call_ensures(select, (s,), r),
        combines_selectors(GpuExpression::Constant(c), identity, select, combine, r) <==> cloned(
            identity,
            r,
        ),
        combines_selectors(GpuExpression::Negated(Box::new(a)), identity, select, combine, r)
            <==> combines_selectors(a, identity, select, combine, r),
        combines_selectors(GpuExpression::Scaled(Box::new(a), c), identity, select, combine, r)
            <==> combines_selectors(a, identity, select, combine, r),
        combines_selectors(a, identity, select, combine, x) && combines_selectors(
            b,
            identity,
            select,
            combine,
            y,
        ) && call_ensures(combine, (x, y), r) ==> combines_selectors(
            GpuExpression::Sum(Box::new(a), Box::new(b)),
            identity,
            select,
            combine,
            r,
        ) && combines_selectors(
            GpuExpression::Product(Box::new(a), Box::new(b)),
            identity,
            select,
            combine,
            r,
        ),
        combines_selectors(
            GpuExpression::Product(Box::new(a), Box::new(b)),
            identity,
            select,
            combine,
            r,
        ) ==> combines_selectors(
            GpuExpression::Sum(Box::new(a), Box::new(b)),
            identity,
            select,
            combine,
            r,
        ),
        combines_selectors(
            GpuExpression::Sum(Box::new(a), Box::new(b)),
            identity,
            select,
            combine,
            r,
        ) ==> exists|x: T, y: T|
            combines_selectors(a, identity, select, combine, x) && combines_selectors(
                b,
                identity,
                select,
                combine,
                y,
            ) && #[trigger] call_ensures(combine, (x, y), r),
{
}

/// The cells of advice columns stand column after column, so that no two share a place.
pub proof fn law_advice_cells<F: Field>(
    advice: Seq<GpuAssigned<F>>,
    n: nat,
    c: int,
    i: int,
    d: int,
    j: int,
)
    requires
        0 <= c,
        0 <= i < n,
        0 <= d,
        0 <= j < n,
    ensures
        cell(n as int, c, i) == cell(n as int, d, j) <==> c == d && i == j,
        cell(n as int, c, i) == n * c + i,
        column_values(advice, n, c).len() == n,
        column_values(advice, n, c)[i] == advice[n * c + i]@.value(F::modulus()),
{
    assert(c * n == n * c) by (nonlinear_arith);
    assert(c * n + i == d * n + j ==> c == d) by (nonlinear_arith)
        requires
            0 <= i < n,
            0 <= j < n,
    {
        if c < d {
            assert(c * n + n <= d * n) by (nonlinear_arith)
                requires
                    c + 1 <= d,
                    0 < n,
            ;
        }
        if d < c {
            assert(d * n + n <= c * n) by (nonlinear_arith)
                requires
                    d + 1 <= c,
                    0 < n,
            ;
        }
    }
}

/// Blinding a column keeps its first rows, and puts the column's own random values into
/// the rest; other columns stay.
pub proof fn law_blinded_columns<F: Field>(
    new: Seq<Polynomial<F, LagrangeCoeff>>,
    old: Seq<Vec<F>>,
    start: int,
    columns: Seq<usize>,
    blinders: Seq<Vec<F>>,
    j: int,
    c: int,
    i: int,
)
    requires
        blinds_columns(new, old, start, columns, blinders),
        0 <= j < columns.len(),
        columns[j] < old.len(),
        0 <= start <= old[columns[j] as int]@.len(),
    ensures
        new.len() == old.len(),
        vals(new[columns[j] as int]@).len() == start + blinders[j]@.len(),
        0 <= i < start ==> vals(new[columns[j] as int]@)[i] == old[columns[j] as int]@[i].val(),
        0 <= i < blinders[j]@.len() ==> vals(new[columns[j] as int]@)[start + i]
            == blinders[j]@[i].val(),
        0 <= c < old.len() && !columns.contains(c as usize) ==> vals(new[c]@) == vals(old[c]@),
{
    let _ = columns[j];
    assert(vals(old[columns[j] as int]@).len() == old[columns[j] as int]@.len());
    if 0 <= c < old.len() {
        let _ = new[c];
    }
}

/// There is a list for each of the three phases, and a column is in that of its own, with
/// smaller columns before it.
pub proof fn law_phase_lists(
    lists: Seq<Vec<usize>>,
    phases: Seq<Phase>,
    c: int,
    phase: int,
    i: int,
    j: int,
)
    requires
        buckets(lists, phases),
        phases.len() <= usize::MAX,
        0 <= phase < 3,
    ensures
        lists.len() == 3,
        0 <= c < phases.len() ==> (lists[phase]@.contains(c as usize) <==> phases[c].0 == phase),
        0 <= i < j < lists[phase]@.len() ==> lists[phase]@[i] < lists[phase]@[j] < phases.len(),
{
    law_phase_members(phases, phase);
    let _ = lists[phase];
}

/// In ascending values equal ones are together, and the first of each are the different
/// values, once each.
pub proof fn law_ascending_heads(s: Seq<int>, x: int, i: int, j: int)
    requires
        ascending(s),
    ensures
        0 <= i < j < s.len() ==> s[i] <= s[j],
        0 < i < s.len() ==> (repeats(s, i) <==> s[i] == s[i - 1]),
        !repeats(s, 0),
        heads(s).contains(x) <==> s.contains(x),
        0 <= i < j < heads(s).len() ==> heads(s)[i] < heads(s)[j],
    decreases s.len(),
{
    if s.len() > 0 {
        let front = s.drop_last();
        let last = s.last();
        assert forall|i: int, j: int| 0 <= i <= j < front.len() implies #[trigger] front[i]
            <= #[trigger] front[j] by {
            assert(s[i] <= s[j]);
        }
        law_ascending_heads(front, x, i, j);
        law_ascending_heads(front, last, i, j);
        assert(s == front.push(last));
        assert(s[s.len() - 1] == last);
        if s.contains(x) {
            let k = choose|k: int| 0 <= k < s.len() && s[k] == x;
            if k < front.len() {
                assert(front[k] == x);
            }
        }
        if front.contains(x) {
            let k = choose|k: int| 0 <= k < front.len() && front[k] == x;
            assert(s[k] == x);
        }
        if repeats(s, s.len() - 1) {
            assert(front[s.len() - 2] == last);
            assert(front.contains(last));
        } else {
            let before = heads(front);
            let now = before.push(last);
            assert(heads(s) == now);
            if now.contains(x) {
                let k = choose|k: int| 0 <= k < now.len() && now[k] == x;
                if k < before.len() {
                    assert(before[k] == x);
                }
            }
            if before.contains(x) {
                let k = choose|k: int| 0 <= k < before.len() && before[k] == x;
                assert(now[k] == x);
            }
            assert(now[before.len() as int] == last);
            if 0 <= i < j && j == before.len() {
                law_ascending_heads(front, before[i], i, i);
                assert(before.contains(before[i]));
                let k = choose|k: int| 0 <= k < front.len() && front[k] == before[i];
                assert(s[k] <= s[s.len() - 2]);
                assert(s[s.len() - 2] <= s[s.len() - 1]);
            }
        }
    }
}

/// Taking an expression's query indices away keeps its value.
proof fn lemma_unregistered<F: Field>(e: GpuExpression<F>, cells: CellValues)
    ensures
        e.unregistered().value(cells) == e.value(cells),
    decreases e,
{
    match e {
        GpuExpression::Negated(a) => lemma_unregistered(*a, cells),
        GpuExpression::Sum(a, b) => {
            lemma_unregistered(*a, cells);
            lemma_unregistered(*b, cells);
        },
        GpuExpression::Product(a, b) => {
            lemma_unregistered(*a, cells);
            lemma_unregistered(*b, cells);
        },
        GpuExpression::Scaled(a, _) => lemma_unregistered(*a, cells),
        _ => {},
    }
}

/// Assigning query indices keeps the values of all gates and lookups, and leaves no query
/// without an index.
pub proof fn law_indexing_keeps_values<F: Field>(
    new: GpuConstraintSystem<F>,
    old: GpuConstraintSystem<F>,
    cells: CellValues,
    i: int,
    j: int,
)
    requires
        new.indexes_queries(old),
    ensures
        new.gates@.len() == old.gates@.len(),
        new.lookups@.len() == old.lookups@.len(),
        0 <= i < old.gates@.len() ==> new.gates@[i].polys@.len() == old.gates@[i].polys@.len(),
        0 <= i < old.gates@.len() && 0 <= j < old.gates@[i].polys@.len() ==> new.gates@[i].polys@[j]
            .value(cells) == old.gates@[i].polys@[j].value(cells)
            && new.gates@[i].polys@[j].pending_cells().len() == 0,
        0 <= i < old.lookups@.len() && 0 <= j < old.lookups@[i].input_expressions@.len()
            ==> new.lookups@[i].input_expressions@[j].value(cells)
            == old.lookups@[i].input_expressions@[j].value(cells),
        0 <= i < old.lookups@.len() && 0 <= j < old.lookups@[i].table_expressions@.len()
            ==> new.lookups@[i].table_expressions@[j].value(cells)
            == old.lookups@[i].table_expressions@[j].value(cells),
        new.fixed_queries == old.fixed_queries,
        new.advice_queries == old.advice_queries,
        new.instance_queries == old.instance_queries,
{
    let fixed = old.fixed_queries@;
    let advice = old.advice_queries@;
    let instance = old.instance_queries@;
    if 0 <= i < old.gates@.len() {
        let _ = new.gates@[i];
        if 0 <= j < old.gates@[i].polys@.len() {
            let e = old.gates@[i].polys@[j];
            let after = new.gates@[i].polys@[j];
            lemma_unregistered(e, cells);
            law_registering_keeps_values(e.unregistered(), after, fixed, advice, instance, cells);
        }
    }
    if 0 <= i < old.lookups@.len() {
        let _ = new.lookups@[i];
        if 0 <= j < old.lookups@[i].input_expressions@.len() {
            let e = old.lookups@[i].input_expressions@[j];
            let after = new.lookups@[i].input_expressions@[j];
            lemma_unregistered(e, cells);
            law_registering_keeps_values(e.unregistered(), after, fixed, advice, instance, cells);
        }
        if 0 <= j < old.lookups@[i].table_expressions@.len() {
            let e = old.lookups@[i].table_expressions@[j];
            let after = new.lookups@[i].table_expressions@[j];
            lemma_unregistered(e, cells);
            law_registering_keeps_values(e.unregistered(), after, fixed, advice, instance, cells);
        }
    }
}

/// Replacing selectors in a system gives each gate and each side of a lookup the value that
/// it had with the replacements' values for the selectors.
pub proof fn law_system_replacing_keeps_values<F: Field>(
    new: GpuConstraintSystem<F>,
    old: GpuConstraintSystem<F>,
    replacements: Seq<GpuExpression<F>>,
    cells: CellValues,
    i: int,
    j: int,
)
    requires
        new.replaces_selectors(old, replacements),
    ensures
        ({
            let before = CellValues {
                selector: |s: GpuSelector| replacements[s.0 as int].value(cells),
                ..cells
            };
            &&& new.gates@.len() == old.gates@.len()
            &&& new.lookups@.len() == old.lookups@.len()
            &&& 0 <= i < old.gates@.len() && 0 <= j < old.gates@[i].polys@.len()
                && old.gates@[i].polys@[j].selectors_below(replacements.len() as int)
                ==> new.gates@[i].polys@[j].value(cells) == old.gates@[i].polys@[j].value(before)
            &&& 0 <= i < old.lookups@.len() && 0 <= j < old.lookups@[i].input_expressions@.len()
                && old.lookups@[i].input_expressions@[j].selectors_below(replacements.len() as int)
                ==> new.lookups@[i].input_expressions@[j].value(cells)
                == old.lookups@[i].input_expressions@[j].value(before)
            &&& 0 <= i < old.lookups@.len() && 0 <= j < old.lookups@[i].table_expressions@.len()
                && old.lookups@[i].table_expressions@[j].selectors_below(replacements.len() as int)
                ==> new.lookups@[i].table_expressions@[j].value(cells)
                == old.lookups@[i].table_expressions@[j].value(before)
        }),
{
    if 0 <= i < old.gates@.len() {
        let _ = new.gates@[i];
        if 0 <= j < old.gates@[i].polys@.len() {
            law_replacing_keeps_values(old.gates@[i].polys@[j], replacements, cells);
        }
    }
    if 0 <= i < old.lookups@.len() {
        let _ = new.lookups@[i];
        if 0 <= j < old.lookups@[i].input_expressions@.len() {
            law_replacing_keeps_values(old.lookups@[i].input_expressions@[j], replacements, cells);
        }
        if 0 <= j < old.lookups@[i].table_expressions@.len() {
            law_replacing_keeps_values(old.lookups@[i].table_expressions@[j], replacements, cells);
        }
    }
}

/// What the queries of a finished proof ask: for each opening in turn, its polynomial, at
/// the challenge times the root of unity to its rotation, and the polynomial's value there.
pub proof fn law_proof_queries<F: Field>(
    run: ProofRun<F>,
    key: ProofKey<F>,
    polys: Seq<Opened>,
    queries: Seq<OpeningQuery<F>>,
    i: int,
)
    requires
        run.queried(key, polys, queries),
        0 <= i < run.plan.openings@.len(),
    ensures
        queries.len() == run.plan.openings@.len(),
        polys[queries[i].poly as int] == run.plan.openings@[i].0,
        queries[i].point.val() == (run.state.x.val() * key.domain.omega_power(
            run.plan.openings@[i].1.0 as int,
        )) % F::modulus(),
        queries[i].eval.val() == poly_eval(
            F::modulus(),
            run.state.opened(key, run.plan.openings@[i].0),
            queries[i].point.val(),
        ),
{
}

/// A set of openings that is handed on has the points of the set, the polynomials of its
/// members, and their values at its points.
pub proof fn law_sets_are_filled<F: Field>(
    state: ProofState<F>,
    key: ProofKey<F>,
    polys: Seq<Opened>,
    queries: Seq<OpeningQuery<F>>,
    points: Seq<int>,
    sets: Seq<PointSet<F>>,
    k: int,
    filled: RotationSet<F>,
    m: int,
    j: int,
)
    requires
        0 <= k < sets.len(),
        state.fills(key, polys, sets[k], filled),
        sets[k].holds_evals(queries),
        holds_values(filled, points),
        0 <= m < sets[k].members@.len(),
        0 <= j < sets[k].points@.len(),
    ensures
        models(sets).len() == sets.len(),
        models(sets)[k].0 == vals(sets[k].points@),
        models(sets)[k].1[m] == sets[k].members@[m].poly,
        vals(filled.points@) == vals(sets[k].points@),
        filled.commitments@.len() == sets[k].members@.len(),
        vals(filled.commitments@[m].poly@) == state.opened(
            key,
            polys[sets[k].members@[m].poly as int],
        ),
        vals(filled.commitments@[m].evals@)[j] == eval_of(
            queries,
            sets[k].members@[m].poly,
            sets[k].points@[j].val(),
        ),
        vals(filled.commitments@[m].evals@)[j] == poly_eval(
            F::modulus(),
            vals(filled.commitments@[m].poly@),
            sets[k].points@[j].val(),
        ),
        points.contains(sets[k].points@[j].val()),
{
    let member = sets[k].members@[m];
    let commitment = filled.commitments@[m];
    assert(vals(member.evals@).len() == sets[k].points@.len());
    assert(vals(member.evals@)[j] == eval_of(queries, member.poly, sets[k].points@[j].val()));
    let _ = commitment.evals@[j];
    assert(vals(filled.points@)[j] == sets[k].points@[j].val());
}

/// A part of the columns is, column by column, the polynomials' values at the part's
/// points.
pub proof fn law_parts_of_columns<F: Field>(
    domain: EvaluationDomain<F>,
    polys: Seq<Polynomial<F, Coeff>>,
    lookups: Seq<LookupPolys<F>>,
    parts: Seq<LookupParts<F>>,
    graphs: Seq<GraphEvaluator<F>>,
    values: Seq<Polynomial<F, LagrangeCoeff>>,
    factor: int,
    c: int,
    i: int,
)
    requires
        domain.is_part(polys, factor, values),
        0 <= c < polys.len(),
        0 <= i < domain.size(),
    ensures
        values.len() == polys.len(),
        vals(values[c]@).len() == domain.size(),
        vals(values[c]@)[i] == poly_eval(
            F::modulus(),
            vals(polys[c]@),
            domain.part_point(factor, i),
        ),
        part_columns(domain, polys, factor).len() == polys.len(),
        part_columns(domain, polys, factor)[c] == vals(values[c]@),
        graphs_of(graphs).len() == graphs.len(),
        c < graphs.len() ==> graphs_of(graphs)[c] == graphs[c]@,
        lookup_columns_of(parts).len() == parts.len(),
        c < parts.len() ==> lookup_columns_of(parts)[c].0 == vals(parts[c].product@)
            && lookup_columns_of(parts)[c].1 == vals(parts[c].permuted_input@)
            && lookup_columns_of(parts)[c].2 == vals(parts[c].permuted_table@),
        lookup_part_columns(domain, lookups, factor).len() == lookups.len(),
        c < lookups.len() ==> {
            let columns = lookup_part_columns(domain, lookups, factor)[c];
            let point = domain.part_point(factor, i);
            &&& columns.0[i] == poly_eval(F::modulus(), vals(lookups[c].product@), point)
            &&& columns.1[i] == poly_eval(
                F::modulus(),
                domain.coefficients(vals(lookups[c].permuted_input@)),
                point,
            )
            &&& columns.2[i] == poly_eval(
                F::modulus(),
                domain.coefficients(vals(lookups[c].permuted_table@)),
                point,
            )
        },
{
    let _ = values[c];
}

/// How long a polynomial is, wherever it is held; and where columns are put behind others.
pub proof fn law_lengths<F: Field, B>(
    host: Polynomial<F, B>,
    fixed: Seq<Polynomial<F, LagrangeCoeff>>,
    own: nat,
    polys: Seq<Vec<F>>,
    k: int,
)
    requires
        appended(fixed, own, polys),
        0 <= k < polys.len(),
    ensures
        MaybeDevice::Host(host).spec_len() == host@.len(),
        fixed.len() == own + polys.len(),
        fixed[own + k]@ == polys[k]@,
{
    let _ = fixed[own + k];
}

/// The columns and challenges of a phase are those on its list, and an assigned cell or a
/// finished phase leaves the circuit as it is.
pub proof fn law_witnesses_keep_the_circuit<F: Field>(
    a: WitnessCollection<F>,
    b: WitnessCollection<F>,
)
    ensures
        a.phase_columns() == a.column_indices@[a.current_phase.0 as int]@,
        a.phase_challenges() == a.challenge_indices@[a.current_phase.0 as int]@,
        a.same_but_advice(b) ==> a == (WitnessCollection { advice: a.advice, ..b }),
        a.same_circuit(b) ==> a == (WitnessCollection {
            advice: a.advice,
            advice_single: a.advice_single,
            instance_single: a.instance_single,
            current_phase: a.current_phase,
            challenges: a.challenges,
            ..b
        }),
{
}

/// A proof is refused at a lookup where some compressed input of a usable row is in none
/// of the usable rows of the compressed table.
pub proof fn law_lookups_are_refused<F: Field>(state: ProofState<F>, key: ProofKey<F>, l: int)
    requires
        key.bf() < key.n() <= usize::MAX,
    ensures
        ({
            let rows = key.n() - key.bf() - 1;
            let argument = key.cs().lookups@[l];
            let inputs = argument.compressed_inputs(
                state.theta.val(),
                key.parts.vk.fixed@,
                state.advice_values(),
                state.instance_values(),
                state.challenges@,
                key.n() as usize,
            );
            let table = argument.compressed_table(
                state.theta.val(),
                key.parts.vk.fixed@,
                state.advice_values(),
                state.instance_values(),
                state.challenges@,
                key.n() as usize,
            );
            state.lookup_holds(key, l) <==> (forall|i: int|
                0 <= i < rows ==> occurs(table, rows, #[trigger] inputs[i]))
        }),
{
    let rows = key.n() - key.bf() - 1;
    let argument = key.cs().lookups@[l];
    let inputs = argument.compressed_inputs(
        state.theta.val(),
        key.parts.vk.fixed@,
        state.advice_values(),
        state.instance_values(),
        state.challenges@,
        key.n() as usize,
    );
    let table = argument.compressed_table(
        state.theta.val(),
        key.parts.vk.fixed@,
        state.advice_values(),
        state.instance_values(),
        state.challenges@,
        key.n() as usize,
    );
    let usable = table.take(rows);
    assert forall|x: int| usable.contains(x) <==> #[trigger] occurs(table, rows, x) by {
        if usable.contains(x) {
            let j = choose|j: int| 0 <= j < usable.len() && usable[j] == x;
            assert(table[j] == x);
        }
        if occurs(table, rows, x) {
            let j = choose|j: int| 0 <= j < rows && table[j] == x;
            assert(usable[j] == x);
        }
    }
}

/// The phases of a system reach up to the largest phase of its advice columns, the first
/// one where there are none.
pub proof fn law_system_phases<F: Field>(cs: GpuConstraintSystem<F>, c: int)
    ensures
        cs.last_phase() >= 0,
        0 <= c < cs.advice_column_phase@.len() ==> cs.advice_column_phase@[c].0 <= cs.last_phase(),
        cs.last_phase() == 0 || exists|k: int|
            0 <= k < cs.advice_column_phase@.len() && (
            #[trigger] cs.advice_column_phase@[k]).0 == cs.last_phase(),
{
    law_phases(cs.advice_column_phase@, c);
}

/// A transform that does not fit names what it was for, what it needed and what was free.
pub proof fn law_refused_transforms(context: &'static str, needed: int, free_bytes: u64)
    requires
        0 <= needed <= u64::MAX,
    ensures
        too_large(context, needed, free_bytes) matches GpuError::HaloGpu(
            HaloGpuError::InsufficientGpuMemory { context: c, magnitude: m, free_bytes: f },
        ) && c == context && m == needed && f == free_bytes,
{
}

/// The values that come back from the device are taken in the order of the queries for
/// them.
pub proof fn law_device_values_in_order<F: Field>(s: Seq<ProverQuery<'_, F>>, i: int)
    requires
        0 <= i < s.len(),
        s[i].poly is Device,
    ensures
        device_count(s, i as nat) < device_positions(s).len(),
        device_positions(s)[device_count(s, i as nat) as int] == i,
    decreases s.len(),
{
    let front = s.drop_last();
    if i < front.len() {
        law_device_values_in_order(front, i);
        assert(front.take(i) =~= s.take(i));
    } else {
        assert(s.take(i) =~= front);
    }
}

/// The first circuit of a batch is folded into zero, and every other one into what those
/// before have come to.
pub proof fn law_batches_are_chained(c: nat, previous: int)
    ensures
        Seed::of_circuit(0).value(previous) == 0,
        Seed::of_circuit(c + 1).value(previous) == previous,
{
}

} // verus!
