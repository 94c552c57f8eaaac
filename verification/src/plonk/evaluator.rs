//! The graphs that evaluate the gates and lookups of a constraint system.

use crate::field::{fadd, fmul, Field};
use crate::plonk::constraint_system::{GpuConstraintSystem, GpuGate};
use crate::plonk::expression::{CellValues, GpuExpression};
use crate::plonk::graph::{
    all_selector_free, empty_graph, lemma_find, lemma_find_is, zero_source, Calculation,
    CalculationModel, GraphEvaluator, GraphModel, ValueSource,
};
use crate::plonk::graph_values::{
    horner, law_graph_computes_expressions, lemma_calculated, lemma_expression_extends,
    lemma_value_stable, RuntimeScalars,
};
use crate::plonk::lookup;
use vstd::prelude::*;

verus! {

/// Evaluator
#[derive(Clone, Debug)]
pub struct Evaluator<F: Field> {
    ///  Custom gates evalution
    pub custom_gates: GraphEvaluator<F>,
    ///  Lookups evalution
    pub lookups: Vec<GraphEvaluator<F>>,
}

/// The polynomials of all gates, in their order.
pub open spec fn gate_polys<F: Field>(gates: Seq<GpuGate<F>>) -> Seq<GpuExpression<F>>
    decreases gates.len(),
{
    if gates.len() == 0 {
        seq![]
    } else {
        gate_polys(gates.drop_last()) + gates.last().polys@
    }
}

/// The graph that folds the expressions, starting from `start`, by `factor`.
pub open spec fn folding<F: Field>(
    g: GraphModel,
    s: Seq<GpuExpression<F>>,
    start: ValueSource,
    factor: ValueSource,
) -> (GraphModel, ValueSource) {
    let (h, parts) = g.with_expressions(s);
    h.calculated(CalculationModel::Horner(start, parts, factor))
}

/// The graph of the custom gates, which folds their polynomials into the
/// previous value by `y`.
pub open spec fn custom_gates_graph<F: Field>(gates: Seq<GpuGate<F>>) -> GraphModel {
    folding(
        empty_graph(),
        gate_polys(gates),
        ValueSource::PreviousValue(),
        ValueSource::Y(),
    ).0
}

/// The graph of a lookup: `(input + beta) (table + gamma)`, where input and
/// table are folded by `theta`.
pub open spec fn lookup_graph<F: Field>(
    inputs: Seq<GpuExpression<F>>,
    tables: Seq<GpuExpression<F>>,
) -> GraphModel {
    let (g, input) = folding(empty_graph(), inputs, zero_source(), ValueSource::Theta());
    let (g, table) = folding(g, tables, zero_source(), ValueSource::Theta());
    let (g, right) = g.calculated(CalculationModel::Add(table, ValueSource::Gamma()));
    let (g, left) = g.calculated(CalculationModel::Add(input, ValueSource::Beta()));
    g.calculated(CalculationModel::Mul(left, right)).0
}

/// The graph that folds expressions by `y`, starting from zero.
pub open spec fn compress_graph<F: Field>(s: Seq<GpuExpression<F>>) -> GraphModel {
    folding(empty_graph(), s, zero_source(), ValueSource::Y()).0
}

proof fn lemma_with_expressions_append<F: Field>(
    g: GraphModel,
    s: Seq<GpuExpression<F>>,
    t: Seq<GpuExpression<F>>,
)
    ensures
        ({
            let (h, first) = g.with_expressions(s);
            let (k, second) = h.with_expressions(t);
            g.with_expressions(s + t) == (k, first + second)
        }),
    decreases t.len(),
{
    let (h, first) = g.with_expressions(s);
    let (k, second) = h.with_expressions(t);
    if t.len() == 0 {
        assert(s + t =~= s);
        assert(first + second =~= first);
    } else {
        lemma_with_expressions_append(g, s, t.drop_last());
        assert((s + t).drop_last() =~= s + t.drop_last());
        let (k1, second1) = h.with_expressions(t.drop_last());
        let x = k1.with_expression(t.last()).1;
        assert((first + second1).push(x) =~= first + second1.push(x));
    }
}

/// Whether all gates are free of selectors.
pub open spec fn gates_selector_free<F: Field>(gates: Seq<GpuGate<F>>) -> bool {
    forall|i: int| 0 <= i < gates.len() ==> all_selector_free((#[trigger] gates[i]).polys@)
}

/// Whether all lookups are free of selectors.
pub open spec fn lookups_selector_free<F: Field>(lookups: Seq<lookup::Argument<F>>) -> bool {
    forall|i: int|
        0 <= i < lookups.len() ==> {
            &&& all_selector_free((#[trigger] lookups[i]).input_expressions@)
            &&& all_selector_free(lookups[i].table_expressions@)
        }
}

impl<F: Field> GraphEvaluator<F> {
    fn add_folding(
        &mut self,
        exprs: &Vec<GpuExpression<F>>,
        start: ValueSource,
        factor: ValueSource,
    ) -> (r: ValueSource)
        requires
            old(self).wf(),
            all_selector_free(exprs@),
        ensures
            final(self).wf(),
            (final(self)@, r) == folding(old(self)@, exprs@, start, factor),
    {
        let parts = self.add_expressions(exprs);
        self.add_calculation(Calculation::Horner(start, parts, factor))
    }

    /// Build the metadata graph for an expression list that will be
    /// Horner-folded by `theta` on the kernel side, matching the shape
    /// `acc * theta + expression`.
    ///
    /// Slot semantics for the kernel's hard-coded fold:
    /// - `expr_constants[4]` is the Horner factor (caller places
    ///   `theta`);
    /// - `Calculation::Horner(Constant(0), parts, Y())` provides
    ///   shape; `Y()` is unused (`encode_vp` only serialises `parts`);
    ///   `Constant(0)` is unused (the kernel inits `val = 0`).
    pub fn for_compress(expressions: &Vec<GpuExpression<F>>) -> (r: GraphEvaluator<F>)
        requires
            all_selector_free(expressions@),
        ensures
            r.wf(),
            r@ == compress_graph(expressions@),
    {
        let mut graph: GraphEvaluator<F> = GraphEvaluator::default();
        graph.add_folding(expressions, ValueSource::Constant(0), ValueSource::Y());
        graph
    }

    fn for_lookup(lookup: &lookup::Argument<F>) -> (r: GraphEvaluator<F>)
        requires
            all_selector_free(lookup.input_expressions@),
            all_selector_free(lookup.table_expressions@),
        ensures
            r.wf(),
            r@ == lookup_graph(lookup.input_expressions@, lookup.table_expressions@),
    {
        let mut graph: GraphEvaluator<F> = GraphEvaluator::default();
        // Input coset
        let compressed_input_coset = graph.add_folding(
            &lookup.input_expressions,
            ValueSource::Constant(0),
            ValueSource::Theta(),
        );
        // table coset
        let compressed_table_coset = graph.add_folding(
            &lookup.table_expressions,
            ValueSource::Constant(0),
            ValueSource::Theta(),
        );
        // z(\omega X) (a'(X) + \beta) (s'(X) + \gamma)
        let right_gamma = graph.add_calculation(
            Calculation::Add(compressed_table_coset, ValueSource::Gamma()),
        );
        let lc = graph.add_calculation(
            Calculation::Add(compressed_input_coset, ValueSource::Beta()),
        );
        graph.add_calculation(Calculation::Mul(lc, right_gamma));
        graph
    }
}

impl<F: Field> Evaluator<F> {
    /// The graphs of gates and lookups.
    pub open spec fn evaluates(
        self,
        gates: Seq<GpuGate<F>>,
        lookups: Seq<lookup::Argument<F>>,
    ) -> bool {
        &&& self.custom_gates.wf()
        &&& self.custom_gates@ == custom_gates_graph(gates)
        &&& self.lookups@.len() == lookups.len()
        &&& forall|i: int|
            0 <= i < lookups.len() ==> {
                &&& (#[trigger] self.lookups@[i]).wf()
                &&& self.lookups@[i]@ == lookup_graph(
                    lookups[i].input_expressions@,
                    lookups[i].table_expressions@,
                )
            }
    }

    pub fn new_inner(gates: &Vec<GpuGate<F>>, lookups: &Vec<lookup::Argument<F>>) -> (r: Self)
        requires
            gates_selector_free(gates@),
            lookups_selector_free(lookups@),
        ensures
            r.evaluates(gates@, lookups@),
    {
        // Custom gates
        let mut custom_gates: GraphEvaluator<F> = GraphEvaluator::default();
        let mut parts: Vec<ValueSource> = Vec::new();
        let mut i: usize = 0;
        assert(gates@.take(0) =~= seq![]);
        while i < gates.len()
            invariant
                i <= gates@.len(),
                gates_selector_free(gates@),
                custom_gates.wf(),
                (custom_gates@, parts@) == empty_graph().with_expressions(
                    gate_polys(gates@.take(i as int)),
                ),
            decreases gates@.len() - i,
        {
            assert(gates@.take(i + 1).drop_last() =~= gates@.take(i as int));
            assert(all_selector_free(gates@[i as int].polys@));
            proof {
                lemma_with_expressions_append(
                    empty_graph(),
                    gate_polys(gates@.take(i as int)),
                    gates@[i as int].polys@,
                );
            }
            let mut more = custom_gates.add_expressions(gates[i].polynomials());
            parts.append(&mut more);
            i += 1;
        }
        assert(gates@.take(i as int) =~= gates@);
        custom_gates.add_calculation(
            Calculation::Horner(ValueSource::PreviousValue(), parts, ValueSource::Y()),
        );

        // Lookups
        let mut graphs: Vec<GraphEvaluator<F>> = Vec::new();
        let mut i: usize = 0;
        while i < lookups.len()
            invariant
                i <= lookups@.len(),
                lookups_selector_free(lookups@),
                graphs@.len() == i,
                forall|j: int|
                    0 <= j < i ==> {
                        &&& (#[trigger] graphs@[j]).wf()
                        &&& graphs@[j]@ == lookup_graph(
                            lookups@[j].input_expressions@,
                            lookups@[j].table_expressions@,
                        )
                    },
            decreases lookups@.len() - i,
        {
            assert(all_selector_free(lookups@[i as int].input_expressions@));
            graphs.push(GraphEvaluator::for_lookup(&lookups[i]));
            i += 1;
        }
        Evaluator { custom_gates, lookups: graphs }
    }

    /// Creates a new evaluation structure
    pub fn new(cs: &GpuConstraintSystem<F>) -> (r: Self)
        requires
            gates_selector_free(cs.gates@),
            lookups_selector_free(cs.lookups@),
        ensures
            r.evaluates(cs.gates@, cs.lookups@),
    {
        Self::new_inner(cs.gates(), cs.lookups())
    }
}

/// Whether a source is one that expressions give rise to.
pub open spec fn plain_source(s: ValueSource) -> bool {
    match s {
        ValueSource::Beta() => false,
        ValueSource::Gamma() => false,
        ValueSource::Theta() => false,
        ValueSource::Y() => false,
        ValueSource::PreviousValue() => false,
        _ => true,
    }
}

/// Whether a calculation is one that expressions give rise to: not Horner's
/// rule, and of no runtime scalar.
pub open spec fn plain(c: CalculationModel) -> bool {
    match c {
        CalculationModel::Add(a, b) => plain_source(a) && plain_source(b),
        CalculationModel::Sub(a, b) => plain_source(a) && plain_source(b),
        CalculationModel::Mul(a, b) => plain_source(a) && plain_source(b),
        CalculationModel::Square(a) => plain_source(a),
        CalculationModel::Double(a) => plain_source(a),
        CalculationModel::Negate(a) => plain_source(a),
        CalculationModel::Horner(_, _, _) => false,
        CalculationModel::Store(a) => plain_source(a),
    }
}

/// Whether a source is what an expression's value is read from.
pub open spec fn is_result(s: ValueSource) -> bool {
    s is Constant || s is Intermediate
}

/// Whether all calculations from position `n` on are plain.
pub open spec fn plain_from(g: GraphModel, n: nat) -> bool {
    forall|i: int| n <= i < g.calculations.len() ==> plain(#[trigger] g.calculations[i])
}

/// Adding an expression adds plain calculations only.
pub proof fn lemma_expression_plain<F: Field>(g: GraphModel, e: GpuExpression<F>, n: nat)
    requires
        n <= g.calculations.len(),
        plain_from(g, n),
    ensures
        g.calculations.len() <= g.with_expression(e).0.calculations.len(),
        plain_from(g.with_expression(e).0, n),
        is_result(g.with_expression(e).1),
    decreases e,
{
    match e {
        GpuExpression::Negated(a) => {
            lemma_expression_plain(g, *a, n);
        },
        GpuExpression::Sum(a, b) => {
            let h = g.with_expression(*a).0;
            lemma_expression_plain(g, *a, n);
            if let GpuExpression::Negated(b) = *b {
                lemma_expression_plain(h, *b, n);
            } else {
                lemma_expression_plain(h, *b, n);
            }
        },
        GpuExpression::Product(a, b) => {
            lemma_expression_plain(g, *a, n);
            lemma_expression_plain(g.with_expression(*a).0, *b, n);
        },
        GpuExpression::Scaled(a, f) => {
            lemma_expression_plain(g, *a, n);
            lemma_expression_plain(g.with_constant(f.val()), *a, n);
        },
        _ => {},
    }
}

/// Adding expressions adds plain calculations only.
pub proof fn lemma_expressions_plain<F: Field>(g: GraphModel, s: Seq<GpuExpression<F>>, n: nat)
    requires
        n <= g.calculations.len(),
        plain_from(g, n),
    ensures
        g.calculations.len() <= g.with_expressions(s).0.calculations.len(),
        plain_from(g.with_expressions(s).0, n),
        g.with_expressions(s).1.len() == s.len(),
        forall|i: int| 0 <= i < s.len() ==> is_result(#[trigger] g.with_expressions(s).1[i]),
    decreases s.len(),
{
    if s.len() > 0 {
        lemma_expressions_plain(g, s.drop_last(), n);
        lemma_expression_plain(g.with_expressions(s.drop_last()).0, s.last(), n);
    }
}

/// The values of expressions over given cells.
pub open spec fn values_of<F: Field>(s: Seq<GpuExpression<F>>, cells: CellValues) -> Seq<int> {
    Seq::new(s.len(), |i: int| s[i].value(cells))
}

/// Folding expressions gives a source with the folded value.
proof fn lemma_folding<F: Field>(
    g: GraphModel,
    s: Seq<GpuExpression<F>>,
    start: ValueSource,
    factor: ValueSource,
    cells: CellValues,
    scalars: RuntimeScalars,
)
    requires
        g.sound(),
        all_selector_free(s),
        cells.in_range(F::modulus()),
        folding(g, s, start, factor).0.fits(),
        g.valid(start, g.calculations.len()),
        g.valid(factor, g.calculations.len()),
    ensures
        ({
            let p = F::modulus();
            let (h, x) = folding(g, s, start, factor);
            &&& h.sound()
            &&& g.extends_to(h)
            &&& h.valid(x, h.calculations.len())
            &&& h.value_of(p, x, cells, scalars) == horner(
                p,
                g.value_of(p, start, cells, scalars),
                values_of(s, cells),
                g.value_of(p, factor, cells, scalars),
            )
        }),
{
    let p = F::modulus();
    let (h, parts) = g.with_expressions(s);
    lemma_find(h.calculations, CalculationModel::Horner(start, parts, factor));
    law_graph_computes_expressions(g, s, cells, scalars);
    lemma_value_stable(g, h, p, start, cells, scalars);
    lemma_value_stable(g, h, p, factor, cells, scalars);
    lemma_calculated(h, p, CalculationModel::Horner(start, parts, factor), cells, scalars);
    let value = |s: ValueSource|
        h.source(s, h.all_intermediates(p, cells, scalars), cells, scalars);
    assert forall|i: int| 0 <= i < s.len() implies value(parts[i]) == s[i].value(cells) by {
        assert(h.value_of(p, parts[i], cells, scalars) == s[i].value(cells));
    }
    assert(Seq::new(parts.len(), |i: int| value(parts[i])) =~= values_of(s, cells));
}

/// A calculation that is not there yet becomes the last one.
proof fn lemma_new_calculation_is_last(
    g: GraphModel,
    p: int,
    c: CalculationModel,
    cells: CellValues,
    scalars: RuntimeScalars,
)
    requires
        g.sound(),
        g.with_calculation(c).fits(),
        g.valid_calculation(c, g.calculations.len()),
        forall|i: int| 0 <= i < g.calculations.len() ==> #[trigger] g.calculations[i] != c,
    ensures
        g.with_calculation(c).calculations == g.calculations.push(c),
        g.intermediate(c) == ValueSource::Intermediate(g.calculations.len() as usize),
        g.with_calculation(c).value(p, cells, scalars) == g.with_calculation(c).value_of(
            p,
            g.intermediate(c),
            cells,
            scalars,
        ),
{
    lemma_find_is(g.calculations, c, g.calculations.len() as int);
    let h = g.with_calculation(c);
    crate::plonk::graph_values::lemma_intermediates_prefix(
        h,
        p,
        h.calculations.len(),
        h.calculations.len(),
        cells,
        scalars,
    );
}

/// The graph of the custom gates folds the values of all gate polynomials into
/// the previous value by powers of `y`.
pub proof fn law_custom_gates_value<F: Field>(
    gates: Seq<GpuGate<F>>,
    cells: CellValues,
    scalars: RuntimeScalars,
)
    requires
        all_selector_free(gate_polys(gates)),
        cells.in_range(F::modulus()),
        custom_gates_graph(gates).fits(),
    ensures
        custom_gates_graph(gates).sound(),
        custom_gates_graph(gates).value(F::modulus(), cells, scalars) == horner(
            F::modulus(),
            scalars.previous,
            values_of(gate_polys(gates), cells),
            scalars.y,
        ),
{
    let s = gate_polys(gates);
    lemma_fold_value(s, ValueSource::PreviousValue(), ValueSource::Y(), cells, scalars);
}

/// The graph of an expression list folds the values of the expressions by `y`.
pub proof fn law_compress_value<F: Field>(
    s: Seq<GpuExpression<F>>,
    cells: CellValues,
    scalars: RuntimeScalars,
)
    requires
        all_selector_free(s),
        cells.in_range(F::modulus()),
        compress_graph(s).fits(),
    ensures
        compress_graph(s).sound(),
        compress_graph(s).value(F::modulus(), cells, scalars) == horner(
            F::modulus(),
            0,
            values_of(s, cells),
            scalars.y,
        ),
{
    lemma_fold_value(s, zero_source(), ValueSource::Y(), cells, scalars);
}

proof fn lemma_fold_value<F: Field>(
    s: Seq<GpuExpression<F>>,
    start: ValueSource,
    factor: ValueSource,
    cells: CellValues,
    scalars: RuntimeScalars,
)
    requires
        all_selector_free(s),
        cells.in_range(F::modulus()),
        folding(empty_graph(), s, start, factor).0.fits(),
        empty_graph().valid(start, 0),
        empty_graph().valid(factor, 0),
    ensures
        ({
            let g = folding(empty_graph(), s, start, factor).0;
            &&& g.sound()
            &&& g.value(F::modulus(), cells, scalars) == horner(
                F::modulus(),
                empty_graph().value_of(F::modulus(), start, cells, scalars),
                values_of(s, cells),
                empty_graph().value_of(F::modulus(), factor, cells, scalars),
            )
        }),
{
    let p = F::modulus();
    let g = empty_graph();
    let (h, parts) = g.with_expressions(s);
    let c = CalculationModel::Horner(start, parts, factor);
    lemma_folding(g, s, start, factor, cells, scalars);
    lemma_expressions_plain(g, s, 0);
    lemma_find(h.calculations, c);
    law_graph_computes_expressions(g, s, cells, scalars);
    lemma_value_stable(g, h, p, start, cells, scalars);
    lemma_value_stable(g, h, p, factor, cells, scalars);
    assert forall|i: int| 0 <= i < h.calculations.len() implies #[trigger] h.calculations[i]
        != c by {
        assert(plain(h.calculations[i]));
    }
    lemma_new_calculation_is_last(h, p, c, cells, scalars);
}

/// The graph of a lookup has the value `(input + beta) (table + gamma)`, where
/// input and table are the values of the lookup's expressions, folded by `theta`.
pub proof fn law_lookup_value<F: Field>(
    inputs: Seq<GpuExpression<F>>,
    tables: Seq<GpuExpression<F>>,
    cells: CellValues,
    scalars: RuntimeScalars,
)
    requires
        all_selector_free(inputs),
        all_selector_free(tables),
        cells.in_range(F::modulus()),
        lookup_graph(inputs, tables).fits(),
    ensures
        lookup_graph(inputs, tables).sound(),
        lookup_graph(inputs, tables).value(F::modulus(), cells, scalars) == fmul(
            F::modulus(),
            fadd(
                F::modulus(),
                horner(F::modulus(), 0, values_of(inputs, cells), scalars.theta),
                scalars.beta,
            ),
            fadd(
                F::modulus(),
                horner(F::modulus(), 0, values_of(tables, cells), scalars.theta),
                scalars.gamma,
            ),
        ),
{
    let p = F::modulus();
    let g0 = empty_graph();
    let (h1, parts1) = g0.with_expressions(inputs);
    let c1 = CalculationModel::Horner(zero_source(), parts1, ValueSource::Theta());
    let (g1, input) = folding(g0, inputs, zero_source(), ValueSource::Theta());
    let (h2, parts2) = g1.with_expressions(tables);
    let c2 = CalculationModel::Horner(zero_source(), parts2, ValueSource::Theta());
    let (g2, table) = folding(g1, tables, zero_source(), ValueSource::Theta());
    let c3 = CalculationModel::Add(table, ValueSource::Gamma());
    let (g3, right) = g2.calculated(c3);
    let c4 = CalculationModel::Add(input, ValueSource::Beta());
    let (g4, left) = g3.calculated(c4);
    let c5 = CalculationModel::Mul(left, right);
    // What the calculations look like.
    lemma_expressions_plain(g0, inputs, 0);
    lemma_find(h1.calculations, c1);
    assert forall|i: int| 0 <= i < h1.calculations.len() implies #[trigger] h1.calculations[i]
        != c1 by {
        assert(plain(h1.calculations[i]));
    }
    assert(g1.calculations =~= h1.calculations.push(c1));
    let n = g1.calculations.len();
    lemma_expressions_plain(g1, tables, n);
    lemma_expressions_extend(g1, tables);
    lemma_find(h2.calculations, c2);
    lemma_find(g2.calculations, c3);
    lemma_find(g3.calculations, c4);
    lemma_find(g4.calculations, c5);
    // Sums with runtime scalars are new.
    assert forall|i: int| 0 <= i < h2.calculations.len() implies plain(
        #[trigger] h2.calculations[i],
    ) || h2.calculations[i] == c1 by {
        if i < n {
            assert(h2.calculations[i] == g1.calculations[i]);
            if i < n - 1 {
                assert(plain(h1.calculations[i]));
            }
        }
    }
    assert forall|i: int| 0 <= i < g2.calculations.len() implies plain(
        #[trigger] g2.calculations[i],
    ) || g2.calculations[i] == c1 || g2.calculations[i] == c2 by {
        if i < h2.calculations.len() {
            assert(g2.calculations[i] == h2.calculations[i]);
        }
    }
    // Values.
    lemma_folding(g0, inputs, zero_source(), ValueSource::Theta(), cells, scalars);
    lemma_folding(g1, tables, zero_source(), ValueSource::Theta(), cells, scalars);
    lemma_value_stable(g1, g2, p, input, cells, scalars);
    lemma_new_calculation_is_last(g2, p, c3, cells, scalars);
    lemma_calculated(g2, p, c3, cells, scalars);
    lemma_value_stable(g2, g3, p, input, cells, scalars);
    assert forall|i: int| 0 <= i < g3.calculations.len() implies #[trigger] g3.calculations[i]
        != c4 by {
        if i < g2.calculations.len() {
            assert(g3.calculations[i] == g2.calculations[i]);
        }
    }
    lemma_new_calculation_is_last(g3, p, c4, cells, scalars);
    lemma_calculated(g3, p, c4, cells, scalars);
    lemma_value_stable(g3, g4, p, right, cells, scalars);
    assert forall|i: int| 0 <= i < g4.calculations.len() implies #[trigger] g4.calculations[i]
        != c5 by {
        assert(g4.valid_calculation(g4.calculations[i], i as nat));
    }
    lemma_new_calculation_is_last(g4, p, c5, cells, scalars);
    lemma_calculated(g4, p, c5, cells, scalars);
}

/// The graph of expressions begins with the graph that they were added to.
pub proof fn lemma_expressions_extend<F: Field>(g: GraphModel, s: Seq<GpuExpression<F>>)
    ensures
        g.extends_to(g.with_expressions(s).0),
    decreases s.len(),
{
    if s.len() > 0 {
        lemma_expressions_extend(g, s.drop_last());
        lemma_expression_extends(g.with_expressions(s.drop_last()).0, s.last());
    }
}

} // verus!
