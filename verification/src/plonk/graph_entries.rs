//! What the lists of a graph hold: no entry occurs twice, and expressions are
//! computed by constants and intermediate values.

use crate::field::Field;
use crate::plonk::circuit::GpuSelector;
use crate::plonk::expression::{CellValues, GpuExpression};
use crate::plonk::graph::{
    all_selector_free, empty_graph, find, lemma_find, selector_free, with_found, CalculationModel,
    GraphModel, ValueSource,
};
use crate::plonk::graph_values::{
    law_graph_computes_expression, law_graph_computes_expressions, RuntimeScalars,
};
use crate::poly::Rotation;
use vstd::prelude::*;

verus! {

impl GraphModel {
    /// Whether no constant, no rotation and no calculation occurs twice.
    pub open spec fn distinct(self) -> bool {
        &&& self.constants.no_duplicates()
        &&& self.rotations.no_duplicates()
        &&& self.calculations.no_duplicates()
    }

    /// Whether a source is one of the graph's constants or intermediate values.
    pub open spec fn computed(self, s: ValueSource) -> bool {
        match s {
            ValueSource::Constant(i) => i < self.constants.len(),
            ValueSource::Intermediate(i) => i < self.calculations.len(),
            _ => false,
        }
    }
}

proof fn lemma_with_found<T>(s: Seq<T>, x: T)
    requires
        s.no_duplicates(),
    ensures
        with_found(s, x).no_duplicates(),
{
    lemma_find(s, x);
}

/// A new graph holds nothing twice.
pub proof fn law_new_graph_is_distinct()
    ensures
        empty_graph().distinct(),
{
}

/// Adding a rotation, a constant or a calculation to a graph that holds nothing
/// twice gives such a graph.
pub proof fn law_additions_stay_distinct(
    g: GraphModel,
    rotation: Rotation,
    constant: int,
    calculation: CalculationModel,
)
    requires
        g.distinct(),
    ensures
        g.with_rotation(rotation).distinct(),
        g.with_constant(constant).distinct(),
        g.with_calculation(calculation).distinct(),
{
    lemma_with_found(g.rotations, rotation.0);
    lemma_with_found(g.constants, constant);
    lemma_with_found(g.calculations, calculation);
}

/// A calculation's graph, and what kind of source its result is.
proof fn lemma_calculated(g: GraphModel, c: CalculationModel)
    requires
        g.distinct(),
    ensures
        g.calculated(c).0.distinct(),
        g.calculated(c).1 is Intermediate,
{
    lemma_with_found(g.calculations, c);
}

proof fn lemma_cell(g: GraphModel, rotation: Rotation, cell: spec_fn(usize) -> ValueSource)
    requires
        g.distinct(),
    ensures
        g.with_cell(rotation, cell).0.distinct(),
        g.with_cell(rotation, cell).1 is Intermediate,
{
    lemma_with_found(g.rotations, rotation.0);
    lemma_calculated(
        g.with_rotation(rotation),
        CalculationModel::Store(cell(find(g.rotations, rotation.0) as usize)),
    );
}

/// The graph of an expression holds nothing twice, and the expression is computed
/// by a constant or an intermediate value.
proof fn lemma_expression_entries<F: Field>(g: GraphModel, e: GpuExpression<F>)
    requires
        g.distinct(),
        selector_free(e),
    ensures
        g.with_expression(e).0.distinct(),
        g.with_expression(e).1 is Constant || g.with_expression(e).1 is Intermediate,
    decreases e,
{
    let p = F::modulus();
    match e {
        GpuExpression::Constant(scalar) => {
            lemma_with_found(g.constants, scalar.val());
        },
        GpuExpression::Selector(_) => {},
        GpuExpression::Fixed(query) => {
            lemma_cell(
                g,
                query.rotation,
                |at: usize| ValueSource::Fixed(query.column_index, at),
            );
        },
        GpuExpression::Advice(query) => {
            lemma_cell(
                g,
                query.rotation,
                |at: usize| ValueSource::Advice(query.column_index, at),
            );
        },
        GpuExpression::Instance(query) => {
            lemma_cell(
                g,
                query.rotation,
                |at: usize| ValueSource::Instance(query.column_index, at),
            );
        },
        GpuExpression::Challenge(challenge) => {
            lemma_calculated(g, CalculationModel::Store(ValueSource::Challenge(challenge.index)));
        },
        GpuExpression::Negated(a) => match *a {
            GpuExpression::Constant(scalar) => {
                lemma_with_found(g.constants, crate::field::fneg(p, scalar.val()));
            },
            _ => {
                lemma_expression_entries(g, *a);
                let (h, x) = g.with_expression(*a);
                lemma_calculated(h, CalculationModel::Negate(x));
            },
        },
        GpuExpression::Sum(a, b) => {
            lemma_expression_entries(g, *a);
            let (h, x) = g.with_expression(*a);
            assert(selector_free(*b));
            match *b {
                GpuExpression::Negated(c) => {
                    lemma_expression_entries(h, *c);
                    let (k, y) = h.with_expression(*c);
                    lemma_calculated(k, CalculationModel::Negate(y));
                    lemma_calculated(k, CalculationModel::Sub(x, y));
                },
                _ => {
                    lemma_expression_entries(h, *b);
                    let (k, y) = h.with_expression(*b);
                    lemma_calculated(k, CalculationModel::Add(x, y));
                    lemma_calculated(k, CalculationModel::Add(y, x));
                },
            }
        },
        GpuExpression::Product(a, b) => {
            lemma_expression_entries(g, *a);
            let (h, x) = g.with_expression(*a);
            lemma_expression_entries(h, *b);
            let (k, y) = h.with_expression(*b);
            lemma_calculated(k, CalculationModel::Double(x));
            lemma_calculated(k, CalculationModel::Double(y));
            lemma_calculated(k, CalculationModel::Square(x));
            lemma_calculated(k, CalculationModel::Mul(x, y));
            lemma_calculated(k, CalculationModel::Mul(y, x));
        },
        GpuExpression::Scaled(a, f) => {
            lemma_expression_entries(g, *a);
            lemma_with_found(g.constants, f.val());
            let h = g.with_constant(f.val());
            lemma_expression_entries(h, *a);
            let (k, x) = h.with_expression(*a);
            lemma_calculated(k, CalculationModel::Mul(x, g.constant(f.val())));
        },
    }
}

/// Cells that all hold zero.
pub open spec fn zero_cells() -> CellValues {
    CellValues {
        selector: |s: GpuSelector| 0int,
        fixed: |c: usize, r: Rotation| 0int,
        advice: |c: usize, r: Rotation| 0int,
        instance: |c: usize, r: Rotation| 0int,
        challenge: |i: usize| 0int,
    }
}

/// Adding an expression to a graph that holds nothing twice gives such a graph,
/// of which the old one is the beginning. The expression's value is one of its
/// constants or intermediate values, and each calculation still reads earlier
/// ones alone.
pub proof fn law_expression_entries<F: Field>(g: GraphModel, e: GpuExpression<F>)
    requires
        g.sound(),
        g.distinct(),
        selector_free(e),
        g.with_expression(e).0.fits(),
    ensures
        ({
            let (h, s) = g.with_expression(e);
            &&& h.sound()
            &&& h.distinct()
            &&& g.extends_to(h)
            &&& h.computed(s)
        }),
{
    F::lemma_modulus();
    let scalars = RuntimeScalars { beta: 0, gamma: 0, theta: 0, y: 0, previous: 0 };
    lemma_expression_entries(g, e);
    law_graph_computes_expression(g, e, zero_cells(), scalars);
}

/// The same of a list of expressions.
pub proof fn law_expressions_entries<F: Field>(g: GraphModel, s: Seq<GpuExpression<F>>)
    requires
        g.sound(),
        g.distinct(),
        all_selector_free(s),
        g.with_expressions(s).0.fits(),
    ensures
        ({
            let (h, sources) = g.with_expressions(s);
            &&& h.sound()
            &&& h.distinct()
            &&& g.extends_to(h)
            &&& sources.len() == s.len()
            &&& forall|i: int| 0 <= i < s.len() ==> h.computed(#[trigger] sources[i])
        }),
{
    F::lemma_modulus();
    let scalars = RuntimeScalars { beta: 0, gamma: 0, theta: 0, y: 0, previous: 0 };
    lemma_expressions_entries(g, s);
    law_graph_computes_expressions(g, s, zero_cells(), scalars);
    let (h, sources) = g.with_expressions(s);
    assert forall|i: int| 0 <= i < s.len() implies h.computed(#[trigger] sources[i]) by {
        assert(h.valid(sources[i], h.calculations.len()));
    }
}

proof fn lemma_expressions_entries<F: Field>(g: GraphModel, s: Seq<GpuExpression<F>>)
    requires
        g.distinct(),
        all_selector_free(s),
    ensures
        g.with_expressions(s).0.distinct(),
        g.with_expressions(s).1.len() == s.len(),
        forall|i: int|
            0 <= i < s.len() ==> (#[trigger] g.with_expressions(s).1[i]) is Constant
                || g.with_expressions(s).1[i] is Intermediate,
    decreases s.len(),
{
    if s.len() > 0 {
        let front = s.drop_last();
        assert forall|i: int| 0 <= i < front.len() implies selector_free(#[trigger] front[i]) by {
            assert(selector_free(s[i]));
        }
        lemma_expressions_entries(g, front);
        assert(selector_free(s[s.len() - 1]));
        lemma_expression_entries(g.with_expressions(front).0, s.last());
    }
}

} // verus!
