//! The shape of expression graphs, and what small pieces stand for.

use crate::field::{
    fneg, is_inverse, lemma_finv_is, lemma_finv_zero, lemma_fmul_assoc, lemma_fmul_comm,
    lemma_units, vals, Field,
};
use crate::plonk::assigned::{AssignedModel, GpuAssigned};
use crate::plonk::circuit::{
    GpuAdviceQuery, GpuAny, GpuChallenge, GpuFixedQuery, GpuInstanceQuery, GpuSelector,
};
use crate::plonk::evaluations::value_at;
use crate::plonk::expression::{cell_expression, CellValues, GpuExpression};
use crate::plonk::graph::{find, lemma_find, CalculationModel, GraphModel, ValueSource};
use crate::plonk::witness::column_values;
use crate::poly::{Coeff, Polynomial, Rotation};
use crate::poly::arithmetic::poly_eval;
use crate::poly::domain::EvaluationDomain;
use vstd::prelude::*;
use vstd::std_specs::ops::MulSpec;

verus! {

/// Adding a calculation that is there changes nothing; one that is not goes to the end. The
/// result is read from where it stands.
pub proof fn law_calculations_are_shared(g: GraphModel, c: CalculationModel)
    requires
        g.calculations.len() < usize::MAX,
    ensures
        g.calculations.contains(c) ==> g.calculated(c).0 == g,
        !g.calculations.contains(c) ==> g.calculated(c).0 == (GraphModel {
            calculations: g.calculations.push(c),
            ..g
        }),
        g.calculated(c).1 matches ValueSource::Intermediate(i) && i < g.calculated(
            c,
        ).0.calculations.len() && g.calculated(c).0.calculations[i as int] == c,
{
    lemma_find(g.calculations, c);
}

/// How single values come into a graph: a constant among its constants, a challenge and a
/// cell by a calculation that stores them, a cell with its rotation among the rotations.
/// Scaling by zero gives zero, and by one nothing more than the expression itself.
pub proof fn law_single_values<F: Field>(
    g: GraphModel,
    scalar: F,
    e: GpuExpression<F>,
    fixed: GpuFixedQuery,
    advice: GpuAdviceQuery,
    instance: GpuInstanceQuery,
    challenge: GpuChallenge,
)
    requires
        g.constants.len() < usize::MAX,
        g.rotations.len() < usize::MAX,
    ensures
        g.with_expression(GpuExpression::Constant(scalar)).1 matches ValueSource::Constant(i) && i
            < g.with_expression(GpuExpression::Constant(scalar)).0.constants.len()
            && g.with_expression(GpuExpression::Constant(scalar)).0.constants[i as int]
            == scalar.val(),
        g.with_expression(GpuExpression::Constant(scalar)).0.calculations == g.calculations,
        g.with_expression(GpuExpression::<F>::Challenge(challenge)) == g.calculated(
            CalculationModel::Store(ValueSource::Challenge(challenge.index)),
        ),
        exists|at: usize|
            at < g.with_rotation(fixed.rotation).rotations.len() && #[trigger] g.with_rotation(
                fixed.rotation,
            ).rotations[at as int] == fixed.rotation.0 && g.with_expression(
                GpuExpression::<F>::Fixed(fixed),
            ) == g.with_rotation(fixed.rotation).calculated(
                CalculationModel::Store(ValueSource::Fixed(fixed.column_index, at)),
            ),
        exists|at: usize|
            at < g.with_rotation(advice.rotation).rotations.len() && #[trigger] g.with_rotation(
                advice.rotation,
            ).rotations[at as int] == advice.rotation.0 && g.with_expression(
                GpuExpression::<F>::Advice(advice),
            ) == g.with_rotation(advice.rotation).calculated(
                CalculationModel::Store(ValueSource::Advice(advice.column_index, at)),
            ),
        exists|at: usize|
            at < g.with_rotation(instance.rotation).rotations.len() && #[trigger] g.with_rotation(
                instance.rotation,
            ).rotations[at as int] == instance.rotation.0 && g.with_expression(
                GpuExpression::<F>::Instance(instance),
            ) == g.with_rotation(instance.rotation).calculated(
                CalculationModel::Store(ValueSource::Instance(instance.column_index, at)),
            ),
        scalar.val() == 0 ==> g.with_expression(MulSpec::<F>::mul_spec(e, scalar)) == (
            g,
            ValueSource::Constant(0),
        ),
        scalar.val() == 1 ==> g.with_expression(MulSpec::<F>::mul_spec(e, scalar))
            == g.with_expression(e),
{
    lemma_find(g.constants, scalar.val());
    lemma_find(g.rotations, fixed.rotation.0);
    lemma_find(g.rotations, advice.rotation.0);
    lemma_find(g.rotations, instance.rotation.0);
    let a = find(g.rotations, fixed.rotation.0) as usize;
    assert(g.with_rotation(fixed.rotation).rotations[a as int] == fixed.rotation.0);
    let b = find(g.rotations, advice.rotation.0) as usize;
    assert(g.with_rotation(advice.rotation).rotations[b as int] == advice.rotation.0);
    let c = find(g.rotations, instance.rotation.0) as usize;
    assert(g.with_rotation(instance.rotation).rotations[c as int] == instance.rotation.0);
}

/// Sums: zero adds nothing; otherwise there is one addition, of the source that comes first
/// in the order of sources and the other.
pub proof fn law_sums(g: GraphModel, a: ValueSource, b: ValueSource)
    ensures
        g.with_sum(ValueSource::Constant(0), b) == (g, b),
        a != ValueSource::Constant(0) ==> g.with_sum(a, ValueSource::Constant(0)) == (g, a),
        a != ValueSource::Constant(0) && b != ValueSource::Constant(0) ==> g.with_sum(a, b)
            == g.with_sum(b, a),
        a != ValueSource::Constant(0) && b != ValueSource::Constant(0) && a.at_most(b)
            ==> g.with_sum(a, b) == g.calculated(CalculationModel::Add(a, b)),
{
}

/// Differences: from zero there is a negation, less zero nothing is done, and otherwise
/// there is one subtraction.
pub proof fn law_differences(g: GraphModel, a: ValueSource, b: ValueSource)
    ensures
        g.with_difference(ValueSource::Constant(0), b) == g.calculated(
            CalculationModel::Negate(b),
        ),
        a != ValueSource::Constant(0) ==> g.with_difference(a, ValueSource::Constant(0)) == (g, a),
        a != ValueSource::Constant(0) && b != ValueSource::Constant(0) ==> g.with_difference(a, b)
            == g.calculated(CalculationModel::Sub(a, b)),
{
}

/// Products: zero gives zero, one gives the other factor, two doubles it, a factor by
/// itself is squared, and otherwise there is one multiplication, of the source that comes
/// first in the order of sources and the other.
pub proof fn law_products(g: GraphModel, a: ValueSource, b: ValueSource)
    ensures
        a == ValueSource::Constant(0) || b == ValueSource::Constant(0) ==> g.with_product(a, b)
            == (g, ValueSource::Constant(0)),
        a == ValueSource::Constant(1) && b != ValueSource::Constant(0) ==> g.with_product(a, b) == (
            g,
            b,
        ) && g.with_product(b, a) == (g, b),
        a == ValueSource::Constant(2) && b != ValueSource::Constant(0) && b
            != ValueSource::Constant(1) ==> g.with_product(a, b) == g.calculated(
            CalculationModel::Double(b),
        ) && g.with_product(b, a) == g.calculated(CalculationModel::Double(b)),
        a != ValueSource::Constant(0) && a != ValueSource::Constant(1) && a
            != ValueSource::Constant(2) ==> g.with_product(a, a) == g.calculated(
            CalculationModel::Square(a),
        ),
        a != b && a != ValueSource::Constant(0) && a != ValueSource::Constant(1) && a
            != ValueSource::Constant(2) && b != ValueSource::Constant(0) && b
            != ValueSource::Constant(1) && b != ValueSource::Constant(2) ==> g.with_product(a, b)
            == g.with_product(b, a) && (a.at_most(b) ==> g.with_product(a, b) == g.calculated(
            CalculationModel::Mul(a, b),
        )),
{
}

/// Sources are ordered by their kind first: constants, intermediate values, fixed, advice
/// and instance columns, challenges; and by their positions then.
pub proof fn law_sources_are_ordered(i: usize, j: usize, k: usize, l: usize)
    ensures
        ValueSource::Constant(i).at_most(ValueSource::Intermediate(j)),
        ValueSource::Intermediate(i).at_most(ValueSource::Fixed(j, k)),
        ValueSource::Fixed(i, j).at_most(ValueSource::Advice(k, l)),
        ValueSource::Advice(i, j).at_most(ValueSource::Instance(k, l)),
        ValueSource::Instance(i, j).at_most(ValueSource::Challenge(k)),
        ValueSource::Challenge(i).at_most(ValueSource::Beta()),
        ValueSource::Beta().at_most(ValueSource::Gamma()),
        ValueSource::Gamma().at_most(ValueSource::Theta()),
        ValueSource::Theta().at_most(ValueSource::Y()),
        ValueSource::Y().at_most(ValueSource::PreviousValue()),
        !ValueSource::Intermediate(j).at_most(ValueSource::Constant(i)),
        !ValueSource::Fixed(j, k).at_most(ValueSource::Intermediate(i)),
        !ValueSource::Advice(k, l).at_most(ValueSource::Fixed(i, j)),
        !ValueSource::Instance(k, l).at_most(ValueSource::Advice(i, j)),
        !ValueSource::Challenge(k).at_most(ValueSource::Instance(i, j)),
        ValueSource::Constant(i).at_most(ValueSource::Constant(j)) <==> i <= j,
        ValueSource::Intermediate(i).at_most(ValueSource::Intermediate(j)) <==> i <= j,
        ValueSource::Challenge(i).at_most(ValueSource::Challenge(j)) <==> i <= j,
        ValueSource::Fixed(i, j).at_most(ValueSource::Fixed(k, l)) <==> i < k || i == k && j <= l,
        ValueSource::Advice(i, j).at_most(ValueSource::Advice(k, l)) <==> i < k || i == k && j
            <= l,
        ValueSource::Instance(i, j).at_most(ValueSource::Instance(k, l)) <==> i < k || i == k && j
            <= l,
{
}

/// What an assigned value stands for: a fraction, times its denominator, is its numerator,
/// and one over zero is zero.
pub proof fn law_assigned_values(p: int, x: int, n: int, d: int, inverse: int)
    requires
        p > 1,
        0 <= n < p,
    ensures
        AssignedModel::Zero.value(p) == 0,
        AssignedModel::Trivial(x).value(p) == x,
        is_inverse(p, d, inverse) ==> (AssignedModel::Rational(n, d).value(p) * d) % p == n,
        AssignedModel::Rational(n, 0).value(p) == 0,
{
    lemma_finv_zero(p);
    assert(n * 0 == 0);
    vstd::arithmetic::div_mod::lemma_small_mod(0, p as nat);
    if is_inverse(p, d, inverse) {
        lemma_finv_is(p, d, inverse);
        lemma_fmul_assoc(p, n, inverse, d);
        lemma_fmul_comm(p, inverse, d);
        lemma_units(p, n);
    }
}

/// A cell of a column stands for the value of that column at the rotation; cells of columns
/// that lie one after another stand where column and row say.
pub proof fn law_cells<F: Field>(
    any: GpuAny,
    index: usize,
    at: Rotation,
    cells: CellValues,
    advice: Seq<GpuAssigned<F>>,
    n: nat,
    column: int,
    row: int,
)
    requires
        0 <= row < n,
    ensures
        any is Advice ==> cell_expression::<F>(any, index, at).value(cells) == (cells.advice)(
            index,
            at,
        ),
        any is Fixed ==> cell_expression::<F>(any, index, at).value(cells) == (cells.fixed)(
            index,
            at,
        ),
        any is Instance ==> cell_expression::<F>(any, index, at).value(cells) == (cells.instance)(
            index,
            at,
        ),
        column_values(advice, n, column).len() == n,
        column_values(advice, n, column)[row] == advice[column * n + row]@.value(F::modulus()),
{
}

/// An evaluation at a rotation is the value of the polynomial at the point, times the
/// domain's root to the power of the rotation.
pub proof fn law_evaluations<F: Field>(
    domain: EvaluationDomain<F>,
    poly: Polynomial<F, Coeff>,
    x: F,
    at: Rotation,
)
    ensures
        value_at(domain, poly, x, at) == poly_eval(
            F::modulus(),
            vals(poly@),
            (x.val() * domain.omega_power(at.0 as int)) % F::modulus(),
        ),
{
}

/// How operators enter a graph: their operands first, from left to right. A negated constant
/// is a constant, zero is not negated, adding a negation is subtracting, and a factor other
/// than zero and one is multiplied from the right.
pub proof fn law_operators_enter<F: Field>(
    g: GraphModel,
    c: F,
    a: GpuExpression<F>,
    b: GpuExpression<F>,
)
    requires
        g.constants.len() < usize::MAX,
        g.rotations.len() < usize::MAX,
    ensures
        ({
            let (h, x) = g.with_expression(
                GpuExpression::Negated(Box::new(GpuExpression::Constant(c))),
            );
            &&& h.calculations == g.calculations
            &&& x matches ValueSource::Constant(i) && i < h.constants.len()
                && h.constants[i as int] == (-c.val()) % F::modulus()
        }),
        !(a is Constant) ==> ({
            let (h, x) = g.with_expression(a);
            g.with_expression(GpuExpression::Negated(Box::new(a))) == if x
                == ValueSource::Constant(0) {
                (h, x)
            } else {
                h.calculated(CalculationModel::Negate(x))
            }
        }),
        ({
            let (h, x) = g.with_expression(a);
            let (k, y) = h.with_expression(b);
            &&& g.with_expression(GpuExpression::Product(Box::new(a), Box::new(b)))
                == k.with_product(x, y)
            &&& !(b is Negated) ==> g.with_expression(
                GpuExpression::Sum(Box::new(a), Box::new(b)),
            ) == k.with_sum(x, y)
            &&& g.with_expression(
                GpuExpression::Sum(Box::new(a), Box::new(GpuExpression::Negated(Box::new(b)))),
            ) == k.with_difference(x, y)
        }),
        c.val() != 0 && c.val() != 1 ==> exists|i: usize|
            {
                let (k, x) = g.with_constant(c.val()).with_expression(a);
                &&& i < g.with_constant(c.val()).constants.len()
                &&& #[trigger] g.with_constant(c.val()).constants[i as int] == c.val()
                &&& g.with_expression(GpuExpression::Scaled(Box::new(a), c)) == k.calculated(
                    CalculationModel::Mul(x, ValueSource::Constant(i)),
                )
            },
{
    let p = F::modulus();
    lemma_find(g.constants, fneg(p, c.val()));
    lemma_find(g.constants, c.val());
    let i = find(g.constants, c.val()) as usize;
    assert(g.with_constant(c.val()).constants[i as int] == c.val());
}

/// The simple selectors of an expression are those of its operands, from left to right.
pub proof fn law_simple_selectors<F: Field>(
    s: GpuSelector,
    c: F,
    a: GpuExpression<F>,
    b: GpuExpression<F>,
)
    ensures
        GpuExpression::<F>::Selector(s).has_simple_selector() <==> s.1,
        s.1 ==> GpuExpression::<F>::Selector(s).simple_selectors() == seq![s],
        !GpuExpression::Constant(c).has_simple_selector(),
        GpuExpression::Negated(Box::new(a)).simple_selectors() == a.simple_selectors(),
        GpuExpression::Scaled(Box::new(a), c).simple_selectors() == a.simple_selectors(),
        GpuExpression::Sum(Box::new(a), Box::new(b)).simple_selectors() == a.simple_selectors()
            + b.simple_selectors(),
        GpuExpression::Product(Box::new(a), Box::new(b)).simple_selectors()
            == a.simple_selectors() + b.simple_selectors(),
        a.has_simple_selector() <==> a.simple_selectors().len() >= 1,
{
}

} // verus!
