//! The order in which queries are registered, and what registering them keeps.

use crate::field::Field;
use crate::plonk::circuit::{
    GpuAdvice, GpuAdviceQuery, GpuColumn, GpuFirstPhase, GpuFixed, GpuFixedQuery, GpuInstance,
    GpuInstanceQuery, GpuSecondPhase, GpuSelector, GpuTableColumn, GpuThirdPhase, Phase,
    SealedPhase,
};
use crate::plonk::constraint_system::max_phase;
use crate::plonk::expression::{CellValues, GpuExpression};
use crate::plonk::gates::{interleaved, joined, swapped, table_pairs};
use crate::plonk::queries::{lemma_with_queries_append, with_queries};
use crate::poly::Rotation;
use vstd::prelude::*;
use vstd::std_specs::ops::{AddSpec, MulSpec, NegSpec};

verus! {

/// Queries are registered from left to right: those of the left operand before those of
/// the right one.
pub proof fn law_queries_left_to_right<F: Field>(
    a: GpuExpression<F>,
    b: GpuExpression<F>,
    scalar: F,
)
    ensures
        AddSpec::add_spec(a, b).pending_fixed() == a.pending_fixed() + b.pending_fixed(),
        AddSpec::add_spec(a, b).pending_advice() == a.pending_advice() + b.pending_advice(),
        AddSpec::add_spec(a, b).pending_instance() == a.pending_instance() + b.pending_instance(),
        AddSpec::add_spec(a, b).pending_cells() == a.pending_cells() + b.pending_cells(),
        AddSpec::add_spec(a, b).selectors() == a.selectors() + b.selectors(),
        AddSpec::add_spec(a, b).simple_selectors() == a.simple_selectors() + b.simple_selectors(),
        MulSpec::<GpuExpression<F>>::mul_spec(a, b).pending_fixed() == a.pending_fixed()
            + b.pending_fixed(),
        MulSpec::<GpuExpression<F>>::mul_spec(a, b).pending_advice() == a.pending_advice()
            + b.pending_advice(),
        MulSpec::<GpuExpression<F>>::mul_spec(a, b).pending_instance() == a.pending_instance()
            + b.pending_instance(),
        MulSpec::<GpuExpression<F>>::mul_spec(a, b).pending_cells() == a.pending_cells()
            + b.pending_cells(),
        MulSpec::<GpuExpression<F>>::mul_spec(a, b).selectors() == a.selectors() + b.selectors(),
        MulSpec::<GpuExpression<F>>::mul_spec(a, b).simple_selectors() == a.simple_selectors()
            + b.simple_selectors(),
        NegSpec::neg_spec(a).pending_fixed() == a.pending_fixed(),
        NegSpec::neg_spec(a).pending_advice() == a.pending_advice(),
        NegSpec::neg_spec(a).pending_instance() == a.pending_instance(),
        NegSpec::neg_spec(a).pending_cells() == a.pending_cells(),
        NegSpec::neg_spec(a).selectors() == a.selectors(),
        NegSpec::neg_spec(a).simple_selectors() == a.simple_selectors(),
        MulSpec::<F>::mul_spec(a, scalar).pending_fixed() == a.pending_fixed(),
        MulSpec::<F>::mul_spec(a, scalar).pending_advice() == a.pending_advice(),
        MulSpec::<F>::mul_spec(a, scalar).pending_instance() == a.pending_instance(),
        MulSpec::<F>::mul_spec(a, scalar).pending_cells() == a.pending_cells(),
        MulSpec::<F>::mul_spec(a, scalar).selectors() == a.selectors(),
        MulSpec::<F>::mul_spec(a, scalar).simple_selectors() == a.simple_selectors(),
{
}

/// What a query registers: its column and rotation, unless it has been registered. Only
/// selectors are selectors, and only simple ones are simple.
pub proof fn law_own_queries<F: Field>(
    fixed: GpuFixedQuery,
    advice: GpuAdviceQuery,
    instance: GpuInstanceQuery,
    selector: GpuSelector,
    scalar: F,
)
    ensures
        GpuExpression::<F>::Fixed(fixed).pending_fixed() == (if fixed.index is None {
            seq![(GpuColumn { index: fixed.column_index, column_type: GpuFixed }, fixed.rotation)]
        } else {
            Seq::<(GpuColumn<GpuFixed>, Rotation)>::empty()
        }),
        GpuExpression::<F>::Advice(advice).pending_advice() == (if advice.index is None {
            seq![
                (
                    GpuColumn {
                        index: advice.column_index,
                        column_type: GpuAdvice { phase: advice.phase },
                    },
                    advice.rotation,
                ),
            ]
        } else {
            Seq::<(GpuColumn<GpuAdvice>, Rotation)>::empty()
        }),
        GpuExpression::<F>::Instance(instance).pending_instance() == (if instance.index is None {
            seq![
                (
                    GpuColumn { index: instance.column_index, column_type: GpuInstance },
                    instance.rotation,
                ),
            ]
        } else {
            Seq::<(GpuColumn<GpuInstance>, Rotation)>::empty()
        }),
        GpuExpression::<F>::Fixed(fixed).pending_advice().len() == 0,
        GpuExpression::<F>::Fixed(fixed).pending_instance().len() == 0,
        GpuExpression::<F>::Advice(advice).pending_fixed().len() == 0,
        GpuExpression::<F>::Advice(advice).pending_instance().len() == 0,
        GpuExpression::<F>::Instance(instance).pending_fixed().len() == 0,
        GpuExpression::<F>::Instance(instance).pending_advice().len() == 0,
        GpuExpression::<F>::Selector(selector).selectors() == seq![selector],
        GpuExpression::<F>::Selector(selector).simple_selectors() == (if selector.1 {
            seq![selector]
        } else {
            Seq::<GpuSelector>::empty()
        }),
        GpuExpression::Constant(scalar).selectors().len() == 0,
        GpuExpression::Constant(scalar).pending_cells().len() == 0,
{
}

/// Queries are listed in the order in which they are made, each once: one that is new goes
/// to the end, and one that is there changes nothing.
pub proof fn law_queries_in_turn<A>(s: Seq<A>, t: Seq<A>, u: Seq<A>, x: A)
    ensures
        s.contains(x) ==> with_queries(s, seq![x]) == s,
        !s.contains(x) ==> with_queries(s, seq![x]) == s.push(x),
        with_queries(s, Seq::empty()) == s,
        with_queries(s, t + u) == with_queries(with_queries(s, t), u),
{
    let one = seq![x];
    assert(one.drop_last() =~= Seq::empty());
    assert(with_queries(s, one.drop_last()) == s);
    lemma_with_queries_append(s, t, u);
}

/// Registering the queries of an expression keeps its value, its degree and its selectors.
pub proof fn law_registering_keeps_values<F: Field>(
    e: GpuExpression<F>,
    new: GpuExpression<F>,
    fixed: Seq<(GpuColumn<GpuFixed>, Rotation)>,
    advice: Seq<(GpuColumn<GpuAdvice>, Rotation)>,
    instance: Seq<(GpuColumn<GpuInstance>, Rotation)>,
    cells: CellValues,
)
    requires
        e.registered_as(new, fixed, advice, instance),
    ensures
        new.value(cells) == e.value(cells),
        new.spec_degree() == e.spec_degree(),
        new.selectors() == e.selectors(),
        new.pending_cells().len() == 0,
    decreases e,
{
    match (e, new) {
        (GpuExpression::Negated(a), GpuExpression::Negated(c)) => {
            law_registering_keeps_values(*a, *c, fixed, advice, instance, cells);
        },
        (GpuExpression::Sum(a, b), GpuExpression::Sum(c, d)) => {
            law_registering_keeps_values(*a, *c, fixed, advice, instance, cells);
            law_registering_keeps_values(*b, *d, fixed, advice, instance, cells);
        },
        (GpuExpression::Product(a, b), GpuExpression::Product(c, d)) => {
            law_registering_keeps_values(*a, *c, fixed, advice, instance, cells);
            law_registering_keeps_values(*b, *d, fixed, advice, instance, cells);
        },
        (GpuExpression::Scaled(a, _), GpuExpression::Scaled(c, _)) => {
            law_registering_keeps_values(*a, *c, fixed, advice, instance, cells);
        },
        _ => {},
    }
}

proof fn lemma_interleaved_at<F: Field>(s: Seq<(GpuExpression<F>, GpuExpression<F>)>, i: int)
    requires
        0 <= i < s.len(),
    ensures
        interleaved(s).len() == 2 * s.len(),
        interleaved(s)[2 * i] == s[i].0,
        interleaved(s)[2 * i + 1] == s[i].1,
    decreases s.len(),
{
    let front = s.drop_last();
    if front.len() == 0 {
        assert(interleaved(front).len() == 0);
    } else if i < front.len() {
        lemma_interleaved_at(front, i);
    } else {
        lemma_interleaved_at(front, 0);
    }
}

/// The queries of a lookup are registered pair by pair: of expressions, the input of a pair
/// first; of table columns, the table, which is read in the row itself.
pub proof fn law_pairs_in_order<F: Field>(
    s: Seq<(GpuExpression<F>, GpuExpression<F>)>,
    t: Seq<(GpuExpression<F>, GpuTableColumn)>,
    cells: CellValues,
    i: int,
)
    ensures
        0 <= i < s.len() ==> interleaved(s).len() == 2 * s.len() && interleaved(s)[2 * i] == s[i].0
            && interleaved(s)[2 * i + 1] == s[i].1,
        table_pairs(t).len() == t.len(),
        0 <= i < t.len() ==> table_pairs(t)[i].0 == t[i].0 && table_pairs(t)[i].1.value(cells) == (
        cells.fixed)(t[i].1.column().index, Rotation(0)),
        0 <= i < t.len() ==> interleaved(swapped(table_pairs(t)))[2 * i] == table_pairs(t)[i].1
            && interleaved(swapped(table_pairs(t)))[2 * i + 1] == t[i].0,
{
    if 0 <= i < s.len() {
        lemma_interleaved_at(s, i);
    }
    if 0 <= i < t.len() {
        lemma_interleaved_at(swapped(table_pairs(t)), i);
    }
}

/// The queries of several expressions are registered one expression after another.
pub proof fn law_expressions_in_turn<F: Field>(s: Seq<GpuExpression<F>>, e: GpuExpression<F>)
    ensures
        joined(Seq::<GpuExpression<F>>::empty()).pending_fixed().len() == 0,
        joined(Seq::<GpuExpression<F>>::empty()).pending_advice().len() == 0,
        joined(Seq::<GpuExpression<F>>::empty()).pending_instance().len() == 0,
        joined(Seq::<GpuExpression<F>>::empty()).selectors().len() == 0,
        joined(s.push(e)).pending_fixed() == joined(s).pending_fixed() + e.pending_fixed(),
        joined(s.push(e)).pending_advice() == joined(s).pending_advice() + e.pending_advice(),
        joined(s.push(e)).pending_instance() == joined(s).pending_instance()
            + e.pending_instance(),
        joined(s.push(e)).pending_cells() == joined(s).pending_cells() + e.pending_cells(),
        joined(s.push(e)).selectors() == joined(s).selectors() + e.selectors(),
{
    assert(s.push(e).drop_last() =~= s);
    let all = joined(s.push(e));
    assert(all == GpuExpression::Sum(Box::new(joined(s)), Box::new(e)));
}

/// The last phase is the largest that a column is in, and the first where there is none;
/// the three phases are numbered from zero on.
pub proof fn law_phases(s: Seq<Phase>, i: int)
    ensures
        0 <= i < s.len() ==> s[i].0 <= max_phase(s),
        max_phase(s) == 0 || exists|k: int| 0 <= k < s.len() && (#[trigger] s[k]).0 == max_phase(s),
        max_phase(s) >= 0,
        GpuFirstPhase.sealed() == Phase(0),
        GpuSecondPhase.sealed() == Phase(1),
        GpuThirdPhase.sealed() == Phase(2),
    decreases s.len(),
{
    if s.len() > 0 {
        let front = s.drop_last();
        law_phases(front, i);
        if max_phase(s) != 0 {
            if s.last().0 > max_phase(front) {
                assert(s[s.len() - 1].0 == max_phase(s));
            } else {
                let k = choose|k: int|
                    0 <= k < front.len() && (#[trigger] front[k]).0 == max_phase(front);
                assert(s[k].0 == max_phase(s));
            }
        }
    }
}

} // verus!
