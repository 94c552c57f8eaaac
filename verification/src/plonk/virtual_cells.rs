//! Gates and lookups from the cells that they query.

use crate::field::Field;
use crate::plonk::circuit::{
    GpuAdvice, GpuAdviceQuery, GpuAny, GpuChallenge, GpuColumn, GpuFixed, GpuFixedQuery,
    GpuInstance, GpuInstanceQuery, GpuSelector,
};
use crate::plonk::constraint_system::{GpuConstraintSystem, GpuVirtualCell};
use crate::plonk::expression::GpuExpression;
use crate::plonk::lookup;
use crate::plonk::queries::{
    is_position, law_positions_stable, lemma_with_queries_append, with_queries, with_query,
};
use crate::poly::Rotation;
use vstd::prelude::*;

verus! {

/// A fixed column.
pub open spec fn fixed_column(index: usize) -> GpuColumn<GpuFixed> {
    GpuColumn { index, column_type: GpuFixed }
}

/// An instance column.
pub open spec fn instance_column(index: usize) -> GpuColumn<GpuInstance> {
    GpuColumn { index, column_type: GpuInstance }
}

/// The column of an advice query.
pub open spec fn advice_column(query: GpuAdviceQuery) -> GpuColumn<GpuAdvice> {
    GpuColumn { index: query.column_index, column_type: GpuAdvice { phase: query.phase } }
}

impl<F: Field> GpuExpression<F> {
    /// The queries of fixed columns that are not registered yet, from left to
    /// right.
    pub open spec fn pending_fixed(self) -> Seq<(GpuColumn<GpuFixed>, Rotation)>
        decreases self,
    {
        match self {
            GpuExpression::Fixed(q) => if q.index is None {
                seq![(fixed_column(q.column_index), q.rotation)]
            } else {
                Seq::empty()
            },
            GpuExpression::Negated(a) => a.pending_fixed(),
            GpuExpression::Sum(a, b) => a.pending_fixed() + b.pending_fixed(),
            GpuExpression::Product(a, b) => a.pending_fixed() + b.pending_fixed(),
            GpuExpression::Scaled(a, _) => a.pending_fixed(),
            _ => Seq::empty(),
        }
    }

    /// The queries of advice columns that are not registered yet, from left to
    /// right.
    pub open spec fn pending_advice(self) -> Seq<(GpuColumn<GpuAdvice>, Rotation)>
        decreases self,
    {
        match self {
            GpuExpression::Advice(q) => if q.index is None {
                seq![(advice_column(q), q.rotation)]
            } else {
                Seq::empty()
            },
            GpuExpression::Negated(a) => a.pending_advice(),
            GpuExpression::Sum(a, b) => a.pending_advice() + b.pending_advice(),
            GpuExpression::Product(a, b) => a.pending_advice() + b.pending_advice(),
            GpuExpression::Scaled(a, _) => a.pending_advice(),
            _ => Seq::empty(),
        }
    }

    /// The queries of instance columns that are not registered yet, from left
    /// to right.
    pub open spec fn pending_instance(self) -> Seq<(GpuColumn<GpuInstance>, Rotation)>
        decreases self,
    {
        match self {
            GpuExpression::Instance(q) => if q.index is None {
                seq![(instance_column(q.column_index), q.rotation)]
            } else {
                Seq::empty()
            },
            GpuExpression::Negated(a) => a.pending_instance(),
            GpuExpression::Sum(a, b) => a.pending_instance() + b.pending_instance(),
            GpuExpression::Product(a, b) => a.pending_instance() + b.pending_instance(),
            GpuExpression::Scaled(a, _) => a.pending_instance(),
            _ => Seq::empty(),
        }
    }

    /// The cells of all queries that are not registered yet, from left to right.
    pub open spec fn pending_cells(self) -> Seq<GpuVirtualCell>
        decreases self,
    {
        match self {
            GpuExpression::Fixed(q) => if q.index is None {
                seq![cell(GpuAny::Fixed, q.column_index, q.rotation)]
            } else {
                Seq::empty()
            },
            GpuExpression::Advice(q) => if q.index is None {
                seq![cell(GpuAny::Advice(GpuAdvice { phase: q.phase }), q.column_index, q.rotation)]
            } else {
                Seq::empty()
            },
            GpuExpression::Instance(q) => if q.index is None {
                seq![cell(GpuAny::Instance, q.column_index, q.rotation)]
            } else {
                Seq::empty()
            },
            GpuExpression::Negated(a) => a.pending_cells(),
            GpuExpression::Sum(a, b) => a.pending_cells() + b.pending_cells(),
            GpuExpression::Product(a, b) => a.pending_cells() + b.pending_cells(),
            GpuExpression::Scaled(a, _) => a.pending_cells(),
            _ => Seq::empty(),
        }
    }

    /// The selectors, from left to right.
    pub open spec fn selectors(self) -> Seq<GpuSelector>
        decreases self,
    {
        match self {
            GpuExpression::Selector(s) => seq![s],
            GpuExpression::Negated(a) => a.selectors(),
            GpuExpression::Sum(a, b) => a.selectors() + b.selectors(),
            GpuExpression::Product(a, b) => a.selectors() + b.selectors(),
            GpuExpression::Scaled(a, _) => a.selectors(),
            _ => Seq::empty(),
        }
    }

    /// Whether `new` is this expression with every pending query given its
    /// position in the query lists.
    pub open spec fn registered_as(
        self,
        new: GpuExpression<F>,
        fixed: Seq<(GpuColumn<GpuFixed>, Rotation)>,
        advice: Seq<(GpuColumn<GpuAdvice>, Rotation)>,
        instance: Seq<(GpuColumn<GpuInstance>, Rotation)>,
    ) -> bool
        decreases self,
    {
        match (self, new) {
            (GpuExpression::Fixed(q), GpuExpression::Fixed(n)) => {
                &&& n == (GpuFixedQuery { index: n.index, ..q })
                &&& if q.index is Some {
                    n.index == q.index
                } else {
                    n.index matches Some(i) && is_position(
                        fixed,
                        (fixed_column(q.column_index), q.rotation),
                        i as int,
                    )
                }
            },
            (GpuExpression::Advice(q), GpuExpression::Advice(n)) => {
                &&& n == (GpuAdviceQuery { index: n.index, ..q })
                &&& if q.index is Some {
                    n.index == q.index
                } else {
                    n.index matches Some(i) && is_position(
                        advice,
                        (advice_column(q), q.rotation),
                        i as int,
                    )
                }
            },
            (GpuExpression::Instance(q), GpuExpression::Instance(n)) => {
                &&& n == (GpuInstanceQuery { index: n.index, ..q })
                &&& if q.index is Some {
                    n.index == q.index
                } else {
                    n.index matches Some(i) && is_position(
                        instance,
                        (instance_column(q.column_index), q.rotation),
                        i as int,
                    )
                }
            },
            (GpuExpression::Negated(a), GpuExpression::Negated(c)) => a.registered_as(
                *c,
                fixed,
                advice,
                instance,
            ),
            (GpuExpression::Sum(a, b), GpuExpression::Sum(c, d)) => a.registered_as(
                *c,
                fixed,
                advice,
                instance,
            ) && b.registered_as(*d, fixed, advice, instance),
            (GpuExpression::Product(a, b), GpuExpression::Product(c, d)) => a.registered_as(
                *c,
                fixed,
                advice,
                instance,
            ) && b.registered_as(*d, fixed, advice, instance),
            (GpuExpression::Scaled(a, f), GpuExpression::Scaled(c, g)) => a.registered_as(
                *c,
                fixed,
                advice,
                instance,
            ) && f == g,
            (GpuExpression::Constant(f), GpuExpression::Constant(g)) => f == g,
            (GpuExpression::Selector(s), GpuExpression::Selector(t)) => s == t,
            (GpuExpression::Challenge(s), GpuExpression::Challenge(t)) => s == t,
            _ => false,
        }
    }

    /// Whether all advice columns that are still to be registered exist.
    pub open spec fn pending_in_range(self, num_advice_columns: usize) -> bool {
        forall|i: int|
            0 <= i < self.pending_advice().len() ==> (#[trigger] self.pending_advice()[i]).0.index
                < num_advice_columns
    }
}

/// A cell of a column at a rotation.
pub open spec fn cell(any: GpuAny, index: usize, rotation: Rotation) -> GpuVirtualCell {
    GpuVirtualCell { column: GpuColumn { index, column_type: any }, rotation }
}

/// Registration survives the growth of the query lists.
pub proof fn lemma_registered_grows<F: Field>(
    e: GpuExpression<F>,
    new: GpuExpression<F>,
    fixed: Seq<(GpuColumn<GpuFixed>, Rotation)>,
    advice: Seq<(GpuColumn<GpuAdvice>, Rotation)>,
    instance: Seq<(GpuColumn<GpuInstance>, Rotation)>,
    more_fixed: Seq<(GpuColumn<GpuFixed>, Rotation)>,
    more_advice: Seq<(GpuColumn<GpuAdvice>, Rotation)>,
    more_instance: Seq<(GpuColumn<GpuInstance>, Rotation)>,
)
    requires
        e.registered_as(new, fixed, advice, instance),
    ensures
        e.registered_as(
            new,
            with_queries(fixed, more_fixed),
            with_queries(advice, more_advice),
            with_queries(instance, more_instance),
        ),
    decreases e,
{
    match (e, new) {
        (GpuExpression::Fixed(q), GpuExpression::Fixed(n)) => {
            if q.index is None {
                law_positions_stable(
                    fixed,
                    more_fixed,
                    (fixed_column(q.column_index), q.rotation),
                    n.index->0 as int,
                );
            }
        },
        (GpuExpression::Advice(q), GpuExpression::Advice(n)) => {
            if q.index is None {
                law_positions_stable(
                    advice,
                    more_advice,
                    (advice_column(q), q.rotation),
                    n.index->0 as int,
                );
            }
        },
        (GpuExpression::Instance(q), GpuExpression::Instance(n)) => {
            if q.index is None {
                law_positions_stable(
                    instance,
                    more_instance,
                    (instance_column(q.column_index), q.rotation),
                    n.index->0 as int,
                );
            }
        },
        (GpuExpression::Negated(a), GpuExpression::Negated(c)) => {
            lemma_registered_grows(
                *a,
                *c,
                fixed,
                advice,
                instance,
                more_fixed,
                more_advice,
                more_instance,
            );
        },
        (GpuExpression::Scaled(a, _), GpuExpression::Scaled(c, _)) => {
            lemma_registered_grows(
                *a,
                *c,
                fixed,
                advice,
                instance,
                more_fixed,
                more_advice,
                more_instance,
            );
        },
        (GpuExpression::Sum(a, b), GpuExpression::Sum(c, d)) => {
            lemma_registered_grows(
                *a,
                *c,
                fixed,
                advice,
                instance,
                more_fixed,
                more_advice,
                more_instance,
            );
            lemma_registered_grows(
                *b,
                *d,
                fixed,
                advice,
                instance,
                more_fixed,
                more_advice,
                more_instance,
            );
        },
        (GpuExpression::Product(a, b), GpuExpression::Product(c, d)) => {
            lemma_registered_grows(
                *a,
                *c,
                fixed,
                advice,
                instance,
                more_fixed,
                more_advice,
                more_instance,
            );
            lemma_registered_grows(
                *b,
                *d,
                fixed,
                advice,
                instance,
                more_fixed,
                more_advice,
                more_instance,
            );
        },
        _ => {},
    }
}

/// Exposes the "virtual cells" that can be queried while creating a custom gate or lookup
/// table.
#[derive(Debug)]
pub struct GpuVirtualCells<'a, F: Field> {
    pub meta: &'a mut GpuConstraintSystem<F>,
    pub queried_selectors: Vec<GpuSelector>,
    pub queried_cells: Vec<GpuVirtualCell>,
}

impl<'a, F: Field> GpuVirtualCells<'a, F> {
    pub fn new(meta: &'a mut GpuConstraintSystem<F>) -> (r: Self)
        ensures
            *r.meta == *old(meta),
            *final(r.meta) == *final(meta),
            r.queried_selectors@ == Seq::<GpuSelector>::empty(),
            r.queried_cells@ == Seq::<GpuVirtualCell>::empty(),
    {
        GpuVirtualCells { meta, queried_selectors: vec![], queried_cells: vec![] }
    }

    /// Whether the cells come from `old` by registering an expression's queries.
    pub open spec fn registers(self, old: Self, e: GpuExpression<F>) -> bool {
        &&& self.meta.wf()
        &&& self.meta.same_but_queries(*old.meta)
        &&& self.meta.fixed_queries@ == with_queries(old.meta.fixed_queries@, e.pending_fixed())
        &&& self.meta.advice_queries@ == with_queries(old.meta.advice_queries@, e.pending_advice())
        &&& self.meta.instance_queries@ == with_queries(
            old.meta.instance_queries@,
            e.pending_instance(),
        )
        &&& self.queried_cells@ == old.queried_cells@ + e.pending_cells()
        &&& self.queried_selectors@ == with_queries(old.queried_selectors@, e.selectors())
    }

    /// Query a selector at the current position.
    pub fn query_selector(&mut self, selector: GpuSelector) -> (r: GpuExpression<F>)
        ensures
            r == GpuExpression::<F>::Selector(selector),
            final(self).queried_selectors@ == old(self).queried_selectors@.push(selector),
            final(self).queried_cells == old(self).queried_cells,
            *final(self).meta == *old(self).meta,
            *final(final(self).meta) == *final(old(self).meta),
    {
        self.queried_selectors.push(selector);
        GpuExpression::Selector(selector)
    }

    /// Query a fixed column at a relative position
    pub fn query_fixed(&mut self, column: GpuColumn<GpuFixed>,
        at: Rotation) -> (r: GpuExpression<F>)
        requires
            old(self).meta.wf(),
        ensures
            r matches GpuExpression::Fixed(q) && q.column_index == column.index && q.rotation == at
                && q.index is Some && is_position(
                final(self).meta.fixed_queries@,
                (column, at),
                q.index->0 as int,
            ),
            final(self).meta.wf(),
            final(self).meta.same_but_queries(*old(self).meta),
            final(self).meta.fixed_queries@ == with_query(
                old(self).meta.fixed_queries@,
                (column, at),
            ),
            final(self).meta.advice_queries == old(self).meta.advice_queries,
            final(self).meta.instance_queries == old(self).meta.instance_queries,
            final(self).queried_cells@ == old(self).queried_cells@.push(
                cell(GpuAny::Fixed, column.index, at),
            ),
            final(self).queried_selectors == old(self).queried_selectors,
            *final(final(self).meta) == *final(old(self).meta),
    {
        self.queried_cells.push(
            GpuVirtualCell {
                column: GpuColumn { index: column.index, column_type: GpuAny::Fixed },
                rotation: at,
            },
        );
        let index: usize = self.meta.query_fixed_index(column, at);
        GpuExpression::Fixed(
            GpuFixedQuery { index: Some(index), column_index: column.index, rotation: at },
        )
    }

    /// Query an advice column at a relative position
    pub fn query_advice(
        &mut self,
        column: GpuColumn<GpuAdvice>,
        at: Rotation,
    ) -> (r: GpuExpression<F>)
        requires
            old(self).meta.wf(),
            column.index < old(self).meta.num_advice_columns,
        ensures
            r matches GpuExpression::Advice(q) && q.column_index == column.index && q.rotation == at
                && q.phase == column.column_type.phase && q.index is Some && is_position(
                final(self).meta.advice_queries@,
                (column, at),
                q.index->0 as int,
            ),
            final(self).meta.wf(),
            final(self).meta.same_but_queries(*old(self).meta),
            final(self).meta.advice_queries@ == with_query(
                old(self).meta.advice_queries@,
                (column, at),
            ),
            final(self).meta.fixed_queries == old(self).meta.fixed_queries,
            final(self).meta.instance_queries == old(self).meta.instance_queries,
            final(self).queried_cells@ == old(self).queried_cells@.push(
                cell(GpuAny::Advice(column.column_type), column.index, at),
            ),
            final(self).queried_selectors == old(self).queried_selectors,
            *final(final(self).meta) == *final(old(self).meta),
    {
        self.queried_cells.push(
            GpuVirtualCell {
                column: GpuColumn {
                    index: column.index,
                    column_type: GpuAny::Advice(column.column_type),
                },
                rotation: at,
            },
        );
        let index: usize = self.meta.query_advice_index(column, at);
        GpuExpression::Advice(
            GpuAdviceQuery {
                index: Some(index),
                column_index: column.index,
                rotation: at,
                phase: column.column_type.phase,
            },
        )
    }

    /// Query an instance column at a relative position
    pub fn query_instance(
        &mut self,
        column: GpuColumn<GpuInstance>,
        at: Rotation,
    ) -> (r: GpuExpression<F>)
        requires
            old(self).meta.wf(),
        ensures
            r matches GpuExpression::Instance(q) && q.column_index == column.index && q.rotation
                == at && q.index is Some && is_position(
                final(self).meta.instance_queries@,
                (column, at),
                q.index->0 as int,
            ),
            final(self).meta.wf(),
            final(self).meta.same_but_queries(*old(self).meta),
            final(self).meta.instance_queries@ == with_query(
                old(self).meta.instance_queries@,
                (column, at),
            ),
            final(self).meta.fixed_queries == old(self).meta.fixed_queries,
            final(self).meta.advice_queries == old(self).meta.advice_queries,
            final(self).queried_cells@ == old(self).queried_cells@.push(
                cell(GpuAny::Instance, column.index, at),
            ),
            final(self).queried_selectors == old(self).queried_selectors,
            *final(final(self).meta) == *final(old(self).meta),
    {
        self.queried_cells.push(
            GpuVirtualCell {
                column: GpuColumn { index: column.index, column_type: GpuAny::Instance },
                rotation: at,
            },
        );
        let index: usize = self.meta.query_instance_index(column, at);
        GpuExpression::Instance(
            GpuInstanceQuery { index: Some(index), column_index: column.index, rotation: at },
        )
    }

    /// Query an GpuAny column at a relative position
    pub fn query_any(&mut self, column: GpuColumn<GpuAny>, at: Rotation) -> (r: GpuExpression<F>)
        requires
            old(self).meta.wf(),
            old(self).meta.may_query(column),
        ensures
            match r {
                GpuExpression::Advice(q) => column.column_type == GpuAny::Advice(
                    GpuAdvice { phase: q.phase },
                ) && q.column_index == column.index && q.rotation == at && q.index is Some
                    && final(self).meta.is_query_index(column, at, q.index->0 as int),
                GpuExpression::Fixed(q) => column.column_type == GpuAny::Fixed && q.column_index
                    == column.index && q.rotation == at && q.index is Some
                        && final(self).meta.is_query_index(column, at, q.index->0 as int),
                GpuExpression::Instance(q) => column.column_type == GpuAny::Instance
                    && q.column_index == column.index && q.rotation == at && q.index is Some
                    && final(self).meta.is_query_index(column, at, q.index->0 as int),
                _ => false,
            },
            final(self).meta.wf(),
            final(self).meta.same_but_queries(*old(self).meta),
            final(self).meta.adds_query(*old(self).meta, column, at),
            final(self).queried_cells@ == old(self).queried_cells@.push(
                cell(column.column_type, column.index, at),
            ),
            final(self).queried_selectors == old(self).queried_selectors,
            *final(final(self).meta) == *final(old(self).meta),
    {
        match column.column_type {
            GpuAny::Advice(advice) => self.query_advice(
                GpuColumn { index: column.index, column_type: advice },
                at,
            ),
            GpuAny::Fixed => self.query_fixed(
                GpuColumn { index: column.index, column_type: GpuFixed },
                at,
            ),
            GpuAny::Instance => self.query_instance(
                GpuColumn { index: column.index, column_type: GpuInstance },
                at,
            ),
        }
    }

    /// Query a challenge
    pub fn query_challenge(&mut self, challenge: GpuChallenge) -> (r: GpuExpression<F>)
        ensures
            r == GpuExpression::<F>::Challenge(challenge),
            *final(self) == *old(self),
    {
        GpuExpression::Challenge(challenge)
    }
}

fn push_selector(queried: &mut Vec<GpuSelector>, selector: GpuSelector)
    ensures
        final(queried)@ == with_query(old(queried)@, selector),
{
    let mut i: usize = 0;
    while i < queried.len()
        invariant
            i <= queried@.len(),
            queried@ == old(queried)@,
            forall|j: int| 0 <= j < i ==> queried@[j] != selector,
        decreases queried@.len() - i,
    {
        if queried[i] == selector {
            return;
        }
        i += 1;
    }
    queried.push(selector);
}

pub proof fn lemma_with_queries_one<A>(s: Seq<A>, x: A)
    ensures
        with_queries(s, seq![x]) == with_query(s, x),
        with_queries(s, Seq::<A>::empty()) == s,
{
    reveal_with_fuel(with_queries, 2);
    assert(seq![x].drop_last() =~= Seq::<A>::empty());
}

/// Registering two expressions one after the other is registering what they
/// are the parts of.
pub proof fn lemma_registers_both<F: Field>(
    before: GpuVirtualCells<'_, F>,
    mid: GpuVirtualCells<'_, F>,
    after: GpuVirtualCells<'_, F>,
    a: GpuExpression<F>,
    b: GpuExpression<F>,
    whole: GpuExpression<F>,
)
    requires
        whole == GpuExpression::Sum(Box::new(a), Box::new(b)) || whole == GpuExpression::Product(
            Box::new(a),
            Box::new(b),
        ),
        mid.registers(before, a),
        after.registers(mid, b),
    ensures
        after.registers(before, whole),
{
    lemma_with_queries_append(before.meta.fixed_queries@, a.pending_fixed(), b.pending_fixed());
    lemma_with_queries_append(before.meta.advice_queries@, a.pending_advice(), b.pending_advice());
    lemma_with_queries_append(
        before.meta.instance_queries@,
        a.pending_instance(),
        b.pending_instance(),
    );
    lemma_with_queries_append(before.queried_selectors@, a.selectors(), b.selectors());
    assert(after.queried_cells@ =~= before.queried_cells@ + whole.pending_cells());
}

proof fn lemma_parts_in_range<F: Field>(e: GpuExpression<F>, n: usize)
    requires
        e.pending_in_range(n),
    ensures
        match e {
            GpuExpression::Negated(a) => a.pending_in_range(n),
            GpuExpression::Scaled(a, _) => a.pending_in_range(n),
            GpuExpression::Sum(a, b) => a.pending_in_range(n) && b.pending_in_range(n),
            GpuExpression::Product(a, b) => a.pending_in_range(n) && b.pending_in_range(n),
            _ => true,
        },
{
    let all = e.pending_advice();
    match e {
        GpuExpression::Negated(a) => {
            assert(a.pending_advice() == all);
        },
        GpuExpression::Scaled(a, _) => {
            assert(a.pending_advice() == all);
        },
        GpuExpression::Sum(a, b) => {
            lemma_in_range_of_both(a.pending_advice(), b.pending_advice(), all, n);
        },
        GpuExpression::Product(a, b) => {
            lemma_in_range_of_both(a.pending_advice(), b.pending_advice(), all, n);
        },
        _ => {},
    }
}

proof fn lemma_in_range_of_both(
    s: Seq<(GpuColumn<GpuAdvice>, Rotation)>,
    t: Seq<(GpuColumn<GpuAdvice>, Rotation)>,
    all: Seq<(GpuColumn<GpuAdvice>, Rotation)>,
    n: usize,
)
    requires
        all == s + t,
        forall|i: int| 0 <= i < all.len() ==> (#[trigger] all[i]).0.index < n,
    ensures
        forall|i: int| 0 <= i < s.len() ==> (#[trigger] s[i]).0.index < n,
        forall|i: int| 0 <= i < t.len() ==> (#[trigger] t[i]).0.index < n,
{
    assert forall|i: int| 0 <= i < s.len() implies (#[trigger] s[i]).0.index < n by {
        assert(all[i] == s[i]);
    }
    assert forall|i: int| 0 <= i < t.len() implies (#[trigger] t[i]).0.index < n by {
        assert(all[s.len() + i] == t[i]);
    }
}

impl<F: Field> GpuExpression<F> {
    /// Registers the pending queries of this expression and notes its selectors.
    pub fn query_cells(&mut self, cells: &mut GpuVirtualCells<'_, F>)
        requires
            old(cells).meta.wf(),
            old(self).pending_in_range(old(cells).meta.num_advice_columns),
        ensures
            final(cells).registers(*old(cells), *old(self)),
            *final(final(cells).meta) == *final(old(cells).meta),
            old(self).registered_as(
                *final(self),
                final(cells).meta.fixed_queries@,
                final(cells).meta.advice_queries@,
                final(cells).meta.instance_queries@,
            ),
        decreases *old(self),
    {
        let ghost before = *self;
        proof {
            lemma_parts_in_range(before, cells.meta.num_advice_columns);
        }
        match self {
            GpuExpression::Constant(_) => {},
            GpuExpression::Selector(selector) => {
                proof {
                    lemma_with_queries_one(cells.queried_selectors@, *selector);
                }
                push_selector(&mut cells.queried_selectors, *selector);
                assert(cells.queried_cells@ + before.pending_cells() =~= cells.queried_cells@);
            },
            GpuExpression::Fixed(query) => {
                if query.index.is_none() {
                    let col = GpuColumn { index: query.column_index, column_type: GpuFixed };
                    proof {
                        lemma_with_queries_one(cells.meta.fixed_queries@, (col, query.rotation));
                    }
                    cells.queried_cells.push(
                        GpuVirtualCell {
                            column: GpuColumn {
                                index: query.column_index,
                                column_type: GpuAny::Fixed,
                            },
                            rotation: query.rotation,
                        },
                    );
                    let index: usize = cells.meta.query_fixed_index(col, query.rotation);
                    query.index = Some(index);
                    assert(cells.queried_cells@ =~= old(cells).queried_cells@
                        + before.pending_cells());
                } else {
                    assert(cells.queried_cells@ + before.pending_cells() =~= cells.queried_cells@);
                }
            },
            GpuExpression::Advice(query) => {
                if query.index.is_none() {
                    let col = GpuColumn {
                        index: query.column_index,
                        column_type: GpuAdvice { phase: query.phase },
                    };
                    proof {
                        assert(before.pending_advice()[0].0 == col);
                        lemma_with_queries_one(cells.meta.advice_queries@, (col, query.rotation));
                    }
                    cells.queried_cells.push(
                        GpuVirtualCell {
                            column: GpuColumn {
                                index: query.column_index,
                                column_type: GpuAny::Advice(GpuAdvice { phase: query.phase }),
                            },
                            rotation: query.rotation,
                        },
                    );
                    let index: usize = cells.meta.query_advice_index(col, query.rotation);
                    query.index = Some(index);
                    assert(cells.queried_cells@ =~= old(cells).queried_cells@
                        + before.pending_cells());
                } else {
                    assert(cells.queried_cells@ + before.pending_cells() =~= cells.queried_cells@);
                }
            },
            GpuExpression::Instance(query) => {
                if query.index.is_none() {
                    let col = GpuColumn { index: query.column_index, column_type: GpuInstance };
                    proof {
                        lemma_with_queries_one(
                            cells.meta.instance_queries@,
                            (col, query.rotation),
                        );
                    }
                    cells.queried_cells.push(
                        GpuVirtualCell {
                            column: GpuColumn {
                                index: query.column_index,
                                column_type: GpuAny::Instance,
                            },
                            rotation: query.rotation,
                        },
                    );
                    let index: usize = cells.meta.query_instance_index(col, query.rotation);
                    query.index = Some(index);
                    assert(cells.queried_cells@ =~= old(cells).queried_cells@
                        + before.pending_cells());
                } else {
                    assert(cells.queried_cells@ + before.pending_cells() =~= cells.queried_cells@);
                }
            },
            GpuExpression::Challenge(_) => {},
            GpuExpression::Negated(a) => {
                a.query_cells(cells);
            },
            GpuExpression::Sum(a, b) => {
                let ghost a0 = **a;
                let ghost b0 = **b;
                let ghost c0 = *cells;
                a.query_cells(cells);
                let ghost c1 = *cells;
                b.query_cells(cells);
                proof {
                    lemma_registers_both(c0, c1, *cells, a0, b0, before);
                    lemma_registered_grows(
                        a0,
                        **a,
                        c1.meta.fixed_queries@,
                        c1.meta.advice_queries@,
                        c1.meta.instance_queries@,
                        b0.pending_fixed(),
                        b0.pending_advice(),
                        b0.pending_instance(),
                    );
                }
            },
            GpuExpression::Product(a, b) => {
                let ghost a0 = **a;
                let ghost b0 = **b;
                let ghost c0 = *cells;
                a.query_cells(cells);
                let ghost c1 = *cells;
                b.query_cells(cells);
                proof {
                    lemma_registers_both(c0, c1, *cells, a0, b0, before);
                    lemma_registered_grows(
                        a0,
                        **a,
                        c1.meta.fixed_queries@,
                        c1.meta.advice_queries@,
                        c1.meta.instance_queries@,
                        b0.pending_fixed(),
                        b0.pending_advice(),
                        b0.pending_instance(),
                    );
                }
            },
            GpuExpression::Scaled(a, _) => {
                a.query_cells(cells);
            },
        }
    }
}

} // verus!
