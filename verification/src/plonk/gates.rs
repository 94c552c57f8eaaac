//! Adding gates and lookups to a constraint system.

use crate::field::Field;
use crate::plonk::circuit::{
    GpuChallenge, GpuFixedQuery, GpuSelector, GpuTableColumn, Phase,
};
use crate::plonk::constraint_system::{
    GpuConstraint, GpuConstraintSystem, GpuGate, GpuVirtualCell,
};
use crate::plonk::expression::GpuExpression;
use crate::plonk::lookup;
use crate::plonk::queries::with_queries;
use crate::plonk::virtual_cells::{
    lemma_registered_grows, lemma_registers_both, GpuVirtualCells,
};
use crate::poly::Rotation;
use vstd::prelude::*;

verus! {

/// All the expressions as one sum, whose queries are theirs from the first to
/// the last.
pub open spec fn joined<F: Field>(s: Seq<GpuExpression<F>>) -> GpuExpression<F>
    decreases s.len(),
{
    if s.len() == 0 {
        GpuExpression::Challenge(GpuChallenge { index: 0, phase: Phase(0) })
    } else {
        GpuExpression::Sum(Box::new(joined(s.drop_last())), Box::new(s.last()))
    }
}

/// The polynomials of constraints.
pub open spec fn polys_of<F: Field>(s: Seq<GpuConstraint<F>>) -> Seq<GpuExpression<F>> {
    Seq::new(s.len(), |i: int| s[i].poly)
}

/// Whether all advice columns that the expressions still have to register exist.
pub open spec fn all_in_range<F: Field>(s: Seq<GpuExpression<F>>, n: usize) -> bool {
    forall|i: int| 0 <= i < s.len() ==> (#[trigger] s[i]).pending_in_range(n)
}

/// Whether `new` are the expressions with their queries registered in the
/// system's query lists.
pub open spec fn all_registered<F: Field>(
    s: Seq<GpuExpression<F>>,
    new: Seq<GpuExpression<F>>,
    meta: GpuConstraintSystem<F>,
) -> bool {
    &&& new.len() == s.len()
    &&& forall|i: int|
        0 <= i < s.len() ==> (#[trigger] s[i]).registered_as(
            new[i],
            meta.fixed_queries@,
            meta.advice_queries@,
            meta.instance_queries@,
        )
}

/// Registers the queries of one more expression.
fn register_next<F: Field>(
    polys: &mut Vec<GpuExpression<F>>,
    next: &GpuExpression<F>,
    cells: &mut GpuVirtualCells<'_, F>,
    Ghost(start): Ghost<GpuVirtualCells<'_, F>>,
    Ghost(done): Ghost<Seq<GpuExpression<F>>>,
)
    requires
        old(cells).meta.wf(),
        next.pending_in_range(old(cells).meta.num_advice_columns),
        old(cells).registers(start, joined(done)),
        all_registered(done, old(polys)@, *old(cells).meta),
    ensures
        final(cells).registers(start, joined(done.push(*next))),
        *final(final(cells).meta) == *final(old(cells).meta),
        all_registered(done.push(*next), final(polys)@, *final(cells).meta),
{
    let mut poly = next.clone();
    let ghost c0 = *cells;
    poly.query_cells(cells);
    polys.push(poly);
    proof {
        assert(done.push(*next).drop_last() =~= done);
        lemma_registers_both(
            start,
            c0,
            *cells,
            joined(done),
            *next,
            joined(done.push(*next)),
        );
        assert forall|i: int| 0 <= i < done.push(*next).len() implies (
        #[trigger] done.push(*next)[i]).registered_as(
            polys@[i],
            cells.meta.fixed_queries@,
            cells.meta.advice_queries@,
            cells.meta.instance_queries@,
        ) by {
            if i < done.len() {
                assert(done.push(*next)[i] == done[i]);
                lemma_registered_grows(
                    done[i],
                    polys@[i],
                    c0.meta.fixed_queries@,
                    c0.meta.advice_queries@,
                    c0.meta.instance_queries@,
                    next.pending_fixed(),
                    next.pending_advice(),
                    next.pending_instance(),
                );
            }
        }
    }
}

proof fn lemma_registers_nothing<F: Field>(cells: GpuVirtualCells<'_, F>)
    requires
        cells.meta.wf(),
    ensures
        cells.registers(cells, joined(Seq::<GpuExpression<F>>::empty())),
{
    assert(cells.queried_cells@ + Seq::<GpuVirtualCell>::empty() =~= cells.queried_cells@);
}

/// Whether `gate` holds the constraints with their queries registered, and what
/// the cells noted.
pub open spec fn is_gate<F: Field>(
    gate: GpuGate<F>,
    name: Seq<char>,
    constraints: Seq<GpuConstraint<F>>,
    cells: GpuVirtualCells<'_, F>,
) -> bool {
    &&& gate.name@ == name
    &&& gate.constraint_names@ == Seq::new(constraints.len(), |i: int| constraints[i].name)
    &&& all_registered(polys_of(constraints), gate.polys@, *cells.meta)
    &&& gate.queried_selectors@ == cells.queried_selectors@
    &&& gate.queried_cells@ == cells.queried_cells@
}

/// Whether `meta` is the system of `cells` with a gate of the constraints
/// added to it.
pub open spec fn gate_added<F: Field>(
    meta: GpuConstraintSystem<F>,
    cells: GpuVirtualCells<'_, F>,
    name: Seq<char>,
    constraints: Seq<GpuConstraint<F>>,
) -> bool {
    exists|after: GpuVirtualCells<'_, F>|
        {
            &&& #[trigger] after.registers(cells, joined(polys_of(constraints)))
            &&& meta.gates@.len() == after.meta.gates@.len() + 1
            &&& meta.gates@.drop_last() == after.meta.gates@
            &&& is_gate(meta.gates@.last(), name, constraints, after)
            &&& meta == (GpuConstraintSystem { gates: meta.gates, ..*after.meta })
        }
}

/// Whether cells have just been opened on a system.
pub open spec fn opened_on<F: Field>(
    cells: GpuVirtualCells<'_, F>,
    meta: GpuConstraintSystem<F>,
) -> bool {
    &&& *cells.meta == meta
    &&& cells.queried_selectors@ == Seq::<GpuSelector>::empty()
    &&& cells.queried_cells@ == Seq::<GpuVirtualCell>::empty()
}

impl<'a, F: Field> GpuVirtualCells<'a, F> {
    /// Adds a gate of the constraints to the system, with the selectors and
    /// cells that were queried. A gate has at least one constraint.
    pub fn finish_gate(self, name: &str, constraints: Vec<GpuConstraint<F>>)
        requires
            self.meta.wf(),
            constraints@.len() > 0,
            all_in_range(polys_of(constraints@), self.meta.num_advice_columns),
        ensures
            gate_added(*final(self.meta), self, name@, constraints@),
    {
        let mut cells = self;
        let mut constraint_names: Vec<String> = Vec::new();
        let mut polys: Vec<GpuExpression<F>> = Vec::new();
        let ghost start = cells;
        let ghost all = polys_of(constraints@);
        proof {
            lemma_registers_nothing(start);
            assert(all.take(0) =~= Seq::<GpuExpression<F>>::empty());
        }
        let mut i: usize = 0;
        while i < constraints.len()
            invariant
                i <= constraints@.len(),
                all == polys_of(constraints@),
                all_in_range(all, start.meta.num_advice_columns),
                constraint_names@ =~= Seq::new(i as nat, |j: int| constraints@[j].name),
                cells.registers(start, joined(all.take(i as int))),
                all_registered(all.take(i as int), polys@, *cells.meta),
                *final(cells.meta) == *final(start.meta),
            decreases constraints@.len() - i,
        {
            constraint_names.push(constraints[i].name.clone());
            assert(all[i as int].pending_in_range(start.meta.num_advice_columns));
            register_next(
                &mut polys,
                &constraints[i].poly,
                &mut cells,
                Ghost(start),
                Ghost(all.take(i as int)),
            );
            assert(all.take(i as int).push(constraints@[i as int].poly) =~= all.take(i + 1));
            i += 1;
        }
        assert(all.take(i as int) =~= all);
        let ghost after = cells;
        let GpuVirtualCells { meta, queried_selectors, queried_cells } = cells;
        let gate = GpuGate {
            name: name.to_owned(),
            constraint_names,
            polys,
            queried_selectors,
            queried_cells,
        };
        meta.gates.push(gate);
        proof {
            assert(meta.gates@.drop_last() =~= after.meta.gates@);
            assert(after.registers(self, joined(polys_of(constraints@))));
        }
    }
}

impl<F: Field> GpuConstraintSystem<F> {
    /// Creates a new gate.
    ///
    /// A gate is required to contain polynomial constraints: `constraints` may
    /// not return an empty list.
    pub fn create_gate<G: FnOnce(&mut GpuVirtualCells<'_, F>) -> Vec<GpuConstraint<F>>>(
        &mut self,
        name: &str,
        constraints: G,
    )
        requires
            old(self).wf(),
            forall|c: &mut GpuVirtualCells<'_, F>|
                opened_on(*c, *old(self)) ==> #[trigger] call_requires(constraints, (c,)),
            forall|c: &mut GpuVirtualCells<'_, F>, out: Vec<GpuConstraint<F>>|
                opened_on(*c, *old(self)) && #[trigger] call_ensures(constraints, (c,), out) ==> {
                    &&& final(c).meta.wf()
                    &&& *final(final(c).meta) == *final(c.meta)
                    &&& out@.len() > 0
                    &&& all_in_range(polys_of(out@), final(c).meta.num_advice_columns)
                },
        ensures
            exists|c: &mut GpuVirtualCells<'_, F>, out: Vec<GpuConstraint<F>>|
                {
                    &&& opened_on(*c, *old(self))
                    &&& #[trigger] call_ensures(constraints, (c,), out)
                    &&& gate_added(*final(self), *final(c), name@, out@)
                },
    {
        let mut cells = GpuVirtualCells::new(self);
        let out = constraints(&mut cells);
        cells.finish_gate(name, out);
    }
}

/// The expressions of the pairs, from the first pair to the last.
pub open spec fn interleaved<F: Field>(
    s: Seq<(GpuExpression<F>, GpuExpression<F>)>,
) -> Seq<GpuExpression<F>>
    decreases s.len(),
{
    if s.len() == 0 {
        Seq::empty()
    } else {
        interleaved(s.drop_last()).push(s.last().0).push(s.last().1)
    }
}

/// Whether `new` is an expression with its queries registered in the system.
pub open spec fn registered_in<F: Field>(
    e: GpuExpression<F>,
    new: GpuExpression<F>,
    meta: GpuConstraintSystem<F>,
) -> bool {
    e.registered_as(new, meta.fixed_queries@, meta.advice_queries@, meta.instance_queries@)
}

/// Whether `new` are the pairs with all their queries registered in the system.
pub open spec fn pairs_registered<F: Field>(
    s: Seq<(GpuExpression<F>, GpuExpression<F>)>,
    new: Seq<(GpuExpression<F>, GpuExpression<F>)>,
    meta: GpuConstraintSystem<F>,
) -> bool {
    &&& new.len() == s.len()
    &&& forall|i: int|
        0 <= i < s.len() ==> registered_in((#[trigger] s[i]).0, new[i].0, meta) && registered_in(
            s[i].1,
            new[i].1,
            meta,
        )
}

/// Whether all advice columns that the pairs still have to register exist.
pub open spec fn pairs_in_range<F: Field>(
    s: Seq<(GpuExpression<F>, GpuExpression<F>)>,
    n: usize,
) -> bool {
    forall|i: int|
        0 <= i < s.len() ==> (#[trigger] s[i]).0.pending_in_range(n) && s[i].1.pending_in_range(n)
}

fn register_pairs<F: Field>(
    cells: &mut GpuVirtualCells<'_, F>,
    pairs: &Vec<(GpuExpression<F>, GpuExpression<F>)>,
) -> (r: Vec<(GpuExpression<F>, GpuExpression<F>)>)
    requires
        old(cells).meta.wf(),
        pairs_in_range(pairs@, old(cells).meta.num_advice_columns),
    ensures
        final(cells).registers(*old(cells), joined(interleaved(pairs@))),
        *final(final(cells).meta) == *final(old(cells).meta),
        pairs_registered(pairs@, r@, *final(cells).meta),
{
    let mut registered: Vec<(GpuExpression<F>, GpuExpression<F>)> = Vec::new();
    let ghost start = *cells;
    proof {
        lemma_registers_nothing(start);
        assert(pairs@.take(0) =~= Seq::<(GpuExpression<F>, GpuExpression<F>)>::empty());
    }
    let mut i: usize = 0;
    while i < pairs.len()
        invariant
            i <= pairs@.len(),
            pairs_in_range(pairs@, start.meta.num_advice_columns),
            cells.registers(start, joined(interleaved(pairs@.take(i as int)))),
            pairs_registered(pairs@.take(i as int), registered@, *cells.meta),
            *final(cells.meta) == *final(start.meta),
        decreases pairs@.len() - i,
    {
        let ghost done = interleaved(pairs@.take(i as int));
        let ghost pair = pairs@[i as int];
        let ghost c0 = *cells;
        let mut first = pairs[i].0.clone();
        first.query_cells(cells);
        let ghost c1 = *cells;
        let mut second = pairs[i].1.clone();
        second.query_cells(cells);
        proof {
            assert(pairs@.take(i + 1).drop_last() =~= pairs@.take(i as int));
            assert(done.push(pair.0).drop_last() =~= done);
            assert(done.push(pair.0).push(pair.1).drop_last() =~= done.push(pair.0));
            lemma_registers_both(start, c0, c1, joined(done), pair.0, joined(done.push(pair.0)));
            lemma_registers_both(
                start,
                c1,
                *cells,
                joined(done.push(pair.0)),
                pair.1,
                joined(done.push(pair.0).push(pair.1)),
            );
            lemma_pair_grows(pair.0, first, *c1.meta, *cells.meta, pair.1);
            assert forall|j: int| 0 <= j < i implies registered_in(
                (#[trigger] pairs@.take(i + 1)[j]).0,
                registered@[j].0,
                *cells.meta,
            ) && registered_in(pairs@[j].1, registered@[j].1, *cells.meta) by {
                assert(pairs@.take(i as int)[j] == pairs@[j]);
                lemma_pair_grows(pairs@[j].0, registered@[j].0, *c0.meta, *c1.meta, pair.0);
                lemma_pair_grows(pairs@[j].0, registered@[j].0, *c1.meta, *cells.meta, pair.1);
                lemma_pair_grows(pairs@[j].1, registered@[j].1, *c0.meta, *c1.meta, pair.0);
                lemma_pair_grows(pairs@[j].1, registered@[j].1, *c1.meta, *cells.meta, pair.1);
            }
        }
        registered.push((first, second));
        i += 1;
    }
    assert(pairs@.take(i as int) =~= pairs@);
    registered
}

proof fn lemma_pair_grows<F: Field>(
    e: GpuExpression<F>,
    new: GpuExpression<F>,
    before: GpuConstraintSystem<F>,
    after: GpuConstraintSystem<F>,
    added: GpuExpression<F>,
)
    requires
        registered_in(e, new, before),
        after.fixed_queries@ == with_queries(before.fixed_queries@, added.pending_fixed()),
        after.advice_queries@ == with_queries(before.advice_queries@, added.pending_advice()),
        after.instance_queries@ == with_queries(before.instance_queries@, added.pending_instance()),
    ensures
        registered_in(e, new, after),
{
    lemma_registered_grows(
        e,
        new,
        before.fixed_queries@,
        before.advice_queries@,
        before.instance_queries@,
        added.pending_fixed(),
        added.pending_advice(),
        added.pending_instance(),
    );
}

/// Whether `meta` is the system of `cells` with a lookup added to it: the
/// queries of `order` are registered one after the other, and the lookup's
/// inputs and table entries are `pairs` with their queries registered.
pub open spec fn lookup_added<F: Field>(
    meta: GpuConstraintSystem<F>,
    cells: GpuVirtualCells<'_, F>,
    name: Seq<char>,
    pairs: Seq<(GpuExpression<F>, GpuExpression<F>)>,
    order: Seq<GpuExpression<F>>,
) -> bool {
    exists|after: GpuVirtualCells<'_, F>|
        {
            let added = meta.lookups@.last();
            &&& #[trigger] after.registers(cells, joined(order))
            &&& meta.lookups@.len() == after.meta.lookups@.len() + 1
            &&& meta.lookups@.drop_last() == after.meta.lookups@
            &&& added.name@ == name
            &&& added.input_expressions@.len() == pairs.len()
            &&& added.table_expressions@.len() == pairs.len()
            &&& forall|i: int|
                0 <= i < pairs.len() ==> registered_in(
                    (#[trigger] pairs[i]).0,
                    added.input_expressions@[i],
                    *after.meta,
                ) && registered_in(pairs[i].1, added.table_expressions@[i], *after.meta)
            &&& meta == (GpuConstraintSystem { lookups: meta.lookups, ..*after.meta })
        }
}

/// The pairs with their parts exchanged.
pub open spec fn swapped<F: Field>(
    s: Seq<(GpuExpression<F>, GpuExpression<F>)>,
) -> Seq<(GpuExpression<F>, GpuExpression<F>)> {
    Seq::new(s.len(), |i: int| (s[i].1, s[i].0))
}

/// The query of a table column at the current row.
pub open spec fn table_query<F: Field>(table: GpuTableColumn) -> GpuExpression<F> {
    GpuExpression::Fixed(
        GpuFixedQuery { index: None, column_index: table.column().index, rotation: Rotation(0) },
    )
}

/// Inputs with the queries of their table columns.
pub open spec fn table_pairs<F: Field>(
    s: Seq<(GpuExpression<F>, GpuTableColumn)>,
) -> Seq<(GpuExpression<F>, GpuExpression<F>)> {
    Seq::new(s.len(), |i: int| (s[i].0, table_query(s[i].1)))
}

impl<'a, F: Field> GpuVirtualCells<'a, F> {
    /// Adds a lookup of input expressions in table columns to the system. The
    /// table column of each pair is registered before its input.
    pub fn finish_lookup(
        self,
        name: &str,
        table_map: Vec<(GpuExpression<F>, GpuTableColumn)>,
    ) -> (r: usize)
        requires
            self.meta.wf(),
            forall|i: int|
                0 <= i < table_map@.len() ==> !(#[trigger] table_map@[i]).0.has_simple_selector()
                    && table_map@[i].0.pending_in_range(self.meta.num_advice_columns),
        ensures
            r == old(self.meta).lookups@.len(),
            lookup_added(
                *final(self.meta),
                self,
                name@,
                table_pairs(table_map@),
                interleaved(swapped(table_pairs(table_map@))),
            ),
    {
        let mut cells = self;
        let mut pairs: Vec<(GpuExpression<F>, GpuExpression<F>)> = Vec::new();
        let mut i: usize = 0;
        while i < table_map.len()
            invariant
                i <= table_map@.len(),
                pairs@ =~= swapped(table_pairs(table_map@)).take(i as int),
            decreases table_map@.len() - i,
        {
            let column = table_map[i].1.inner();
            let table = GpuExpression::Fixed(
                GpuFixedQuery {
                    index: None,
                    column_index: column.index,
                    rotation: Rotation::cur(),
                },
            );
            pairs.push((table, table_map[i].0.clone()));
            i += 1;
        }
        assert(pairs@ =~= swapped(table_pairs(table_map@)));
        assert forall|i: int| 0 <= i < pairs@.len() implies (
        #[trigger] pairs@[i]).0.pending_in_range(cells.meta.num_advice_columns)
            && pairs@[i].1.pending_in_range(cells.meta.num_advice_columns) by {
            assert(!table_map@[i].0.has_simple_selector());
        }
        let registered = register_pairs(&mut cells, &pairs);
        let mut table_map2: Vec<(GpuExpression<F>, GpuExpression<F>)> = Vec::new();
        let mut i: usize = 0;
        while i < registered.len()
            invariant
                i <= registered@.len(),
                table_map2@ =~= swapped(registered@).take(i as int),
            decreases registered@.len() - i,
        {
            table_map2.push((registered[i].1.clone(), registered[i].0.clone()));
            i += 1;
        }
        assert(table_map2@ =~= swapped(registered@));
        let ghost after = cells;
        let meta = cells.meta;
        let index: usize = meta.lookups.len();
        meta.lookups.push(lookup::Argument::new(name.to_owned(), table_map2));
        proof {
            let order = interleaved(swapped(table_pairs(table_map@)));
            let all = table_pairs(table_map@);
            assert(after.registers(self, joined(order)));
            assert(meta.lookups@.drop_last() =~= after.meta.lookups@);
            let added = meta.lookups@.last();
            assert forall|i: int| 0 <= i < all.len() implies registered_in(
                (#[trigger] all[i]).0,
                added.input_expressions@[i],
                *after.meta,
            ) && registered_in(all[i].1, added.table_expressions@[i], *after.meta) by {
                assert(pairs@[i] == (all[i].1, all[i].0));
            }
        }
        index
    }

    /// Adds a lookup of input expressions in table expressions to the system.
    pub fn finish_lookup_any(
        self,
        name: &str,
        table_map: Vec<(GpuExpression<F>, GpuExpression<F>)>,
    ) -> (r: usize)
        requires
            self.meta.wf(),
            pairs_in_range(table_map@, self.meta.num_advice_columns),
        ensures
            r == old(self.meta).lookups@.len(),
            lookup_added(
                *final(self.meta),
                self,
                name@,
                table_map@,
                interleaved(table_map@),
            ),
    {
        let mut cells = self;
        let registered = register_pairs(&mut cells, &table_map);
        let ghost after = cells;
        let meta = cells.meta;
        let index: usize = meta.lookups.len();
        meta.lookups.push(lookup::Argument::new(name.to_owned(), registered));
        proof {
            assert(after.registers(self, joined(interleaved(table_map@))));
            assert(meta.lookups@.drop_last() =~= after.meta.lookups@);
        }
        index
    }
}

impl<F: Field> GpuConstraintSystem<F> {
    /// Add a lookup argument for some input expressions and table columns.
    ///
    /// `table_map` returns a map between input expressions and the table columns
    /// they need to match. Inputs may not contain simple selectors.
    pub fn lookup<G: FnOnce(&mut GpuVirtualCells<'_, F>) -> Vec<(GpuExpression<F>,
        GpuTableColumn)>>(
        &mut self,
        name: &str,
        table_map: G,
    ) -> (r: usize)
        requires
            old(self).wf(),
            forall|c: &mut GpuVirtualCells<'_, F>|
                opened_on(*c, *old(self)) ==> #[trigger] call_requires(table_map, (c,)),
            forall|c: &mut GpuVirtualCells<'_, F>, out: Vec<(GpuExpression<F>, GpuTableColumn)>|
                opened_on(*c, *old(self)) && #[trigger] call_ensures(table_map, (c,), out) ==> {
                    &&& final(c).meta.wf()
                    &&& *final(final(c).meta) == *final(c.meta)
                    &&& forall|i: int|
                        0 <= i < out@.len() ==> !(#[trigger] out@[i]).0.has_simple_selector()
                            && out@[i].0.pending_in_range(final(c).meta.num_advice_columns)
                },
        ensures
            exists|c: &mut GpuVirtualCells<'_, F>, out: Vec<(GpuExpression<F>, GpuTableColumn)>|
                {
                    &&& opened_on(*c, *old(self))
                    &&& #[trigger] call_ensures(table_map, (c,), out)
                    &&& r == final(c).meta.lookups@.len()
                    &&& lookup_added(
                        *final(self),
                        *final(c),
                        name@,
                        table_pairs(out@),
                        interleaved(swapped(table_pairs(out@))),
                    )
                },
    {
        let mut cells = GpuVirtualCells::new(self);
        let out = table_map(&mut cells);
        cells.finish_lookup(name, out)
    }

    /// Add a lookup argument for some input expressions and table expressions.
    ///
    /// `table_map` returns a map between input expressions and the table expressions
    /// they need to match.
    pub fn lookup_any<
        G: FnOnce(&mut GpuVirtualCells<'_, F>) -> Vec<(GpuExpression<F>, GpuExpression<F>)>,
    >(&mut self, name: &str, table_map: G) -> (r: usize)
        requires
            old(self).wf(),
            forall|c: &mut GpuVirtualCells<'_, F>|
                opened_on(*c, *old(self)) ==> #[trigger] call_requires(table_map, (c,)),
            forall|c: &mut GpuVirtualCells<'_, F>, out: Vec<(GpuExpression<F>, GpuExpression<F>)>|
                opened_on(*c, *old(self)) && #[trigger] call_ensures(table_map, (c,), out) ==> {
                    &&& final(c).meta.wf()
                    &&& *final(final(c).meta) == *final(c.meta)
                    &&& pairs_in_range(out@, final(c).meta.num_advice_columns)
                },
        ensures
            exists|c: &mut GpuVirtualCells<'_, F>, out: Vec<(GpuExpression<F>, GpuExpression<F>)>|
                {
                    &&& opened_on(*c, *old(self))
                    &&& #[trigger] call_ensures(table_map, (c,), out)
                    &&& r == final(c).meta.lookups@.len()
                    &&& lookup_added(*final(self), *final(c), name@, out@, interleaved(out@))
                },
    {
        let mut cells = GpuVirtualCells::new(self);
        let out = table_map(&mut cells);
        cells.finish_lookup_any(name, out)
    }
}

} // verus!
