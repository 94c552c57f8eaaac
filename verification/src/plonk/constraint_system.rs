//! The constraint system: columns, gates, lookups and the queries they make.

use crate::field::Field;
use crate::plonk::circuit::{
    GpuAdvice, GpuAny, GpuChallenge, GpuColumn, GpuFirstPhase, GpuFixed, GpuInstance, GpuPhase,
    GpuSelector, GpuTableColumn, Phase,
};
use crate::plonk::expression::GpuExpression;
use crate::plonk::lookup;
use crate::plonk::permutation;
use crate::plonk::queries::{
    find_or_push_query, find_query, is_position, lemma_queries_of_bound, lemma_queries_of_push,
    queries_of, with_query,
};
use crate::poly::Rotation;
use vstd::prelude::*;

verus! {

/// The cap on the degree of a constraint system where no other cap is set.
/// Constraints may have a larger degree: see
/// [`GpuConstraintSystem::uncapped_degree`].
pub const DEFAULT_MAX_DEGREE: usize = 5;

/// A "virtual cell" is a PLONK cell that has been queried at a particular relative offset
/// within a custom gate.
#[derive(Clone, Copy, Debug)]
pub struct GpuVirtualCell {
    pub column: GpuColumn<GpuAny>,
    pub rotation: Rotation,
}

/// An individual polynomial constraint.
///
/// These are returned by the closures passed to `GpuConstraintSystem::create_gate`.
#[derive(Debug)]
pub struct GpuConstraint<F: Field> {
    pub name: String,
    pub poly: GpuExpression<F>,
}

impl<F: Field> GpuConstraint<F> {
    /// A constraint without a name.
    pub fn from(poly: GpuExpression<F>) -> (r: Self)
        ensures
            r.name@ == Seq::<char>::empty(),
            r.poly == poly,
    {
        GpuConstraint { name: String::new(), poly }
    }

    /// A constraint with a name.
    pub fn named(name: &str, poly: GpuExpression<F>) -> (r: Self)
        ensures
            r.name@ == name@,
            r.poly == poly,
    {
        GpuConstraint { name: name.to_owned(), poly }
    }
}

/// A set of polynomial constraints with a common selector.
#[derive(Debug)]
pub struct GpuConstraints<F: Field> {
    pub selector: GpuExpression<F>,
    pub constraints: Vec<GpuConstraint<F>>,
}

impl<F: Field> GpuConstraints<F> {
    /// Constructs a set of constraints that are controlled by the given selector.
    ///
    /// Each constraint `c` will be converted into the constraint
    /// `selector * c`.
    pub fn with_selector(selector: GpuExpression<F>,
        constraints: Vec<GpuConstraint<F>>) -> (r: Self)
        ensures
            r.selector == selector,
            r.constraints == constraints,
    {
        GpuConstraints { selector, constraints }
    }

    /// The constraints, each multiplied by the selector.
    pub fn into_constraints(self) -> (r: Vec<GpuConstraint<F>>)
        requires
            self.selector.has_simple_selector() ==> forall|i: int|
                0 <= i < self.constraints@.len()
                    ==> !(#[trigger] self.constraints@[i]).poly.has_simple_selector(),
        ensures
            r@.len() == self.constraints@.len(),
            forall|i: int|
                0 <= i < r@.len() ==> (#[trigger] r@[i]).name == self.constraints@[i].name
                    && r@[i].poly == GpuExpression::Product(
                    Box::new(self.selector),
                    Box::new(self.constraints@[i].poly),
                ),
    {
        let mut constraints: Vec<GpuConstraint<F>> = Vec::new();
        let mut i: usize = 0;
        while i < self.constraints.len()
            invariant
                i <= self.constraints@.len(),
                constraints@.len() == i,
                self.selector.has_simple_selector() ==> forall|j: int|
                    0 <= j < self.constraints@.len()
                        ==> !(#[trigger] self.constraints@[j]).poly.has_simple_selector(),
                forall|j: int|
                    0 <= j < i ==> (#[trigger] constraints@[j]).name == self.constraints@[j].name
                        && constraints@[j].poly == GpuExpression::Product(
                        Box::new(self.selector),
                        Box::new(self.constraints@[j].poly),
                    ),
            decreases self.constraints@.len() - i,
        {
            constraints.push(apply_selector_to_constraint(&self.selector, &self.constraints[i]));
            i += 1;
        }
        constraints
    }
}

fn apply_selector_to_constraint<F: Field>(
    selector: &GpuExpression<F>,
    constraint: &GpuConstraint<F>,
) -> (r: GpuConstraint<F>)
    requires
        !selector.has_simple_selector() || !constraint.poly.has_simple_selector(),
    ensures
        r.name == constraint.name,
        r.poly == GpuExpression::Product(Box::new(*selector), Box::new(constraint.poly)),
{
    GpuConstraint {
        name: constraint.name.clone(),
        poly: selector.clone() * constraint.poly.clone(),
    }
}

/// GpuGate
#[derive(Debug)]
pub struct GpuGate<F: Field> {
    pub name: String,
    pub constraint_names: Vec<String>,
    pub polys: Vec<GpuExpression<F>>,
    /// Queried selectors, tracked separately for gate debug checks.
    pub queried_selectors: Vec<GpuSelector>,
    pub queried_cells: Vec<GpuVirtualCell>,
}

impl<F: Field> GpuGate<F> {
    /// Returns the name of this gate.
    pub fn name(&self) -> (r: &str)
        ensures
            r@ == self.name@,
    {
        self.name.as_str()
    }

    /// Returns the name of the constraint at index `constraint_index`.
    pub fn constraint_name(&self, constraint_index: usize) -> (r: &str)
        requires
            constraint_index < self.constraint_names@.len(),
        ensures
            r@ == self.constraint_names@[constraint_index as int]@,
    {
        self.constraint_names[constraint_index].as_str()
    }

    /// Returns constraints of this gate
    pub fn polynomials(&self) -> (r: &Vec<GpuExpression<F>>)
        ensures
            *r == self.polys,
    {
        &self.polys
    }

    pub fn queried_selectors(&self) -> (r: &Vec<GpuSelector>)
        ensures
            *r == self.queried_selectors,
    {
        &self.queried_selectors
    }

    pub fn queried_cells(&self) -> (r: &Vec<GpuVirtualCell>)
        ensures
            *r == self.queried_cells,
    {
        &self.queried_cells
    }
}

/// This is a description of the circuit environment, such as gate, column and
/// permutation arrangements.
#[derive(Debug)]
pub struct GpuConstraintSystem<F: Field> {
    pub num_fixed_columns: usize,
    pub num_advice_columns: usize,
    pub num_instance_columns: usize,
    pub num_selectors: usize,
    pub num_challenges: usize,
    /// Contains the phase for each advice column. Has same length as num_advice_columns.
    pub advice_column_phase: Vec<Phase>,
    /// Contains the phase for each challenge. Has same length as num_challenges.
    pub challenge_phase: Vec<Phase>,
    /// This is a cached vector that maps virtual selectors to the concrete
    /// fixed column that they were compressed into.
    pub selector_map: Vec<GpuColumn<GpuFixed>>,
    pub gates: Vec<GpuGate<F>>,
    pub advice_queries: Vec<(GpuColumn<GpuAdvice>, Rotation)>,
    // Contains an integer for each advice column
    // identifying how many distinct queries it has
    // so far; same length as num_advice_columns.
    pub num_advice_queries: Vec<usize>,
    pub instance_queries: Vec<(GpuColumn<GpuInstance>, Rotation)>,
    pub fixed_queries: Vec<(GpuColumn<GpuFixed>, Rotation)>,
    // Permutation argument for performing equality constraints
    pub permutation: permutation::Argument,
    // Vector of lookup arguments, where each corresponds to a sequence of
    // input expressions and a sequence of table expressions involved in the lookup.
    pub lookups: Vec<lookup::Argument<F>>,
    // List of columns with the annotation that they carry throughout the circuit.
    pub general_column_annotations: Vec<(GpuColumn<GpuAny>, String)>,
    // Vector of fixed columns, which can be used to store constant values
    // that are copied into advice columns.
    pub constants: Vec<GpuColumn<GpuFixed>>,
    pub minimum_degree: Option<usize>,
}

impl<F: Field> Default for GpuConstraintSystem<F> {
    fn default() -> (r: GpuConstraintSystem<F>)
        ensures
            r.wf(),
            r.num_fixed_columns == 0,
            r.num_advice_columns == 0,
            r.num_instance_columns == 0,
            r.num_selectors == 0,
            r.num_challenges == 0,
            r.selector_map@.len() == 0,
            r.gates@.len() == 0,
            r.fixed_queries@.len() == 0,
            r.advice_queries@.len() == 0,
            r.instance_queries@.len() == 0,
            r.permutation.columns@.len() == 0,
            r.lookups@.len() == 0,
            r.general_column_annotations@.len() == 0,
            r.constants@.len() == 0,
            r.minimum_degree is None,
    {
        GpuConstraintSystem {
            num_fixed_columns: 0,
            num_advice_columns: 0,
            num_instance_columns: 0,
            num_selectors: 0,
            num_challenges: 0,
            advice_column_phase: Vec::new(),
            challenge_phase: Vec::new(),
            selector_map: Vec::new(),
            gates: Vec::new(),
            fixed_queries: Vec::new(),
            advice_queries: Vec::new(),
            num_advice_queries: Vec::new(),
            instance_queries: Vec::new(),
            permutation: permutation::Argument::new(),
            lookups: Vec::new(),
            general_column_annotations: Vec::new(),
            constants: Vec::new(),
            minimum_degree: None,
        }
    }
}

impl<F: Field> GpuConstraintSystem<F> {
    /// The lists of per-column data have an entry for each column, the query
    /// lists hold no query twice, and the queries of every advice column are
    /// counted.
    pub open spec fn wf(self) -> bool {
        &&& forall|i: int|
            0 <= i < self.advice_queries@.len() ==> (#[trigger] self.advice_queries@[i]).0.index
                < self.num_advice_columns
        &&& self.advice_column_phase@.len() == self.num_advice_columns
        &&& self.challenge_phase@.len() == self.num_challenges
        &&& self.num_advice_queries@.len() == self.num_advice_columns
        &&& self.fixed_queries@.no_duplicates()
        &&& self.advice_queries@.no_duplicates()
        &&& self.instance_queries@.no_duplicates()
        &&& forall|i: int|
            0 <= i < self.num_advice_queries@.len() ==> #[trigger] self.num_advice_queries@[i]
                == queries_of(self.advice_queries@, i as usize)
    }

    /// Whether the two systems differ in their query lists at most.
    pub open spec fn same_but_queries(self, other: Self) -> bool {
        &&& self.num_fixed_columns == other.num_fixed_columns
        &&& self.num_advice_columns == other.num_advice_columns
        &&& self.num_instance_columns == other.num_instance_columns
        &&& self.num_selectors == other.num_selectors
        &&& self.num_challenges == other.num_challenges
        &&& self.advice_column_phase == other.advice_column_phase
        &&& self.challenge_phase == other.challenge_phase
        &&& self.selector_map == other.selector_map
        &&& self.gates == other.gates
        &&& self.permutation == other.permutation
        &&& self.lookups == other.lookups
        &&& self.general_column_annotations == other.general_column_annotations
        &&& self.constants == other.constants
        &&& self.minimum_degree == other.minimum_degree
    }

    pub fn query_fixed_index(&mut self, column: GpuColumn<GpuFixed>, at: Rotation) -> (r: usize)
        requires
            old(self).wf(),
        ensures
            final(self).wf(),
            final(self).same_but_queries(*old(self)),
            final(self).fixed_queries@ == with_query(old(self).fixed_queries@, (column, at)),
            final(self).advice_queries == old(self).advice_queries,
            final(self).num_advice_queries == old(self).num_advice_queries,
            final(self).instance_queries == old(self).instance_queries,
            is_position(final(self).fixed_queries@, (column, at), r as int),
    {
        find_or_push_query(&mut self.fixed_queries, column, at)
    }

    pub fn query_advice_index(&mut self, column: GpuColumn<GpuAdvice>, at: Rotation) -> (r: usize)
        requires
            old(self).wf(),
            column.index < old(self).num_advice_columns,
        ensures
            final(self).wf(),
            final(self).same_but_queries(*old(self)),
            final(self).advice_queries@ == with_query(old(self).advice_queries@, (column, at)),
            final(self).fixed_queries == old(self).fixed_queries,
            final(self).instance_queries == old(self).instance_queries,
            is_position(final(self).advice_queries@, (column, at), r as int),
    {
        // Return existing query, if it exists
        match find_query(&self.advice_queries, column, at) {
            Some(index) => index,
            None => {
                // Make a new query
                let index: usize = self.advice_queries.len();
                self.advice_queries.push((column, at));
                let len: usize = self.advice_queries.len();
                let count: usize = self.num_advice_queries[column.index];
                proof {
                    lemma_queries_of_bound(old(self).advice_queries@, column.index);
                    assert forall|i: usize| #[trigger]
                        queries_of(self.advice_queries@, i) == queries_of(
                            old(self).advice_queries@,
                            i,
                        ) + if i == column.index {
                            1nat
                        } else {
                            0nat
                        } by {
                        lemma_queries_of_push(old(self).advice_queries@, (column, at), i);
                    }
                }
                self.num_advice_queries.set(column.index, count + 1);
                index
            },
        }
    }

    pub fn query_instance_index(
        &mut self,
        column: GpuColumn<GpuInstance>,
        at: Rotation,
    ) -> (r: usize)
        requires
            old(self).wf(),
        ensures
            final(self).wf(),
            final(self).same_but_queries(*old(self)),
            final(self).instance_queries@ == with_query(old(self).instance_queries@, (column, at)),
            final(self).fixed_queries == old(self).fixed_queries,
            final(self).advice_queries == old(self).advice_queries,
            final(self).num_advice_queries == old(self).num_advice_queries,
            is_position(final(self).instance_queries@, (column, at), r as int),
    {
        find_or_push_query(&mut self.instance_queries, column, at)
    }

    /// Whether `i` is the position of a query in the list of its column type.
    pub open spec fn is_query_index(self, column: GpuColumn<GpuAny>, at: Rotation, i: int) -> bool {
        match column.column_type {
            GpuAny::Advice(advice) => is_position(
                self.advice_queries@,
                (GpuColumn { index: column.index, column_type: advice }, at),
                i,
            ),
            GpuAny::Fixed => is_position(
                self.fixed_queries@,
                (GpuColumn { index: column.index, column_type: GpuFixed }, at),
                i,
            ),
            GpuAny::Instance => is_position(
                self.instance_queries@,
                (GpuColumn { index: column.index, column_type: GpuInstance }, at),
                i,
            ),
        }
    }

    /// Whether the query lists are those of `old` with one query added.
    pub open spec fn adds_query(self, old: Self, column: GpuColumn<GpuAny>, at: Rotation) -> bool {
        match column.column_type {
            GpuAny::Advice(advice) => {
                &&& self.advice_queries@ == with_query(
                    old.advice_queries@,
                    (GpuColumn { index: column.index, column_type: advice }, at),
                )
                &&& self.fixed_queries == old.fixed_queries
                &&& self.instance_queries == old.instance_queries
            },
            GpuAny::Fixed => {
                &&& self.fixed_queries@ == with_query(
                    old.fixed_queries@,
                    (GpuColumn { index: column.index, column_type: GpuFixed }, at),
                )
                &&& self.advice_queries == old.advice_queries
                &&& self.instance_queries == old.instance_queries
            },
            GpuAny::Instance => {
                &&& self.instance_queries@ == with_query(
                    old.instance_queries@,
                    (GpuColumn { index: column.index, column_type: GpuInstance }, at),
                )
                &&& self.advice_queries == old.advice_queries
                &&& self.fixed_queries == old.fixed_queries
            },
        }
    }

    /// Whether an advice column exists; fixed and instance columns may be
    /// queried freely.
    pub open spec fn may_query(self, column: GpuColumn<GpuAny>) -> bool {
        column.column_type is Advice ==> column.index < self.num_advice_columns
    }

    pub fn query_any_index(&mut self, column: GpuColumn<GpuAny>, at: Rotation) -> (r: usize)
        requires
            old(self).wf(),
            old(self).may_query(column),
        ensures
            final(self).wf(),
            final(self).same_but_queries(*old(self)),
            final(self).adds_query(*old(self), column, at),
            final(self).is_query_index(column, at, r as int),
    {
        match column.column_type {
            GpuAny::Advice(advice) => self.query_advice_index(
                GpuColumn { index: column.index, column_type: advice },
                at,
            ),
            GpuAny::Fixed => self.query_fixed_index(
                GpuColumn { index: column.index, column_type: GpuFixed },
                at,
            ),
            GpuAny::Instance => self.query_instance_index(
                GpuColumn { index: column.index, column_type: GpuInstance },
                at,
            ),
        }
    }

    pub fn get_advice_query_index(&self, column: GpuColumn<GpuAdvice>, at: Rotation) -> (r: usize)
        requires
            self.advice_queries@.contains((column, at)),
        ensures
            is_position(self.advice_queries@, (column, at), r as int),
    {
        find_query(&self.advice_queries, column, at).unwrap()
    }

    pub fn get_fixed_query_index(&self, column: GpuColumn<GpuFixed>, at: Rotation) -> (r: usize)
        requires
            self.fixed_queries@.contains((column, at)),
        ensures
            is_position(self.fixed_queries@, (column, at), r as int),
    {
        find_query(&self.fixed_queries, column, at).unwrap()
    }

    pub fn get_instance_query_index(
        &self,
        column: GpuColumn<GpuInstance>,
        at: Rotation,
    ) -> (r: usize)
        requires
            self.instance_queries@.contains((column, at)),
        ensures
            is_position(self.instance_queries@, (column, at), r as int),
    {
        find_query(&self.instance_queries, column, at).unwrap()
    }

    /// Whether a query is in the list of its column type.
    pub open spec fn has_query(self, column: GpuColumn<GpuAny>, at: Rotation) -> bool {
        match column.column_type {
            GpuAny::Advice(advice) => self.advice_queries@.contains(
                (GpuColumn { index: column.index, column_type: advice }, at),
            ),
            GpuAny::Fixed => self.fixed_queries@.contains(
                (GpuColumn { index: column.index, column_type: GpuFixed }, at),
            ),
            GpuAny::Instance => self.instance_queries@.contains(
                (GpuColumn { index: column.index, column_type: GpuInstance }, at),
            ),
        }
    }

    pub fn get_any_query_index(&self, column: GpuColumn<GpuAny>, at: Rotation) -> (r: usize)
        requires
            self.has_query(column, at),
        ensures
            self.is_query_index(column, at, r as int),
    {
        match column.column_type {
            GpuAny::Advice(advice) => self.get_advice_query_index(
                GpuColumn { index: column.index, column_type: advice },
                at,
            ),
            GpuAny::Fixed => self.get_fixed_query_index(
                GpuColumn { index: column.index, column_type: GpuFixed },
                at,
            ),
            GpuAny::Instance => self.get_instance_query_index(
                GpuColumn { index: column.index, column_type: GpuInstance },
                at,
            ),
        }
    }

    /// Enable the ability to enforce equality over cells in this column
    pub fn enable_equality(&mut self, column: GpuColumn<GpuAny>)
        requires
            old(self).wf(),
            old(self).may_query(column),
        ensures
            final(self).wf(),
            final(self).adds_query(*old(self), column, Rotation(0)),
            final(self).permutation.columns@ == with_query(
                old(self).permutation.columns@,
                column,
            ),
            final(self).same_but_queries(
                (Self { permutation: final(self).permutation, ..*old(self) }),
            ),
    {
        self.query_any_index(column, Rotation::cur());
        self.permutation.add_column(column);
    }

    /// Enables this fixed column to be used for global constant assignments.
    ///
    /// # Side-effects
    ///
    /// The column will be equality-enabled.
    pub fn enable_constant(&mut self, column: GpuColumn<GpuFixed>)
        requires
            old(self).wf(),
        ensures
            final(self).wf(),
            final(self).constants@ == with_query(old(self).constants@, column),
            if old(self).constants@.contains(column) {
                *final(self) == *old(self)
            } else {
                let any = GpuColumn { index: column.index, column_type: GpuAny::Fixed };
                &&& final(self).adds_query(*old(self), any, Rotation(0))
                &&& final(self).permutation.columns@ == with_query(
                    old(self).permutation.columns@,
                    any,
                )
                &&& final(self).same_but_queries(
                    (Self {
                        permutation: final(self).permutation,
                        constants: final(self).constants,
                        ..*old(self)
                    }),
                )
            },
    {
        let mut i: usize = 0;
        while i < self.constants.len()
            invariant
                i <= self.constants@.len(),
                *self == *old(self),
                old(self).wf(),
                forall|j: int| 0 <= j < i ==> self.constants@[j] != column,
            decreases self.constants@.len() - i,
        {
            if self.constants[i].same(&column) {
                return;
            }
            i += 1;
        }
        self.constants.push(column);
        self.enable_equality(GpuColumn { index: column.index, column_type: GpuAny::Fixed });
    }

    /// Sets the minimum degree required by the circuit, which can be set to a
    /// larger amount than actually needed. This can be used, for example, to
    /// force the permutation argument to involve more columns in the same set.
    pub fn set_minimum_degree(&mut self, degree: usize)
        ensures
            *final(self) == (Self { minimum_degree: Some(degree), ..*old(self) }),
    {
        self.minimum_degree = Some(degree);
    }

    /// Allocate a new (simple) selector. Simple selectors cannot be added to
    /// expressions nor multiplied by other expressions containing simple
    /// selectors. Also, simple selectors may not appear in lookup argument
    /// inputs.
    pub fn selector(&mut self) -> (r: GpuSelector)
        requires
            old(self).num_selectors < usize::MAX,
        ensures
            r == GpuSelector(old(self).num_selectors, true),
            *final(self) == (Self {
                num_selectors: (old(self).num_selectors + 1) as usize,
                ..*old(self)
            }),
    {
        let index: usize = self.num_selectors;
        self.num_selectors = self.num_selectors + 1;
        GpuSelector(index, true)
    }

    /// Allocate a new complex selector that can appear anywhere
    /// within expressions.
    pub fn complex_selector(&mut self) -> (r: GpuSelector)
        requires
            old(self).num_selectors < usize::MAX,
        ensures
            r == GpuSelector(old(self).num_selectors, false),
            *final(self) == (Self {
                num_selectors: (old(self).num_selectors + 1) as usize,
                ..*old(self)
            }),
    {
        let index: usize = self.num_selectors;
        self.num_selectors = self.num_selectors + 1;
        GpuSelector(index, false)
    }

    /// Allocates a new fixed column that can be used in a lookup table.
    pub fn lookup_table_column(&mut self) -> (r: GpuTableColumn)
        requires
            old(self).num_fixed_columns < usize::MAX,
        ensures
            r.column() == (GpuColumn {
                index: old(self).num_fixed_columns,
                column_type: GpuFixed,
            }),
            *final(self) == (Self {
                num_fixed_columns: (old(self).num_fixed_columns + 1) as usize,
                ..*old(self)
            }),
    {
        GpuTableColumn::new(self.fixed_column())
    }

    /// Allocate a new fixed column
    pub fn fixed_column(&mut self) -> (r: GpuColumn<GpuFixed>)
        requires
            old(self).num_fixed_columns < usize::MAX,
        ensures
            r == (GpuColumn { index: old(self).num_fixed_columns, column_type: GpuFixed }),
            *final(self) == (Self {
                num_fixed_columns: (old(self).num_fixed_columns + 1) as usize,
                ..*old(self)
            }),
    {
        let tmp = GpuColumn { index: self.num_fixed_columns, column_type: GpuFixed };
        self.num_fixed_columns = self.num_fixed_columns + 1;
        tmp
    }

    /// Allocate a new advice column at `GpuFirstPhase`
    pub fn advice_column(&mut self) -> (r: GpuColumn<GpuAdvice>)
        requires
            old(self).wf(),
            old(self).num_advice_columns < usize::MAX,
        ensures
            final(self).wf(),
            r == (GpuColumn {
                index: old(self).num_advice_columns,
                column_type: GpuAdvice { phase: Phase(0) },
            }),
            final(self).adds_advice_column(*old(self), Phase(0)),
    {
        self.advice_column_in(GpuFirstPhase)
    }

    /// Whether a system is `old` with an advice column added.
    pub open spec fn adds_advice_column(self, old: Self, phase: Phase) -> bool {
        &&& self.num_advice_columns == old.num_advice_columns + 1
        &&& self.advice_column_phase@ == old.advice_column_phase@.push(phase)
        &&& self.num_advice_queries@ == old.num_advice_queries@.push(0)
        &&& self == (Self {
            num_advice_columns: self.num_advice_columns,
            advice_column_phase: self.advice_column_phase,
            num_advice_queries: self.num_advice_queries,
            ..old
        })
    }

    /// Allocate a new advice column in given phase; an advice column of the
    /// phase before it must exist.
    pub fn advice_column_in<P: GpuPhase>(&mut self, phase: P) -> (r: GpuColumn<GpuAdvice>)
        requires
            old(self).wf(),
            old(self).num_advice_columns < usize::MAX,
            phase.sealed().0 > 0 ==> old(self).advice_column_phase@.contains(
                Phase((phase.sealed().0 - 1) as u8),
            ),
        ensures
            final(self).wf(),
            r == (GpuColumn {
                index: old(self).num_advice_columns,
                column_type: GpuAdvice { phase: phase.sealed() },
            }),
            final(self).adds_advice_column(*old(self), phase.sealed()),
    {
        let phase = phase.to_sealed();
        let tmp = GpuColumn { index: self.num_advice_columns, column_type: GpuAdvice { phase } };
        self.num_advice_columns = self.num_advice_columns + 1;
        self.num_advice_queries.push(0);
        self.advice_column_phase.push(phase);
        proof {
            lemma_no_queries(self.advice_queries@, tmp.index);
        }
        tmp
    }

    /// Allocate a new instance column
    pub fn instance_column(&mut self) -> (r: GpuColumn<GpuInstance>)
        requires
            old(self).num_instance_columns < usize::MAX,
        ensures
            r == (GpuColumn { index: old(self).num_instance_columns, column_type: GpuInstance }),
            *final(self) == (Self {
                num_instance_columns: (old(self).num_instance_columns + 1) as usize,
                ..*old(self)
            }),
    {
        let tmp = GpuColumn { index: self.num_instance_columns, column_type: GpuInstance };
        self.num_instance_columns = self.num_instance_columns + 1;
        tmp
    }

    /// Requests a challenge that is usable after the given phase; an advice
    /// column of that phase must exist.
    pub fn challenge_usable_after<P: GpuPhase>(&mut self, phase: P) -> (r: GpuChallenge)
        requires
            old(self).num_challenges < usize::MAX,
            old(self).advice_column_phase@.contains(phase.sealed()),
        ensures
            r == (GpuChallenge { index: old(self).num_challenges, phase: phase.sealed() }),
            final(self).challenge_phase@ == old(self).challenge_phase@.push(phase.sealed()),
            *final(self) == (Self {
                num_challenges: (old(self).num_challenges + 1) as usize,
                challenge_phase: final(self).challenge_phase,
                ..*old(self)
            }),
    {
        let phase = phase.to_sealed();
        let tmp = GpuChallenge { index: self.num_challenges, phase };
        self.num_challenges = self.num_challenges + 1;
        self.challenge_phase.push(phase);
        tmp
    }

    /// Whether an advice column of the phase exists, so that phase-aware
    /// resources are allocated in order and no phase is skipped.
    pub fn phase_exists(&self, phase: Phase) -> (r: bool)
        ensures
            r == self.advice_column_phase@.contains(phase),
    {
        let mut i: usize = 0;
        while i < self.advice_column_phase.len()
            invariant
                i <= self.advice_column_phase@.len(),
                forall|j: int| 0 <= j < i ==> self.advice_column_phase@[j] != phase,
            decreases self.advice_column_phase@.len() - i,
        {
            if self.advice_column_phase[i] == phase {
                return true;
            }
            i += 1;
        }
        false
    }

    /// The last phase that an advice column is in.
    pub open spec fn last_phase(self) -> int {
        max_phase(self.advice_column_phase@)
    }

    /// The phases from the first to the last that an advice column is in.
    pub fn phases(&self) -> (r: Vec<Phase>)
        ensures
            r@.len() == self.last_phase() + 1,
            forall|i: int| 0 <= i < r@.len() ==> (#[trigger] r@[i]).0 == i,
    {
        let mut max: u8 = 0;
        let mut i: usize = 0;
        while i < self.advice_column_phase.len()
            invariant
                i <= self.advice_column_phase@.len(),
                max == max_phase(self.advice_column_phase@.take(i as int)),
            decreases self.advice_column_phase@.len() - i,
        {
            assert(self.advice_column_phase@.take(i + 1).drop_last()
                =~= self.advice_column_phase@.take(i as int));
            if self.advice_column_phase[i].0 > max {
                max = self.advice_column_phase[i].0;
            }
            i += 1;
        }
        assert(self.advice_column_phase@.take(i as int) =~= self.advice_column_phase@);
        let mut phases: Vec<Phase> = Vec::new();
        let mut p: u8 = 0;
        while p < max
            invariant
                p <= max,
                phases@.len() == p,
                forall|i: int| 0 <= i < phases@.len() ==> (#[trigger] phases@[i]).0 == i,
            decreases max - p,
        {
            phases.push(Phase(p));
            p += 1;
        }
        phases.push(Phase(max));
        phases
    }

    /// The largest degree of a constraint: of the permutation argument, the
    /// lookups and the gates.
    pub open spec fn constraint_degree(self) -> nat {
        let p = 3nat;
        let l = max_lookup_degree(self.lookups@);
        let g = max_gate_degree(self.gates@);
        if p >= l && p >= g {
            p
        } else if l >= g {
            l
        } else {
            g
        }
    }

    /// The degree of the system: that of its constraints, at most `max_degree`
    /// and at least the minimum that was asked for.
    pub open spec fn spec_degree(self, max_degree: nat) -> nat {
        let d = if self.constraint_degree() <= max_degree {
            self.constraint_degree()
        } else {
            max_degree
        };
        let m = match self.minimum_degree {
            Some(m) => m as nat,
            None => 1nat,
        };
        if d >= m {
            d
        } else {
            m
        }
    }

    /// The maximum degree of all constraints, whatever the cap: that of the
    /// permutation argument, of each lookup, and of each polynomial of each gate.
    pub fn uncapped_degree(&self) -> (r: usize)
        requires
            self.constraint_degree() <= usize::MAX,
            forall|i: int|
                0 <= i < self.lookups@.len()
                    ==> (#[trigger] self.lookups@[i]).input_expressions@.len()
                    == self.lookups@[i].table_expressions@.len(),
        ensures
            r == self.constraint_degree(),
            self.covers_constraints(r as nat),
    {
        // The permutation argument will serve alongside the gates, so must be
        // accounted for.
        let mut degree: usize = self.permutation.required_degree();
        // The lookup argument also serves alongside the gates and must be accounted
        // for.
        let mut lookups: usize = 1;
        let mut i: usize = 0;
        while i < self.lookups.len()
            invariant
                i <= self.lookups@.len(),
                lookups == max_lookup_degree(self.lookups@.take(i as int)),
                max_lookup_degree(self.lookups@) <= usize::MAX,
                forall|i: int|
                    0 <= i < self.lookups@.len()
                        ==> (#[trigger] self.lookups@[i]).input_expressions@.len()
                        == self.lookups@[i].table_expressions@.len(),
            decreases self.lookups@.len() - i,
        {
            proof {
                lemma_max_lookup_degree(self.lookups@, i as int);
                assert(self.lookups@.take(i + 1).drop_last() =~= self.lookups@.take(i as int));
            }
            let d: usize = self.lookups[i].required_degree();
            if d > lookups {
                lookups = d;
            }
            i += 1;
        }
        assert(self.lookups@.take(i as int) =~= self.lookups@);
        if lookups > degree {
            degree = lookups;
        }
        // Account for each gate to ensure our quotient polynomial is the
        // correct degree and that our extended domain is the right size.
        let mut gates: usize = 0;
        let mut i: usize = 0;
        while i < self.gates.len()
            invariant
                i <= self.gates@.len(),
                gates == max_gate_degree(self.gates@.take(i as int)),
                max_gate_degree(self.gates@) <= usize::MAX,
            decreases self.gates@.len() - i,
        {
            proof {
                lemma_max_gate_degree(self.gates@, i as int);
                assert(self.gates@.take(i + 1).drop_last() =~= self.gates@.take(i as int));
            }
            let d: usize = max_poly_degree_of(&self.gates[i].polys);
            if d > gates {
                gates = d;
            }
            i += 1;
        }
        assert(self.gates@.take(i as int) =~= self.gates@);
        if gates > degree {
            degree = gates;
        }
        proof {
            law_degree_covers_constraints(*self);
        }
        degree
    }

    /// Whether no constraint has a degree above `d`.
    pub open spec fn covers_constraints(self, d: nat) -> bool {
        &&& d >= 3
        &&& forall|i: int, j: int|
            0 <= i < self.gates@.len() && 0 <= j < self.gates@[i].polys@.len() ==> (
            #[trigger] self.gates@[i].polys@[j]).spec_degree() <= d
        &&& forall|k: int|
            0 <= k < self.lookups@.len() ==> (
            #[trigger] self.lookups@[k]).spec_required_degree() <= d
    }

    /// Compute the degree of the constraint system (the maximum degree of all
    /// constraints), capped at `max_degree`.
    pub fn degree(&self, max_degree: usize) -> (r: usize)
        requires
            self.constraint_degree() <= usize::MAX,
            forall|i: int|
                0 <= i < self.lookups@.len()
                    ==> (#[trigger] self.lookups@[i]).input_expressions@.len()
                    == self.lookups@[i].table_expressions@.len(),
        ensures
            r == self.spec_degree(max_degree as nat),
            max_degree >= self.constraint_degree() ==> self.covers_constraints(r as nat),
    {
        proof {
            law_degree_covers_constraints(*self);
        }
        let mut degree: usize = self.uncapped_degree();
        if degree > max_degree {
            degree = max_degree;
        }
        let minimum: usize = match self.minimum_degree {
            Some(m) => m,
            None => 1,
        };
        if degree >= minimum {
            degree
        } else {
            minimum
        }
    }

    /// The number of points at which the most queried advice column is
    /// evaluated, one where there is no advice column, three at the least; one
    /// more for the opening and one as a defense.
    pub open spec fn spec_blinding_factors(self) -> nat {
        let factors = if self.num_advice_queries@.len() == 0 {
            1nat
        } else {
            max_count(self.num_advice_queries@)
        };
        (if factors < 3 {
            3nat
        } else {
            factors
        }) + 2
    }

    /// Compute the number of blinding factors necessary to perfectly blind
    /// each of the prover's witness polynomials.
    pub fn blinding_factors(&self) -> (r: usize)
        requires
            self.spec_blinding_factors() <= usize::MAX,
        ensures
            r == self.spec_blinding_factors(),
    {
        // All of the prover's advice columns are evaluated at no more than
        // `factors` distinct points during gate checks.
        //
        // - The permutation argument witness polynomials are evaluated at most 3 times.
        // - Each lookup argument has independent witness polynomials, and they are
        //   evaluated at most 2 times.
        let mut factors: usize = 3;
        let mut i: usize = 0;
        while i < self.num_advice_queries.len()
            invariant
                i <= self.num_advice_queries@.len(),
                factors == (if max_count(self.num_advice_queries@.take(i as int)) < 3 {
                    3nat
                } else {
                    max_count(self.num_advice_queries@.take(i as int))
                }),
            decreases self.num_advice_queries@.len() - i,
        {
            assert(self.num_advice_queries@.take(i + 1).drop_last()
                =~= self.num_advice_queries@.take(i as int));
            if self.num_advice_queries[i] > factors {
                factors = self.num_advice_queries[i];
            }
            i += 1;
        }
        assert(self.num_advice_queries@.take(i as int) =~= self.num_advice_queries@);
        // Each polynomial is evaluated at most an additional time during
        // multiopen (at x_3 to produce q_evals); add an additional blinding
        // factor as a slight defense against off-by-one errors.
        factors + 1 + 1
    }

    /// Returns the minimum necessary rows that need to exist in order to
    /// account for e.g. blinding factors.
    pub fn minimum_rows(&self) -> (r: usize)
        requires
            self.spec_blinding_factors() + 3 <= usize::MAX,
        ensures
            r == self.spec_blinding_factors() + 3,
    {
        self.blinding_factors()  // m blinding factors
         + 1  // for l_{-(m + 1)} (l_last)
         + 1  // for l_0 (just for extra breathing room for the permutation argument)
         + 1  // for at least one row
    }

    /// Returns number of fixed columns
    pub fn num_fixed_columns(&self) -> (r: usize)
        ensures
            r == self.num_fixed_columns,
    {
        self.num_fixed_columns
    }

    /// Returns number of advice columns
    pub fn num_advice_columns(&self) -> (r: usize)
        ensures
            r == self.num_advice_columns,
    {
        self.num_advice_columns
    }

    /// Returns number of instance columns
    pub fn num_instance_columns(&self) -> (r: usize)
        ensures
            r == self.num_instance_columns,
    {
        self.num_instance_columns
    }

    /// Returns number of selectors
    pub fn num_selectors(&self) -> (r: usize)
        ensures
            r == self.num_selectors,
    {
        self.num_selectors
    }

    /// Returns number of challenges
    pub fn num_challenges(&self) -> (r: usize)
        ensures
            r == self.num_challenges,
    {
        self.num_challenges
    }

    /// Returns phase of advice columns
    pub fn advice_column_phase(&self) -> (r: Vec<u8>)
        ensures
            r@ == Seq::new(
                self.advice_column_phase@.len(),
                |i: int| self.advice_column_phase@[i].0,
            ),
    {
        phase_numbers(&self.advice_column_phase)
    }

    /// Returns phase of challenges
    pub fn challenge_phase(&self) -> (r: Vec<u8>)
        ensures
            r@ == Seq::new(self.challenge_phase@.len(), |i: int| self.challenge_phase@[i].0),
    {
        phase_numbers(&self.challenge_phase)
    }

    /// Returns gates
    pub fn gates(&self) -> (r: &Vec<GpuGate<F>>)
        ensures
            *r == self.gates,
    {
        &self.gates
    }

    /// Returns general column annotations
    pub fn general_column_annotations(&self) -> (r: &Vec<(GpuColumn<GpuAny>, String)>)
        ensures
            *r == self.general_column_annotations,
    {
        &self.general_column_annotations
    }

    /// Returns advice queries
    pub fn advice_queries(&self) -> (r: &Vec<(GpuColumn<GpuAdvice>, Rotation)>)
        ensures
            *r == self.advice_queries,
    {
        &self.advice_queries
    }

    /// Returns instance queries
    pub fn instance_queries(&self) -> (r: &Vec<(GpuColumn<GpuInstance>, Rotation)>)
        ensures
            *r == self.instance_queries,
    {
        &self.instance_queries
    }

    /// Returns fixed queries
    pub fn fixed_queries(&self) -> (r: &Vec<(GpuColumn<GpuFixed>, Rotation)>)
        ensures
            *r == self.fixed_queries,
    {
        &self.fixed_queries
    }

    /// Returns permutation argument
    pub fn permutation(&self) -> (r: &permutation::Argument)
        ensures
            *r == self.permutation,
    {
        &self.permutation
    }

    /// Returns lookup arguments
    pub fn lookups(&self) -> (r: &Vec<lookup::Argument<F>>)
        ensures
            *r == self.lookups,
    {
        &self.lookups
    }

    /// Returns constants
    pub fn constants(&self) -> (r: &Vec<GpuColumn<GpuFixed>>)
        ensures
            *r == self.constants,
    {
        &self.constants
    }
}

fn phase_numbers(phases: &Vec<Phase>) -> (r: Vec<u8>)
    ensures
        r@ == Seq::new(phases@.len(), |i: int| phases@[i].0),
{
    let mut numbers: Vec<u8> = Vec::new();
    let mut i: usize = 0;
    while i < phases.len()
        invariant
            i <= phases@.len(),
            numbers@ =~= Seq::new(i as nat, |j: int| phases@[j].0),
        decreases phases@.len() - i,
    {
        numbers.push(phases[i].0);
        i += 1;
    }
    numbers
}

proof fn lemma_no_queries(s: Seq<(GpuColumn<GpuAdvice>, Rotation)>, index: usize)
    requires
        forall|i: int| 0 <= i < s.len() ==> (#[trigger] s[i]).0.index < index,
    ensures
        queries_of(s, index) == 0,
    decreases s.len(),
{
    if s.len() > 0 {
        assert forall|i: int| 0 <= i < s.drop_last().len() implies (#[trigger] s.drop_last()[i]).0.index
            < index by {
            assert(s.drop_last()[i] == s[i]);
        }
        lemma_no_queries(s.drop_last(), index);
        assert(s[s.len() - 1].0.index < index);
    }
}

/// The largest phase, and the first where there is none.
pub open spec fn max_phase(s: Seq<Phase>) -> int
    decreases s.len(),
{
    if s.len() == 0 {
        0
    } else if s.last().0 > max_phase(s.drop_last()) {
        s.last().0 as int
    } else {
        max_phase(s.drop_last())
    }
}

/// The largest number, and zero where there is none.
pub open spec fn max_count(s: Seq<usize>) -> nat
    decreases s.len(),
{
    if s.len() == 0 {
        0
    } else if s.last() > max_count(s.drop_last()) {
        s.last() as nat
    } else {
        max_count(s.drop_last())
    }
}

/// The largest degree that a lookup needs, and one where there is none.
pub open spec fn max_lookup_degree<F: Field>(s: Seq<lookup::Argument<F>>) -> nat
    decreases s.len(),
{
    if s.len() == 0 {
        1
    } else if s.last().spec_required_degree() > max_lookup_degree(s.drop_last()) {
        s.last().spec_required_degree()
    } else {
        max_lookup_degree(s.drop_last())
    }
}

pub(crate) proof fn lemma_max_lookup_degree<F: Field>(s: Seq<lookup::Argument<F>>, i: int)
    requires
        0 <= i < s.len(),
    ensures
        s[i].spec_required_degree() <= max_lookup_degree(s),
    decreases s.len(),
{
    if i < s.len() - 1 {
        lemma_max_lookup_degree(s.drop_last(), i);
    }
}

/// The largest degree among polynomials, and zero where there is none.
pub open spec fn max_poly_degree<F: Field>(s: Seq<GpuExpression<F>>) -> nat
    decreases s.len(),
{
    if s.len() == 0 {
        0
    } else if s.last().spec_degree() > max_poly_degree(s.drop_last()) {
        s.last().spec_degree()
    } else {
        max_poly_degree(s.drop_last())
    }
}

pub(crate) proof fn lemma_max_poly_degree<F: Field>(s: Seq<GpuExpression<F>>, i: int)
    requires
        0 <= i < s.len(),
    ensures
        s[i].spec_degree() <= max_poly_degree(s),
    decreases s.len(),
{
    if i < s.len() - 1 {
        lemma_max_poly_degree(s.drop_last(), i);
    }
}

fn max_poly_degree_of<F: Field>(polys: &Vec<GpuExpression<F>>) -> (r: usize)
    requires
        max_poly_degree(polys@) <= usize::MAX,
    ensures
        r == max_poly_degree(polys@),
{
    let mut max: usize = 0;
    let mut i: usize = 0;
    while i < polys.len()
        invariant
            i <= polys@.len(),
            max == max_poly_degree(polys@.take(i as int)),
            max_poly_degree(polys@) <= usize::MAX,
        decreases polys@.len() - i,
    {
        proof {
            lemma_max_poly_degree(polys@, i as int);
            assert(polys@.take(i + 1).drop_last() =~= polys@.take(i as int));
        }
        let d: usize = polys[i].degree();
        if d > max {
            max = d;
        }
        i += 1;
    }
    assert(polys@.take(i as int) =~= polys@);
    max
}

/// The largest degree among the polynomials of gates, and zero where there is
/// none.
pub open spec fn max_gate_degree<F: Field>(s: Seq<GpuGate<F>>) -> nat
    decreases s.len(),
{
    if s.len() == 0 {
        0
    } else if max_poly_degree(s.last().polys@) > max_gate_degree(s.drop_last()) {
        max_poly_degree(s.last().polys@)
    } else {
        max_gate_degree(s.drop_last())
    }
}

pub(crate) proof fn lemma_max_gate_degree<F: Field>(s: Seq<GpuGate<F>>, i: int)
    requires
        0 <= i < s.len(),
    ensures
        max_poly_degree(s[i].polys@) <= max_gate_degree(s),
    decreases s.len(),
{
    if i < s.len() - 1 {
        lemma_max_gate_degree(s.drop_last(), i);
    }
}

/// Where the largest degree of gates comes from.
proof fn lemma_max_gate_degree_attained<F: Field>(s: Seq<GpuGate<F>>)
    requires
        max_gate_degree(s) > 0,
    ensures
        exists|i: int, j: int|
            0 <= i < s.len() && 0 <= j < s[i].polys@.len() && (
            #[trigger] s[i].polys@[j]).spec_degree() == max_gate_degree(s),
    decreases s.len(),
{
    if max_poly_degree(s.last().polys@) > max_gate_degree(s.drop_last()) {
        lemma_max_poly_degree_attained(s.last().polys@);
        let polys = s.last().polys@;
        let j = choose|j: int|
            0 <= j < polys.len() && (#[trigger] polys[j]).spec_degree() == max_poly_degree(polys);
        assert(s[s.len() - 1].polys@[j].spec_degree() == max_gate_degree(s));
    } else {
        let front = s.drop_last();
        lemma_max_gate_degree_attained(front);
        let (i, j) = choose|i: int, j: int|
            0 <= i < front.len() && 0 <= j < front[i].polys@.len() && (
            #[trigger] front[i].polys@[j]).spec_degree() == max_gate_degree(front);
        assert(s[i].polys@[j].spec_degree() == max_gate_degree(s));
    }
}

proof fn lemma_max_poly_degree_attained<F: Field>(s: Seq<GpuExpression<F>>)
    requires
        max_poly_degree(s) > 0,
    ensures
        exists|j: int|
            0 <= j < s.len() && (#[trigger] s[j]).spec_degree() == max_poly_degree(s),
    decreases s.len(),
{
    if s.last().spec_degree() > max_poly_degree(s.drop_last()) {
        assert(s[s.len() - 1].spec_degree() == max_poly_degree(s));
    } else {
        let front = s.drop_last();
        lemma_max_poly_degree_attained(front);
        let j = choose|j: int|
            0 <= j < front.len() && (#[trigger] front[j]).spec_degree() == max_poly_degree(front);
        assert(s[j].spec_degree() == max_poly_degree(s));
    }
}

proof fn lemma_max_lookup_degree_attained<F: Field>(s: Seq<lookup::Argument<F>>)
    requires
        max_lookup_degree(s) > 1,
    ensures
        exists|k: int|
            0 <= k < s.len() && (#[trigger] s[k]).spec_required_degree() == max_lookup_degree(s),
    decreases s.len(),
{
    if s.last().spec_required_degree() > max_lookup_degree(s.drop_last()) {
        assert(s[s.len() - 1].spec_required_degree() == max_lookup_degree(s));
    } else {
        let front = s.drop_last();
        lemma_max_lookup_degree_attained(front);
        let k = choose|k: int|
            0 <= k < front.len() && (#[trigger] front[k]).spec_required_degree()
                == max_lookup_degree(front);
        assert(s[k].spec_required_degree() == max_lookup_degree(s));
    }
}

/// The uncapped degree is the maximum degree of all constraints: none has a larger
/// one, and one has it, be it the permutation argument.
pub proof fn law_degree_covers_constraints<F: Field>(cs: GpuConstraintSystem<F>)
    ensures
        cs.covers_constraints(cs.constraint_degree()),
        cs.constraint_degree() == 3 || (exists|i: int, j: int|
            0 <= i < cs.gates@.len() && 0 <= j < cs.gates@[i].polys@.len() && (
            #[trigger] cs.gates@[i].polys@[j]).spec_degree() == cs.constraint_degree()) || (
        exists|k: int|
            0 <= k < cs.lookups@.len() && (#[trigger] cs.lookups@[k]).spec_required_degree()
                == cs.constraint_degree()),
{
    let d = cs.constraint_degree();
    assert forall|i: int, j: int|
        0 <= i < cs.gates@.len() && 0 <= j < cs.gates@[i].polys@.len() implies (
    #[trigger] cs.gates@[i].polys@[j]).spec_degree() <= d by {
        lemma_max_gate_degree(cs.gates@, i);
        lemma_max_poly_degree(cs.gates@[i].polys@, j);
    }
    assert forall|k: int| 0 <= k < cs.lookups@.len() implies (
    #[trigger] cs.lookups@[k]).spec_required_degree() <= d by {
        lemma_max_lookup_degree(cs.lookups@, k);
    }
    if d != 3 {
        if d == max_lookup_degree(cs.lookups@) {
            lemma_max_lookup_degree_attained(cs.lookups@);
        } else {
            lemma_max_gate_degree_attained(cs.gates@);
        }
    }
}

} // verus!
