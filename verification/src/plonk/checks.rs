//! Tests of what keys and proofs ask of a constraint system.

use crate::field::Field;
use crate::plonk::circuit::{GpuAny, GpuColumn, GpuColumnType, Phase};
use crate::plonk::constraint_system::GpuConstraintSystem;
use crate::plonk::expression::GpuExpression;
use crate::plonk::queries::{find_query, queries_of};
use crate::plonk::witness::phases_exist;
use crate::poly::Rotation;
use vstd::prelude::*;

verus! {

/// How many columns of each kind and challenges there are.
#[derive(Clone, Copy, Debug)]
pub struct Counts {
    pub fixed: usize,
    pub advice: usize,
    pub instance: usize,
    pub challenges: usize,
}

impl<F: Field> GpuExpression<F> {
    /// Whether the expression reads columns and challenges that there are, and
    /// no selectors.
    pub open spec fn within(self, counts: Counts) -> bool
        decreases self,
    {
        match self {
            GpuExpression::Constant(_) => true,
            GpuExpression::Selector(_) => false,
            GpuExpression::Fixed(query) => query.column_index < counts.fixed,
            GpuExpression::Advice(query) => query.column_index < counts.advice,
            GpuExpression::Instance(query) => query.column_index < counts.instance,
            GpuExpression::Challenge(challenge) => challenge.index < counts.challenges,
            GpuExpression::Negated(a) => a.within(counts),
            GpuExpression::Sum(a, b) => a.within(counts) && b.within(counts),
            GpuExpression::Product(a, b) => a.within(counts) && b.within(counts),
            GpuExpression::Scaled(a, _) => a.within(counts),
        }
    }

    /// Tests whether the expression reads what there is.
    pub fn reads_within(&self, counts: Counts) -> (r: bool)
        ensures
            r == self.within(counts),
        decreases self,
    {
        match self {
            GpuExpression::Constant(_) => true,
            GpuExpression::Selector(_) => false,
            GpuExpression::Fixed(query) => query.column_index < counts.fixed,
            GpuExpression::Advice(query) => query.column_index < counts.advice,
            GpuExpression::Instance(query) => query.column_index < counts.instance,
            GpuExpression::Challenge(challenge) => challenge.index < counts.challenges,
            GpuExpression::Negated(a) => a.reads_within(counts),
            GpuExpression::Sum(a, b) => a.reads_within(counts) && b.reads_within(counts),
            GpuExpression::Product(a, b) => a.reads_within(counts) && b.reads_within(counts),
            GpuExpression::Scaled(a, _) => a.reads_within(counts),
        }
    }

    /// Whether the rows that the expression reads can be computed in 32 bits, among
    /// columns of `n` rows.
    pub open spec fn rotates(self, n: int) -> bool
        decreases self,
    {
        match self {
            GpuExpression::Fixed(query) => n + query.rotation.0 <= i32::MAX,
            GpuExpression::Advice(query) => n + query.rotation.0 <= i32::MAX,
            GpuExpression::Instance(query) => n + query.rotation.0 <= i32::MAX,
            GpuExpression::Negated(a) => a.rotates(n),
            GpuExpression::Sum(a, b) => a.rotates(n) && b.rotates(n),
            GpuExpression::Product(a, b) => a.rotates(n) && b.rotates(n),
            GpuExpression::Scaled(a, _) => a.rotates(n),
            _ => true,
        }
    }

    /// Tests whether the rows that the expression reads can be computed.
    pub fn rotations_fit(&self, n: i32) -> (r: bool)
        requires
            n >= 0,
        ensures
            r == self.rotates(n as int),
        decreases self,
    {
        match self {
            GpuExpression::Fixed(query) => query.rotation.0 <= i32::MAX - n,
            GpuExpression::Advice(query) => query.rotation.0 <= i32::MAX - n,
            GpuExpression::Instance(query) => query.rotation.0 <= i32::MAX - n,
            GpuExpression::Negated(a) => a.rotations_fit(n),
            GpuExpression::Sum(a, b) => a.rotations_fit(n) && b.rotations_fit(n),
            GpuExpression::Product(a, b) => a.rotations_fit(n) && b.rotations_fit(n),
            GpuExpression::Scaled(a, _) => a.rotations_fit(n),
            _ => true,
        }
    }
}

/// Whether the rows that all expressions read can be computed.
pub open spec fn all_rotate<F: Field>(s: Seq<GpuExpression<F>>, n: int) -> bool {
    forall|i: int| 0 <= i < s.len() ==> (#[trigger] s[i]).rotates(n)
}

fn all_rotations_fit<F: Field>(s: &Vec<GpuExpression<F>>, n: i32) -> (r: bool)
    requires
        n >= 0,
    ensures
        r == all_rotate(s@, n as int),
{
    let mut i: usize = 0;
    while i < s.len()
        invariant
            n >= 0,
            i <= s@.len(),
            forall|j: int| 0 <= j < i ==> (#[trigger] s@[j]).rotates(n as int),
        decreases s@.len() - i,
    {
        if !s[i].rotations_fit(n) {
            assert(!s@[i as int].rotates(n as int));
            return false;
        }
        i += 1;
    }
    true
}

/// Whether all expressions read what there is.
pub open spec fn all_within<F: Field>(s: Seq<GpuExpression<F>>, counts: Counts) -> bool {
    forall|i: int| 0 <= i < s.len() ==> (#[trigger] s[i]).within(counts)
}

fn all_read_within<F: Field>(s: &Vec<GpuExpression<F>>, counts: Counts) -> (r: bool)
    ensures
        r == all_within(s@, counts),
{
    let mut i: usize = 0;
    while i < s.len()
        invariant
            i <= s@.len(),
            forall|j: int| 0 <= j < i ==> (#[trigger] s@[j]).within(counts),
        decreases s@.len() - i,
    {
        if !s[i].reads_within(counts) {
            assert(!s@[i as int].within(counts));
            return false;
        }
        i += 1;
    }
    true
}

/// Tests whether no query occurs twice.
fn distinct_queries<C: GpuColumnType>(queries: &Vec<(GpuColumn<C>, Rotation)>) -> (r: bool)
    ensures
        r == queries@.no_duplicates(),
{
    let mut i: usize = 0;
    while i < queries.len()
        invariant
            i <= queries@.len(),
            forall|j: int, k: int| 0 <= j < k < i
                ==> #[trigger] queries@[j] != #[trigger] queries@[k],
        decreases queries@.len() - i,
    {
        let (column, at) = queries[i];
        match find_query(queries, column, at) {
            Some(first) => {
                if first < i {
                    assert(queries@[first as int] == queries@[i as int]);
                    return false;
                }
            },
            None => {
                assert(queries@.contains(queries@[i as int]));
            },
        }
        i += 1;
    }
    true
}

/// Tests whether all phases are among the three that there are.
fn known_phases(phases: &Vec<Phase>) -> (r: bool)
    ensures
        r == forall|i: int| 0 <= i < phases@.len() ==> (#[trigger] phases@[i]).0 < 3,
{
    let mut i: usize = 0;
    while i < phases.len()
        invariant
            i <= phases@.len(),
            forall|j: int| 0 <= j < i ==> (#[trigger] phases@[j]).0 < 3,
        decreases phases@.len() - i,
    {
        if phases[i].0 >= 3 {
            assert(!(phases@[i as int].0 < 3));
            return false;
        }
        i += 1;
    }
    true
}

/// Whether all queries are of the first `n` columns.
pub open spec fn all_below<C: GpuColumnType>(
    queries: Seq<(GpuColumn<C>, Rotation)>,
    n: usize,
) -> bool {
    forall|i: int| 0 <= i < queries.len() ==> (#[trigger] queries[i]).0.index < n
}

fn indices_below<C: GpuColumnType>(queries: &Vec<(GpuColumn<C>, Rotation)>, n: usize) -> (r: bool)
    ensures
        r == all_below(queries@, n),
{
    let mut i: usize = 0;
    while i < queries.len()
        invariant
            i <= queries@.len(),
            forall|j: int| 0 <= j < i ==> (#[trigger] queries@[j]).0.index < n,
        decreases queries@.len() - i,
    {
        if queries[i].0.index >= n {
            assert(!(queries@[i as int].0.index < n));
            return false;
        }
        i += 1;
    }
    true
}

/// The number of queries of a column.
fn count_queries<C: GpuColumnType>(queries: &Vec<(GpuColumn<C>, Rotation)>, index: usize) -> (r:
    usize)
    ensures
        r == queries_of(queries@, index),
{
    let mut count: usize = 0;
    let mut i: usize = 0;
    while i < queries.len()
        invariant
            i <= queries@.len(),
            count <= i,
            count == queries_of(queries@.take(i as int), index),
        decreases queries@.len() - i,
    {
        assert(queries@.take(i + 1).drop_last() =~= queries@.take(i as int));
        if queries[i].0.index == index {
            count += 1;
        }
        i += 1;
    }
    assert(queries@.take(i as int) =~= queries@);
    count
}

impl<F: Field> GpuConstraintSystem<F> {
    /// Tests whether the lists of the system fit its columns.
    pub fn is_wf(&self) -> (r: bool)
        ensures
            r == self.wf(),
    {
        if self.advice_column_phase.len() != self.num_advice_columns || self.challenge_phase.len()
            != self.num_challenges || self.num_advice_queries.len() != self.num_advice_columns {
            return false;
        }
        let mut i: usize = 0;
        while i < self.advice_queries.len()
            invariant
                i <= self.advice_queries@.len(),
                forall|j: int|
                    0 <= j < i ==> (#[trigger] self.advice_queries@[j]).0.index
                        < self.num_advice_columns,
            decreases self.advice_queries@.len() - i,
        {
            if self.advice_queries[i].0.index >= self.num_advice_columns {
                assert(!(self.advice_queries@[i as int].0.index < self.num_advice_columns));
                return false;
            }
            i += 1;
        }
        let mut c: usize = 0;
        while c < self.num_advice_queries.len()
            invariant
                c <= self.num_advice_queries@.len(),
                forall|j: int|
                    0 <= j < c ==> #[trigger] self.num_advice_queries@[j] == queries_of(
                        self.advice_queries@,
                        j as usize,
                    ),
            decreases self.num_advice_queries@.len() - c,
        {
            if self.num_advice_queries[c] != count_queries(&self.advice_queries, c) {
                assert(self.num_advice_queries@[c as int] != queries_of(self.advice_queries@, c));
                return false;
            }
            c += 1;
        }
        distinct_queries(&self.fixed_queries) && distinct_queries(&self.advice_queries)
            && distinct_queries(&self.instance_queries)
    }

    /// Tests whether all phases are among the three that there are.
    pub fn phases_known(&self) -> (r: bool)
        ensures
            r == phases_exist(*self),
    {
        known_phases(&self.advice_column_phase) && known_phases(&self.challenge_phase)
    }

    /// How many columns and challenges there are.
    pub open spec fn spec_counts(self) -> Counts {
        Counts {
            fixed: self.num_fixed_columns,
            advice: self.num_advice_columns,
            instance: self.num_instance_columns,
            challenges: self.num_challenges,
        }
    }

    /// Whether a column is one of the system's.
    pub open spec fn has_column(self, column: GpuColumn<GpuAny>) -> bool {
        match column.column_type {
            GpuAny::Advice(_) => column.index < self.num_advice_columns,
            GpuAny::Fixed => column.index < self.num_fixed_columns,
            GpuAny::Instance => column.index < self.num_instance_columns,
        }
    }

    /// Whether the permutation, the gates and the lookups are about columns and
    /// challenges that there are, and no selectors are left.
    pub open spec fn closed(self) -> bool {
        &&& forall|j: int|
            0 <= j < self.permutation.columns@.len() ==> self.has_column(
                #[trigger] self.permutation.columns@[j],
            )
        &&& forall|i: int|
            0 <= i < self.gates@.len() ==> all_within(
                (#[trigger] self.gates@[i]).polys@,
                self.spec_counts(),
            )
        &&& forall|k: int|
            0 <= k < self.lookups@.len() ==> {
                &&& all_within(
                    (#[trigger] self.lookups@[k]).input_expressions@,
                    self.spec_counts(),
                )
                &&& all_within(self.lookups@[k].table_expressions@, self.spec_counts())
            }
    }

    /// Tests whether all that constraints are about is there.
    pub fn is_closed(&self) -> (r: bool)
        ensures
            r == self.closed(),
    {
        let counts = Counts {
            fixed: self.num_fixed_columns,
            advice: self.num_advice_columns,
            instance: self.num_instance_columns,
            challenges: self.num_challenges,
        };
        let mut j: usize = 0;
        while j < self.permutation.columns.len()
            invariant
                j <= self.permutation.columns@.len(),
                forall|i: int|
                    0 <= i < j ==> self.has_column(#[trigger] self.permutation.columns@[i]),
            decreases self.permutation.columns@.len() - j,
        {
            let column = self.permutation.columns[j];
            let known = match column.column_type {
                GpuAny::Advice(_) => column.index < self.num_advice_columns,
                GpuAny::Fixed => column.index < self.num_fixed_columns,
                GpuAny::Instance => column.index < self.num_instance_columns,
            };
            if !known {
                assert(!self.has_column(self.permutation.columns@[j as int]));
                return false;
            }
            j += 1;
        }
        let mut i: usize = 0;
        while i < self.gates.len()
            invariant
                counts == self.spec_counts(),
                i <= self.gates@.len(),
                forall|g: int|
                    0 <= g < i ==> all_within((#[trigger] self.gates@[g]).polys@, counts),
            decreases self.gates@.len() - i,
        {
            if !all_read_within(&self.gates[i].polys, counts) {
                assert(!all_within(self.gates@[i as int].polys@, counts));
                return false;
            }
            i += 1;
        }
        let mut k: usize = 0;
        while k < self.lookups.len()
            invariant
                counts == self.spec_counts(),
                k <= self.lookups@.len(),
                forall|l: int|
                    0 <= l < k ==> {
                        &&& all_within((#[trigger] self.lookups@[l]).input_expressions@, counts)
                        &&& all_within(self.lookups@[l].table_expressions@, counts)
                    },
            decreases self.lookups@.len() - k,
        {
            if !(all_read_within(&self.lookups[k].input_expressions, counts) && all_read_within(
                &self.lookups[k].table_expressions,
                counts,
            )) {
                assert(!(all_within(self.lookups@[k as int].input_expressions@, counts)
                    && all_within(self.lookups@[k as int].table_expressions@, counts)));
                return false;
            }
            k += 1;
        }
        true
    }

    /// Whether the rows that gates and lookups read can be computed, among columns
    /// of `n` rows.
    pub open spec fn rotates(self, n: int) -> bool {
        &&& forall|i: int|
            0 <= i < self.gates@.len() ==> all_rotate((#[trigger] self.gates@[i]).polys@, n)
        &&& forall|k: int|
            0 <= k < self.lookups@.len() ==> {
                &&& all_rotate((#[trigger] self.lookups@[k]).input_expressions@, n)
                &&& all_rotate(self.lookups@[k].table_expressions@, n)
            }
    }

    /// Tests whether the rows that gates and lookups read can be computed.
    pub fn rotations_fit(&self, n: i32) -> (r: bool)
        requires
            n >= 0,
        ensures
            r == self.rotates(n as int),
    {
        let mut i: usize = 0;
        while i < self.gates.len()
            invariant
                n >= 0,
                i <= self.gates@.len(),
                forall|g: int|
                    0 <= g < i ==> all_rotate((#[trigger] self.gates@[g]).polys@, n as int),
            decreases self.gates@.len() - i,
        {
            if !all_rotations_fit(&self.gates[i].polys, n) {
                assert(!all_rotate(self.gates@[i as int].polys@, n as int));
                return false;
            }
            i += 1;
        }
        let mut k: usize = 0;
        while k < self.lookups.len()
            invariant
                n >= 0,
                k <= self.lookups@.len(),
                forall|l: int|
                    0 <= l < k ==> {
                        &&& all_rotate((#[trigger] self.lookups@[l]).input_expressions@, n as int)
                        &&& all_rotate(self.lookups@[l].table_expressions@, n as int)
                    },
            decreases self.lookups@.len() - k,
        {
            if !(all_rotations_fit(&self.lookups[k].input_expressions, n) && all_rotations_fit(
                &self.lookups[k].table_expressions,
                n,
            )) {
                assert(!(all_rotate(self.lookups@[k as int].input_expressions@, n as int)
                    && all_rotate(self.lookups@[k as int].table_expressions@, n as int)));
                return false;
            }
            k += 1;
        }
        true
    }

    /// Whether the queries of instance and fixed columns are of columns that there
    /// are.
    pub open spec fn queries_known(self) -> bool {
        &&& all_below(self.instance_queries@, self.num_instance_columns)
        &&& all_below(self.fixed_queries@, self.num_fixed_columns)
    }

    /// Tests whether the queries are of columns that there are.
    pub fn knows_queries(&self) -> (r: bool)
        ensures
            r == self.queries_known(),
    {
        indices_below(&self.instance_queries, self.num_instance_columns) && indices_below(
            &self.fixed_queries,
            self.num_fixed_columns,
        )
    }
}

} // verus!
