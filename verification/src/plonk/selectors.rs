//! Replacing selectors by fixed columns, and giving queries their positions.

use crate::field::Field;
use crate::plonk::circuit::{
    GpuAdvice, GpuAdviceQuery, GpuColumn, GpuFixed, GpuFixedQuery, GpuInstance, GpuInstanceQuery,
};
use crate::plonk::constraint_system::{GpuConstraintSystem, GpuGate};
use crate::plonk::expression::GpuExpression;
use crate::plonk::lookup;
use crate::plonk::queries::{find_query, is_position, with_queries, with_query};
use crate::plonk::virtual_cells::{advice_column, fixed_column, instance_column};
use crate::poly::Rotation;
use vstd::prelude::*;

verus! {

impl<F: Field> GpuExpression<F> {
    /// The expression with every selector replaced by the expression at its
    /// index.
    pub open spec fn with_selectors_replaced(
        self,
        replacements: Seq<GpuExpression<F>>,
    ) -> GpuExpression<F>
        decreases self,
    {
        match self {
            GpuExpression::Selector(s) => replacements[s.0 as int],
            GpuExpression::Negated(a) => GpuExpression::Negated(
                Box::new(a.with_selectors_replaced(replacements)),
            ),
            GpuExpression::Sum(a, b) => GpuExpression::Sum(
                Box::new(a.with_selectors_replaced(replacements)),
                Box::new(b.with_selectors_replaced(replacements)),
            ),
            GpuExpression::Product(a, b) => GpuExpression::Product(
                Box::new(a.with_selectors_replaced(replacements)),
                Box::new(b.with_selectors_replaced(replacements)),
            ),
            GpuExpression::Scaled(a, f) => GpuExpression::Scaled(
                Box::new(a.with_selectors_replaced(replacements)),
                f,
            ),
            _ => self,
        }
    }

    /// Whether every selector has an index below `n`.
    pub open spec fn selectors_below(self, n: int) -> bool
        decreases self,
    {
        match self {
            GpuExpression::Selector(s) => s.0 < n,
            GpuExpression::Negated(a) => a.selectors_below(n),
            GpuExpression::Sum(a, b) => a.selectors_below(n) && b.selectors_below(n),
            GpuExpression::Product(a, b) => a.selectors_below(n) && b.selectors_below(n),
            GpuExpression::Scaled(a, _) => a.selectors_below(n),
            _ => true,
        }
    }
}

/// Whether no replacement holds a simple selector.
pub open spec fn no_simple<F: Field>(s: Seq<GpuExpression<F>>) -> bool {
    forall|i: int| 0 <= i < s.len() ==> !(#[trigger] s[i]).has_simple_selector()
}

/// Once its selectors are replaced, an expression holds no simple selector.
pub proof fn law_no_selectors_left<F: Field>(
    e: GpuExpression<F>,
    replacements: Seq<GpuExpression<F>>,
)
    requires
        e.selectors_below(replacements.len() as int),
        no_simple(replacements),
    ensures
        !e.with_selectors_replaced(replacements).has_simple_selector(),
    decreases e,
{
    match e {
        GpuExpression::Negated(a) => law_no_selectors_left(*a, replacements),
        GpuExpression::Sum(a, b) => {
            law_no_selectors_left(*a, replacements);
            law_no_selectors_left(*b, replacements);
        },
        GpuExpression::Product(a, b) => {
            law_no_selectors_left(*a, replacements);
            law_no_selectors_left(*b, replacements);
        },
        GpuExpression::Scaled(a, _) => law_no_selectors_left(*a, replacements),
        _ => {},
    }
}

fn replace_selectors<F: Field>(
    expr: &GpuExpression<F>,
    replacements: &Vec<GpuExpression<F>>,
) -> (r: GpuExpression<F>)
    requires
        expr.selectors_below(replacements@.len() as int),
        no_simple(replacements@),
    ensures
        r == expr.with_selectors_replaced(replacements@),
    decreases expr,
{
    match expr {
        GpuExpression::Selector(selector) => replacements[selector.0].clone(),
        GpuExpression::Negated(a) => GpuExpression::Negated(
            Box::new(replace_selectors(a, replacements)),
        ),
        GpuExpression::Sum(a, b) => {
            let a2 = replace_selectors(a, replacements);
            let b2 = replace_selectors(b, replacements);
            proof {
                law_no_selectors_left(**a, replacements@);
                law_no_selectors_left(**b, replacements@);
            }
            a2 + b2
        },
        GpuExpression::Product(a, b) => {
            let a2 = replace_selectors(a, replacements);
            let b2 = replace_selectors(b, replacements);
            proof {
                law_no_selectors_left(**a, replacements@);
            }
            a2 * b2
        },
        GpuExpression::Scaled(a, f) => replace_selectors(a, replacements) * *f,
        _ => expr.clone(),
    }
}

/// All expressions with their selectors replaced.
pub open spec fn all_replaced<F: Field>(
    s: Seq<GpuExpression<F>>,
    replacements: Seq<GpuExpression<F>>,
) -> Seq<GpuExpression<F>> {
    Seq::new(s.len(), |i: int| s[i].with_selectors_replaced(replacements))
}

/// Whether all selectors of the expressions have an index below `n`.
pub open spec fn all_selectors_below<F: Field>(s: Seq<GpuExpression<F>>, n: int) -> bool {
    forall|i: int| 0 <= i < s.len() ==> (#[trigger] s[i]).selectors_below(n)
}

fn replace_all<F: Field>(
    exprs: &Vec<GpuExpression<F>>,
    replacements: &Vec<GpuExpression<F>>,
) -> (r: Vec<GpuExpression<F>>)
    requires
        all_selectors_below(exprs@, replacements@.len() as int),
        no_simple(replacements@),
    ensures
        r@ == all_replaced(exprs@, replacements@),
{
    let mut out: Vec<GpuExpression<F>> = Vec::new();
    let mut i: usize = 0;
    while i < exprs.len()
        invariant
            i <= exprs@.len(),
            all_selectors_below(exprs@, replacements@.len() as int),
            no_simple(replacements@),
            out@ =~= all_replaced(exprs@, replacements@).take(i as int),
        decreases exprs@.len() - i,
    {
        out.push(replace_selectors(&exprs[i], replacements));
        i += 1;
    }
    assert(out@ =~= all_replaced(exprs@, replacements@));
    out
}

/// Whether `new` is `gate` with the selectors of its polynomials replaced.
pub open spec fn gate_replaced<F: Field>(
    gate: GpuGate<F>,
    new: GpuGate<F>,
    replacements: Seq<GpuExpression<F>>,
) -> bool {
    &&& new.polys@ == all_replaced(gate.polys@, replacements)
    &&& new == (GpuGate { polys: new.polys, ..gate })
}

/// Whether `new` is the lookup with the selectors of its expressions replaced.
pub open spec fn lookup_replaced<F: Field>(
    argument: lookup::Argument<F>,
    new: lookup::Argument<F>,
    replacements: Seq<GpuExpression<F>>,
) -> bool {
    &&& new.input_expressions@ == all_replaced(argument.input_expressions@, replacements)
    &&& new.table_expressions@ == all_replaced(argument.table_expressions@, replacements)
    &&& new == (lookup::Argument {
        input_expressions: new.input_expressions,
        table_expressions: new.table_expressions,
        ..argument
    })
}

impl<F: Field> GpuConstraintSystem<F> {
    /// Whether all selectors in gates and lookups have an index below `n`, and
    /// lookups hold no simple selectors.
    pub open spec fn selectors_ok(self, n: int) -> bool {
        &&& forall|i: int|
            0 <= i < self.gates@.len()
                ==> all_selectors_below((#[trigger] self.gates@[i]).polys@, n)
        &&& forall|i: int|
            0 <= i < self.lookups@.len() ==> {
                &&& all_selectors_below((#[trigger] self.lookups@[i]).input_expressions@, n)
                &&& all_selectors_below(self.lookups@[i].table_expressions@, n)
                &&& no_simple(self.lookups@[i].input_expressions@)
                &&& no_simple(self.lookups@[i].table_expressions@)
            }
    }

    /// Whether the system is `old` with the selectors of all gates and lookups
    /// replaced.
    pub open spec fn replaces_selectors(
        self,
        old: Self,
        replacements: Seq<GpuExpression<F>>,
    ) -> bool {
        &&& self.gates@.len() == old.gates@.len()
        &&& forall|i: int|
            0 <= i < self.gates@.len() ==> gate_replaced(
                old.gates@[i],
                #[trigger] self.gates@[i],
                replacements,
            )
        &&& self.lookups@.len() == old.lookups@.len()
        &&& forall|i: int|
            0 <= i < self.lookups@.len() ==> lookup_replaced(
                old.lookups@[i],
                #[trigger] self.lookups@[i],
                replacements,
            )
        &&& self == (Self { gates: self.gates, lookups: self.lookups, ..old })
    }

    /// Substitutes the selectors of all gates and lookups.
    pub fn replace_selectors_with_fixed(&mut self, selector_replacements: &Vec<GpuExpression<F>>)
        requires
            old(self).selectors_ok(selector_replacements@.len() as int),
            no_simple(selector_replacements@),
        ensures
            final(self).replaces_selectors(*old(self), selector_replacements@),
    {
        let ghost before = *self;
        let ghost n = selector_replacements@.len() as int;
        // Substitute selectors for the real fixed columns in all gates
        let mut i: usize = 0;
        while i < self.gates.len()
            invariant
                i <= self.gates@.len(),
                n == selector_replacements@.len(),
                before.selectors_ok(n),
                no_simple(selector_replacements@),
                self.gates@.len() == before.gates@.len(),
                *self == (Self { gates: self.gates, ..before }),
                forall|j: int|
                    0 <= j < i ==> gate_replaced(
                        before.gates@[j],
                        #[trigger] self.gates@[j],
                        selector_replacements@,
                    ),
                forall|j: int| i <= j < self.gates@.len()
                    ==> #[trigger] self.gates@[j] == before.gates@[j],
            decreases self.gates@.len() - i,
        {
            assert(self.gates@[i as int] == before.gates@[i as int]);
            let polys = replace_all(&self.gates[i].polys, selector_replacements);
            self.gates[i].polys = polys;
            i += 1;
        }
        // Substitute non-simple selectors for the real fixed columns in all
        // lookup expressions
        let mut i: usize = 0;
        while i < self.lookups.len()
            invariant
                i <= self.lookups@.len(),
                n == selector_replacements@.len(),
                before.selectors_ok(n),
                no_simple(selector_replacements@),
                self.lookups@.len() == before.lookups@.len(),
                self.gates@.len() == before.gates@.len(),
                *self == (Self { gates: self.gates, lookups: self.lookups, ..before }),
                forall|j: int|
                    0 <= j < self.gates@.len() ==> gate_replaced(
                        before.gates@[j],
                        #[trigger] self.gates@[j],
                        selector_replacements@,
                    ),
                forall|j: int|
                    0 <= j < i ==> lookup_replaced(
                        before.lookups@[j],
                        #[trigger] self.lookups@[j],
                        selector_replacements@,
                    ),
                forall|j: int|
                    i <= j < self.lookups@.len() ==> #[trigger] self.lookups@[j]
                        == before.lookups@[j],
            decreases self.lookups@.len() - i,
        {
            assert(self.lookups@[i as int] == before.lookups@[i as int]);
            let inputs = replace_all(&self.lookups[i].input_expressions, selector_replacements);
            let tables = replace_all(&self.lookups[i].table_expressions, selector_replacements);
            self.lookups[i].input_expressions = inputs;
            self.lookups[i].table_expressions = tables;
            i += 1;
        }
    }

    /// Whether `new` is the system with each selector replaced by a fixed column
    /// of its own, and `polys` are those columns: one where the selector is
    /// enabled and zero elsewhere.
    pub open spec fn converts_directly(
        self,
        selectors: Seq<Vec<bool>>,
        new: Self,
        polys: Seq<Vec<F>>,
    ) -> bool {
        &&& new.wf()
        &&& new.num_fixed_columns == self.num_fixed_columns + self.num_selectors
        &&& new.fixed_queries@ == with_queries(
            self.fixed_queries@,
            new_queries(self.num_fixed_columns, self.num_selectors as nat),
        )
        &&& new.num_selectors == 0
        &&& exists|replacements: Seq<GpuExpression<F>>|
            {
                &&& #[trigger] are_queries(
                    replacements,
                    self.num_fixed_columns,
                    self.num_selectors as nat,
                    new.fixed_queries@,
                )
                &&& new.replaces_selectors(
                    (Self {
                        num_fixed_columns: new.num_fixed_columns,
                        fixed_queries: new.fixed_queries,
                        num_selectors: 0,
                        ..self
                    }),
                    replacements,
                )
            }
        &&& polys.len() == selectors.len()
        &&& forall|i: int|
            0 <= i < selectors.len() ==> is_indicator((#[trigger] polys[i])@, selectors[i]@)
    }

    /// Does not combine selectors and directly replaces them everywhere with fixed columns.
    ///
    /// One fixed column is allocated for each selector; the returned columns
    /// hold one where the selector is enabled and zero elsewhere.
    pub fn directly_convert_selectors_to_fixed(
        self,
        selectors: Vec<Vec<bool>>,
    ) -> (r: (Self, Vec<Vec<F>>))
        requires
            self.wf(),
            selectors@.len() == self.num_selectors,
            self.selectors_ok(self.num_selectors as int),
            self.num_fixed_columns + self.num_selectors <= usize::MAX,
        ensures
            self.converts_directly(selectors@, r.0, r.1@),
    {
        let mut cs = self;
        let mut polys: Vec<Vec<F>> = Vec::new();
        let mut replacements: Vec<GpuExpression<F>> = Vec::new();
        let ghost start = cs;
        assert(new_queries(start.num_fixed_columns, 0) =~= Seq::empty());
        let mut i: usize = 0;
        while i < selectors.len()
            invariant
                i <= selectors@.len(),
                selectors@.len() == start.num_selectors,
                start.num_fixed_columns + start.num_selectors <= usize::MAX,
                cs.wf(),
                cs.num_fixed_columns == start.num_fixed_columns + i,
                cs.fixed_queries@ == with_queries(
                    start.fixed_queries@,
                    new_queries(start.num_fixed_columns, i as nat),
                ),
                cs == (Self {
                    num_fixed_columns: cs.num_fixed_columns,
                    fixed_queries: cs.fixed_queries,
                    ..start
                }),
                are_queries(
                    replacements@,
                    start.num_fixed_columns,
                    i as nat,
                    cs.fixed_queries@,
                ),
                polys@.len() == i,
                forall|j: int|
                    0 <= j < i ==> is_indicator((#[trigger] polys@[j])@, selectors@[j]@),
            decreases selectors@.len() - i,
        {
            let poly = indicator(&selectors[i]);
            let ghost cs0 = cs;
            let column = cs.fixed_column();
            let rotation = Rotation::cur();
            let index: usize = cs.query_fixed_index(column, rotation);
            let expr = GpuExpression::Fixed(
                GpuFixedQuery { index: Some(index), column_index: column.index, rotation },
            );
            proof {
                let qs = new_queries(start.num_fixed_columns, (i + 1) as nat);
                assert(qs.drop_last() =~= new_queries(start.num_fixed_columns, i as nat));
                assert(qs.last() == (column, rotation));
                lemma_queries_grow(
                    replacements@,
                    start.num_fixed_columns,
                    i as nat,
                    cs0.fixed_queries@,
                    (column, rotation),
                );
            }
            replacements.push(expr);
            polys.push(poly);
            i += 1;
        }
        assert(no_simple(replacements@)) by {
            assert forall|j: int| 0 <= j < replacements@.len() implies !(
            #[trigger] replacements@[j]).has_simple_selector() by {
                assert(is_query(
                    replacements@[j],
                    (start.num_fixed_columns + j) as usize,
                    cs.fixed_queries@,
                ));
            }
        }
        cs.replace_selectors_with_fixed(&replacements);
        cs.num_selectors = 0;
        (cs, polys)
    }
}

/// The queries of `count` fixed columns from `first` on, at the current row.
pub open spec fn new_queries(first: usize, count: nat) -> Seq<(GpuColumn<GpuFixed>, Rotation)> {
    Seq::new(count, |i: int| (fixed_column((first + i) as usize), Rotation(0)))
}

/// Whether an expression is the query of a fixed column at the current row,
/// with its position in the query list.
pub open spec fn is_query<F: Field>(
    e: GpuExpression<F>,
    column: usize,
    queries: Seq<(GpuColumn<GpuFixed>, Rotation)>,
) -> bool {
    e matches GpuExpression::Fixed(q) && q.column_index == column && q.rotation == Rotation(0)
        && q.index is Some && is_position(
        queries,
        (fixed_column(column), Rotation(0)),
        q.index->0 as int,
    )
}

/// Whether the expressions query `count` fixed columns from `first` on.
pub open spec fn are_queries<F: Field>(
    s: Seq<GpuExpression<F>>,
    first: usize,
    count: nat,
    queries: Seq<(GpuColumn<GpuFixed>, Rotation)>,
) -> bool {
    &&& s.len() == count
    &&& forall|i: int| 0 <= i < count ==> is_query(#[trigger] s[i], (first + i) as usize, queries)
}

pub(crate) proof fn lemma_queries_grow<F: Field>(
    s: Seq<GpuExpression<F>>,
    first: usize,
    count: nat,
    queries: Seq<(GpuColumn<GpuFixed>, Rotation)>,
    x: (GpuColumn<GpuFixed>, Rotation),
)
    requires
        are_queries(s, first, count, queries),
    ensures
        are_queries(s, first, count, with_query(queries, x)),
{
    assert forall|i: int| 0 <= i < count implies is_query(
        #[trigger] s[i],
        (first + i) as usize,
        with_query(queries, x),
    ) by {
        assert(is_query(s[i], (first + i) as usize, queries));
    }
}

/// Whether a column holds one where `active` is true and zero elsewhere.
pub open spec fn is_indicator<F: Field>(column: Seq<F>, active: Seq<bool>) -> bool {
    &&& column.len() == active.len()
    &&& forall|i: int|
        0 <= i < active.len() ==> (#[trigger] column[i]).val() == if active[i] {
            1int
        } else {
            0int
        }
}

fn indicator<F: Field>(active: &Vec<bool>) -> (r: Vec<F>)
    ensures
        is_indicator(r@, active@),
{
    let mut column: Vec<F> = Vec::new();
    let mut i: usize = 0;
    while i < active.len()
        invariant
            i <= active@.len(),
            is_indicator(column@, active@.take(i as int)),
        decreases active@.len() - i,
    {
        if active[i] {
            column.push(F::one());
        } else {
            column.push(F::zero());
        }
        i += 1;
    }
    assert(active@.take(i as int) =~= active@);
    column
}

impl<F: Field> GpuExpression<F> {
    /// The expression with no query registered.
    pub open spec fn unregistered(self) -> GpuExpression<F>
        decreases self,
    {
        match self {
            GpuExpression::Fixed(q) => GpuExpression::Fixed(GpuFixedQuery { index: None, ..q }),
            GpuExpression::Advice(q) => GpuExpression::Advice(GpuAdviceQuery { index: None, ..q }),
            GpuExpression::Instance(q) => GpuExpression::Instance(
                GpuInstanceQuery { index: None, ..q },
            ),
            GpuExpression::Negated(a) => GpuExpression::Negated(Box::new(a.unregistered())),
            GpuExpression::Sum(a, b) => GpuExpression::Sum(
                Box::new(a.unregistered()),
                Box::new(b.unregistered()),
            ),
            GpuExpression::Product(a, b) => GpuExpression::Product(
                Box::new(a.unregistered()),
                Box::new(b.unregistered()),
            ),
            GpuExpression::Scaled(a, f) => GpuExpression::Scaled(Box::new(a.unregistered()), f),
            _ => self,
        }
    }

    /// Whether all queries of the expression are in the query lists.
    pub open spec fn listed_in(
        self,
        fixed: Seq<(GpuColumn<GpuFixed>, Rotation)>,
        advice: Seq<(GpuColumn<GpuAdvice>, Rotation)>,
        instance: Seq<(GpuColumn<GpuInstance>, Rotation)>,
    ) -> bool
        decreases self,
    {
        match self {
            GpuExpression::Fixed(q) => fixed.contains((fixed_column(q.column_index), q.rotation)),
            GpuExpression::Advice(q) => advice.contains((advice_column(q), q.rotation)),
            GpuExpression::Instance(q) => instance.contains(
                (instance_column(q.column_index), q.rotation),
            ),
            GpuExpression::Negated(a) => a.listed_in(fixed, advice, instance),
            GpuExpression::Sum(a, b) => a.listed_in(fixed, advice, instance) && b.listed_in(
                fixed,
                advice,
                instance,
            ),
            GpuExpression::Product(a, b) => a.listed_in(fixed, advice, instance) && b.listed_in(
                fixed,
                advice,
                instance,
            ),
            GpuExpression::Scaled(a, _) => a.listed_in(fixed, advice, instance),
            _ => true,
        }
    }
}

/// Sets each query's `index` to the position of its `(column, rotation)` in the
/// query lists.
pub fn assign_expr_query_indices<F: Field>(
    expr: &mut GpuExpression<F>,
    fixed_queries: &Vec<(GpuColumn<GpuFixed>, Rotation)>,
    advice_queries: &Vec<(GpuColumn<GpuAdvice>, Rotation)>,
    instance_queries: &Vec<(GpuColumn<GpuInstance>, Rotation)>,
)
    requires
        old(expr).listed_in(fixed_queries@, advice_queries@, instance_queries@),
    ensures
        old(expr).unregistered().registered_as(
            *final(expr),
            fixed_queries@,
            advice_queries@,
            instance_queries@,
        ),
    decreases *old(expr),
{
    match expr {
        GpuExpression::Fixed(q) => {
            let column = GpuColumn { index: q.column_index, column_type: GpuFixed };
            q.index = find_query(fixed_queries, column, q.rotation);
        },
        GpuExpression::Advice(q) => {
            let column = GpuColumn {
                index: q.column_index,
                column_type: GpuAdvice { phase: q.phase },
            };
            q.index = find_query(advice_queries, column, q.rotation);
        },
        GpuExpression::Instance(q) => {
            let column = GpuColumn { index: q.column_index, column_type: GpuInstance };
            q.index = find_query(instance_queries, column, q.rotation);
        },
        GpuExpression::Negated(a) => {
            assign_expr_query_indices(a, fixed_queries, advice_queries, instance_queries);
        },
        GpuExpression::Sum(a, b) => {
            assign_expr_query_indices(a, fixed_queries, advice_queries, instance_queries);
            assign_expr_query_indices(b, fixed_queries, advice_queries, instance_queries);
        },
        GpuExpression::Product(a, b) => {
            assign_expr_query_indices(a, fixed_queries, advice_queries, instance_queries);
            assign_expr_query_indices(b, fixed_queries, advice_queries, instance_queries);
        },
        GpuExpression::Scaled(a, _) => {
            assign_expr_query_indices(a, fixed_queries, advice_queries, instance_queries);
        },
        _ => {},
    }
}

/// Whether all queries of the expressions are in the system's query lists.
pub open spec fn all_listed<F: Field>(
    s: Seq<GpuExpression<F>>,
    cs: GpuConstraintSystem<F>,
) -> bool {
    forall|i: int|
        0 <= i < s.len() ==> (#[trigger] s[i]).listed_in(
            cs.fixed_queries@,
            cs.advice_queries@,
            cs.instance_queries@,
        )
}

/// Whether `new` are the expressions with every query given its position in the
/// system's query lists.
pub open spec fn all_indexed<F: Field>(
    s: Seq<GpuExpression<F>>,
    new: Seq<GpuExpression<F>>,
    cs: GpuConstraintSystem<F>,
) -> bool {
    &&& new.len() == s.len()
    &&& forall|i: int|
        0 <= i < s.len() ==> s[i].unregistered().registered_as(
            #[trigger] new[i],
            cs.fixed_queries@,
            cs.advice_queries@,
            cs.instance_queries@,
        )
}

impl<F: Field> GpuConstraintSystem<F> {
    fn index_all(&self, exprs: &Vec<GpuExpression<F>>) -> (r: Vec<GpuExpression<F>>)
        requires
            all_listed(exprs@, *self),
        ensures
            all_indexed(exprs@, r@, *self),
    {
        let mut out: Vec<GpuExpression<F>> = Vec::new();
        let mut i: usize = 0;
        while i < exprs.len()
            invariant
                i <= exprs@.len(),
                all_listed(exprs@, *self),
                all_indexed(exprs@.take(i as int), out@, *self),
            decreases exprs@.len() - i,
        {
            let mut e = exprs[i].clone();
            assert(exprs@[i as int].listed_in(
                self.fixed_queries@,
                self.advice_queries@,
                self.instance_queries@,
            ));
            assign_expr_query_indices(
                &mut e,
                &self.fixed_queries,
                &self.advice_queries,
                &self.instance_queries,
            );
            let ghost before = out@;
            out.push(e);
            proof {
                assert forall|j: int| 0 <= j < i + 1 implies exprs@.take(
                    i + 1,
                )[j].unregistered().registered_as(
                    #[trigger] out@[j],
                    self.fixed_queries@,
                    self.advice_queries@,
                    self.instance_queries@,
                ) by {
                    if j < i {
                        assert(out@[j] == before[j]);
                        assert(exprs@.take(i as int)[j] == exprs@[j]);
                    }
                }
            }
            i += 1;
        }
        assert(exprs@.take(i as int) =~= exprs@);
        out
    }

    /// Whether the queries of all gates and lookups are in the query lists.
    pub open spec fn queries_listed(self) -> bool {
        &&& forall|i: int|
            0 <= i < self.gates@.len() ==> all_listed((#[trigger] self.gates@[i]).polys@, self)
        &&& forall|i: int|
            0 <= i < self.lookups@.len() ==> {
                &&& all_listed((#[trigger] self.lookups@[i]).input_expressions@, self)
                &&& all_listed(self.lookups@[i].table_expressions@, self)
            }
    }

    /// Whether the system is `old` with every query of its gates and lookups
    /// given its position.
    pub open spec fn indexes_queries(self, old: Self) -> bool {
        &&& self.gates@.len() == old.gates@.len()
        &&& forall|i: int|
            0 <= i < self.gates@.len() ==> {
                &&& all_indexed(old.gates@[i].polys@, (#[trigger] self.gates@[i]).polys@, old)
                &&& self.gates@[i] == (GpuGate { polys: self.gates@[i].polys, ..old.gates@[i] })
            }
        &&& self.lookups@.len() == old.lookups@.len()
        &&& forall|i: int|
            0 <= i < self.lookups@.len() ==> {
                &&& all_indexed(
                    old.lookups@[i].input_expressions@,
                    (#[trigger] self.lookups@[i]).input_expressions@,
                    old,
                )
                &&& all_indexed(
                    old.lookups@[i].table_expressions@,
                    self.lookups@[i].table_expressions@,
                    old,
                )
                &&& self.lookups@[i].name == old.lookups@[i].name
            }
        &&& self == (Self { gates: self.gates, lookups: self.lookups, ..old })
    }

    /// Gives every query of the gates and lookups its position in the query
    /// lists, as registering the queries in order would have.
    pub fn assign_query_indices(&mut self)
        requires
            old(self).queries_listed(),
        ensures
            final(self).indexes_queries(*old(self)),
    {
        let ghost before = *self;
        let mut i: usize = 0;
        while i < self.gates.len()
            invariant
                i <= self.gates@.len(),
                before.queries_listed(),
                self.gates@.len() == before.gates@.len(),
                *self == (Self { gates: self.gates, ..before }),
                forall|j: int|
                    0 <= j < i ==> {
                        &&& all_indexed(
                            before.gates@[j].polys@,
                            (#[trigger] self.gates@[j]).polys@,
                            before,
                        )
                        &&& self.gates@[j] == (GpuGate {
                            polys: self.gates@[j].polys,
                            ..before.gates@[j]
                        })
                    },
                forall|j: int|
                    i <= j < self.gates@.len() ==> #[trigger] self.gates@[j] == before.gates@[j],
            decreases self.gates@.len() - i,
        {
            assert(self.gates@[i as int] == before.gates@[i as int]);
            let polys = self.index_all(&self.gates[i].polys);
            self.gates[i].polys = polys;
            i += 1;
        }
        let mut i: usize = 0;
        while i < self.lookups.len()
            invariant
                i <= self.lookups@.len(),
                before.queries_listed(),
                self.gates@.len() == before.gates@.len(),
                self.lookups@.len() == before.lookups@.len(),
                *self == (Self { gates: self.gates, lookups: self.lookups, ..before }),
                forall|j: int|
                    0 <= j < self.gates@.len() ==> {
                        &&& all_indexed(
                            before.gates@[j].polys@,
                            (#[trigger] self.gates@[j]).polys@,
                            before,
                        )
                        &&& self.gates@[j] == (GpuGate {
                            polys: self.gates@[j].polys,
                            ..before.gates@[j]
                        })
                    },
                forall|j: int|
                    0 <= j < i ==> {
                        &&& all_indexed(
                            before.lookups@[j].input_expressions@,
                            (#[trigger] self.lookups@[j]).input_expressions@,
                            before,
                        )
                        &&& all_indexed(
                            before.lookups@[j].table_expressions@,
                            self.lookups@[j].table_expressions@,
                            before,
                        )
                        &&& self.lookups@[j].name == before.lookups@[j].name
                    },
                forall|j: int|
                    i <= j < self.lookups@.len() ==> #[trigger] self.lookups@[j]
                        == before.lookups@[j],
            decreases self.lookups@.len() - i,
        {
            assert(self.lookups@[i as int] == before.lookups@[i as int]);
            let inputs = self.index_all(&self.lookups[i].input_expressions);
            let tables = self.index_all(&self.lookups[i].table_expressions);
            self.lookups[i].input_expressions = inputs;
            self.lookups[i].table_expressions = tables;
            i += 1;
        }
    }
}

} // verus!
