//! Expressions over the cells of a circuit.

use crate::field::{fadd, fmul, fneg, Field};
use crate::plonk::circuit::{
    GpuAdviceQuery, GpuAny, GpuChallenge, GpuFixedQuery, GpuInstanceQuery, GpuSelector,
};
use crate::poly::Rotation;
use crate::text::{decimal, decimal_i32, decimal_usize, hex_digits};
use itertools::Itertools;
use std::ops::{Add, Mul, Neg, Sub};
use vstd::prelude::*;
use vstd::std_specs::ops::{AddSpecImpl, MulSpecImpl, NegSpecImpl, SubSpecImpl};
use vstd::std_specs::cmp::PartialEqSpec;
use vstd::string::StringExecFns;

verus! {

/// Low-degree expression representing an identity that must hold over the committed columns.
#[derive(Debug)]
pub enum GpuExpression<F> {
    /// This is a constant polynomial
    Constant(F),
    /// This is a virtual selector
    Selector(GpuSelector),
    /// This is a fixed column queried at a certain relative location
    Fixed(GpuFixedQuery),
    /// This is an advice (witness) column queried at a certain relative location
    Advice(GpuAdviceQuery),
    /// This is an instance (external) column queried at a certain relative location
    Instance(GpuInstanceQuery),
    /// This is a challenge
    Challenge(GpuChallenge),
    /// This is a negated polynomial
    Negated(Box<GpuExpression<F>>),
    /// This is the sum of two polynomials
    Sum(Box<GpuExpression<F>>, Box<GpuExpression<F>>),
    /// This is the product of two polynomials
    Product(Box<GpuExpression<F>>, Box<GpuExpression<F>>),
    /// This is a scaled polynomial
    Scaled(Box<GpuExpression<F>>, F),
}

/// The query of a cell of column `index` at rotation `at`, not yet registered
/// with a constraint system.
pub open spec fn cell_expression<F>(any: GpuAny, index: usize, at: Rotation) -> GpuExpression<F> {
    match any {
        GpuAny::Advice(advice) => GpuExpression::Advice(
            GpuAdviceQuery {
                index: None,
                column_index: index,
                rotation: at,
                phase: advice.phase,
            },
        ),
        GpuAny::Fixed => GpuExpression::Fixed(
            GpuFixedQuery { index: None, column_index: index, rotation: at },
        ),
        GpuAny::Instance => GpuExpression::Instance(
            GpuInstanceQuery { index: None, column_index: index, rotation: at },
        ),
    }
}


/// The values of all cells, selectors and challenges that an expression may
/// refer to, as canonical representatives.
pub struct CellValues {
    pub selector: spec_fn(GpuSelector) -> int,
    pub fixed: spec_fn(usize, Rotation) -> int,
    pub advice: spec_fn(usize, Rotation) -> int,
    pub instance: spec_fn(usize, Rotation) -> int,
    pub challenge: spec_fn(usize) -> int,
}

impl<F: Field> GpuExpression<F> {
    /// The value of the expression over given cells.
    pub open spec fn value(self, cells: CellValues) -> int
        decreases self,
    {
        let p = F::modulus();
        match self {
            GpuExpression::Constant(scalar) => scalar.val(),
            GpuExpression::Selector(selector) => (cells.selector)(selector),
            GpuExpression::Fixed(query) => (cells.fixed)(query.column_index, query.rotation),
            GpuExpression::Advice(query) => (cells.advice)(query.column_index, query.rotation),
            GpuExpression::Instance(query) => (cells.instance)(query.column_index, query.rotation),
            GpuExpression::Challenge(challenge) => (cells.challenge)(challenge.index),
            GpuExpression::Negated(a) => fneg(p, a.value(cells)),
            GpuExpression::Sum(a, b) => fadd(p, a.value(cells), b.value(cells)),
            GpuExpression::Product(a, b) => fmul(p, a.value(cells), b.value(cells)),
            GpuExpression::Scaled(a, f) => fmul(p, a.value(cells), f.val()),
        }
    }

    /// Degree of the polynomial that the expression stands for.
    pub open spec fn spec_degree(self) -> nat
        decreases self,
    {
        match self {
            GpuExpression::Constant(_) => 0,
            GpuExpression::Selector(_) => 1,
            GpuExpression::Fixed(_) => 1,
            GpuExpression::Advice(_) => 1,
            GpuExpression::Instance(_) => 1,
            GpuExpression::Challenge(_) => 0,
            GpuExpression::Negated(a) => a.spec_degree(),
            GpuExpression::Sum(a, b) => if a.spec_degree() >= b.spec_degree() {
                a.spec_degree()
            } else {
                b.spec_degree()
            },
            GpuExpression::Product(a, b) => a.spec_degree() + b.spec_degree(),
            GpuExpression::Scaled(a, _) => a.spec_degree(),
        }
    }

    /// Cost estimate: one for each query and a weight for each operation.
    pub open spec fn spec_complexity(self) -> nat
        decreases self,
    {
        match self {
            GpuExpression::Constant(_) => 0,
            GpuExpression::Selector(_) => 1,
            GpuExpression::Fixed(_) => 1,
            GpuExpression::Advice(_) => 1,
            GpuExpression::Instance(_) => 1,
            GpuExpression::Challenge(_) => 0,
            GpuExpression::Negated(a) => a.spec_complexity() + 5,
            GpuExpression::Sum(a, b) => a.spec_complexity() + b.spec_complexity() + 15,
            GpuExpression::Product(a, b) => a.spec_complexity() + b.spec_complexity() + 30,
            GpuExpression::Scaled(a, _) => a.spec_complexity() + 30,
        }
    }

    /// The simple selectors of the expression, from left to right.
    pub open spec fn simple_selectors(self) -> Seq<GpuSelector>
        decreases self,
    {
        match self {
            GpuExpression::Selector(selector) => if selector.1 {
                seq![selector]
            } else {
                Seq::empty()
            },
            GpuExpression::Negated(a) => a.simple_selectors(),
            GpuExpression::Sum(a, b) => a.simple_selectors() + b.simple_selectors(),
            GpuExpression::Product(a, b) => a.simple_selectors() + b.simple_selectors(),
            GpuExpression::Scaled(a, _) => a.simple_selectors(),
            _ => Seq::empty(),
        }
    }

    /// Whether the expression holds a simple selector.
    pub open spec fn has_simple_selector(self) -> bool {
        self.simple_selectors().len() > 0
    }

    /// The columns of one kind that the expression queries: each once, in the
    /// order in which they first occur from left to right.
    pub open spec fn columns(self, kind: CellKind) -> Seq<usize>
        decreases self,
    {
        match self {
            GpuExpression::Fixed(query) => if kind is Fixed {
                seq![query.column_index]
            } else {
                Seq::empty()
            },
            GpuExpression::Advice(query) => if kind is Advice {
                seq![query.column_index]
            } else {
                Seq::empty()
            },
            GpuExpression::Instance(query) => if kind is Instance {
                seq![query.column_index]
            } else {
                Seq::empty()
            },
            GpuExpression::Negated(a) => a.columns(kind),
            GpuExpression::Sum(a, b) => first_occurrences(a.columns(kind) + b.columns(kind)),
            GpuExpression::Product(a, b) => first_occurrences(a.columns(kind) + b.columns(kind)),
            GpuExpression::Scaled(a, _) => a.columns(kind),
            _ => Seq::empty(),
        }
    }

    /// Whether a column of one kind is queried somewhere in the expression.
    pub open spec fn queries(self, kind: CellKind, column: usize) -> bool
        decreases self,
    {
        match self {
            GpuExpression::Fixed(query) => kind is Fixed && query.column_index == column,
            GpuExpression::Advice(query) => kind is Advice && query.column_index == column,
            GpuExpression::Instance(query) => kind is Instance && query.column_index == column,
            GpuExpression::Negated(a) => a.queries(kind, column),
            GpuExpression::Sum(a, b) => a.queries(kind, column) || b.queries(kind, column),
            GpuExpression::Product(a, b) => a.queries(kind, column) || b.queries(kind, column),
            GpuExpression::Scaled(a, _) => a.queries(kind, column),
            _ => false,
        }
    }

    /// The text that identifies the calculation.
    pub open spec fn identifier_text(self) -> Seq<char>
        decreases self,
    {
        match self {
            GpuExpression::Constant(scalar) => scalar_text(scalar),
            GpuExpression::Selector(selector) => "selector["@ + decimal(selector.0 as int) + "]"@,
            GpuExpression::Fixed(query) => "fixed["@ + decimal(query.column_index as int) + "]["@
                + decimal(query.rotation.0 as int) + "]"@,
            GpuExpression::Advice(query) => "advice["@ + decimal(query.column_index as int) + "]["@
                + decimal(query.rotation.0 as int) + "]"@,
            GpuExpression::Instance(query) => "instance["@ + decimal(query.column_index as int)
                + "]["@ + decimal(query.rotation.0 as int) + "]"@,
            GpuExpression::Challenge(challenge) => "challenge["@ + decimal(challenge.index as int)
                + "]"@,
            GpuExpression::Negated(a) => "(-"@ + a.identifier_text() + ")"@,
            GpuExpression::Sum(a, b) => "("@ + a.identifier_text() + "+"@ + b.identifier_text()
                + ")"@,
            GpuExpression::Product(a, b) => "("@ + a.identifier_text() + "*"@ + b.identifier_text()
                + ")"@,
            GpuExpression::Scaled(a, f) => a.identifier_text() + "*"@ + scalar_text(f),
        }
    }

    /// The text that shows the expression's structure.
    pub open spec fn debug_text(self) -> Seq<char>
        decreases self,
    {
        match self {
            GpuExpression::Constant(scalar) => "Constant("@ + scalar_text(scalar) + ")"@,
            GpuExpression::Selector(selector) => selector_text(selector),
            GpuExpression::Fixed(query) => "Fixed { query_index: "@ + query_text(
                query.index,
                query.column_index,
                query.rotation,
            ) + " }"@,
            GpuExpression::Advice(query) => advice_query_text(query),
            GpuExpression::Instance(query) => "Instance { query_index: "@ + query_text(
                query.index,
                query.column_index,
                query.rotation,
            ) + " }"@,
            GpuExpression::Challenge(challenge) => challenge_text(challenge),
            GpuExpression::Negated(a) => "Negated("@ + a.debug_text() + ")"@,
            GpuExpression::Sum(a, b) => "Sum("@ + a.debug_text() + ", "@ + b.debug_text() + ")"@,
            GpuExpression::Product(a, b) => "Product("@ + a.debug_text() + ", "@ + b.debug_text()
                + ")"@,
            GpuExpression::Scaled(a, f) => "Scaled("@ + a.debug_text() + ", "@ + scalar_text(f)
                + ")"@,
        }
    }
}

/// A field element in hexadecimal notation.
pub open spec fn scalar_text<F: Field>(scalar: F) -> Seq<char> {
    seq!['0', 'x'] + hex_digits(scalar.val() as nat, 64)
}

/// A query's position in its list, or `None` before it is registered.
pub open spec fn index_text(index: Option<usize>) -> Seq<char> {
    match index {
        Some(i) => decimal(i as int),
        None => "None"@,
    }
}

/// A query's position, column and rotation.
pub open spec fn query_text(index: Option<usize>, column_index: usize, rotation: Rotation) -> Seq<
    char,
> {
    index_text(index) + ", column_index: "@ + decimal(column_index as int)
        + ", rotation: Rotation("@ + decimal(rotation.0 as int) + ")"@
}

/// A query of an advice column; its phase is shown where it is not the first.
pub open spec fn advice_query_text(query: GpuAdviceQuery) -> Seq<char> {
    "Advice { query_index: "@ + query_text(query.index, query.column_index, query.rotation) + (
    if query.phase.0 != 0 {
        ", phase: Phase("@ + decimal(query.phase.0 as int) + ")"@
    } else {
        Seq::empty()
    }) + " }"@
}

/// A selector's index and whether it is simple.
pub open spec fn selector_text(selector: GpuSelector) -> Seq<char> {
    "Selector(GpuSelector("@ + decimal(selector.0 as int) + ", "@ + (if selector.1 {
        "true"@
    } else {
        "false"@
    }) + "))"@
}

/// A challenge's index and phase.
pub open spec fn challenge_text(challenge: GpuChallenge) -> Seq<char> {
    "Challenge(GpuChallenge { index: "@ + decimal(challenge.index as int) + ", phase: Phase("@
        + decimal(challenge.phase.0 as int) + ") })"@
}

/// The kinds of columns that expressions query.
#[derive(Clone, Copy, Debug, PartialEq, Eq, Structural)]
pub enum CellKind {
    Fixed,
    Advice,
    Instance,
}

/// The elements of `s` in order, without those that occurred before.
pub open spec fn first_occurrences(s: Seq<usize>) -> Seq<usize>
    decreases s.len(),
{
    if s.len() == 0 {
        Seq::empty()
    } else {
        let front = first_occurrences(s.drop_last());
        if front.contains(s.last()) {
            front
        } else {
            front.push(s.last())
        }
    }
}

/// `Itertools::unique` of itertools: the elements without those that occurred
/// before, in their order.
#[verifier::external_body]
fn unique_usize(values: Vec<usize>) -> (r: Vec<usize>)
    ensures
        r@ == first_occurrences(values@),
{
    values.into_iter().unique().collect()
}

proof fn lemma_first_occurrences(s: Seq<usize>)
    ensures
        first_occurrences(s).no_duplicates(),
        forall|x: usize| #[trigger] first_occurrences(s).contains(x) <==> s.contains(x),
    decreases s.len(),
{
    if s.len() > 0 {
        let front = first_occurrences(s.drop_last());
        lemma_first_occurrences(s.drop_last());
        assert forall|x: usize| #[trigger] first_occurrences(s).contains(x) <==> s.contains(x) by {
            if s.contains(x) {
                let i = choose|i: int| 0 <= i < s.len() && s[i] == x;
                if i < s.len() - 1 {
                    assert(s.drop_last()[i] == x);
                    assert(front.contains(x));
                    let j = choose|j: int| 0 <= j < front.len() && front[j] == x;
                    assert(first_occurrences(s)[j] == x);
                } else if !front.contains(s.last()) {
                    assert(first_occurrences(s)[front.len() as int] == x);
                }
            }
            if first_occurrences(s).contains(x) {
                if front.contains(x) {
                    let j = choose|j: int| 0 <= j < s.drop_last().len() && s.drop_last()[j] == x;
                    assert(s[j] == x);
                } else {
                    assert(s[s.len() - 1] == x);
                }
            }
        }
    }
}

/// The columns of a kind that are extracted from an expression are exactly
/// those that it queries, each once.
pub proof fn law_columns_exact<F: Field>(e: GpuExpression<F>, kind: CellKind)
    ensures
        e.columns(kind).no_duplicates(),
        forall|c: usize| #[trigger] e.columns(kind).contains(c) <==> e.queries(kind, c),
    decreases e,
{
    match e {
        GpuExpression::Negated(a) => law_columns_exact(*a, kind),
        GpuExpression::Scaled(a, _) => law_columns_exact(*a, kind),
        GpuExpression::Sum(a, b) => {
            law_columns_exact(*a, kind);
            law_columns_exact(*b, kind);
            lemma_union(a.columns(kind), b.columns(kind));
        },
        GpuExpression::Product(a, b) => {
            law_columns_exact(*a, kind);
            law_columns_exact(*b, kind);
            lemma_union(a.columns(kind), b.columns(kind));
        },
        GpuExpression::Fixed(query) => {
            assert(seq![query.column_index][0] == query.column_index);
        },
        GpuExpression::Advice(query) => {
            assert(seq![query.column_index][0] == query.column_index);
        },
        GpuExpression::Instance(query) => {
            assert(seq![query.column_index][0] == query.column_index);
        },
        _ => {},
    }
}

proof fn lemma_union(s: Seq<usize>, t: Seq<usize>)
    ensures
        first_occurrences(s + t).no_duplicates(),
        forall|x: usize| #[trigger]
            first_occurrences(s + t).contains(x) <==> s.contains(x) || t.contains(x),
{
    lemma_first_occurrences(s + t);
    assert forall|x: usize| #[trigger]
        first_occurrences(s + t).contains(x) <==> s.contains(x) || t.contains(x) by {
        if s.contains(x) {
            let i = choose|i: int| 0 <= i < s.len() && s[i] == x;
            assert((s + t)[i] == x);
        }
        if t.contains(x) {
            let i = choose|i: int| 0 <= i < t.len() && t[i] == x;
            assert((s + t)[s.len() + i] == x);
        }
    }
}

impl<F: Field> Clone for GpuExpression<F> {
    fn clone(&self) -> (r: Self)
        ensures
            r == *self,
        decreases self,
    {
        match self {
            GpuExpression::Constant(scalar) => GpuExpression::Constant(*scalar),
            GpuExpression::Selector(selector) => GpuExpression::Selector(*selector),
            GpuExpression::Fixed(query) => GpuExpression::Fixed(*query),
            GpuExpression::Advice(query) => GpuExpression::Advice(*query),
            GpuExpression::Instance(query) => GpuExpression::Instance(*query),
            GpuExpression::Challenge(challenge) => GpuExpression::Challenge(*challenge),
            GpuExpression::Negated(a) => GpuExpression::Negated(Box::new((&**a).clone())),
            GpuExpression::Sum(a, b) => GpuExpression::Sum(
                Box::new((&**a).clone()),
                Box::new((&**b).clone()),
            ),
            GpuExpression::Product(a, b) => GpuExpression::Product(
                Box::new((&**a).clone()),
                Box::new((&**b).clone()),
            ),
            GpuExpression::Scaled(a, f) => GpuExpression::Scaled(Box::new((&**a).clone()), *f),
        }
    }
}

/// Whether `r` is a result of composing the operations along the expression.
pub open spec fn evaluates<
    F,
    T,
    C0: Fn(F) -> T,
    C1: Fn(GpuSelector) -> T,
    C2: Fn(GpuFixedQuery) -> T,
    C3: Fn(GpuAdviceQuery) -> T,
    C4: Fn(GpuInstanceQuery) -> T,
    C5: Fn(GpuChallenge) -> T,
    C6: Fn(T) -> T,
    C7: Fn(T, T) -> T,
    C8: Fn(T, T) -> T,
    C9: Fn(T, F) -> T,
>(
    e: GpuExpression<F>,
    constant: C0,
    selector_column: C1,
    fixed_column: C2,
    advice_column: C3,
    instance_column: C4,
    challenge: C5,
    negated: C6,
    sum: C7,
    product: C8,
    scaled: C9,
    r: T,
) -> bool
    decreases e,
{
    match e {
        GpuExpression::Constant(scalar) => call_ensures(constant, (scalar,), r),
        GpuExpression::Selector(selector) => call_ensures(selector_column, (selector,), r),
        GpuExpression::Fixed(query) => call_ensures(fixed_column, (query,), r),
        GpuExpression::Advice(query) => call_ensures(advice_column, (query,), r),
        GpuExpression::Instance(query) => call_ensures(instance_column, (query,), r),
        GpuExpression::Challenge(value) => call_ensures(challenge, (value,), r),
        GpuExpression::Negated(a) => exists|x: T|
            evaluates(*a, constant, selector_column, fixed_column, advice_column,
                instance_column, challenge, negated, sum, product, scaled, x)
                && #[trigger] call_ensures(negated, (x,), r),
        GpuExpression::Sum(a, b) => exists|x: T, y: T|
            evaluates(*a, constant, selector_column, fixed_column, advice_column,
                instance_column, challenge, negated, sum, product, scaled, x)
                && evaluates(*b, constant, selector_column, fixed_column, advice_column,
                instance_column, challenge, negated, sum, product, scaled, y)
                && #[trigger] call_ensures(
                sum,
                (x, y),
                r,
            ),
        GpuExpression::Product(a, b) => exists|x: T, y: T|
            evaluates(*a, constant, selector_column, fixed_column, advice_column,
                instance_column, challenge, negated, sum, product, scaled, x)
                && evaluates(*b, constant, selector_column, fixed_column, advice_column,
                instance_column, challenge, negated, sum, product, scaled, y)
                && #[trigger] call_ensures(
                product,
                (x, y),
                r,
            ),
        GpuExpression::Scaled(a, f) => exists|x: T|
            evaluates(*a, constant, selector_column, fixed_column, advice_column,
                instance_column, challenge, negated, sum, product, scaled, x)
                && #[trigger] call_ensures(scaled, (x, f), r),
    }
}

/// Whether every operation along the expression may be called on what the
/// operations below it return.
pub open spec fn evaluable<
    F,
    T,
    C0: Fn(F) -> T,
    C1: Fn(GpuSelector) -> T,
    C2: Fn(GpuFixedQuery) -> T,
    C3: Fn(GpuAdviceQuery) -> T,
    C4: Fn(GpuInstanceQuery) -> T,
    C5: Fn(GpuChallenge) -> T,
    C6: Fn(T) -> T,
    C7: Fn(T, T) -> T,
    C8: Fn(T, T) -> T,
    C9: Fn(T, F) -> T,
>(
    e: GpuExpression<F>,
    constant: C0,
    selector_column: C1,
    fixed_column: C2,
    advice_column: C3,
    instance_column: C4,
    challenge: C5,
    negated: C6,
    sum: C7,
    product: C8,
    scaled: C9,
) -> bool
    decreases e,
{
    match e {
        GpuExpression::Constant(scalar) => call_requires(constant, (scalar,)),
        GpuExpression::Selector(selector) => call_requires(selector_column, (selector,)),
        GpuExpression::Fixed(query) => call_requires(fixed_column, (query,)),
        GpuExpression::Advice(query) => call_requires(advice_column, (query,)),
        GpuExpression::Instance(query) => call_requires(instance_column, (query,)),
        GpuExpression::Challenge(value) => call_requires(challenge, (value,)),
        GpuExpression::Negated(a) => {
            &&& evaluable(*a, constant, selector_column, fixed_column, advice_column,
                instance_column, challenge, negated, sum, product, scaled)
            &&& forall|x: T|
                evaluates(*a, constant, selector_column, fixed_column, advice_column,
                    instance_column, challenge, negated, sum, product, scaled, x)
                    ==> #[trigger] call_requires(negated, (x,))
        },
        GpuExpression::Sum(a, b) => {
            &&& evaluable(*a, constant, selector_column, fixed_column, advice_column,
                instance_column, challenge, negated, sum, product, scaled)
            &&& evaluable(*b, constant, selector_column, fixed_column, advice_column,
                instance_column, challenge, negated, sum, product, scaled)
            &&& forall|x: T, y: T|
                evaluates(*a, constant, selector_column, fixed_column, advice_column,
                    instance_column, challenge, negated, sum, product, scaled, x)
                    && evaluates(*b, constant, selector_column, fixed_column, advice_column,
                    instance_column, challenge, negated, sum, product, scaled, y)
                    ==> #[trigger] call_requires(
                    sum,
                    (x, y),
                )
        },
        GpuExpression::Product(a, b) => {
            &&& evaluable(*a, constant, selector_column, fixed_column, advice_column,
                instance_column, challenge, negated, sum, product, scaled)
            &&& evaluable(*b, constant, selector_column, fixed_column, advice_column,
                instance_column, challenge, negated, sum, product, scaled)
            &&& forall|x: T, y: T|
                evaluates(*a, constant, selector_column, fixed_column, advice_column,
                    instance_column, challenge, negated, sum, product, scaled, x)
                    && evaluates(*b, constant, selector_column, fixed_column, advice_column,
                    instance_column, challenge, negated, sum, product, scaled, y)
                    ==> #[trigger] call_requires(
                    product,
                    (x, y),
                )
        },
        GpuExpression::Scaled(a, f) => {
            &&& evaluable(*a, constant, selector_column, fixed_column, advice_column,
                instance_column, challenge, negated, sum, product, scaled)
            &&& forall|x: T|
                evaluates(*a, constant, selector_column, fixed_column, advice_column,
                    instance_column, challenge, negated, sum, product, scaled, x)
                    ==> #[trigger] call_requires(scaled, (x, f))
        },
    }
}

/// Whether `equal` is what comparing `x` with `zero` may give.
pub open spec fn compares<T: PartialEq>(x: T, zero: T, equal: bool) -> bool {
    T::obeys_eq_spec() ==> equal == x.eq_spec(&zero)
}

/// Whether `r` is a result of composing the operations along the expression,
/// where a product is its cheaper factor if that one compares equal to `zero`.
pub open spec fn evaluates_lazily<
    F: Field,
    T: PartialEq,
    C0: Fn(F) -> T,
    C1: Fn(GpuSelector) -> T,
    C2: Fn(GpuFixedQuery) -> T,
    C3: Fn(GpuAdviceQuery) -> T,
    C4: Fn(GpuInstanceQuery) -> T,
    C5: Fn(GpuChallenge) -> T,
    C6: Fn(T) -> T,
    C7: Fn(T, T) -> T,
    C8: Fn(T, T) -> T,
    C9: Fn(T, F) -> T,
>(
    e: GpuExpression<F>,
    constant: C0,
    selector_column: C1,
    fixed_column: C2,
    advice_column: C3,
    instance_column: C4,
    challenge: C5,
    negated: C6,
    sum: C7,
    product: C8,
    scaled: C9,
    zero: T,
    r: T,
) -> bool
    decreases e,
{
    match e {
        GpuExpression::Constant(scalar) => call_ensures(constant, (scalar,), r),
        GpuExpression::Selector(selector) => call_ensures(selector_column, (selector,), r),
        GpuExpression::Fixed(query) => call_ensures(fixed_column, (query,), r),
        GpuExpression::Advice(query) => call_ensures(advice_column, (query,), r),
        GpuExpression::Instance(query) => call_ensures(instance_column, (query,), r),
        GpuExpression::Challenge(value) => call_ensures(challenge, (value,), r),
        GpuExpression::Negated(a) => exists|x: T|
            evaluates_lazily(*a, constant, selector_column, fixed_column, advice_column,
                instance_column, challenge, negated, sum, product, scaled, zero, x)
                && #[trigger] call_ensures(negated, (x,), r),
        GpuExpression::Sum(a, b) => exists|x: T, y: T|
            evaluates_lazily(*a, constant, selector_column, fixed_column, advice_column,
                instance_column, challenge, negated, sum, product, scaled, zero, x)
                && evaluates_lazily(*b, constant, selector_column, fixed_column, advice_column,
                instance_column, challenge, negated, sum, product, scaled, zero, y)
                && #[trigger] call_ensures(sum, (x, y), r),
        GpuExpression::Product(a, b) => if a.spec_complexity() <= b.spec_complexity() {
            exists|x: T, equal: bool|
                evaluates_lazily(*a, constant, selector_column, fixed_column, advice_column,
                    instance_column, challenge, negated, sum, product, scaled, zero, x)
                    && #[trigger] compares(x, zero, equal) && if equal {
                    r == x
                } else {
                    exists|y: T|
                        evaluates_lazily(*b, constant, selector_column, fixed_column,
                            advice_column, instance_column, challenge, negated, sum, product,
                            scaled, zero, y) && #[trigger] call_ensures(
                            product,
                            (x, y),
                            r,
                        )
                }
        } else {
            exists|x: T, equal: bool|
                evaluates_lazily(*b, constant, selector_column, fixed_column, advice_column,
                    instance_column, challenge, negated, sum, product, scaled, zero, x)
                    && #[trigger] compares(x, zero, equal) && if equal {
                    r == x
                } else {
                    exists|y: T|
                        evaluates_lazily(*a, constant, selector_column, fixed_column,
                            advice_column, instance_column, challenge, negated, sum, product,
                            scaled, zero, y) && #[trigger] call_ensures(
                            product,
                            (x, y),
                            r,
                        )
                }
        },
        GpuExpression::Scaled(a, f) => exists|x: T|
            evaluates_lazily(*a, constant, selector_column, fixed_column, advice_column,
                instance_column, challenge, negated, sum, product, scaled, zero, x)
                && #[trigger] call_ensures(scaled, (x, f), r),
    }
}

/// Whether every operation along the lazy evaluation may be called on what the
/// operations below it return.
pub open spec fn lazily_evaluable<
    F: Field,
    T: PartialEq,
    C0: Fn(F) -> T,
    C1: Fn(GpuSelector) -> T,
    C2: Fn(GpuFixedQuery) -> T,
    C3: Fn(GpuAdviceQuery) -> T,
    C4: Fn(GpuInstanceQuery) -> T,
    C5: Fn(GpuChallenge) -> T,
    C6: Fn(T) -> T,
    C7: Fn(T, T) -> T,
    C8: Fn(T, T) -> T,
    C9: Fn(T, F) -> T,
>(
    e: GpuExpression<F>,
    constant: C0,
    selector_column: C1,
    fixed_column: C2,
    advice_column: C3,
    instance_column: C4,
    challenge: C5,
    negated: C6,
    sum: C7,
    product: C8,
    scaled: C9,
    zero: T,
) -> bool
    decreases e,
{
    match e {
        GpuExpression::Constant(scalar) => call_requires(constant, (scalar,)),
        GpuExpression::Selector(selector) => call_requires(selector_column, (selector,)),
        GpuExpression::Fixed(query) => call_requires(fixed_column, (query,)),
        GpuExpression::Advice(query) => call_requires(advice_column, (query,)),
        GpuExpression::Instance(query) => call_requires(instance_column, (query,)),
        GpuExpression::Challenge(value) => call_requires(challenge, (value,)),
        GpuExpression::Negated(a) => {
            &&& lazily_evaluable(*a, constant, selector_column, fixed_column, advice_column,
                instance_column, challenge, negated, sum, product, scaled, zero)
            &&& forall|x: T|
                evaluates_lazily(*a, constant, selector_column, fixed_column, advice_column,
                    instance_column, challenge, negated, sum, product, scaled, zero, x)
                    ==> #[trigger] call_requires(negated, (x,))
        },
        GpuExpression::Sum(a, b) => {
            &&& lazily_evaluable(*a, constant, selector_column, fixed_column, advice_column,
                instance_column, challenge, negated, sum, product, scaled, zero)
            &&& lazily_evaluable(*b, constant, selector_column, fixed_column, advice_column,
                instance_column, challenge, negated, sum, product, scaled, zero)
            &&& forall|x: T, y: T|
                evaluates_lazily(*a, constant, selector_column, fixed_column, advice_column,
                    instance_column, challenge, negated, sum, product, scaled, zero, x)
                    && evaluates_lazily(*b, constant, selector_column, fixed_column,
                    advice_column, instance_column, challenge, negated, sum, product, scaled,
                    zero, y)
                    ==> #[trigger] call_requires(sum, (x, y))
        },
        GpuExpression::Product(a, b) => {
            &&& lazily_evaluable(*a, constant, selector_column, fixed_column, advice_column,
                instance_column, challenge, negated, sum, product, scaled, zero)
            &&& lazily_evaluable(*b, constant, selector_column, fixed_column, advice_column,
                instance_column, challenge, negated, sum, product, scaled, zero)
            &&& if a.spec_complexity() <= b.spec_complexity() {
                forall|x: T, y: T|
                    evaluates_lazily(*a, constant, selector_column, fixed_column, advice_column,
                        instance_column, challenge, negated, sum, product, scaled, zero, x)
                        && evaluates_lazily(*b, constant, selector_column, fixed_column,
                        advice_column, instance_column, challenge, negated, sum, product, scaled,
                        zero, y)
                        ==> #[trigger] call_requires(product, (x, y))
            } else {
                forall|x: T, y: T|
                    evaluates_lazily(*b, constant, selector_column, fixed_column, advice_column,
                        instance_column, challenge, negated, sum, product, scaled, zero, x)
                        && evaluates_lazily(*a, constant, selector_column, fixed_column,
                        advice_column, instance_column, challenge, negated, sum, product, scaled,
                        zero, y)
                        ==> #[trigger] call_requires(product, (x, y))
            }
        },
        GpuExpression::Scaled(a, f) => {
            &&& lazily_evaluable(*a, constant, selector_column, fixed_column, advice_column,
                instance_column, challenge, negated, sum, product, scaled, zero)
            &&& forall|x: T|
                evaluates_lazily(*a, constant, selector_column, fixed_column, advice_column,
                    instance_column, challenge, negated, sum, product, scaled, zero, x)
                    ==> #[trigger] call_requires(
                    scaled,
                    (x, f),
                )
        },
    }
}

/// Whether `r` is a result of combining the selectors of the expression, with
/// copies of `identity` in place of every other leaf.
pub open spec fn combines_selectors<
    F,
    T: Clone,
    S: Fn(GpuSelector) -> T,
    C: Fn(T, T) -> T,
>(e: GpuExpression<F>, identity: T, selector_fn: S, combine: C, r: T) -> bool
    decreases e,
{
    match e {
        GpuExpression::Selector(selector) => call_ensures(selector_fn, (selector,), r),
        GpuExpression::Negated(a) => combines_selectors(*a, identity, selector_fn, combine, r),
        GpuExpression::Sum(a, b) => exists|x: T, y: T|
            combines_selectors(*a, identity, selector_fn, combine, x) && combines_selectors(
                *b,
                identity,
                selector_fn,
                combine,
                y,
            ) && #[trigger] call_ensures(combine, (x, y), r),
        GpuExpression::Product(a, b) => exists|x: T, y: T|
            combines_selectors(*a, identity, selector_fn, combine, x) && combines_selectors(
                *b,
                identity,
                selector_fn,
                combine,
                y,
            ) && #[trigger] call_ensures(combine, (x, y), r),
        GpuExpression::Scaled(a, _) => combines_selectors(*a, identity, selector_fn, combine, r),
        _ => cloned(identity, r),
    }
}

/// Whether the two operations may be called on what they are given when the
/// selectors of the expression are combined.
pub open spec fn selectors_combinable<
    F,
    T: Clone,
    S: Fn(GpuSelector) -> T,
    C: Fn(T, T) -> T,
>(e: GpuExpression<F>, identity: T, selector_fn: S, combine: C) -> bool
    decreases e,
{
    match e {
        GpuExpression::Selector(selector) => call_requires(selector_fn, (selector,)),
        GpuExpression::Negated(a) => selectors_combinable(*a, identity, selector_fn, combine),
        GpuExpression::Sum(a, b) => {
            &&& selectors_combinable(*a, identity, selector_fn, combine)
            &&& selectors_combinable(*b, identity, selector_fn, combine)
            &&& forall|x: T, y: T|
                combines_selectors(*a, identity, selector_fn, combine, x) && combines_selectors(
                    *b,
                    identity,
                    selector_fn,
                    combine,
                    y,
                ) ==> #[trigger] call_requires(combine, (x, y))
        },
        GpuExpression::Product(a, b) => {
            &&& selectors_combinable(*a, identity, selector_fn, combine)
            &&& selectors_combinable(*b, identity, selector_fn, combine)
            &&& forall|x: T, y: T|
                combines_selectors(*a, identity, selector_fn, combine, x) && combines_selectors(
                    *b,
                    identity,
                    selector_fn,
                    combine,
                    y,
                ) ==> #[trigger] call_requires(combine, (x, y))
        },
        GpuExpression::Scaled(a, _) => selectors_combinable(*a, identity, selector_fn, combine),
        _ => true,
    }
}

impl<F: Field> GpuExpression<F> {
    /// Evaluate the polynomial using the provided closures to perform the
    /// operations.
    pub fn evaluate<
        T,
        C0: Fn(F) -> T,
        C1: Fn(GpuSelector) -> T,
        C2: Fn(GpuFixedQuery) -> T,
        C3: Fn(GpuAdviceQuery) -> T,
        C4: Fn(GpuInstanceQuery) -> T,
        C5: Fn(GpuChallenge) -> T,
        C6: Fn(T) -> T,
        C7: Fn(T, T) -> T,
        C8: Fn(T, T) -> T,
        C9: Fn(T, F) -> T,
    >(
        &self,
        constant: &C0,
        selector_column: &C1,
        fixed_column: &C2,
        advice_column: &C3,
        instance_column: &C4,
        challenge: &C5,
        negated: &C6,
        sum: &C7,
        product: &C8,
        scaled: &C9,
    ) -> (r: T)
        requires
            evaluable(
                *self,
                *constant, *selector_column, *fixed_column, *advice_column, *instance_column,
                    *challenge, *negated, *sum, *product, *scaled,
            ),
        ensures
            evaluates(
                *self,
                *constant, *selector_column, *fixed_column, *advice_column, *instance_column,
                    *challenge, *negated, *sum, *product, *scaled,
                r,
            ),
        decreases self,
    {
        match self {
            GpuExpression::Constant(scalar) => constant(*scalar),
            GpuExpression::Selector(selector) => selector_column(*selector),
            GpuExpression::Fixed(query) => fixed_column(*query),
            GpuExpression::Advice(query) => advice_column(*query),
            GpuExpression::Instance(query) => instance_column(*query),
            GpuExpression::Challenge(value) => challenge(*value),
            GpuExpression::Negated(a) => {
                let a = a.evaluate(
                    constant,
                    selector_column,
                    fixed_column,
                    advice_column,
                    instance_column,
                    challenge,
                    negated,
                    sum,
                    product,
                    scaled,
                );
                negated(a)
            },
            GpuExpression::Sum(a, b) => {
                let a = a.evaluate(
                    constant,
                    selector_column,
                    fixed_column,
                    advice_column,
                    instance_column,
                    challenge,
                    negated,
                    sum,
                    product,
                    scaled,
                );
                let b = b.evaluate(
                    constant,
                    selector_column,
                    fixed_column,
                    advice_column,
                    instance_column,
                    challenge,
                    negated,
                    sum,
                    product,
                    scaled,
                );
                sum(a, b)
            },
            GpuExpression::Product(a, b) => {
                let a = a.evaluate(
                    constant,
                    selector_column,
                    fixed_column,
                    advice_column,
                    instance_column,
                    challenge,
                    negated,
                    sum,
                    product,
                    scaled,
                );
                let b = b.evaluate(
                    constant,
                    selector_column,
                    fixed_column,
                    advice_column,
                    instance_column,
                    challenge,
                    negated,
                    sum,
                    product,
                    scaled,
                );
                product(a, b)
            },
            GpuExpression::Scaled(a, f) => {
                let a = a.evaluate(
                    constant,
                    selector_column,
                    fixed_column,
                    advice_column,
                    instance_column,
                    challenge,
                    negated,
                    sum,
                    product,
                    scaled,
                );
                scaled(a, *f)
            },
        }
    }

    /// Evaluate over selectors only: `selector_fn` on selectors, `combine` on
    /// Sum/Product, `identity` everywhere else.
    pub fn evaluate_selectors<T: Clone, S: Fn(GpuSelector) -> T, C: Fn(T, T) -> T>(
        &self,
        identity: T,
        selector_fn: &S,
        combine: &C,
    ) -> (r: T)
        requires
            selectors_combinable(*self, identity, *selector_fn, *combine),
        ensures
            combines_selectors(*self, identity, *selector_fn, *combine, r),
    {
        self.combine_selectors(&identity, selector_fn, combine)
    }

    fn combine_selectors<T: Clone, S: Fn(GpuSelector) -> T, C: Fn(T, T) -> T>(
        &self,
        identity: &T,
        selector_fn: &S,
        combine: &C,
    ) -> (r: T)
        requires
            selectors_combinable(*self, *identity, *selector_fn, *combine),
        ensures
            combines_selectors(*self, *identity, *selector_fn, *combine, r),
        decreases self,
    {
        match self {
            GpuExpression::Selector(selector) => selector_fn(*selector),
            GpuExpression::Negated(a) => a.combine_selectors(identity, selector_fn, combine),
            GpuExpression::Sum(a, b) => {
                let a = a.combine_selectors(identity, selector_fn, combine);
                let b = b.combine_selectors(identity, selector_fn, combine);
                combine(a, b)
            },
            GpuExpression::Product(a, b) => {
                let a = a.combine_selectors(identity, selector_fn, combine);
                let b = b.combine_selectors(identity, selector_fn, combine);
                combine(a, b)
            },
            GpuExpression::Scaled(a, _) => a.combine_selectors(identity, selector_fn, combine),
            _ => identity.clone(),
        }
    }

    /// Evaluate the polynomial lazily using the provided closures to perform the
    /// operations.
    pub fn evaluate_lazy<
        T: PartialEq,
        C0: Fn(F) -> T,
        C1: Fn(GpuSelector) -> T,
        C2: Fn(GpuFixedQuery) -> T,
        C3: Fn(GpuAdviceQuery) -> T,
        C4: Fn(GpuInstanceQuery) -> T,
        C5: Fn(GpuChallenge) -> T,
        C6: Fn(T) -> T,
        C7: Fn(T, T) -> T,
        C8: Fn(T, T) -> T,
        C9: Fn(T, F) -> T,
    >(
        &self,
        constant: &C0,
        selector_column: &C1,
        fixed_column: &C2,
        advice_column: &C3,
        instance_column: &C4,
        challenge: &C5,
        negated: &C6,
        sum: &C7,
        product: &C8,
        scaled: &C9,
        zero: &T,
    ) -> (r: T)
        requires
            self.spec_complexity() <= usize::MAX,
            lazily_evaluable(
                *self,
                *constant, *selector_column, *fixed_column, *advice_column, *instance_column,
                    *challenge, *negated, *sum, *product, *scaled,
                *zero,
            ),
        ensures
            evaluates_lazily(
                *self,
                *constant, *selector_column, *fixed_column, *advice_column, *instance_column,
                    *challenge, *negated, *sum, *product, *scaled,
                *zero,
                r,
            ),
        decreases self,
    {
        match self {
            GpuExpression::Constant(scalar) => constant(*scalar),
            GpuExpression::Selector(selector) => selector_column(*selector),
            GpuExpression::Fixed(query) => fixed_column(*query),
            GpuExpression::Advice(query) => advice_column(*query),
            GpuExpression::Instance(query) => instance_column(*query),
            GpuExpression::Challenge(value) => challenge(*value),
            GpuExpression::Negated(a) => {
                let a = a.evaluate_lazy(
                    constant,
                    selector_column,
                    fixed_column,
                    advice_column,
                    instance_column,
                    challenge,
                    negated,
                    sum,
                    product,
                    scaled,
                    zero,
                );
                negated(a)
            },
            GpuExpression::Sum(a, b) => {
                let a = a.evaluate_lazy(
                    constant,
                    selector_column,
                    fixed_column,
                    advice_column,
                    instance_column,
                    challenge,
                    negated,
                    sum,
                    product,
                    scaled,
                    zero,
                );
                let b = b.evaluate_lazy(
                    constant,
                    selector_column,
                    fixed_column,
                    advice_column,
                    instance_column,
                    challenge,
                    negated,
                    sum,
                    product,
                    scaled,
                    zero,
                );
                sum(a, b)
            },
            GpuExpression::Product(a, b) => {
                let (first, second) = if a.complexity() <= b.complexity() {
                    (a, b)
                } else {
                    (b, a)
                };
                let x = first.evaluate_lazy(
                    constant,
                    selector_column,
                    fixed_column,
                    advice_column,
                    instance_column,
                    challenge,
                    negated,
                    sum,
                    product,
                    scaled,
                    zero,
                );
                let equal = x == *zero;
                assert(compares(x, *zero, equal));
                if equal {
                    x
                } else {
                    let y = second.evaluate_lazy(
                    constant,
                    selector_column,
                    fixed_column,
                    advice_column,
                    instance_column,
                    challenge,
                    negated,
                    sum,
                    product,
                    scaled,
                    zero,
                );
                    product(x, y)
                }
            },
            GpuExpression::Scaled(a, f) => {
                let a = a.evaluate_lazy(
                    constant,
                    selector_column,
                    fixed_column,
                    advice_column,
                    instance_column,
                    challenge,
                    negated,
                    sum,
                    product,
                    scaled,
                    zero,
                );
                scaled(a, *f)
            },
        }
    }

    fn write_identifier(&self, writer: &mut String)
        ensures
            final(writer)@ == old(writer)@ + self.identifier_text(),
        decreases self,
    {
        match self {
            GpuExpression::Constant(scalar) => {
                writer.append(scalar.debug_string().as_str());
            },
            GpuExpression::Selector(selector) => {
                writer.append("selector[");
                writer.append(decimal_usize(selector.0).as_str());
                writer.append("]");
            },
            GpuExpression::Fixed(query) => {
                writer.append("fixed[");
                writer.append(decimal_usize(query.column_index).as_str());
                writer.append("][");
                writer.append(decimal_i32(query.rotation.0).as_str());
                writer.append("]");
            },
            GpuExpression::Advice(query) => {
                writer.append("advice[");
                writer.append(decimal_usize(query.column_index).as_str());
                writer.append("][");
                writer.append(decimal_i32(query.rotation.0).as_str());
                writer.append("]");
            },
            GpuExpression::Instance(query) => {
                writer.append("instance[");
                writer.append(decimal_usize(query.column_index).as_str());
                writer.append("][");
                writer.append(decimal_i32(query.rotation.0).as_str());
                writer.append("]");
            },
            GpuExpression::Challenge(challenge) => {
                writer.append("challenge[");
                writer.append(decimal_usize(challenge.index).as_str());
                writer.append("]");
            },
            GpuExpression::Negated(a) => {
                writer.append("(-");
                a.write_identifier(writer);
                writer.append(")");
            },
            GpuExpression::Sum(a, b) => {
                writer.append("(");
                a.write_identifier(writer);
                writer.append("+");
                b.write_identifier(writer);
                writer.append(")");
            },
            GpuExpression::Product(a, b) => {
                writer.append("(");
                a.write_identifier(writer);
                writer.append("*");
                b.write_identifier(writer);
                writer.append(")");
            },
            GpuExpression::Scaled(a, f) => {
                a.write_identifier(writer);
                writer.append("*");
                writer.append(f.debug_string().as_str());
            },
        }
        assert(writer@ =~= old(writer)@ + self.identifier_text());
    }

    /// Identifier for this expression. Expressions with identical identifiers
    /// do the same calculation.
    pub fn identifier(&self) -> (r: String)
        ensures
            r@ == self.identifier_text(),
    {
        let mut text = String::new();
        self.write_identifier(&mut text);
        assert(text@ =~= self.identifier_text());
        text
    }

    fn write_debug(&self, writer: &mut String)
        ensures
            final(writer)@ == old(writer)@ + self.debug_text(),
        decreases self,
    {
        match self {
            GpuExpression::Constant(scalar) => {
                writer.append("Constant(");
                writer.append(scalar.debug_string().as_str());
                writer.append(")");
            },
            GpuExpression::Selector(selector) => write_selector(writer, *selector),
            GpuExpression::Fixed(query) => {
                writer.append("Fixed { query_index: ");
                write_query(writer, query.index, query.column_index, query.rotation);
                writer.append(" }");
            },
            GpuExpression::Advice(query) => write_advice_query(writer, *query),
            GpuExpression::Instance(query) => {
                writer.append("Instance { query_index: ");
                write_query(writer, query.index, query.column_index, query.rotation);
                writer.append(" }");
            },
            GpuExpression::Challenge(challenge) => write_challenge(writer, *challenge),
            GpuExpression::Negated(a) => {
                writer.append("Negated(");
                a.write_debug(writer);
                writer.append(")");
            },
            GpuExpression::Sum(a, b) => {
                writer.append("Sum(");
                a.write_debug(writer);
                writer.append(", ");
                b.write_debug(writer);
                writer.append(")");
            },
            GpuExpression::Product(a, b) => {
                writer.append("Product(");
                a.write_debug(writer);
                writer.append(", ");
                b.write_debug(writer);
                writer.append(")");
            },
            GpuExpression::Scaled(a, f) => {
                writer.append("Scaled(");
                a.write_debug(writer);
                writer.append(", ");
                writer.append(f.debug_string().as_str());
                writer.append(")");
            },
        }
        assert(writer@ =~= old(writer)@ + self.debug_text());
    }

    /// The structure of this expression as text.
    pub fn fmt(&self) -> (r: String)
        ensures
            r@ == self.debug_text(),
    {
        let mut text = String::new();
        self.write_debug(&mut text);
        assert(text@ =~= self.debug_text());
        text
    }

    /// Compute the degree of this polynomial
    pub fn degree(&self) -> (r: usize)
        requires
            self.spec_degree() <= usize::MAX,
        ensures
            r == self.spec_degree(),
        decreases self,
    {
        match self {
            GpuExpression::Constant(_) => 0,
            GpuExpression::Selector(_) => 1,
            GpuExpression::Fixed(_) => 1,
            GpuExpression::Advice(_) => 1,
            GpuExpression::Instance(_) => 1,
            GpuExpression::Challenge(_) => 0,
            GpuExpression::Negated(poly) => poly.degree(),
            GpuExpression::Sum(a, b) => {
                let a: usize = a.degree();
                let b: usize = b.degree();
                if a >= b {
                    a
                } else {
                    b
                }
            },
            GpuExpression::Product(a, b) => a.degree() + b.degree(),
            GpuExpression::Scaled(poly, _) => poly.degree(),
        }
    }

    /// Approximate the computational complexity of this expression.
    pub fn complexity(&self) -> (r: usize)
        requires
            self.spec_complexity() <= usize::MAX,
        ensures
            r == self.spec_complexity(),
        decreases self,
    {
        match self {
            GpuExpression::Constant(_) => 0,
            GpuExpression::Selector(_) => 1,
            GpuExpression::Fixed(_) => 1,
            GpuExpression::Advice(_) => 1,
            GpuExpression::Instance(_) => 1,
            GpuExpression::Challenge(_) => 0,
            GpuExpression::Negated(poly) => poly.complexity() + 5,
            GpuExpression::Sum(a, b) => a.complexity() + b.complexity() + 15,
            GpuExpression::Product(a, b) => a.complexity() + b.complexity() + 30,
            GpuExpression::Scaled(poly, _) => poly.complexity() + 30,
        }
    }

    /// Square this expression.
    pub fn square(self) -> (r: Self)
        requires
            !self.has_simple_selector(),
        ensures
            r == GpuExpression::Product(Box::new(self), Box::new(self)),
    {
        let copy = self.clone();
        copy * self
    }

    /// Returns whether or not this expression contains a simple `GpuSelector`.
    pub fn contains_simple_selector(&self) -> (r: bool)
        ensures
            r == self.has_simple_selector(),
        decreases self,
    {
        match self {
            GpuExpression::Selector(selector) => selector.is_simple(),
            GpuExpression::Negated(a) => a.contains_simple_selector(),
            GpuExpression::Sum(a, b) => {
                let a = a.contains_simple_selector();
                let b = b.contains_simple_selector();
                a || b
            },
            GpuExpression::Product(a, b) => {
                let a = a.contains_simple_selector();
                let b = b.contains_simple_selector();
                a || b
            },
            GpuExpression::Scaled(a, _) => a.contains_simple_selector(),
            _ => false,
        }
    }

    /// Extracts a simple selector from this gate, if present; two cannot be in
    /// the same expression.
    pub fn extract_simple_selector(&self) -> (r: Option<GpuSelector>)
        requires
            self.simple_selectors().len() <= 1,
        ensures
            r == (if self.simple_selectors().len() == 0 {
                None
            } else {
                Some(self.simple_selectors()[0])
            }),
        decreases self,
    {
        match self {
            GpuExpression::Selector(selector) => if selector.is_simple() {
                Some(*selector)
            } else {
                None
            },
            GpuExpression::Negated(a) => a.extract_simple_selector(),
            GpuExpression::Sum(a, b) => {
                let a = a.extract_simple_selector();
                let b = b.extract_simple_selector();
                if a.is_some() {
                    a
                } else {
                    b
                }
            },
            GpuExpression::Product(a, b) => {
                let a = a.extract_simple_selector();
                let b = b.extract_simple_selector();
                if a.is_some() {
                    a
                } else {
                    b
                }
            },
            GpuExpression::Scaled(a, _) => a.extract_simple_selector(),
            _ => None,
        }
    }

    fn extract_columns(&self, kind: CellKind) -> (r: Vec<usize>)
        ensures
            r@ == self.columns(kind),
        decreases self,
    {
        match self {
            GpuExpression::Fixed(query) => if kind == CellKind::Fixed {
                vec![query.column_index]
            } else {
                vec![]
            },
            GpuExpression::Advice(query) => if kind == CellKind::Advice {
                vec![query.column_index]
            } else {
                vec![]
            },
            GpuExpression::Instance(query) => if kind == CellKind::Instance {
                vec![query.column_index]
            } else {
                vec![]
            },
            GpuExpression::Negated(a) => a.extract_columns(kind),
            GpuExpression::Sum(a, b) => {
                let mut a = a.extract_columns(kind);
                let mut b = b.extract_columns(kind);
                a.append(&mut b);
                unique_usize(a)
            },
            GpuExpression::Product(a, b) => {
                let mut a = a.extract_columns(kind);
                let mut b = b.extract_columns(kind);
                a.append(&mut b);
                unique_usize(a)
            },
            GpuExpression::Scaled(a, _) => a.extract_columns(kind),
            _ => vec![],
        }
    }

    /// Extracts all used instance columns in this expression
    pub fn extract_instances(&self) -> (r: Vec<usize>)
        ensures
            r@ == self.columns(CellKind::Instance),
    {
        self.extract_columns(CellKind::Instance)
    }

    /// Extracts all used advice columns in this expression
    pub fn extract_advices(&self) -> (r: Vec<usize>)
        ensures
            r@ == self.columns(CellKind::Advice),
    {
        self.extract_columns(CellKind::Advice)
    }

    /// Extracts all used fixed columns in this expression
    pub fn extract_fixed(&self) -> (r: Vec<usize>)
        ensures
            r@ == self.columns(CellKind::Fixed),
    {
        self.extract_columns(CellKind::Fixed)
    }
}

fn write_query(writer: &mut String, index: Option<usize>, column_index: usize, rotation: Rotation)
    ensures
        final(writer)@ == old(writer)@ + query_text(index, column_index, rotation),
{
    match index {
        Some(i) => writer.append(decimal_usize(i).as_str()),
        None => writer.append("None"),
    }
    writer.append(", column_index: ");
    writer.append(decimal_usize(column_index).as_str());
    writer.append(", rotation: Rotation(");
    writer.append(decimal_i32(rotation.0).as_str());
    writer.append(")");
    assert(writer@ =~= old(writer)@ + query_text(index, column_index, rotation));
}

fn write_advice_query(writer: &mut String, query: GpuAdviceQuery)
    ensures
        final(writer)@ == old(writer)@ + advice_query_text(query),
{
    writer.append("Advice { query_index: ");
    write_query(writer, query.index, query.column_index, query.rotation);
    // Only show advice's phase if it's not in first phase.
    if query.phase.0 != 0 {
        writer.append(", phase: Phase(");
        writer.append(decimal_usize(query.phase.0 as usize).as_str());
        writer.append(")");
    }
    writer.append(" }");
    assert(writer@ =~= old(writer)@ + advice_query_text(query));
}

fn write_selector(writer: &mut String, selector: GpuSelector)
    ensures
        final(writer)@ == old(writer)@ + selector_text(selector),
{
    writer.append("Selector(GpuSelector(");
    writer.append(decimal_usize(selector.0).as_str());
    writer.append(", ");
    if selector.1 {
        writer.append("true");
    } else {
        writer.append("false");
    }
    writer.append("))");
    assert(writer@ =~= old(writer)@ + selector_text(selector));
}

fn write_challenge(writer: &mut String, challenge: GpuChallenge)
    ensures
        final(writer)@ == old(writer)@ + challenge_text(challenge),
{
    writer.append("Challenge(GpuChallenge { index: ");
    writer.append(decimal_usize(challenge.index).as_str());
    writer.append(", phase: Phase(");
    writer.append(decimal_usize(challenge.phase.0 as usize).as_str());
    writer.append(") })");
    assert(writer@ =~= old(writer)@ + challenge_text(challenge));
}

impl<F: Field> Neg for GpuExpression<F> {
    type Output = GpuExpression<F>;

    fn neg(self) -> (r: GpuExpression<F>) {
        GpuExpression::Negated(Box::new(self))
    }
}

impl<F: Field> NegSpecImpl for GpuExpression<F> {
    open spec fn obeys_neg_spec() -> bool {
        true
    }

    open spec fn neg_req(self) -> bool {
        true
    }

    open spec fn neg_spec(self) -> GpuExpression<F> {
        GpuExpression::Negated(Box::new(self))
    }
}

impl<F: Field> Add for GpuExpression<F> {
    type Output = GpuExpression<F>;

    fn add(self, rhs: GpuExpression<F>) -> (r: GpuExpression<F>) {
        GpuExpression::Sum(Box::new(self), Box::new(rhs))
    }
}

/// Simple selectors may not be used in an addition.
impl<F: Field> AddSpecImpl for GpuExpression<F> {
    open spec fn obeys_add_spec() -> bool {
        true
    }

    open spec fn add_req(self, rhs: GpuExpression<F>) -> bool {
        !self.has_simple_selector() && !rhs.has_simple_selector()
    }

    open spec fn add_spec(self, rhs: GpuExpression<F>) -> GpuExpression<F> {
        GpuExpression::Sum(Box::new(self), Box::new(rhs))
    }
}

impl<F: Field> Sub for GpuExpression<F> {
    type Output = GpuExpression<F>;

    fn sub(self, rhs: GpuExpression<F>) -> (r: GpuExpression<F>) {
        GpuExpression::Sum(Box::new(self), Box::new(rhs.neg()))
    }
}

/// Simple selectors may not be used in a subtraction.
impl<F: Field> SubSpecImpl for GpuExpression<F> {
    open spec fn obeys_sub_spec() -> bool {
        true
    }

    open spec fn sub_req(self, rhs: GpuExpression<F>) -> bool {
        !self.has_simple_selector() && !rhs.has_simple_selector()
    }

    open spec fn sub_spec(self, rhs: GpuExpression<F>) -> GpuExpression<F> {
        GpuExpression::Sum(Box::new(self), Box::new(GpuExpression::Negated(Box::new(rhs))))
    }
}

impl<F: Field> Mul for GpuExpression<F> {
    type Output = GpuExpression<F>;

    fn mul(self, rhs: GpuExpression<F>) -> (r: GpuExpression<F>) {
        GpuExpression::Product(Box::new(self), Box::new(rhs))
    }
}

/// Two expressions that contain simple selectors may not be multiplied.
impl<F: Field> MulSpecImpl for GpuExpression<F> {
    open spec fn obeys_mul_spec() -> bool {
        true
    }

    open spec fn mul_req(self, rhs: GpuExpression<F>) -> bool {
        !self.has_simple_selector() || !rhs.has_simple_selector()
    }

    open spec fn mul_spec(self, rhs: GpuExpression<F>) -> GpuExpression<F> {
        GpuExpression::Product(Box::new(self), Box::new(rhs))
    }
}

impl<F: Field> Mul<F> for GpuExpression<F> {
    type Output = GpuExpression<F>;

    fn mul(self, rhs: F) -> (r: GpuExpression<F>) {
        GpuExpression::Scaled(Box::new(self), rhs)
    }
}

impl<F: Field> MulSpecImpl<F> for GpuExpression<F> {
    open spec fn obeys_mul_spec() -> bool {
        true
    }

    open spec fn mul_req(self, rhs: F) -> bool {
        true
    }

    open spec fn mul_spec(self, rhs: F) -> GpuExpression<F> {
        GpuExpression::Scaled(Box::new(self), rhs)
    }
}

/// Lazy evaluation gives a result of plain evaluation, where comparing with
/// `zero` means being `zero`, `product` ignores the order of its arguments and
/// is `zero` where one of them is, and everything that is skipped has a value.
pub proof fn law_lazy_evaluation<
    F: Field,
    T: PartialEq,
    C0: Fn(F) -> T,
    C1: Fn(GpuSelector) -> T,
    C2: Fn(GpuFixedQuery) -> T,
    C3: Fn(GpuAdviceQuery) -> T,
    C4: Fn(GpuInstanceQuery) -> T,
    C5: Fn(GpuChallenge) -> T,
    C6: Fn(T) -> T,
    C7: Fn(T, T) -> T,
    C8: Fn(T, T) -> T,
    C9: Fn(T, F) -> T,
>(
    e: GpuExpression<F>,
    constant: C0,
    selector_column: C1,
    fixed_column: C2,
    advice_column: C3,
    instance_column: C4,
    challenge: C5,
    negated: C6,
    sum: C7,
    product: C8,
    scaled: C9,
    zero: T,
    r: T,
)
    requires
        T::obeys_eq_spec(),
        forall|x: T| x.eq_spec(&zero) ==> x == zero,
        forall|x: T, y: T, z: T| #[trigger]
            call_ensures(product, (x, y), z) ==> call_ensures(product, (y, x), z),
        forall|y: T| #[trigger] call_ensures(product, (zero, y), zero),
        skipped_have_values(e, constant, selector_column, fixed_column, advice_column,
            instance_column, challenge, negated, sum, product, scaled),
        evaluates_lazily(e, constant, selector_column, fixed_column, advice_column,
            instance_column, challenge, negated, sum, product, scaled, zero, r),
    ensures
        evaluates(e, constant, selector_column, fixed_column, advice_column, instance_column,
            challenge, negated, sum, product, scaled, r),
    decreases e,
{
    match e {
        GpuExpression::Negated(a) => {
            let x = choose|x: T|
                evaluates_lazily(*a, constant, selector_column, fixed_column, advice_column,
                    instance_column, challenge, negated, sum, product, scaled, zero, x)
                    && #[trigger] call_ensures(negated, (x,), r);
            law_lazy_evaluation(*a, constant, selector_column, fixed_column, advice_column,
                instance_column, challenge, negated, sum, product, scaled, zero, x);
        },
        GpuExpression::Scaled(a, f) => {
            let x = choose|x: T|
                evaluates_lazily(*a, constant, selector_column, fixed_column, advice_column,
                    instance_column, challenge, negated, sum, product, scaled, zero, x)
                    && #[trigger] call_ensures(scaled, (x, f), r);
            law_lazy_evaluation(*a, constant, selector_column, fixed_column, advice_column,
                instance_column, challenge, negated, sum, product, scaled, zero, x);
        },
        GpuExpression::Sum(a, b) => {
            let (x, y) = choose|x: T, y: T|
                evaluates_lazily(*a, constant, selector_column, fixed_column, advice_column,
                    instance_column, challenge, negated, sum, product, scaled, zero, x)
                    && evaluates_lazily(*b, constant, selector_column, fixed_column,
                    advice_column, instance_column, challenge, negated, sum, product, scaled,
                    zero, y)
                    && #[trigger] call_ensures(sum, (x, y), r);
            law_lazy_evaluation(*a, constant, selector_column, fixed_column, advice_column,
                instance_column, challenge, negated, sum, product, scaled, zero, x);
            law_lazy_evaluation(*b, constant, selector_column, fixed_column, advice_column,
                instance_column, challenge, negated, sum, product, scaled, zero, y);
        },
        GpuExpression::Product(a, b) => {
            if a.spec_complexity() <= b.spec_complexity() {
                let (x, equal) = choose|x: T, equal: bool|
                    evaluates_lazily(*a, constant, selector_column, fixed_column, advice_column,
                        instance_column, challenge, negated, sum, product, scaled, zero, x)
                        && #[trigger] compares(x, zero, equal)
                        && if equal {
                        r == x
                    } else {
                        exists|y: T|
                            evaluates_lazily(*b, constant, selector_column, fixed_column,
                                advice_column, instance_column, challenge, negated, sum, product,
                                scaled, zero, y) && #[trigger] call_ensures(
                                product,
                                (x, y),
                                r,
                            )
                    };
                law_lazy_evaluation(*a, constant, selector_column, fixed_column, advice_column,
                    instance_column, challenge, negated, sum, product, scaled, zero, x);
                if equal {
                    let y = choose|y: T| evaluates(*b, constant, selector_column, fixed_column,
                        advice_column, instance_column, challenge, negated, sum, product, scaled,
                        y);
                    assert(call_ensures(product, (zero, y), zero));
                } else {
                    let y = choose|y: T|
                        evaluates_lazily(*b, constant, selector_column, fixed_column,
                            advice_column, instance_column, challenge, negated, sum, product,
                            scaled, zero, y) && #[trigger] call_ensures(
                            product,
                            (x, y),
                            r,
                        );
                    law_lazy_evaluation(*b, constant, selector_column, fixed_column,
                        advice_column, instance_column, challenge, negated, sum, product, scaled,
                        zero, y);
                }
            } else {
                let (x, equal) = choose|x: T, equal: bool|
                    evaluates_lazily(*b, constant, selector_column, fixed_column, advice_column,
                        instance_column, challenge, negated, sum, product, scaled, zero, x)
                        && #[trigger] compares(x, zero, equal)
                        && if equal {
                        r == x
                    } else {
                        exists|y: T|
                            evaluates_lazily(*a, constant, selector_column, fixed_column,
                                advice_column, instance_column, challenge, negated, sum, product,
                                scaled, zero, y) && #[trigger] call_ensures(
                                product,
                                (x, y),
                                r,
                            )
                    };
                law_lazy_evaluation(*b, constant, selector_column, fixed_column, advice_column,
                    instance_column, challenge, negated, sum, product, scaled, zero, x);
                if equal {
                    let y = choose|y: T| evaluates(*a, constant, selector_column, fixed_column,
                        advice_column, instance_column, challenge, negated, sum, product, scaled,
                        y);
                    assert(call_ensures(product, (zero, y), zero));
                    assert(call_ensures(product, (y, zero), zero));
                } else {
                    let y = choose|y: T|
                        evaluates_lazily(*a, constant, selector_column, fixed_column,
                            advice_column, instance_column, challenge, negated, sum, product,
                            scaled, zero, y) && #[trigger] call_ensures(
                            product,
                            (x, y),
                            r,
                        );
                    law_lazy_evaluation(*a, constant, selector_column, fixed_column,
                        advice_column, instance_column, challenge, negated, sum, product, scaled,
                        zero, y);
                    assert(call_ensures(product, (y, x), r));
                }
            }
        },
        _ => {},
    }
}

/// Whether the factors of every product in the expression have a value.
pub open spec fn skipped_have_values<
    F,
    T,
    C0: Fn(F) -> T,
    C1: Fn(GpuSelector) -> T,
    C2: Fn(GpuFixedQuery) -> T,
    C3: Fn(GpuAdviceQuery) -> T,
    C4: Fn(GpuInstanceQuery) -> T,
    C5: Fn(GpuChallenge) -> T,
    C6: Fn(T) -> T,
    C7: Fn(T, T) -> T,
    C8: Fn(T, T) -> T,
    C9: Fn(T, F) -> T,
>(
    e: GpuExpression<F>,
    constant: C0,
    selector_column: C1,
    fixed_column: C2,
    advice_column: C3,
    instance_column: C4,
    challenge: C5,
    negated: C6,
    sum: C7,
    product: C8,
    scaled: C9,
) -> bool
    decreases e,
{
    match e {
        GpuExpression::Negated(a) => skipped_have_values(*a, constant, selector_column,
            fixed_column, advice_column, instance_column, challenge, negated, sum, product, scaled),
        GpuExpression::Scaled(a, _) => skipped_have_values(*a, constant, selector_column,
            fixed_column, advice_column, instance_column, challenge, negated, sum, product, scaled),
        GpuExpression::Sum(a, b) => skipped_have_values(*a, constant, selector_column,
            fixed_column, advice_column, instance_column, challenge, negated, sum, product,
            scaled) && skipped_have_values(*b, constant, selector_column, fixed_column,
            advice_column, instance_column, challenge, negated, sum, product, scaled),
        GpuExpression::Product(a, b) => {
            &&& skipped_have_values(*a, constant, selector_column, fixed_column, advice_column,
                instance_column, challenge, negated, sum, product, scaled)
            &&& skipped_have_values(*b, constant, selector_column, fixed_column, advice_column,
                instance_column, challenge, negated, sum, product, scaled)
            &&& exists|x: T| evaluates(*a, constant, selector_column, fixed_column,
                advice_column, instance_column, challenge, negated, sum, product, scaled, x)
            &&& exists|x: T| evaluates(*b, constant, selector_column, fixed_column,
                advice_column, instance_column, challenge, negated, sum, product, scaled, x)
        },
        _ => true,
    }
}

} // verus!
