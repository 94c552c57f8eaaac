//! What sizes follow from: the degrees of expressions and systems, the rows that are
//! kept back, and the rows that are selected.

use crate::field::Field;
use crate::plonk::lookup;
use crate::plonk::circuit::{GpuAdvice, GpuColumn, GpuColumnType};
use crate::plonk::constraint_system::{max_count, GpuConstraintSystem};
use crate::plonk::evaluation::rotated;
use crate::plonk::expression::{CellValues, GpuExpression};
use crate::plonk::keygen::{first_row, last_usable, usable};
use crate::plonk::lookup::{lemma_max_degree_bounds, max_degree};
use crate::plonk::permutation::prover::last_rotation;
use crate::plonk::queries::queries_of;
use crate::poly::Rotation;
use vstd::prelude::*;
use vstd::std_specs::ops::{AddSpec, MulSpec, NegSpec, SubSpec};

verus! {

/// Degrees follow algebra. Constants and challenges have none, a query has one, negating
/// and scaling by a constant change nothing, a sum has the larger degree, and the degree
/// of a product is the sum.
pub proof fn law_degrees_follow_algebra<F: Field>(
    a: GpuExpression<F>,
    b: GpuExpression<F>,
    scalar: F,
)
    ensures
        GpuExpression::Constant(scalar).spec_degree() == 0,
        a is Challenge ==> a.spec_degree() == 0,
        a is Selector || a is Fixed || a is Advice || a is Instance ==> a.spec_degree() == 1,
        NegSpec::neg_spec(a).spec_degree() == a.spec_degree(),
        MulSpec::<F>::mul_spec(a, scalar).spec_degree() == a.spec_degree(),
        MulSpec::<GpuExpression<F>>::mul_spec(a, b).spec_degree() == a.spec_degree()
            + b.spec_degree(),
        a.spec_degree() >= b.spec_degree() ==> AddSpec::add_spec(a, b).spec_degree()
            == a.spec_degree() && AddSpec::add_spec(b, a).spec_degree() == a.spec_degree()
            && SubSpec::sub_spec(a, b).spec_degree() == a.spec_degree() && SubSpec::sub_spec(
            b,
            a,
        ).spec_degree() == a.spec_degree(),
{
    let (x, y) = (NegSpec::neg_spec(a), NegSpec::neg_spec(b));
    assert(x.spec_degree() == a.spec_degree() && y.spec_degree() == b.spec_degree());
}

/// Expressions stand for what they are written as: the value of a sum, a difference, a
/// product, a negated or a scaled expression is that of the values, modulo the order.
pub proof fn law_operators_compute<F: Field>(
    a: GpuExpression<F>,
    b: GpuExpression<F>,
    scalar: F,
    cells: CellValues,
)
    ensures
        GpuExpression::Constant(scalar).value(cells) == scalar.val(),
        NegSpec::neg_spec(a).value(cells) == (-a.value(cells)) % F::modulus(),
        AddSpec::add_spec(a, b).value(cells) == (a.value(cells) + b.value(cells)) % F::modulus(),
        SubSpec::sub_spec(a, b).value(cells) == (a.value(cells) - b.value(cells)) % F::modulus(),
        MulSpec::<F>::mul_spec(a, scalar).value(cells) == (a.value(cells) * scalar.val())
            % F::modulus(),
        MulSpec::<GpuExpression<F>>::mul_spec(a, b).value(cells) == (a.value(cells) * b.value(
            cells,
        )) % F::modulus(),
{
    let negated = NegSpec::neg_spec(b);
    assert(negated.value(cells) == (-b.value(cells)) % F::modulus());
    let p = F::modulus();
    F::lemma_modulus();
    let (x, y) = (a.value(cells), b.value(cells));
    vstd::arithmetic::div_mod::lemma_add_mod_noop_right(x, -y, p);
    assert(x + (-y) == x - y);
}

/// An expression costs what its parts cost, and more for every operation: five to
/// negate, fifteen to add, thirty to multiply or to scale; a query costs one.
pub proof fn law_costs_add_up<F: Field>(a: GpuExpression<F>, b: GpuExpression<F>, scalar: F)
    ensures
        GpuExpression::Constant(scalar).spec_complexity() == 0,
        a is Challenge ==> a.spec_complexity() == 0,
        a is Selector || a is Fixed || a is Advice || a is Instance ==> a.spec_complexity() == 1,
        NegSpec::neg_spec(a).spec_complexity() == a.spec_complexity() + 5,
        AddSpec::add_spec(a, b).spec_complexity() == a.spec_complexity() + b.spec_complexity()
            + 15,
        SubSpec::sub_spec(a, b).spec_complexity() == a.spec_complexity() + b.spec_complexity()
            + 20,
        MulSpec::<GpuExpression<F>>::mul_spec(a, b).spec_complexity() == a.spec_complexity()
            + b.spec_complexity() + 30,
        MulSpec::<F>::mul_spec(a, scalar).spec_complexity() == a.spec_complexity() + 30,
{
    let negated = NegSpec::neg_spec(b);
    assert(negated.spec_complexity() == b.spec_complexity() + 5);
}

/// The degree of a lookup leaves room for two more factors than an input times a table
/// entry has: no pair of them needs more, and the least that does is taken, with one for
/// each where all are constant.
pub proof fn law_lookup_degree<F: Field>(argument: lookup::Argument<F>, i: int, j: int)
    requires
        0 <= i < argument.input_expressions@.len(),
        0 <= j < argument.table_expressions@.len(),
    ensures
        argument.spec_required_degree() >= 4,
        argument.spec_required_degree() >= 2 + argument.input_expressions@[i].spec_degree()
            + argument.table_expressions@[j].spec_degree(),
        argument.spec_required_degree() >= 3 + argument.input_expressions@[i].spec_degree(),
        argument.spec_required_degree() >= 3 + argument.table_expressions@[j].spec_degree(),
        (forall|k: int|
            0 <= k < argument.input_expressions@.len() ==> (
            #[trigger] argument.input_expressions@[k]).spec_degree()
                <= argument.input_expressions@[i].spec_degree()) && (forall|k: int|
            0 <= k < argument.table_expressions@.len() ==> (
            #[trigger] argument.table_expressions@[k]).spec_degree()
                <= argument.table_expressions@[j].spec_degree())
            && argument.input_expressions@[i].spec_degree() >= 1
            && argument.table_expressions@[j].spec_degree() >= 1
            ==> argument.spec_required_degree() == 2
            + argument.input_expressions@[i].spec_degree()
            + argument.table_expressions@[j].spec_degree(),
{
    lemma_max_degree_bounds(argument.input_expressions@, i);
    lemma_max_degree_bounds(argument.table_expressions@, j);
    lemma_max_is_least(argument.input_expressions@, i);
    lemma_max_is_least(argument.table_expressions@, j);
}

proof fn lemma_max_is_least<F: Field>(s: Seq<GpuExpression<F>>, i: int)
    requires
        0 <= i < s.len(),
    ensures
        max_degree(s) >= 1,
        (forall|k: int| 0 <= k < s.len() ==> (#[trigger] s[k]).spec_degree() <= s[i].spec_degree())
            && s[i].spec_degree() >= 1 ==> max_degree(s) == s[i].spec_degree(),
{
    lemma_max_below(s, s[i].spec_degree());
    lemma_max_below(s, 0);
    lemma_max_degree_bounds(s, i);
}

proof fn lemma_max_below<F: Field>(s: Seq<GpuExpression<F>>, d: nat)
    ensures
        max_degree(s) >= 1,
        (forall|k: int| 0 <= k < s.len() ==> (#[trigger] s[k]).spec_degree() <= d) && d >= 1
            ==> max_degree(s) <= d,
    decreases s.len(),
{
    if s.len() > 0 {
        let front = s.drop_last();
        lemma_max_below(front, d);
        if forall|k: int| 0 <= k < s.len() ==> (#[trigger] s[k]).spec_degree() <= d {
            assert forall|k: int| 0 <= k < front.len() implies (#[trigger] front[k]).spec_degree()
                <= d by {
                assert(front[k] == s[k]);
            }
            assert(s[s.len() - 1].spec_degree() <= d);
        }
    }
}

/// The degree of a system is that of its constraints, cut at the cap and raised to the
/// minimum that was asked for.
pub proof fn law_system_degree<F: Field>(cs: GpuConstraintSystem<F>, cap: nat)
    ensures
        ({
            let d = cs.spec_degree(cap);
            let c = cs.constraint_degree();
            let least = match cs.minimum_degree {
                Some(m) => m as nat,
                None => 1nat,
            };
            &&& d >= least
            &&& d > least ==> d <= c && d <= cap && (d == c || d == cap)
            &&& c <= cap ==> d >= c
            &&& cap <= c ==> d >= cap
        }),
{
}

/// The number of queries of a column.
proof fn lemma_queries_counted<C: GpuColumnType>(s: Seq<(GpuColumn<C>, Rotation)>, c: usize)
    ensures
        queries_of(s, c) == s.filter(|q: (GpuColumn<C>, Rotation)| q.0.index == c).len(),
    decreases s.len(),
{
    reveal(Seq::filter);
    if s.len() > 0 {
        lemma_queries_counted(s.drop_last(), c);
    }
}

proof fn lemma_max_count(s: Seq<usize>)
    ensures
        forall|i: int| 0 <= i < s.len() ==> #[trigger] s[i] <= max_count(s),
        s.len() > 0 ==> exists|i: int| 0 <= i < s.len() && #[trigger] s[i] == max_count(s),
        s.len() == 0 ==> max_count(s) == 0,
    decreases s.len(),
{
    if s.len() > 0 {
        let front = s.drop_last();
        lemma_max_count(front);
        assert forall|i: int| 0 <= i < s.len() implies #[trigger] s[i] <= max_count(s) by {
            if i < front.len() {
                assert(front[i] == s[i]);
            }
        }
        if s.last() > max_count(front) || front.len() == 0 {
            assert(s[s.len() - 1] == max_count(s));
        } else {
            let i = choose|i: int| 0 <= i < front.len() && #[trigger] front[i] == max_count(front);
            assert(s[i] == max_count(s));
        }
    }
}

/// The queries of an advice column.
pub open spec fn column_queries<F: Field>(cs: GpuConstraintSystem<F>, c: usize) -> Seq<
    (GpuColumn<GpuAdvice>, Rotation),
> {
    cs.advice_queries@.filter(|q: (GpuColumn<GpuAdvice>, Rotation)| q.0.index == c)
}

/// There are at least two blinding factors more than any advice column has queries, and
/// no less than five; and no more than needed: either five, or two more than the queries
/// of some column.
pub proof fn law_blinding_factors_cover_queries<F: Field>(cs: GpuConstraintSystem<F>)
    requires
        cs.wf(),
    ensures
        cs.spec_blinding_factors() >= 5,
        forall|c: usize|
            c < cs.num_advice_columns ==> cs.spec_blinding_factors() >= 2 + (
            #[trigger] column_queries(cs, c)).len(),
        cs.spec_blinding_factors() == 5 || exists|c: usize|
            c < cs.num_advice_columns && cs.spec_blinding_factors() == 2 + (
            #[trigger] column_queries(cs, c)).len(),
{
    let s = cs.num_advice_queries@;
    lemma_max_count(s);
    assert(s.len() == cs.num_advice_columns);
    assert forall|c: usize| c < cs.num_advice_columns implies cs.spec_blinding_factors() >= 2 + (
    #[trigger] column_queries(cs, c)).len() by {
        assert(s[c as int] == queries_of(cs.advice_queries@, c));
        lemma_queries_counted(cs.advice_queries@, c);
    }
    if cs.spec_blinding_factors() != 5 {
        let i = choose|i: int| 0 <= i < s.len() && #[trigger] s[i] == max_count(s);
        let c = i as usize;
        assert(s[c as int] == queries_of(cs.advice_queries@, c));
        lemma_queries_counted(cs.advice_queries@, c);
        assert(cs.spec_blinding_factors() == 2 + column_queries(cs, c).len());
    }
}

/// Where the rows of a circuit end: the last rotation leads from the first row to the row
/// behind the usable ones, which `l_last` selects alone; `l_0` selects the first row, and
/// `l_active_row` all before the last. Behind it lie as many rows as there are blinding
/// factors.
pub proof fn law_rows_are_selected(n: nat, bf: usize, i: int)
    requires
        bf + 1 < n <= i32::MAX,
        0 <= i < n,
    ensures
        ({
            let last = rotated(0, last_rotation(bf).0, 1, n as i32);
            &&& n - 1 - last == bf
            &&& last_rotation(bf).0 == -(bf + 1)
            &&& last_usable(n, bf as nat).len() == n
            &&& first_row(n).len() == n
            &&& usable(n, bf as nat).len() == n
            &&& last_usable(n, bf as nat)[i] == (if i == last {
                1int
            } else {
                0
            })
            &&& first_row(n)[i] == (if i == 0 {
                1int
            } else {
                0
            })
            &&& usable(n, bf as nat)[i] == (if i < last {
                1int
            } else {
                0
            })
        }),
{
    let m = n as int;
    let k = -(bf + 1);
    assert(k * 1 == k);
    vstd::arithmetic::div_mod::lemma_mod_add_multiples_vanish(k, m);
    vstd::arithmetic::div_mod::lemma_small_mod((m + k) as nat, m as nat);
}

} // verus!
