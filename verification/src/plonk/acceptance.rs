//! What circuits, keys and queries are accepted.

use crate::field::{finv, Field};
use crate::plonk::checks::{all_rotate, all_within, Counts};
use crate::plonk::circuit::{
    GpuAdviceQuery, GpuAny, GpuChallenge, GpuColumn, GpuFixed, GpuFixedQuery, GpuInstanceQuery,
    GpuSelector,
};
use crate::plonk::constraint_system::GpuConstraintSystem;
use crate::plonk::expression::GpuExpression;
use crate::plonk::lookup::prover::lookup_factor;
use crate::plonk::permutation::prover::{labelled_product, own_labels, row_factor, row_of};
use crate::plonk::proving::{first_phase_only, ProofKey};
use crate::plonk::selectors::are_queries;
use crate::plonk::witness::phases_exist;
use crate::poly::Rotation;
use vstd::prelude::*;

verus! {

/// An expression is about what there is where each of its columns and challenges is one of
/// those counted, and it has no selectors; and its rotations fit where each of them does.
pub proof fn law_expressions_within<F: Field>(
    counts: Counts,
    a: GpuExpression<F>,
    b: GpuExpression<F>,
    c: F,
    s: GpuSelector,
    f: GpuFixedQuery,
    v: GpuAdviceQuery,
    w: GpuInstanceQuery,
    x: GpuChallenge,
    n: int,
)
    ensures
        GpuExpression::Constant(c).within(counts),
        !GpuExpression::<F>::Selector(s).within(counts),
        GpuExpression::<F>::Fixed(f).within(counts) <==> f.column_index < counts.fixed,
        GpuExpression::<F>::Advice(v).within(counts) <==> v.column_index < counts.advice,
        GpuExpression::<F>::Instance(w).within(counts) <==> w.column_index < counts.instance,
        GpuExpression::<F>::Challenge(x).within(counts) <==> x.index < counts.challenges,
        GpuExpression::Negated(Box::new(a)).within(counts) <==> a.within(counts),
        GpuExpression::Scaled(Box::new(a), c).within(counts) <==> a.within(counts),
        GpuExpression::Sum(Box::new(a), Box::new(b)).within(counts) <==> a.within(counts)
            && b.within(counts),
        GpuExpression::Product(Box::new(a), Box::new(b)).within(counts) <==> a.within(counts)
            && b.within(counts),
        GpuExpression::<F>::Fixed(f).rotates(n) <==> n + f.rotation.0 <= i32::MAX,
        GpuExpression::<F>::Advice(v).rotates(n) <==> n + v.rotation.0 <= i32::MAX,
        GpuExpression::<F>::Instance(w).rotates(n) <==> n + w.rotation.0 <= i32::MAX,
        GpuExpression::Constant(c).rotates(n),
        GpuExpression::<F>::Challenge(x).rotates(n),
        GpuExpression::<F>::Selector(s).rotates(n),
        GpuExpression::Negated(Box::new(a)).rotates(n) <==> a.rotates(n),
        GpuExpression::Scaled(Box::new(a), c).rotates(n) <==> a.rotates(n),
        GpuExpression::Sum(Box::new(a), Box::new(b)).rotates(n) <==> a.rotates(n) && b.rotates(n),
        GpuExpression::Product(Box::new(a), Box::new(b)).rotates(n) <==> a.rotates(n) && b.rotates(
            n,
        ),
{
}

/// A system is closed where every gate, both sides of every lookup and every column of the
/// permutation argument are about what it has.
pub proof fn law_closed_systems<F: Field>(cs: GpuConstraintSystem<F>, n: int)
    ensures
        ({
            let counts = Counts {
                fixed: cs.num_fixed_columns,
                advice: cs.num_advice_columns,
                instance: cs.num_instance_columns,
                challenges: cs.num_challenges,
            };
            cs.closed() <==> {
                &&& forall|i: int, j: int|
                    0 <= i < cs.gates@.len() && 0 <= j < cs.gates@[i].polys@.len() ==> (
                    #[trigger] cs.gates@[i].polys@[j]).within(counts)
                &&& forall|i: int, j: int|
                    0 <= i < cs.lookups@.len() && 0 <= j < cs.lookups@[i].input_expressions@.len()
                        ==> (#[trigger] cs.lookups@[i].input_expressions@[j]).within(counts)
                &&& forall|i: int, j: int|
                    0 <= i < cs.lookups@.len() && 0 <= j < cs.lookups@[i].table_expressions@.len()
                        ==> (#[trigger] cs.lookups@[i].table_expressions@[j]).within(counts)
                &&& forall|j: int|
                    0 <= j < cs.permutation.columns@.len() ==> (
                    #[trigger] cs.permutation.columns@[j]).index < match
                        cs.permutation.columns@[j].column_type {
                        GpuAny::Advice(_) => cs.num_advice_columns,
                        GpuAny::Fixed => cs.num_fixed_columns,
                        GpuAny::Instance => cs.num_instance_columns,
                    }
            }
        }),
        cs.rotates(n) <==> {
            &&& forall|i: int, j: int|
                0 <= i < cs.gates@.len() && 0 <= j < cs.gates@[i].polys@.len() ==> (
                #[trigger] cs.gates@[i].polys@[j]).rotates(n)
            &&& forall|i: int, j: int|
                0 <= i < cs.lookups@.len() && 0 <= j < cs.lookups@[i].input_expressions@.len()
                    ==> (#[trigger] cs.lookups@[i].input_expressions@[j]).rotates(n)
            &&& forall|i: int, j: int|
                0 <= i < cs.lookups@.len() && 0 <= j < cs.lookups@[i].table_expressions@.len()
                    ==> (#[trigger] cs.lookups@[i].table_expressions@[j]).rotates(n)
        },
        cs.queries_known() <==> {
            &&& forall|i: int|
                0 <= i < cs.instance_queries@.len() ==> (
                #[trigger] cs.instance_queries@[i]).0.index < cs.num_instance_columns
            &&& forall|i: int|
                0 <= i < cs.fixed_queries@.len() ==> (#[trigger] cs.fixed_queries@[i]).0.index
                    < cs.num_fixed_columns
        },
        phases_exist(cs) <==> {
            &&& forall|i: int|
                0 <= i < cs.advice_column_phase@.len() ==> (
                #[trigger] cs.advice_column_phase@[i]).0 <= 2
            &&& forall|i: int|
                0 <= i < cs.challenge_phase@.len() ==> (#[trigger] cs.challenge_phase@[i]).0 <= 2
        },
{
    let counts = cs.spec_counts();
    if cs.closed() {
        assert forall|i: int, j: int|
            0 <= i < cs.gates@.len() && 0 <= j < cs.gates@[i].polys@.len() implies (
        #[trigger] cs.gates@[i].polys@[j]).within(counts) by {
            assert(all_within(cs.gates@[i].polys@, counts));
        }
        assert forall|i: int, j: int|
            0 <= i < cs.lookups@.len() && 0 <= j < cs.lookups@[i].input_expressions@.len() implies (
        #[trigger] cs.lookups@[i].input_expressions@[j]).within(counts) by {
            assert(all_within(cs.lookups@[i].input_expressions@, counts));
        }
        assert forall|i: int, j: int|
            0 <= i < cs.lookups@.len() && 0 <= j < cs.lookups@[i].table_expressions@.len() implies (
        #[trigger] cs.lookups@[i].table_expressions@[j]).within(counts) by {
            let _ = cs.lookups@[i];
            assert(all_within(cs.lookups@[i].table_expressions@, counts));
        }
        assert forall|j: int| 0 <= j < cs.permutation.columns@.len() implies (
        #[trigger] cs.permutation.columns@[j]).index < (match
            cs.permutation.columns@[j].column_type {
            GpuAny::Advice(_) => cs.num_advice_columns,
            GpuAny::Fixed => cs.num_fixed_columns,
            GpuAny::Instance => cs.num_instance_columns,
        }) by {
            assert(cs.has_column(cs.permutation.columns@[j]));
        }
    }
    if cs.rotates(n) {
        assert forall|i: int, j: int|
            0 <= i < cs.gates@.len() && 0 <= j < cs.gates@[i].polys@.len() implies (
        #[trigger] cs.gates@[i].polys@[j]).rotates(n) by {
            assert(all_rotate(cs.gates@[i].polys@, n));
        }
        assert forall|i: int, j: int|
            0 <= i < cs.lookups@.len() && 0 <= j < cs.lookups@[i].input_expressions@.len() implies (
        #[trigger] cs.lookups@[i].input_expressions@[j]).rotates(n) by {
            assert(all_rotate(cs.lookups@[i].input_expressions@, n));
        }
        assert forall|i: int, j: int|
            0 <= i < cs.lookups@.len() && 0 <= j < cs.lookups@[i].table_expressions@.len() implies (
        #[trigger] cs.lookups@[i].table_expressions@[j]).rotates(n) by {
            let _ = cs.lookups@[i];
            assert(all_rotate(cs.lookups@[i].table_expressions@, n));
        }
    }
}

/// A key whose system is closed, with phases, rotations and queries that there are, is
/// usable where more rows than the blinding rows are left, the degree covers the
/// permutation argument, and the columns of the key have all rows.
pub proof fn law_usable_keys<F: Field>(key: ProofKey<F>)
    requires
        key.cs().wf(),
        phases_exist(key.cs()),
        key.cs().closed(),
        key.cs().rotates(key.n() as int),
        key.cs().queries_known(),
        forall|i: int|
            0 <= i < key.cs().challenge_phase@.len() ==> (
            #[trigger] key.cs().challenge_phase@[i]).0 == 0,
        key.cs().permutation.columns@.len() + key.degree <= usize::MAX,
        key.parts.vk.fixed@.len() == key.cs().num_fixed_columns,
        forall|c: int|
            0 <= c < key.parts.vk.fixed@.len() ==> (#[trigger] key.parts.vk.fixed@[c])@.len()
                == key.n(),
        key.parts.vk.permutations@.len() == key.cs().permutation.columns@.len(),
        forall|c: int|
            0 <= c < key.parts.vk.permutations@.len() ==> (
            #[trigger] key.parts.vk.permutations@[c])@.len() == key.n(),
    ensures
        key.usable() <==> key.degree >= 3 && key.cs().spec_blinding_factors() + 1
            < key.domain.size() <= i32::MAX,
{
    assert(first_phase_only(key.cs().challenge_phase@));
}

/// The query that replaces a selector is one of the system's, and its index says where.
pub proof fn law_new_queries_are_listed<F: Field>(
    s: Seq<GpuExpression<F>>,
    first: usize,
    count: nat,
    queries: Seq<(GpuColumn<GpuFixed>, Rotation)>,
    i: int,
)
    requires
        are_queries(s, first, count, queries),
        0 <= i < count,
        first + i <= usize::MAX,
    ensures
        s.len() == count,
        s[i] matches GpuExpression::Fixed(q) && {
            &&& q.column_index == first + i
            &&& q.rotation == Rotation(0)
            &&& q.index matches Some(at) && at < queries.len() && queries[at as int].0.index
                == first + i && queries[at as int].1 == Rotation(0)
        },
{
    let _ = s[i];
}

/// The factor of a row of a lookup's product: the compressed input and table of the row,
/// over the permuted ones, each shifted by its challenge.
pub proof fn law_lookup_factors(
    p: int,
    a: int,
    s: int,
    permuted_a: int,
    permuted_s: int,
    beta: int,
    gamma: int,
)
    requires
        p > 0,
    ensures
        lookup_factor(p, a, s, permuted_a, permuted_s, beta, gamma) == ((a + beta) * (s + gamma)
            * finv(p, ((permuted_a + beta) * (permuted_s + gamma)) % p)) % p,
{
    let n = (a + beta) * (s + gamma);
    let d = (permuted_a + beta) * (permuted_s + gamma);
    lemma_both_reduced(p, a + beta, s + gamma);
    lemma_both_reduced(p, permuted_a + beta, permuted_s + gamma);
    let inverse = finv(p, d % p);
    vstd::arithmetic::div_mod::lemma_mul_mod_noop_right(inverse, n, p);
    assert(inverse * n == n * inverse) by (nonlinear_arith);
}

proof fn lemma_both_reduced(p: int, a: int, b: int)
    requires
        p > 0,
    ensures
        ((a % p) * (b % p)) % p == (a * b) % p,
{
    vstd::arithmetic::div_mod::lemma_mul_mod_noop(a, b, p);
}

/// The factor of a row of a permutation product: the row's values with the labels of their
/// own cells, over those with the labels of the cells that they are copied to.
pub proof fn law_permutation_row_factors(
    p: int,
    columns: Seq<Seq<int>>,
    sigmas: Seq<Seq<int>>,
    start: int,
    delta: int,
    omega: int,
    beta: int,
    gamma: int,
    i: nat,
    j: int,
    values: Seq<int>,
    labels: Seq<int>,
    v: int,
    l: int,
)
    requires
        p > 0,
        values.len() == labels.len(),
    ensures
        row_factor(p, columns, sigmas, start, delta, omega, beta, gamma, i) == (labelled_product(
            p,
            row_of(columns, i as int),
            own_labels(p, columns.len(), start, delta, omega, i),
            beta,
            gamma,
        ) * finv(
            p,
            labelled_product(p, row_of(columns, i as int), row_of(sigmas, i as int), beta, gamma),
        )) % p,
        row_of(columns, i as int).len() == columns.len(),
        0 <= j < columns.len() ==> row_of(columns, i as int)[j] == columns[j][i as int],
        labelled_product(p, seq![], seq![], beta, gamma) == 1,
        labelled_product(p, values.push(v), labels.push(l), beta, gamma) == (labelled_product(
            p,
            values,
            labels,
            beta,
            gamma,
        ) * (v + beta * l + gamma)) % p,
{
    let own = labelled_product(
        p,
        row_of(columns, i as int),
        own_labels(p, columns.len(), start, delta, omega, i),
        beta,
        gamma,
    );
    let inverse = finv(
        p,
        labelled_product(p, row_of(columns, i as int), row_of(sigmas, i as int), beta, gamma),
    );
    assert(inverse * own == own * inverse) by (nonlinear_arith);
    assert(values.push(v).drop_last() =~= values);
    assert(labels.push(l).drop_last() =~= labels);
    let before = labelled_product(p, values, labels, beta, gamma);
    vstd::arithmetic::div_mod::lemma_add_mod_noop_right(v, beta * l, p);
    vstd::arithmetic::div_mod::lemma_add_mod_noop(v + beta * l, gamma, p);
    vstd::arithmetic::div_mod::lemma_add_mod_noop((v + beta * l) % p, gamma, p);
    vstd::arithmetic::div_mod::lemma_mod_twice(v + beta * l, p);
    vstd::arithmetic::div_mod::lemma_mul_mod_noop_right(before, v + beta * l + gamma, p);
}

} // verus!
