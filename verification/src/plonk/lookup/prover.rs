//! The columns of a lookup argument, and the order in which they are evaluated
//! and opened.

use crate::field::{
    fadd, finv, fmul, has_inverse, vals, Field,
};
use crate::plonk::error::Error;
use crate::plonk::evaluation::{cells_at, evaluate, row_present};
use crate::plonk::evaluator::values_of;
use crate::plonk::expression::GpuExpression;
use crate::plonk::graph_values::horner;
use crate::plonk::lookup::permute::{
    all_in_table, ascending, inputs_in_table, permute_expression_pair_seq, repeats, well_permuted,
};
use crate::plonk::lookup::Argument;
use crate::plonk::permutation::prover::{product_column, product_with_blinds};
use crate::plonk::products::{fprod, lemma_fprod_pairs, lemma_fprod_permuted, lemma_quotients_close};
use crate::poly::arithmetic::{poly_zero, zeros};
use crate::poly::{LagrangeCoeff, Polynomial, Rotation};
use vstd::prelude::*;

verus! {

/// The value of folded expressions at a row: `theta^(m-1) e_0 + ... + e_(m-1)`.
pub open spec fn compressed_at<F: Field, B>(
    expressions: Seq<GpuExpression<F>>,
    theta: int,
    fixed: Seq<Polynomial<F, B>>,
    advice: Seq<Polynomial<F, B>>,
    instance: Seq<Polynomial<F, B>>,
    challenges: Seq<F>,
    row: usize,
    size: i32,
) -> int {
    horner(
        F::modulus(),
        0,
        values_of(expressions, cells_at(fixed, advice, instance, challenges, row, 1, size)),
        theta,
    )
}

/// Folds expressions by `theta`, row by row.
pub fn compress_expressions<F: Field>(
    expressions: &Vec<GpuExpression<F>>,
    theta: F,
    n: usize,
    fixed: &Vec<Polynomial<F, LagrangeCoeff>>,
    advice: &Vec<Polynomial<F, LagrangeCoeff>>,
    instance: &Vec<Polynomial<F, LagrangeCoeff>>,
    challenges: &Vec<F>,
) -> (r: Vec<F>)
    requires
        n <= i32::MAX,
        forall|e: int, row: usize|
            0 <= e < expressions@.len() && row < n ==> #[trigger] row_present(
                expressions@[e],
                fixed@,
                advice@,
                instance@,
                challenges@,
                row,
                1,
                n as i32,
            ),
    ensures
        r@.len() == n,
        forall|row: usize|
            row < n ==> (#[trigger] r@[row as int]).val() == compressed_at(
                expressions@,
                theta.val(),
                fixed@,
                advice@,
                instance@,
                challenges@,
                row,
                n as i32,
            ),
{
    let ghost p = F::modulus();
    let mut acc: Vec<F> = zeros(n);
    let ghost all = expressions@;
    proof {
        assert(vals(acc@).len() == n);
        assert(all.take(0) =~= seq![]);
        assert forall|row: usize| row < n implies (#[trigger] acc@[row as int]).val()
            == compressed_at(
            all.take(0),
            theta.val(),
            fixed@,
            advice@,
            instance@,
            challenges@,
            row,
            n as i32,
        ) by {
            assert(vals(acc@)[row as int] == 0);
        }
    }
    let mut e: usize = 0;
    while e < expressions.len()
        invariant
            e <= all.len(),
            all == expressions@,
            p == F::modulus(),
            n <= i32::MAX,
            acc@.len() == n,
            forall|e: int, row: usize|
                0 <= e < expressions@.len() && row < n ==> #[trigger] row_present(
                    expressions@[e],
                    fixed@,
                    advice@,
                    instance@,
                    challenges@,
                    row,
                    1,
                    n as i32,
                ),
            forall|row: usize|
                row < n ==> (#[trigger] acc@[row as int]).val() == compressed_at(
                    all.take(e as int),
                    theta.val(),
                    fixed@,
                    advice@,
                    instance@,
                    challenges@,
                    row,
                    n as i32,
                ),
        decreases all.len() - e,
    {
        let ghost i = e as int;
        proof {
            assert forall|row: usize| row < n implies #[trigger] row_present(
                expressions@[i],
                fixed@,
                advice@,
                instance@,
                challenges@,
                row,
                1,
                n as i32,
            ) by {}
        }
        let values = evaluate(&expressions[e], n, 1, fixed, advice, instance, challenges);
        let mut folded: Vec<F> = Vec::new();
        let mut j: usize = 0;
        while j < n
            invariant
                j <= n,
                p == F::modulus(),
                0 <= i < all.len(),
                acc@.len() == n,
                values@.len() == n,
                folded@.len() == j,
                forall|row: usize|
                    row < n ==> (#[trigger] acc@[row as int]).val() == compressed_at(
                        all.take(i),
                        theta.val(),
                        fixed@,
                        advice@,
                        instance@,
                        challenges@,
                        row,
                        n as i32,
                    ),
                forall|row: usize|
                    row < n ==> (#[trigger] values@[row as int]).val() == all[i].value(
                        cells_at(fixed@, advice@, instance@, challenges@, row, 1, n as i32),
                    ),
                forall|row: usize|
                    row < j ==> (#[trigger] folded@[row as int]).val() == compressed_at(
                        all.take(i + 1),
                        theta.val(),
                        fixed@,
                        advice@,
                        instance@,
                        challenges@,
                        row,
                        n as i32,
                    ),
            decreases n - j,
        {
            folded.push(acc[j].mul(&theta).add(&values[j]));
            proof {
                let cells = cells_at(fixed@, advice@, instance@, challenges@, j, 1, n as i32);
                let s = values_of(all.take(i + 1), cells);
                assert(s.drop_last() =~= values_of(all.take(i), cells));
                assert(s.last() == all[i].value(cells));
                assert(acc@[j as int].val() == horner(p, 0, s.drop_last(), theta.val()));
                assert(values@[j as int].val() == s.last());
            }
            j += 1;
        }
        acc = folded;
        e += 1;
    }
    assert(all.take(e as int) =~= all);
    acc
}

/// The columns of a lookup before its product is made.
#[derive(Debug)]
pub struct Permuted<F: Field> {
    pub compressed_input_expression: Vec<F>,
    pub permuted_input_expression: Vec<F>,
    pub compressed_table_expression: Vec<F>,
    pub permuted_table_expression: Vec<F>,
}

impl<F: Field> Argument<F> {
    /// Whether all that the argument's expressions refer to is there.
    pub open spec fn present(
        self,
        fixed: Seq<Polynomial<F, LagrangeCoeff>>,
        advice: Seq<Polynomial<F, LagrangeCoeff>>,
        instance: Seq<Polynomial<F, LagrangeCoeff>>,
        challenges: Seq<F>,
        n: usize,
    ) -> bool {
        &&& forall|e: int, row: usize|
            0 <= e < self.input_expressions@.len() && row < n ==> #[trigger] row_present(
                self.input_expressions@[e],
                fixed,
                advice,
                instance,
                challenges,
                row,
                1,
                n as i32,
            )
        &&& forall|e: int, row: usize|
            0 <= e < self.table_expressions@.len() && row < n ==> #[trigger] row_present(
                self.table_expressions@[e],
                fixed,
                advice,
                instance,
                challenges,
                row,
                1,
                n as i32,
            )
    }

    /// The compressed inputs.
    pub open spec fn compressed_inputs(
        self,
        theta: int,
        fixed: Seq<Polynomial<F, LagrangeCoeff>>,
        advice: Seq<Polynomial<F, LagrangeCoeff>>,
        instance: Seq<Polynomial<F, LagrangeCoeff>>,
        challenges: Seq<F>,
        n: usize,
    ) -> Seq<int> {
        Seq::new(
            n as nat,
            |row: int|
                compressed_at(
                    self.input_expressions@,
                    theta,
                    fixed,
                    advice,
                    instance,
                    challenges,
                    row as usize,
                    n as i32,
                ),
        )
    }

    /// The compressed table.
    pub open spec fn compressed_table(
        self,
        theta: int,
        fixed: Seq<Polynomial<F, LagrangeCoeff>>,
        advice: Seq<Polynomial<F, LagrangeCoeff>>,
        instance: Seq<Polynomial<F, LagrangeCoeff>>,
        challenges: Seq<F>,
        n: usize,
    ) -> Seq<int> {
        Seq::new(
            n as nat,
            |row: int|
                compressed_at(
                    self.table_expressions@,
                    theta,
                    fixed,
                    advice,
                    instance,
                    challenges,
                    row as usize,
                    n as i32,
                ),
        )
    }

    /// The compressed inputs and the compressed table.
    fn compressed(
        &self,
        theta: F,
        n: usize,
        fixed: &Vec<Polynomial<F, LagrangeCoeff>>,
        advice: &Vec<Polynomial<F, LagrangeCoeff>>,
        instance: &Vec<Polynomial<F, LagrangeCoeff>>,
        challenges: &Vec<F>,
    ) -> (r: (Vec<F>, Vec<F>))
        requires
            n <= i32::MAX,
            self.present(fixed@, advice@, instance@, challenges@, n),
        ensures
            r.0@.len() == n,
            r.1@.len() == n,
            vals(r.0@) == self.compressed_inputs(
                theta.val(),
                fixed@,
                advice@,
                instance@,
                challenges@,
                n,
            ),
            vals(r.1@) == self.compressed_table(
                theta.val(),
                fixed@,
                advice@,
                instance@,
                challenges@,
                n,
            ),
    {
        let inputs = compress_expressions(
            &self.input_expressions,
            theta,
            n,
            fixed,
            advice,
            instance,
            challenges,
        );
        let table = compress_expressions(
            &self.table_expressions,
            theta,
            n,
            fixed,
            advice,
            instance,
            challenges,
        );
        proof {
            let a = self.compressed_inputs(
                theta.val(),
                fixed@,
                advice@,
                instance@,
                challenges@,
                n,
            );
            let t = self.compressed_table(
                theta.val(),
                fixed@,
                advice@,
                instance@,
                challenges@,
                n,
            );
            assert forall|row: int| 0 <= row < n implies vals(inputs@)[row] == a[row] by {
                let _ = inputs@[row as usize as int];
            }
            assert(vals(inputs@) =~= a);
            assert forall|row: int| 0 <= row < n implies vals(table@)[row] == t[row] by {
                let _ = table@[row as usize as int];
            }
            assert(vals(table@) =~= t);
        }
        (inputs, table)
    }

    /// Given a Lookup with input expressions [A_0, A_1, ..., A_{m-1}] and table expressions
    /// [S_0, S_1, ..., S_{m-1}], this method
    /// - constructs A_compressed = \theta^{m-1} A_0 + theta^{m-2} A_1 + ... + \theta A_{m-2} + A_{m-1}
    ///   and S_compressed = \theta^{m-1} S_0 + theta^{m-2} S_1 + ... + \theta S_{m-2} + S_{m-1},
    /// - permutes A_compressed and S_compressed, obtaining A' and S'.
    ///
    /// The inputs of the usable rows must be in the table.
    pub fn permuted(
        &self,
        theta: F,
        n: usize,
        blinding_factors: usize,
        fixed: &Vec<Polynomial<F, LagrangeCoeff>>,
        advice: &Vec<Polynomial<F, LagrangeCoeff>>,
        instance: &Vec<Polynomial<F, LagrangeCoeff>>,
        challenges: &Vec<F>,
    ) -> (r: Permuted<F>)
        requires
            n <= i32::MAX,
            blinding_factors < n,
            self.present(fixed@, advice@, instance@, challenges@, n),
            all_in_table(
                self.compressed_inputs(theta.val(), fixed@, advice@, instance@, challenges@, n),
                self.compressed_table(theta.val(), fixed@, advice@, instance@, challenges@, n),
                (n - (blinding_factors + 1)) as nat,
            ),
        ensures
            ({
                let rows = n - (blinding_factors + 1);
                let inputs = self.compressed_inputs(
                    theta.val(),
                    fixed@,
                    advice@,
                    instance@,
                    challenges@,
                    n,
                );
                let table = self.compressed_table(
                    theta.val(),
                    fixed@,
                    advice@,
                    instance@,
                    challenges@,
                    n,
                );
                let a = vals(r.permuted_input_expression@).take(rows);
                let t = vals(r.permuted_table_expression@).take(rows);
                let zeros = poly_zero((blinding_factors + 1) as nat);
                &&& vals(r.compressed_input_expression@) == inputs
                &&& vals(r.compressed_table_expression@) == table
                &&& vals(r.permuted_input_expression@) == a + zeros
                &&& vals(r.permuted_table_expression@) == t + zeros
                &&& ascending(a)
                &&& a.to_multiset() == inputs.take(rows).to_multiset()
                &&& t.to_multiset() == table.take(rows).to_multiset()
                &&& well_permuted(a, t)
                &&& forall|i: int, j: int|
                    0 <= i < j < rows && repeats(a, i) && repeats(a, j) ==> #[trigger] t[i]
                        >= #[trigger] t[j]
            }),
    {
        let usable_rows = n - (blinding_factors + 1);
        let (inputs, table) = self.compressed(theta, n, fixed, advice, instance, challenges);
        let (permuted_input, permuted_table) = permute_expression_pair_seq(
            n,
            &inputs,
            &table,
            usable_rows,
        );
        Permuted {
            compressed_input_expression: inputs,
            permuted_input_expression: permuted_input,
            compressed_table_expression: table,
            permuted_table_expression: permuted_table,
        }
    }
}

impl<F: Field> Argument<F> {
    /// Whether all inputs of usable rows are in the table.
    pub open spec fn holds(
        self,
        theta: int,
        n: usize,
        blinding_factors: usize,
        fixed: Seq<Polynomial<F, LagrangeCoeff>>,
        advice: Seq<Polynomial<F, LagrangeCoeff>>,
        instance: Seq<Polynomial<F, LagrangeCoeff>>,
        challenges: Seq<F>,
    ) -> bool {
        all_in_table(
            self.compressed_inputs(theta, fixed, advice, instance, challenges, n),
            self.compressed_table(theta, fixed, advice, instance, challenges, n),
            (n - (blinding_factors + 1)) as nat,
        )
    }

    /// Whether columns are the compressed and the permuted ones of the argument:
    /// the permuted inputs ascend, each table entry that is needed stands beside
    /// the first of its inputs, and the others descend in the rows that are left.
    pub open spec fn permutes_to(
        self,
        theta: int,
        n: usize,
        blinding_factors: usize,
        fixed: Seq<Polynomial<F, LagrangeCoeff>>,
        advice: Seq<Polynomial<F, LagrangeCoeff>>,
        instance: Seq<Polynomial<F, LagrangeCoeff>>,
        challenges: Seq<F>,
        columns: Permuted<F>,
    ) -> bool {
        let rows = n - (blinding_factors + 1);
        let inputs = self.compressed_inputs(theta, fixed, advice, instance, challenges, n);
        let table = self.compressed_table(theta, fixed, advice, instance, challenges, n);
        let a = vals(columns.permuted_input_expression@).take(rows);
        let t = vals(columns.permuted_table_expression@).take(rows);
        let zeros = poly_zero((blinding_factors + 1) as nat);
        &&& vals(columns.compressed_input_expression@) == inputs
        &&& vals(columns.compressed_table_expression@) == table
        &&& vals(columns.permuted_input_expression@) == a + zeros
        &&& vals(columns.permuted_table_expression@) == t + zeros
        &&& a.len() == rows
        &&& t.len() == rows
        &&& ascending(a)
        &&& a.to_multiset() == inputs.take(rows).to_multiset()
        &&& t.to_multiset() == table.take(rows).to_multiset()
        &&& well_permuted(a, t)
        &&& forall|i: int, j: int|
            0 <= i < j < rows && repeats(a, i) && repeats(a, j) ==> #[trigger] t[i]
                >= #[trigger] t[j]
    }

    /// The permuted columns, or an error where an input of a usable row is not in
    /// the table.
    pub fn commit_permuted(
        &self,
        theta: F,
        n: usize,
        blinding_factors: usize,
        fixed: &Vec<Polynomial<F, LagrangeCoeff>>,
        advice: &Vec<Polynomial<F, LagrangeCoeff>>,
        instance: &Vec<Polynomial<F, LagrangeCoeff>>,
        challenges: &Vec<F>,
    ) -> (r: Result<Permuted<F>, Error>)
        requires
            n <= i32::MAX,
            blinding_factors < n,
            self.present(fixed@, advice@, instance@, challenges@, n),
        ensures
            r is Ok <==> self.holds(
                theta.val(),
                n,
                blinding_factors,
                fixed@,
                advice@,
                instance@,
                challenges@,
            ),
            r matches Err(e) ==> e == Error::ConstraintSystemFailure,
            r matches Ok(columns) ==> self.permutes_to(
                theta.val(),
                n,
                blinding_factors,
                fixed@,
                advice@,
                instance@,
                challenges@,
                columns,
            ),
    {
        let (inputs, table) = self.compressed(theta, n, fixed, advice, instance, challenges);
        if !inputs_in_table(&inputs, &table, n - (blinding_factors + 1)) {
            return Err(Error::ConstraintSystemFailure);
        }
        let columns = self.permuted(
            theta,
            n,
            blinding_factors,
            fixed,
            advice,
            instance,
            challenges,
        );
        proof {
            let rows = n - (blinding_factors + 1);
            vals(columns.permuted_input_expression@).take(rows).to_multiset_ensures();
            vals(columns.permuted_table_expression@).take(rows).to_multiset_ensures();
            vals(inputs@).take(rows).to_multiset_ensures();
            vals(table@).take(rows).to_multiset_ensures();
        }
        Ok(columns)
    }
}

/// `(a + beta) (s + gamma)`.
pub open spec fn bound_pair(p: int, a: int, s: int, beta: int, gamma: int) -> int {
    fmul(p, fadd(p, a, beta), fadd(p, s, gamma))
}

/// The factor of a row of a lookup: the pair of the compressed columns over the
/// pair of the permuted columns.
pub open spec fn lookup_factor(
    p: int,
    a: int,
    s: int,
    permuted_a: int,
    permuted_s: int,
    beta: int,
    gamma: int,
) -> int {
    fmul(
        p,
        finv(p, bound_pair(p, permuted_a, permuted_s, beta, gamma)),
        bound_pair(p, a, s, beta, gamma),
    )
}

impl<F: Field> Permuted<F> {
    /// The factors of all rows.
    pub open spec fn factors(self, beta: int, gamma: int) -> Seq<int> {
        Seq::new(
            self.compressed_input_expression@.len(),
            |i: int|
                lookup_factor(
                    F::modulus(),
                    self.compressed_input_expression@[i].val(),
                    self.compressed_table_expression@[i].val(),
                    self.permuted_input_expression@[i].val(),
                    self.permuted_table_expression@[i].val(),
                    beta,
                    gamma,
                ),
        )
    }

    /// Whether all columns have `n` rows.
    pub open spec fn has_rows(self, n: nat) -> bool {
        &&& self.compressed_input_expression@.len() == n
        &&& self.compressed_table_expression@.len() == n
        &&& self.permuted_input_expression@.len() == n
        &&& self.permuted_table_expression@.len() == n
    }

    /// Given a Lookup with input expressions, table expressions, and the permuted
    /// input expression and permuted table expression, this method constructs the
    /// grand product polynomial over the lookup: it starts at one and ends in the
    /// blinding factors.
    pub fn product(&self, beta: F, gamma: F, blinds: &Vec<F>) -> (r: Vec<F>)
        requires
            self.has_rows(self.compressed_input_expression@.len()),
            blinds@.len() < self.compressed_input_expression@.len(),
        ensures
            vals(r@) == product_column(
                F::modulus(),
                self.factors(beta.val(), gamma.val()),
                1,
                (self.compressed_input_expression@.len() - blinds@.len()) as nat,
                vals(blinds@),
            ),
    {
        let ghost p = F::modulus();
        let n = self.compressed_input_expression.len();
        let mut denominators: Vec<F> = Vec::new();
        let mut i: usize = 0;
        while i < n
            invariant
                i <= n,
                p == F::modulus(),
                self.has_rows(n as nat),
                denominators@.len() == i,
                forall|k: int|
                    0 <= k < i ==> (#[trigger] denominators@[k]).val() == bound_pair(
                        p,
                        self.permuted_input_expression@[k].val(),
                        self.permuted_table_expression@[k].val(),
                        beta.val(),
                        gamma.val(),
                    ),
            decreases n - i,
        {
            let a = self.permuted_input_expression[i].add(&beta);
            let s = self.permuted_table_expression[i].add(&gamma);
            denominators.push(a.mul(&s));
            i += 1;
        }
        let ghost before = denominators@;
        F::batch_invert(&mut denominators);
        let mut factors: Vec<F> = Vec::new();
        let mut i: usize = 0;
        while i < n
            invariant
                i <= n,
                p == F::modulus(),
                self.has_rows(n as nat),
                before.len() == n,
                denominators@.len() == n,
                forall|k: int|
                    0 <= k < n ==> (#[trigger] before[k]).val() == bound_pair(
                        p,
                        self.permuted_input_expression@[k].val(),
                        self.permuted_table_expression@[k].val(),
                        beta.val(),
                        gamma.val(),
                    ),
                forall|k: int|
                    0 <= k < n ==> (#[trigger] denominators@[k]).val() == finv(p, before[k].val()),
                factors@.len() == i,
                forall|k: int|
                    0 <= k < i ==> (#[trigger] factors@[k]).val() == self.factors(
                        beta.val(),
                        gamma.val(),
                    )[k],
            decreases n - i,
        {
            assert(before[i as int].val() == bound_pair(
                p,
                self.permuted_input_expression@[i as int].val(),
                self.permuted_table_expression@[i as int].val(),
                beta.val(),
                gamma.val(),
            ));
            let a = self.compressed_input_expression[i].add(&beta);
            let s = self.compressed_table_expression[i].add(&gamma);
            factors.push(denominators[i].mul(&a.mul(&s)));
            i += 1;
        }
        proof {
            assert(vals(factors@) =~= self.factors(beta.val(), gamma.val()));
        }
        product_with_blinds(&factors, F::one(), n - blinds.len(), blinds)
    }
}

/// The values plus a constant.
pub open spec fn shifted(p: int, s: Seq<int>, c: int) -> Seq<int> {
    Seq::new(s.len(), |i: int| fadd(p, s[i], c))
}

proof fn lemma_shifted_permuted(p: int, s: Seq<int>, t: Seq<int>, c: int)
    requires
        s.to_multiset() == t.to_multiset(),
    ensures
        shifted(p, s, c).to_multiset() == shifted(p, t, c).to_multiset(),
    decreases s.len(),
{
    s.to_multiset_ensures();
    t.to_multiset_ensures();
    assert(s.len() == t.len());
    if s.len() == 0 {
        assert(s =~= t);
    } else {
        let x = t.last();
        assert(t[t.len() - 1] == x);
        assert(t.contains(x));
        assert(t.to_multiset().count(x) > 0);
        assert(s.contains(x));
        let i = choose|i: int| 0 <= i < s.len() && s[i] == x;
        let (a, b) = (s.remove(i), t.drop_last());
        assert(b =~= t.remove(t.len() - 1));
        assert(a.to_multiset() =~= s.to_multiset().remove(x));
        assert(b.to_multiset() =~= t.to_multiset().remove(x));
        lemma_shifted_permuted(p, a, b, c);
        let (u, v) = (shifted(p, s, c), shifted(p, t, c));
        u.to_multiset_ensures();
        v.to_multiset_ensures();
        assert(u.remove(i) =~= shifted(p, a, c));
        assert(v.remove(t.len() - 1) =~= shifted(p, b, c));
        let y = fadd(p, x, c);
        assert(u[i] == y && v[t.len() - 1] == y);
        assert(u.remove(i).to_multiset() =~= u.to_multiset().remove(y));
        assert(v.remove(t.len() - 1).to_multiset() =~= v.to_multiset().remove(y));
        assert(u.contains(y) && v.contains(y));
        assert(u.to_multiset() =~= u.to_multiset().remove(y).insert(y));
        assert(v.to_multiset() =~= v.to_multiset().remove(y).insert(y));
    }
}

/// The product of a lookup closes: over rows whose permuted columns are
/// permutations of the compressed ones, the product of all factors is one, as
/// long as no denominator vanishes.
pub proof fn law_lookup_product_closes(
    p: int,
    a: Seq<int>,
    s: Seq<int>,
    permuted_a: Seq<int>,
    permuted_s: Seq<int>,
    beta: int,
    gamma: int,
)
    requires
        p > 1,
        a.len() == s.len(),
        permuted_a.to_multiset() == a.to_multiset(),
        permuted_s.to_multiset() == s.to_multiset(),
        forall|i: int|
            0 <= i < a.len() ==> has_inverse(
                p,
                bound_pair(p, #[trigger] permuted_a[i], permuted_s[i], beta, gamma),
            ),
    ensures
        fprod(
            p,
            Seq::new(
                a.len(),
                |i: int| lookup_factor(p, a[i], s[i], permuted_a[i], permuted_s[i], beta, gamma),
            ),
        ) == 1,
{
    a.to_multiset_ensures();
    s.to_multiset_ensures();
    permuted_a.to_multiset_ensures();
    permuted_s.to_multiset_ensures();
    let n = a.len();
    assert(permuted_a.len() == n && permuted_s.len() == n);
    let q = Seq::new(
        n,
        |i: int| lookup_factor(p, a[i], s[i], permuted_a[i], permuted_s[i], beta, gamma),
    );
    let num = Seq::new(n, |i: int| bound_pair(p, a[i], s[i], beta, gamma));
    let den = Seq::new(n, |i: int| bound_pair(p, permuted_a[i], permuted_s[i], beta, gamma));
    lemma_fprod_pairs(p, shifted(p, a, beta), shifted(p, s, gamma), num);
    lemma_fprod_pairs(p, shifted(p, permuted_a, beta), shifted(p, permuted_s, gamma), den);
    lemma_shifted_permuted(p, permuted_a, a, beta);
    lemma_shifted_permuted(p, permuted_s, s, gamma);
    lemma_fprod_permuted(p, shifted(p, permuted_a, beta), shifted(p, a, beta));
    lemma_fprod_permuted(p, shifted(p, permuted_s, gamma), shifted(p, s, gamma));
    assert forall|i: int| 0 <= i < n implies has_inverse(p, #[trigger] den[i]) by {
        let _ = permuted_a[i];
    }
    lemma_quotients_close(p, q, num, den);
}

/// The polynomials of a lookup argument.
#[derive(Clone, Copy, Debug, PartialEq, Eq, Structural)]
pub enum LookupPoly {
    Product,
    PermutedInput,
    PermutedTable,
}

/// The evaluations of a lookup, in the order in which they are hashed.
pub open spec fn evaluations() -> Seq<(LookupPoly, Rotation)> {
    seq![
        (LookupPoly::Product, Rotation(0)),
        (LookupPoly::Product, Rotation(1)),
        (LookupPoly::PermutedInput, Rotation(0)),
        (LookupPoly::PermutedInput, Rotation((-1int) as i32)),
        (LookupPoly::PermutedTable, Rotation(0)),
    ]
}

/// The openings of a lookup, in their order.
pub open spec fn openings() -> Seq<(LookupPoly, Rotation)> {
    seq![
        (LookupPoly::Product, Rotation(0)),
        (LookupPoly::PermutedInput, Rotation(0)),
        (LookupPoly::PermutedTable, Rotation(0)),
        (LookupPoly::PermutedInput, Rotation((-1int) as i32)),
        (LookupPoly::Product, Rotation(1)),
    ]
}

/// Which polynomials are evaluated, in their order, and at which rotation of the
/// point.
pub fn evaluation_order() -> (r: Vec<(LookupPoly, Rotation)>)
    ensures
        r@ == evaluations(),
{
    let mut out: Vec<(LookupPoly, Rotation)> = Vec::new();
    out.push((LookupPoly::Product, Rotation::cur()));
    out.push((LookupPoly::Product, Rotation::next()));
    out.push((LookupPoly::PermutedInput, Rotation::cur()));
    out.push((LookupPoly::PermutedInput, Rotation::prev()));
    out.push((LookupPoly::PermutedTable, Rotation::cur()));
    assert(out@ =~= evaluations());
    out
}

/// Which polynomials are opened, in their order, and at which rotation of the
/// point.
pub fn opening_order() -> (r: Vec<(LookupPoly, Rotation)>)
    ensures
        r@ == openings(),
{
    let mut out: Vec<(LookupPoly, Rotation)> = Vec::new();
    // Open lookup product commitments at x
    out.push((LookupPoly::Product, Rotation::cur()));
    // Open lookup input commitments at x
    out.push((LookupPoly::PermutedInput, Rotation::cur()));
    // Open lookup table commitments at x
    out.push((LookupPoly::PermutedTable, Rotation::cur()));
    // Open lookup input commitments at x_inv
    out.push((LookupPoly::PermutedInput, Rotation::prev()));
    // Open lookup product commitments at x_next
    out.push((LookupPoly::Product, Rotation::next()));
    assert(out@ =~= openings());
    out
}

/// Every evaluation of a lookup is opened, and nothing else is.
pub proof fn law_lookup_openings_match(item: (LookupPoly, Rotation))
    ensures
        evaluations().contains(item) <==> openings().contains(item),
{
    let (e, o) = (evaluations(), openings());
    if e.contains(item) {
        let i = choose|i: int| 0 <= i < e.len() && e[i] == item;
        assert(o[if i == 0 {
            0int
        } else if i == 1 {
            4
        } else if i == 2 {
            1
        } else if i == 3 {
            3
        } else {
            2
        }] == item);
    }
    if o.contains(item) {
        let i = choose|i: int| 0 <= i < o.len() && o[i] == item;
        assert(e[if i == 0 {
            0int
        } else if i == 4 {
            1
        } else if i == 1 {
            2
        } else if i == 3 {
            3
        } else {
            4
        }] == item);
    }
}

/// How the columns of a lookup are compressed and permuted.
#[derive(Clone, Copy, Debug, PartialEq, Eq, Structural)]
pub enum CompressPath {
    /// Compressed and permuted on the device, in one go.
    Fused,
    /// Compressed on the device, permuted on the host.
    Device,
    /// Compressed and permuted on the host.
    Host,
}

/// The way to try next: the device is tried where its columns are there, first
/// in one go, then for compression alone; the host is the last resort.
pub fn compress_path(columns_on_device: bool, fused_failed: bool, device_failed: bool) -> (r:
    CompressPath)
    ensures
        r == (if columns_on_device && !fused_failed {
            CompressPath::Fused
        } else if columns_on_device && !device_failed {
            CompressPath::Device
        } else {
            CompressPath::Host
        }),
{
    if columns_on_device && !fused_failed {
        CompressPath::Fused
    } else if columns_on_device && !device_failed {
        CompressPath::Device
    } else {
        CompressPath::Host
    }
}

} // verus!
