//! The running products of the permutation argument, and the order in which
//! they are evaluated and opened.

use crate::field::{fadd, finv, fmul, fpow, lemma_fmul_assoc, lemma_units, vals, Field};
use crate::plonk::circuit::{GpuAny, GpuColumn};
use crate::plonk::permutation::Argument;
use crate::poly::{columns_of, LagrangeCoeff, Polynomial, Rotation};
use vstd::arithmetic::div_mod::lemma_small_mod;
use vstd::prelude::*;

verus! {

/// `v + beta label + gamma`: a cell's value, bound to a label.
pub open spec fn labelled(p: int, v: int, label: int, beta: int, gamma: int) -> int {
    fadd(p, fadd(p, v, fmul(p, beta, label)), gamma)
}

/// The product of the labelled values of cells.
pub open spec fn labelled_product(
    p: int,
    values: Seq<int>,
    labels: Seq<int>,
    beta: int,
    gamma: int,
) -> int
    decreases values.len(),
{
    if values.len() == 0 {
        1
    } else {
        fmul(
            p,
            labelled_product(p, values.drop_last(), labels.drop_last(), beta, gamma),
            labelled(p, values.last(), labels.last(), beta, gamma),
        )
    }
}

/// A row of columns.
pub open spec fn row_of(columns: Seq<Seq<int>>, i: int) -> Seq<int> {
    Seq::new(columns.len(), |j: int| columns[j][i])
}

/// The labels of the cells of row `i` of `m` columns, the first of which has the
/// factor `start`: `start delta^j omega^i`.
pub open spec fn own_labels(p: int, m: nat, start: int, delta: int, omega: int, i: nat) -> Seq<
    int,
> {
    Seq::new(
        m,
        |j: int| fmul(p, fmul(p, start, fpow(p, delta, j as nat)), fpow(p, omega, i)),
    )
}

/// The factor of row `i`: the product of the cells with their own labels, over
/// the product of the cells with the labels that the permutation gives them.
pub open spec fn row_factor(
    p: int,
    columns: Seq<Seq<int>>,
    sigmas: Seq<Seq<int>>,
    start: int,
    delta: int,
    omega: int,
    beta: int,
    gamma: int,
    i: nat,
) -> int {
    let values = row_of(columns, i as int);
    fmul(
        p,
        finv(p, labelled_product(p, values, row_of(sigmas, i as int), beta, gamma)),
        labelled_product(
            p,
            values,
            own_labels(p, columns.len(), start, delta, omega, i),
            beta,
            gamma,
        ),
    )
}

/// A running product: `start` times the first `i` factors.
pub open spec fn running(p: int, factors: Seq<int>, start: int, i: nat) -> int
    decreases i,
{
    if i == 0 {
        start
    } else {
        fmul(p, running(p, factors, start, (i - 1) as nat), factors[i - 1])
    }
}

/// A column that holds a running product in its first `acc_len` rows and
/// blinding factors behind.
pub open spec fn product_column(
    p: int,
    factors: Seq<int>,
    start: int,
    acc_len: nat,
    blinds: Seq<int>,
) -> Seq<int> {
    Seq::new(
        acc_len + blinds.len(),
        |i: int|
            if i < acc_len {
                running(p, factors, start, i as nat)
            } else {
                blinds[i - acc_len]
            },
    )
}

/// The running product over factors, then the blinding factors.
///
/// The first value is `start`; the value at `acc_len - 1` is what the next
/// product starts from.
pub fn product_with_blinds<F: Field>(
    factors: &Vec<F>,
    start: F,
    acc_len: usize,
    blinds: &Vec<F>,
) -> (r: Vec<F>)
    requires
        0 < acc_len,
        acc_len - 1 <= factors@.len(),
        acc_len + blinds@.len() <= usize::MAX,
    ensures
        vals(r@) == product_column(
            F::modulus(),
            vals(factors@),
            start.val(),
            acc_len as nat,
            vals(blinds@),
        ),
        r@.len() == acc_len + blinds@.len(),
{
    let ghost p = F::modulus();
    let mut z: Vec<F> = Vec::new();
    let mut acc = start;
    z.push(acc);
    let mut i: usize = 1;
    while i < acc_len
        invariant
            1 <= i <= acc_len,
            acc_len - 1 <= factors@.len(),
            p == F::modulus(),
            z@.len() == i,
            acc.val() == running(p, vals(factors@), start.val(), (i - 1) as nat),
            forall|j: int|
                0 <= j < i ==> (#[trigger] z@[j]).val() == running(
                    p,
                    vals(factors@),
                    start.val(),
                    j as nat,
                ),
        decreases acc_len - i,
    {
        acc = acc.mul(&factors[i - 1]);
        z.push(acc);
        i += 1;
    }
    let mut k: usize = 0;
    while k < blinds.len()
        invariant
            k <= blinds@.len(),
            p == F::modulus(),
            z@.len() == acc_len + k,
            forall|j: int|
                0 <= j < acc_len ==> (#[trigger] z@[j]).val() == running(
                    p,
                    vals(factors@),
                    start.val(),
                    j as nat,
                ),
            forall|j: int|
                acc_len <= j < acc_len + k ==> #[trigger] z@[j] == blinds@[j - acc_len],
        decreases blinds@.len() - k,
    {
        z.push(blinds[k]);
        k += 1;
    }
    proof {
        let expected = product_column(
            p,
            vals(factors@),
            start.val(),
            acc_len as nat,
            vals(blinds@),
        );
        assert forall|j: int| 0 <= j < z@.len() implies vals(z@)[j] == expected[j] by {
            let _ = z@[j];
        }
        assert(vals(z@) =~= expected);
    }
    z
}

/// The values of a column of the permutation.
pub open spec fn column_values<F: Field>(
    column: GpuColumn<GpuAny>,
    advice: Seq<Polynomial<F, LagrangeCoeff>>,
    fixed: Seq<Polynomial<F, LagrangeCoeff>>,
    instance: Seq<Polynomial<F, LagrangeCoeff>>,
) -> Polynomial<F, LagrangeCoeff> {
    match column.column_type {
        GpuAny::Advice(_) => advice[column.index as int],
        GpuAny::Fixed => fixed[column.index as int],
        GpuAny::Instance => instance[column.index as int],
    }
}

/// Whether a column of the permutation is there, with `n` rows.
pub open spec fn column_present<F: Field>(
    column: GpuColumn<GpuAny>,
    advice: Seq<Polynomial<F, LagrangeCoeff>>,
    fixed: Seq<Polynomial<F, LagrangeCoeff>>,
    instance: Seq<Polynomial<F, LagrangeCoeff>>,
    n: nat,
) -> bool {
    &&& match column.column_type {
        GpuAny::Advice(_) => column.index < advice.len(),
        GpuAny::Fixed => column.index < fixed.len(),
        GpuAny::Instance => column.index < instance.len(),
    }
    &&& column_values(column, advice, fixed, instance)@.len() == n
}

/// Returns the values of the column at its index within the family selected by
/// its type.
pub(crate) fn values_for_column<'a, F: Field>(
    advice: &'a Vec<Polynomial<F, LagrangeCoeff>>,
    fixed: &'a Vec<Polynomial<F, LagrangeCoeff>>,
    instance: &'a Vec<Polynomial<F, LagrangeCoeff>>,
    column: GpuColumn<GpuAny>,
    n: Ghost<nat>,
) -> (r: &'a Polynomial<F, LagrangeCoeff>)
    requires
        column_present(column, advice@, fixed@, instance@, n@),
    ensures
        *r == column_values(column, advice@, fixed@, instance@),
{
    match column.column_type {
        GpuAny::Advice(_) => &advice[column.index],
        GpuAny::Fixed => &fixed[column.index],
        GpuAny::Instance => &instance[column.index],
    }
}

/// What the products of a permutation argument are made of.
pub struct ProductInputs {
    pub columns: Seq<Seq<int>>,
    pub sigmas: Seq<Seq<int>>,
    pub chunk_len: nat,
    pub n: nat,
    pub acc_len: nat,
    pub delta: int,
    pub omega: int,
    pub beta: int,
    pub gamma: int,
    pub blinds: Seq<Seq<int>>,
}

/// The first position of the `c`th chunk of `m` items, or `m` where it begins
/// behind them.
pub open spec fn chunk_start(m: nat, chunk_len: nat, c: nat) -> nat {
    if c * chunk_len <= m {
        c * chunk_len
    } else {
        m
    }
}

/// The number of chunks that `m` items make.
pub open spec fn chunk_count(m: nat, chunk_len: nat) -> nat {
    ((m + chunk_len - 1) / (chunk_len as int)) as nat
}

impl ProductInputs {
    /// The columns of a chunk.
    pub open spec fn chunk(self, s: Seq<Seq<int>>, c: nat) -> Seq<Seq<int>> {
        s.subrange(
            chunk_start(s.len(), self.chunk_len, c) as int,
            chunk_start(s.len(), self.chunk_len, c + 1) as int,
        )
    }

    /// The row factors of a chunk.
    pub open spec fn factors(self, p: int, c: nat) -> Seq<int> {
        let start = fpow(p, self.delta, chunk_start(self.columns.len(), self.chunk_len, c));
        Seq::new(
            self.n,
            |i: int|
                row_factor(
                    p,
                    self.chunk(self.columns, c),
                    self.chunk(self.sigmas, c),
                    start,
                    self.delta,
                    self.omega,
                    self.beta,
                    self.gamma,
                    i as nat,
                ),
        )
    }

    /// What the product of a chunk starts from: one, or the last value of the
    /// product before.
    pub open spec fn start(self, p: int, c: nat) -> int
        decreases c,
    {
        if c == 0 {
            1
        } else {
            let b = (c - 1) as nat;
            running(p, self.factors(p, b), self.start(p, b), (self.acc_len - 1) as nat)
        }
    }

    /// The product column of a chunk.
    pub open spec fn product(self, p: int, c: nat) -> Seq<int> {
        product_column(p, self.factors(p, c), self.start(p, c), self.acc_len, self.blinds[c as int])
    }
}

/// One factor for each row of a chunk of columns.
fn chunk_factors<F: Field>(
    columns: &Vec<&Polynomial<F, LagrangeCoeff>>,
    sigmas: &Vec<&Polynomial<F, LagrangeCoeff>>,
    start: F,
    omega: F,
    beta: F,
    gamma: F,
    n: usize,
) -> (r: Vec<F>)
    requires
        columns@.len() == sigmas@.len(),
        forall|j: int| 0 <= j < columns@.len() ==> (#[trigger] columns@[j])@.len() == n,
        forall|j: int| 0 <= j < sigmas@.len() ==> (#[trigger] sigmas@[j])@.len() == n,
    ensures
        r@.len() == n,
        forall|i: int|
            0 <= i < n ==> (#[trigger] r@[i]).val() == row_factor(
                F::modulus(),
                Seq::new(columns@.len(), |j: int| vals(columns@[j]@)),
                Seq::new(sigmas@.len(), |j: int| vals(sigmas@[j]@)),
                start.val(),
                F::delta_val(),
                omega.val(),
                beta.val(),
                gamma.val(),
                i as nat,
            ),
{
    let ghost p = F::modulus();
    let ghost all = Seq::new(columns@.len(), |j: int| vals(columns@[j]@));
    let ghost perms = Seq::new(sigmas@.len(), |j: int| vals(sigmas@[j]@));
    proof {
        F::lemma_modulus();
        lemma_small_mod(1, p as nat);
    }
    let mut denominators: Vec<F> = Vec::new();
    let mut numerators: Vec<F> = Vec::new();
    let mut omega_power = F::one();
    let m = columns.len();
    let mut i: usize = 0;
    while i < n
        invariant
            i <= n,
            m == columns@.len(),
            m == sigmas@.len(),
            p == F::modulus(),
            p > 2,
            all == Seq::new(columns@.len(), |j: int| vals(columns@[j]@)),
            perms == Seq::new(sigmas@.len(), |j: int| vals(sigmas@[j]@)),
            forall|j: int| 0 <= j < columns@.len() ==> (#[trigger] columns@[j])@.len() == n,
            forall|j: int| 0 <= j < sigmas@.len() ==> (#[trigger] sigmas@[j])@.len() == n,
            omega_power.val() == fpow(p, omega.val(), i as nat),
            denominators@.len() == i,
            numerators@.len() == i,
            forall|k: int|
                0 <= k < i ==> (#[trigger] denominators@[k]).val() == labelled_product(
                    p,
                    row_of(all, k),
                    row_of(perms, k),
                    beta.val(),
                    gamma.val(),
                ),
            forall|k: int|
                0 <= k < i ==> (#[trigger] numerators@[k]).val() == labelled_product(
                    p,
                    row_of(all, k),
                    own_labels(p, all.len(), start.val(), F::delta_val(), omega.val(), k as nat),
                    beta.val(),
                    gamma.val(),
                ),
        decreases n - i,
    {
        let ghost values = row_of(all, i as int);
        let ghost permuted = row_of(perms, i as int);
        let ghost labels = own_labels(
            p,
            all.len(),
            start.val(),
            F::delta_val(),
            omega.val(),
            i as nat,
        );
        let mut denominator = F::one();
        let mut numerator = F::one();
        let mut factor = start;
        let mut j: usize = 0;
        proof {
            assert(values.take(0) =~= seq![]);
            assert(permuted.take(0) =~= seq![]);
            assert(labels.take(0) =~= seq![]);
            start.lemma_val_range();
            lemma_units(p, start.val());
            lemma_small_mod(1, p as nat);
        }
        while j < m
            invariant
                j <= m,
                i < n,
                m == columns@.len(),
                m == sigmas@.len(),
                p == F::modulus(),
                p > 2,
                all == Seq::new(columns@.len(), |j: int| vals(columns@[j]@)),
                perms == Seq::new(sigmas@.len(), |j: int| vals(sigmas@[j]@)),
                forall|j: int| 0 <= j < columns@.len() ==> (#[trigger] columns@[j])@.len() == n,
                forall|j: int| 0 <= j < sigmas@.len() ==> (#[trigger] sigmas@[j])@.len() == n,
                values == row_of(all, i as int),
                permuted == row_of(perms, i as int),
                labels == own_labels(
                    p,
                    all.len(),
                    start.val(),
                    F::delta_val(),
                    omega.val(),
                    i as nat,
                ),
                omega_power.val() == fpow(p, omega.val(), i as nat),
                factor.val() == fmul(p, start.val(), fpow(p, F::delta_val(), j as nat)),
                denominator.val() == labelled_product(
                    p,
                    values.take(j as int),
                    permuted.take(j as int),
                    beta.val(),
                    gamma.val(),
                ),
                numerator.val() == labelled_product(
                    p,
                    values.take(j as int),
                    labels.take(j as int),
                    beta.val(),
                    gamma.val(),
                ),
            decreases m - j,
        {
            assert(columns@[j as int]@.len() == n);
            assert(sigmas@[j as int]@.len() == n);
            let v = columns[j].at(i);
            let s = sigmas[j].at(i);
            let label = factor.mul(&omega_power);
            denominator = denominator.mul(&v.add(&beta.mul(&s)).add(&gamma));
            numerator = numerator.mul(&v.add(&beta.mul(&label)).add(&gamma));
            proof {
                assert(values.take(j + 1).drop_last() =~= values.take(j as int));
                assert(permuted.take(j + 1).drop_last() =~= permuted.take(j as int));
                assert(labels.take(j + 1).drop_last() =~= labels.take(j as int));
                assert(values[j as int] == v.val());
                assert(permuted[j as int] == s.val());
                lemma_fmul_assoc(
                    p,
                    start.val(),
                    fpow(p, F::delta_val(), j as nat),
                    F::delta_val(),
                );
            }
            factor = factor.mul(&F::delta());
            j += 1;
        }
        proof {
            assert(values.take(j as int) =~= values);
            assert(permuted.take(j as int) =~= permuted);
            assert(labels.take(j as int) =~= labels);
        }
        denominators.push(denominator);
        numerators.push(numerator);
        omega_power = omega_power.mul(&omega);
        i += 1;
    }
    let ghost before = denominators@;
    F::batch_invert(&mut denominators);
    let mut out: Vec<F> = Vec::new();
    let mut i: usize = 0;
    while i < n
        invariant
            i <= n,
            p == F::modulus(),
            before.len() == n,
            denominators@.len() == n,
            numerators@.len() == n,
            forall|k: int|
                0 <= k < n ==> (#[trigger] denominators@[k]).val() == finv(p, before[k].val()),
            out@.len() == i,
            forall|k: int|
                0 <= k < i ==> (#[trigger] out@[k]).val() == fmul(
                    p,
                    finv(p, before[k].val()),
                    numerators@[k].val(),
                ),
        decreases n - i,
    {
        out.push(denominators[i].mul(&numerators[i]));
        i += 1;
    }
    proof {
        assert forall|i: int| 0 <= i < n implies (#[trigger] out@[i]).val() == row_factor(
            p,
            all,
            perms,
            start.val(),
            F::delta_val(),
            omega.val(),
            beta.val(),
            gamma.val(),
            i as nat,
        ) by {
            let _ = before[i];
            let _ = numerators@[i];
        }
    }
    out
}

impl Argument {
    /// What the argument's products are made of.
    pub open spec fn product_inputs<F: Field>(
        self,
        cs_degree: usize,
        advice: Seq<Polynomial<F, LagrangeCoeff>>,
        fixed: Seq<Polynomial<F, LagrangeCoeff>>,
        instance: Seq<Polynomial<F, LagrangeCoeff>>,
        permutations: Seq<Polynomial<F, LagrangeCoeff>>,
        omega: F,
        beta: F,
        gamma: F,
        blinds: Seq<Vec<F>>,
        n: nat,
        blinding_factors: nat,
    ) -> ProductInputs {
        ProductInputs {
            columns: Seq::new(
                self.columns@.len(),
                |j: int| vals(column_values(self.columns@[j], advice, fixed, instance)@),
            ),
            sigmas: columns_of(permutations),
            chunk_len: (cs_degree - 2) as nat,
            n,
            acc_len: (n - blinding_factors) as nat,
            delta: F::delta_val(),
            omega: omega.val(),
            beta: beta.val(),
            gamma: gamma.val(),
            blinds: Seq::new(blinds.len(), |c: int| vals(blinds[c]@)),
        }
    }

    /// The running products of the argument, in the Lagrange basis: one for each
    /// chunk of as many columns as fit into a single product.
    pub fn products<F: Field>(
        &self,
        cs_degree: usize,
        blinding_factors: usize,
        n: usize,
        advice: &Vec<Polynomial<F, LagrangeCoeff>>,
        fixed: &Vec<Polynomial<F, LagrangeCoeff>>,
        instance: &Vec<Polynomial<F, LagrangeCoeff>>,
        permutations: &Vec<Polynomial<F, LagrangeCoeff>>,
        omega: F,
        beta: F,
        gamma: F,
        blinds: &Vec<Vec<F>>,
    ) -> (r: Vec<Polynomial<F, LagrangeCoeff>>)
        requires
            cs_degree >= 3,
            blinding_factors < n,
            permutations@.len() == self.columns@.len(),
            blinds@.len() == chunk_count(self.columns@.len(), (cs_degree - 2) as nat),
            forall|j: int|
                0 <= j < self.columns@.len() ==> column_present(
                    #[trigger] self.columns@[j],
                    advice@,
                    fixed@,
                    instance@,
                    n as nat,
                ),
            forall|j: int|
                0 <= j < permutations@.len() ==> (#[trigger] permutations@[j])@.len() == n,
            forall|c: int|
                0 <= c < blinds@.len() ==> (#[trigger] blinds@[c])@.len() == blinding_factors,
        ensures
            r@.len() == blinds@.len(),
            forall|c: int|
                0 <= c < r@.len() ==> vals((#[trigger] r@[c])@) == self.product_inputs(
                    cs_degree,
                    advice@,
                    fixed@,
                    instance@,
                    permutations@,
                    omega,
                    beta,
                    gamma,
                    blinds@,
                    n as nat,
                    blinding_factors as nat,
                ).product(F::modulus(), c as nat),
    {
        let ghost p = F::modulus();
        let ghost inputs = self.product_inputs(
            cs_degree,
            advice@,
            fixed@,
            instance@,
            permutations@,
            omega,
            beta,
            gamma,
            blinds@,
            n as nat,
            blinding_factors as nat,
        );
        // How many columns can be included in a single permutation polynomial?
        // We need to multiply by z(X) and (1 - (l_last(X) + l_blind(X))). This
        // will never underflow because of the requirement of at least a degree
        // 3 circuit for the permutation argument.
        let chunk_len = cs_degree - 2;
        let acc_len = n - blinding_factors;
        let m = self.columns.len();
        // Each column gets its own delta power.
        let mut deltaomega = F::one();
        // Track the "last" value from the previous column set
        let mut last_z = F::one();
        let mut out: Vec<Polynomial<F, LagrangeCoeff>> = Vec::new();
        let mut at: usize = 0;
        let mut c: usize = 0;
        proof {
            F::lemma_modulus();
            lemma_small_mod(1, p as nat);
            lemma_chunks(m as nat, chunk_len as nat, 0);
            assert(0 * chunk_len == 0);
        }
        while c < blinds.len()
            invariant
                c <= blinds@.len(),
                p == F::modulus(),
                p > 2,
                chunk_len == cs_degree - 2,
                chunk_len > 0,
                acc_len == n - blinding_factors,
                blinding_factors < n,
                m == self.columns@.len(),
                permutations@.len() == m,
                blinds@.len() == chunk_count(m as nat, chunk_len as nat),
                inputs == self.product_inputs(
                    cs_degree,
                    advice@,
                    fixed@,
                    instance@,
                    permutations@,
                    omega,
                    beta,
                    gamma,
                    blinds@,
                    n as nat,
                    blinding_factors as nat,
                ),
                forall|j: int|
                    0 <= j < self.columns@.len() ==> column_present(
                        #[trigger] self.columns@[j],
                        advice@,
                        fixed@,
                        instance@,
                        n as nat,
                    ),
                forall|j: int|
                    0 <= j < permutations@.len() ==> (#[trigger] permutations@[j])@.len() == n,
                forall|c: int|
                    0 <= c < blinds@.len() ==> (#[trigger] blinds@[c])@.len()
                        == blinding_factors,
                at == chunk_start(m as nat, chunk_len as nat, c as nat),
                deltaomega.val() == fpow(p, F::delta_val(), at as nat),
                last_z.val() == inputs.start(p, c as nat),
                out@.len() == c,
                forall|d: int|
                    0 <= d < c ==> vals((#[trigger] out@[d])@) == inputs.product(p, d as nat),
            decreases blinds@.len() - c,
        {
            let ghost first = at;
            proof {
                lemma_chunks(m as nat, chunk_len as nat, c as nat);
            }
            let end: usize = if m - at < chunk_len {
                m
            } else {
                at + chunk_len
            };
            let start = deltaomega;
            let mut columns: Vec<&Polynomial<F, LagrangeCoeff>> = Vec::new();
            let mut sigmas: Vec<&Polynomial<F, LagrangeCoeff>> = Vec::new();
            while at < end
                invariant
                    first <= at <= end,
                    end <= m,
                    p == F::modulus(),
                    m == self.columns@.len(),
                    permutations@.len() == m,
                    forall|j: int|
                        0 <= j < self.columns@.len() ==> column_present(
                            #[trigger] self.columns@[j],
                            advice@,
                            fixed@,
                            instance@,
                            n as nat,
                        ),
                    forall|j: int|
                        0 <= j < permutations@.len() ==> (#[trigger] permutations@[j])@.len()
                            == n,
                    deltaomega.val() == fpow(p, F::delta_val(), at as nat),
                    columns@.len() == at - first,
                    sigmas@.len() == at - first,
                    forall|j: int|
                        0 <= j < columns@.len() ==> {
                            &&& *(#[trigger] columns@[j]) == column_values(
                                self.columns@[first + j],
                                advice@,
                                fixed@,
                                instance@,
                            )
                            &&& columns@[j]@.len() == n
                        },
                    forall|j: int|
                        0 <= j < sigmas@.len() ==> {
                            &&& *(#[trigger] sigmas@[j]) == permutations@[first + j]
                            &&& sigmas@[j]@.len() == n
                        },
                decreases end - at,
            {
                assert(column_present(
                    self.columns@[at as int],
                    advice@,
                    fixed@,
                    instance@,
                    n as nat,
                ));
                columns.push(
                    values_for_column(
                        advice,
                        fixed,
                        instance,
                        self.columns[at],
                        Ghost(n as nat),
                    ),
                );
                sigmas.push(&permutations[at]);
                deltaomega = deltaomega.mul(&F::delta());
                at += 1;
            }
            let factors = chunk_factors(&columns, &sigmas, start, omega, beta, gamma, n);
            proof {
                let cs = inputs.chunk(inputs.columns, c as nat);
                let ss = inputs.chunk(inputs.sigmas, c as nat);
                let a = Seq::new(columns@.len(), |j: int| vals(columns@[j]@));
                let b = Seq::new(sigmas@.len(), |j: int| vals(sigmas@[j]@));
                assert forall|j: int| 0 <= j < a.len() implies a[j] == cs[j] by {
                    let _ = columns@[j];
                }
                assert(a =~= cs);
                assert forall|j: int| 0 <= j < b.len() implies b[j] == ss[j] by {
                    let _ = sigmas@[j];
                }
                assert(b =~= ss);
                assert(vals(factors@) =~= inputs.factors(p, c as nat)) by {
                    assert forall|i: int| 0 <= i < n implies vals(factors@)[i] == inputs.factors(
                        p,
                        c as nat,
                    )[i] by {
                        let _ = factors@[i];
                    }
                }
                assert(blinds@[c as int]@.len() == blinding_factors);
            }
            let z = product_with_blinds(&factors, last_z, acc_len, &blinds[c]);
            proof {
                assert(vals(z@)[acc_len - 1] == running(
                    p,
                    inputs.factors(p, c as nat),
                    inputs.start(p, c as nat),
                    (acc_len - 1) as nat,
                ));
                assert(inputs.start(p, (c + 1) as nat) == running(
                    p,
                    inputs.factors(p, c as nat),
                    inputs.start(p, c as nat),
                    (acc_len - 1) as nat,
                ));
            }
            last_z = z[acc_len - 1];
            out.push(Polynomial::new(z));
            c += 1;
        }
        out
    }
}

proof fn lemma_chunks(m: nat, chunk_len: nat, c: nat)
    requires
        chunk_len > 0,
    ensures
        c < chunk_count(m, chunk_len) ==> chunk_start(m, chunk_len, c) == c * chunk_len && c
            * chunk_len < m,
        chunk_start(m, chunk_len, c) <= m,
        chunk_start(m, chunk_len, c + 1) == if m - chunk_start(m, chunk_len, c) < chunk_len {
            m
        } else {
            chunk_start(m, chunk_len, c) + chunk_len
        },
{
    let t = m + chunk_len - 1;
    let q = t / (chunk_len as int);
    vstd::arithmetic::div_mod::lemma_fundamental_div_mod(t, chunk_len as int);
    assert((c + 1) * chunk_len == c * chunk_len + chunk_len) by (nonlinear_arith);
    if c < q {
        assert(c * chunk_len < m) by (nonlinear_arith)
            requires
                c + 1 <= q,
                chunk_len > 0,
                q * chunk_len <= m + chunk_len - 1,
        ;
    }
}

/// The rotation to the row of the last value of a running product.
pub open spec fn last_rotation(blinding_factors: usize) -> Rotation {
    Rotation((-(blinding_factors + 1)) as i32)
}

/// The rotation of the row that the running products end in.
pub fn last_row(blinding_factors: usize) -> (r: Rotation)
    requires
        blinding_factors < i32::MAX,
    ensures
        r == last_rotation(blinding_factors),
        r.0 == -(blinding_factors + 1),
{
    let rows: i32 = (blinding_factors + 1) as i32;
    Rotation(-rows)
}

/// The evaluations of the first `i` of the products: each at the point and at
/// the next one, and all but the last product at the row of its last value.
pub open spec fn evaluations(i: nat, num_sets: nat, last: Rotation) -> Seq<(usize, Rotation)>
    decreases i,
{
    if i == 0 {
        Seq::empty()
    } else {
        let set = (i - 1) as usize;
        let before = evaluations((i - 1) as nat, num_sets, last).push((set, Rotation(0))).push(
            (set, Rotation(1)),
        );
        if i < num_sets {
            before.push((set, last))
        } else {
            before
        }
    }
}

/// Each of the first `i` products at the point and at the next one.
pub open spec fn openings_here(i: nat) -> Seq<(usize, Rotation)>
    decreases i,
{
    if i == 0 {
        Seq::empty()
    } else {
        let set = (i - 1) as usize;
        openings_here((i - 1) as nat).push((set, Rotation(0))).push((set, Rotation(1)))
    }
}

/// The products below the last one at the row of their last value, from the
/// highest down to the `j`th.
pub open spec fn openings_last(j: nat, num_sets: nat, last: Rotation) -> Seq<(usize, Rotation)>
    decreases num_sets - j,
{
    if j + 1 >= num_sets {
        Seq::empty()
    } else {
        openings_last(j + 1, num_sets, last).push((j as usize, last))
    }
}

/// The openings of the products, in their order.
pub open spec fn openings(num_sets: nat, last: Rotation) -> Seq<(usize, Rotation)> {
    openings_here(num_sets) + openings_last(0, num_sets, last)
}

/// Which products are evaluated, in their order, and at which rotation of the
/// point: each at the point and at the next one, and all but the last at the
/// row of its last value, so that the next product can be chained to it.
pub fn evaluation_order(num_sets: usize, blinding_factors: usize) -> (r: Vec<(usize, Rotation)>)
    requires
        blinding_factors < i32::MAX,
    ensures
        r@ == evaluations(num_sets as nat, num_sets as nat, last_rotation(blinding_factors)),
{
    let mut out: Vec<(usize, Rotation)> = Vec::new();
    let mut i: usize = 0;
    while i < num_sets
        invariant
            i <= num_sets,
            blinding_factors < i32::MAX,
            out@ == evaluations(i as nat, num_sets as nat, last_rotation(blinding_factors)),
        decreases num_sets - i,
    {
        out.push((i, Rotation::cur()));
        out.push((i, Rotation::next()));
        // If we have any remaining sets to process, evaluate this set at omega^u
        // so we can constrain the last value of its running product to equal the
        // first value of the next set's running product, chaining them together.
        if i < num_sets - 1 {
            out.push((i, last_row(blinding_factors)));
        }
        i += 1;
    }
    out
}

/// Which products are opened, in their order: each at the point and at the next
/// one, then, from the last but one down, at the row of its last value.
pub fn opening_order(num_sets: usize, blinding_factors: usize) -> (r: Vec<(usize, Rotation)>)
    requires
        blinding_factors < i32::MAX,
    ensures
        r@ == openings(num_sets as nat, last_rotation(blinding_factors)),
{
    let mut out: Vec<(usize, Rotation)> = Vec::new();
    let mut i: usize = 0;
    while i < num_sets
        invariant
            i <= num_sets,
            out@ == openings_here(i as nat),
        decreases num_sets - i,
    {
        // Open permutation product commitments at x and \omega x
        out.push((i, Rotation::cur()));
        out.push((i, Rotation::next()));
        i += 1;
    }
    // Open it at \omega^{last} x for all but the last set. This rotation is only
    // sensical for the first row, but we only use this rotation in a constraint
    // that is gated on l_0.
    if num_sets > 0 {
        let ghost last = last_rotation(blinding_factors);
        let mut j: usize = num_sets - 1;
        assert(out@ =~= openings_here(num_sets as nat) + openings_last(
            j as nat,
            num_sets as nat,
            last,
        ));
        while j > 0
            invariant
                j <= num_sets - 1,
                num_sets > 0,
                blinding_factors < i32::MAX,
                last == last_rotation(blinding_factors),
                out@ == openings_here(num_sets as nat) + openings_last(
                    j as nat,
                    num_sets as nat,
                    last,
                ),
            decreases j,
        {
            j -= 1;
            out.push((j, last_row(blinding_factors)));
            assert(out@ =~= openings_here(num_sets as nat) + openings_last(
                j as nat,
                num_sets as nat,
                last,
            ));
        }
    } else {
        assert(out@ =~= openings(num_sets as nat, last_rotation(blinding_factors)));
    }
    out
}

/// What the evaluations of the first `i` products are.
pub proof fn lemma_evaluations(i: nat, num_sets: nat, last: Rotation, item: (usize, Rotation))
    requires
        i <= num_sets <= usize::MAX,
    ensures
        evaluations(i, num_sets, last).contains(item) <==> {
            &&& item.0 < i
            &&& item.1 == Rotation(0) || item.1 == Rotation(1) || item.0 + 1 < num_sets && item.1
                == last
        },
    decreases i,
{
    if i > 0 {
        lemma_evaluations((i - 1) as nat, num_sets, last, item);
        let set = (i - 1) as usize;
        let a = evaluations((i - 1) as nat, num_sets, last);
        let b = a.push((set, Rotation(0)));
        let c = b.push((set, Rotation(1)));
        lemma_push_contains(a, (set, Rotation(0)), item);
        lemma_push_contains(b, (set, Rotation(1)), item);
        lemma_push_contains(c, (set, last), item);
    }
}

/// What a sequence contains after a push.
pub proof fn lemma_push_contains<T>(s: Seq<T>, x: T, item: T)
    ensures
        s.push(x).contains(item) <==> s.contains(item) || item == x,
{
    let t = s.push(x);
    if s.contains(item) {
        let i = choose|i: int| 0 <= i < s.len() && s[i] == item;
        assert(t[i] == item);
    }
    assert(t[s.len() as int] == x);
    if t.contains(item) {
        let i = choose|i: int| 0 <= i < t.len() && t[i] == item;
        if i < s.len() {
            assert(s[i] == item);
        }
    }
}

/// What two sequences contain, one after the other.
pub proof fn lemma_append_contains<T>(s: Seq<T>, t: Seq<T>, item: T)
    ensures
        (s + t).contains(item) <==> s.contains(item) || t.contains(item),
{
    let u = s + t;
    if s.contains(item) {
        let i = choose|i: int| 0 <= i < s.len() && s[i] == item;
        assert(u[i] == item);
    }
    if t.contains(item) {
        let i = choose|i: int| 0 <= i < t.len() && t[i] == item;
        assert(u[s.len() + i] == item);
    }
    if u.contains(item) {
        let i = choose|i: int| 0 <= i < u.len() && u[i] == item;
        if i < s.len() {
            assert(s[i] == item);
        } else {
            assert(t[i - s.len()] == item);
        }
    }
}

proof fn lemma_openings_here(i: nat, item: (usize, Rotation))
    requires
        i <= usize::MAX,
    ensures
        openings_here(i).contains(item) <==> item.0 < i && (item.1 == Rotation(0) || item.1
            == Rotation(1)),
    decreases i,
{
    if i > 0 {
        lemma_openings_here((i - 1) as nat, item);
        let set = (i - 1) as usize;
        let a = openings_here((i - 1) as nat);
        let b = a.push((set, Rotation(0)));
        lemma_push_contains(a, (set, Rotation(0)), item);
        lemma_push_contains(b, (set, Rotation(1)), item);
    }
}

proof fn lemma_openings_last(j: nat, num_sets: nat, last: Rotation, item: (usize, Rotation))
    requires
        num_sets <= usize::MAX,
    ensures
        openings_last(j, num_sets, last).contains(item) <==> j <= item.0 && item.0 + 1 < num_sets
            && item.1 == last,
    decreases num_sets - j,
{
    if j + 1 < num_sets {
        lemma_openings_last(j + 1, num_sets, last, item);
        lemma_push_contains(openings_last(j + 1, num_sets, last), (j as usize, last), item);
    }
}

/// Every evaluation of a product is opened, and nothing else is.
pub proof fn law_permutation_openings_match(num_sets: nat, last: Rotation, item: (usize, Rotation))
    requires
        num_sets <= usize::MAX,
    ensures
        evaluations(num_sets, num_sets, last).contains(item) <==> openings(
            num_sets,
            last,
        ).contains(item),
{
    lemma_evaluations(num_sets, num_sets, last, item);
    lemma_openings_here(num_sets, item);
    lemma_openings_last(0, num_sets, last, item);
    lemma_append_contains(openings_here(num_sets), openings_last(0, num_sets, last), item);
}

/// What is opened is a product that there is.
pub proof fn lemma_openings_of_sets(num_sets: nat, last: Rotation, item: (usize, Rotation))
    requires
        num_sets <= usize::MAX,
        openings(num_sets, last).contains(item),
    ensures
        item.0 < num_sets,
{
    law_permutation_openings_match(num_sets, last, item);
    lemma_evaluations(num_sets, num_sets, last, item);
}

/// The product that comes from following a permutation: where each row's value
/// is chained to the one before, the last value is the product of all factors.
pub proof fn law_running_product(p: int, factors: Seq<int>, start: int, i: nat)
    requires
        p > 1,
        0 <= start < p,
    ensures
        running(p, factors, start, i) == fmul(p, start, running(p, factors, 1, i)),
    decreases i,
{
    lemma_units(p, start);
    if i > 0 {
        let j = (i - 1) as nat;
        law_running_product(p, factors, start, j);
        lemma_fmul_assoc(p, start, running(p, factors, 1, j), factors[i - 1]);
    }
}

} // verus!
