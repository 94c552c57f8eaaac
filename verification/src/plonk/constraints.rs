//! The constraints of the permutation and lookup arguments, row by row.

use crate::field::{fadd, fmul, fpow, fsub, lemma_fmul_assoc, lemma_units, vals, Field};
use crate::plonk::circuit::{GpuAny, GpuColumn};
use crate::plonk::evaluation::{get_rotation_idx, rotated};
use crate::plonk::graph_values::horner;
use crate::plonk::permutation::prover::{
    chunk_count, chunk_start, column_present, labelled, row_of, values_for_column,
};
use crate::poly::{columns_of, LagrangeCoeff, Polynomial};
use vstd::arithmetic::div_mod::lemma_small_mod;
use vstd::prelude::*;

verus! {

/// `(1 - z) l_0`: a running product starts at one.
pub open spec fn starts_at_one(p: int, z: int, l0: int) -> int {
    fmul(p, fsub(p, 1, z), l0)
}

/// `(z^2 - z) l_last`: a running product ends in zero or one.
pub open spec fn ends_in_bit(p: int, z: int, l_last: int) -> int {
    fmul(p, fsub(p, fmul(p, z, z), z), l_last)
}

/// `z` times the values, each bound to the label that the permutation gives it.
pub open spec fn bound_to(
    p: int,
    z: int,
    values: Seq<int>,
    labels: Seq<int>,
    beta: int,
    gamma: int,
) -> int
    decreases values.len(),
{
    if values.len() == 0 {
        z
    } else {
        fmul(
            p,
            bound_to(p, z, values.drop_last(), labels.drop_last(), beta, gamma),
            labelled(p, values.last(), labels.last(), beta, gamma),
        )
    }
}

/// `z` times the values, each bound to its own label: that of the `j`th value is
/// `start delta^(first + j)`.
pub open spec fn spread(
    p: int,
    z: int,
    values: Seq<int>,
    first: nat,
    start: int,
    delta: int,
    gamma: int,
) -> int
    decreases values.len(),
{
    if values.len() == 0 {
        z
    } else {
        let j = (values.len() - 1) as nat;
        fmul(
            p,
            spread(p, z, values.drop_last(), first, start, delta, gamma),
            fadd(
                p,
                fadd(p, values.last(), fmul(p, start, fpow(p, delta, first + j))),
                gamma,
            ),
        )
    }
}

/// The columns that the constraints of a permutation argument speak of.
pub struct PermutationColumns {
    pub products: Seq<Seq<int>>,
    pub sigmas: Seq<Seq<int>>,
    pub columns: Seq<Seq<int>>,
    pub l0: Seq<int>,
    pub l_last: Seq<int>,
    pub l_active: Seq<int>,
    pub chunk_len: nat,
    pub size: i32,
    pub last: i32,
    pub delta: int,
    pub beta: int,
    pub gamma: int,
}

impl PermutationColumns {
    /// Row `i` of the columns of a chunk.
    pub open spec fn chunk_row(self, s: Seq<Seq<int>>, k: int, i: int) -> Seq<int> {
        row_of(s, i).subrange(
            chunk_start(s.len(), self.chunk_len, k as nat) as int,
            chunk_start(s.len(), self.chunk_len, (k + 1) as nat) as int,
        )
    }

    /// `(z_{k+1} - z_k(omega^last X)) l_0`: a product starts where the one before
    /// it ends.
    pub open spec fn chained(self, p: int, i: usize, k: int) -> int {
        fmul(
            p,
            fsub(
                p,
                self.products[k + 1][i as int],
                self.products[k][rotated(i, self.last, 1, self.size)],
            ),
            self.l0[i as int],
        )
    }

    /// `(z_k(omega X) prod (p + beta s + gamma) - z_k prod (p + delta^j beta X +
    /// gamma)) l_active`: a product goes on by the factor of the row.
    pub open spec fn goes_on(self, p: int, i: usize, start: int, k: int) -> int {
        let values = self.chunk_row(self.columns, k, i as int);
        fmul(
            p,
            fsub(
                p,
                bound_to(
                    p,
                    self.products[k][rotated(i, 1, 1, self.size)],
                    values,
                    self.chunk_row(self.sigmas, k, i as int),
                    self.beta,
                    self.gamma,
                ),
                spread(
                    p,
                    self.products[k][i as int],
                    values,
                    chunk_start(self.columns.len(), self.chunk_len, k as nat),
                    start,
                    self.delta,
                    self.gamma,
                ),
            ),
            self.l_active[i as int],
        )
    }

    /// The constraints of row `i`, where `start` is the label of the first
    /// column's cell, times `beta`.
    pub open spec fn terms(self, p: int, i: usize, start: int) -> Seq<int> {
        let n = self.products.len();
        if n == 0 {
            Seq::empty()
        } else {
            seq![
                starts_at_one(p, self.products[0][i as int], self.l0[i as int]),
                ends_in_bit(p, self.products[n - 1][i as int], self.l_last[i as int]),
            ] + Seq::new((n - 1) as nat, |k: int| self.chained(p, i, k)) + Seq::new(
                n,
                |k: int| self.goes_on(p, i, start, k),
            )
        }
    }
}

/// The values of a column of the permutation, over the values of all columns.
pub open spec fn column_of(
    column: GpuColumn<GpuAny>,
    advice: Seq<Seq<int>>,
    fixed: Seq<Seq<int>>,
    instance: Seq<Seq<int>>,
) -> Seq<int> {
    match column.column_type {
        GpuAny::Advice(_) => advice[column.index as int],
        GpuAny::Fixed => fixed[column.index as int],
        GpuAny::Instance => instance[column.index as int],
    }
}

/// The values of all columns of the permutation.
pub open spec fn permuted_columns(
    columns: Seq<GpuColumn<GpuAny>>,
    advice: Seq<Seq<int>>,
    fixed: Seq<Seq<int>>,
    instance: Seq<Seq<int>>,
) -> Seq<Seq<int>> {
    Seq::new(columns.len(), |j: int| column_of(columns[j], advice, fixed, instance))
}

/// The columns that the permutation and lookup arguments are over.
#[derive(Debug)]
pub struct RowSelectors<F: Field> {
    /// One in the first row.
    pub l0: Polynomial<F, LagrangeCoeff>,
    /// One in the last usable row.
    pub l_last: Polynomial<F, LagrangeCoeff>,
    /// One in the rows that the arguments are about.
    pub l_active: Polynomial<F, LagrangeCoeff>,
}

/// Whether all columns have `n` rows.
pub open spec fn have_rows<F: Field>(s: Seq<Polynomial<F, LagrangeCoeff>>, n: nat) -> bool {
    forall|c: int| 0 <= c < s.len() ==> (#[trigger] s[c])@.len() == n
}

impl<F: Field> RowSelectors<F> {
    pub open spec fn have_rows(self, n: nat) -> bool {
        &&& self.l0@.len() == n
        &&& self.l_last@.len() == n
        &&& self.l_active@.len() == n
    }
}

/// The factors of a set of columns: the running product after the row, times the
/// values bound to their new labels, less the product before the row, times the
/// values bound to their own labels.
fn set_difference<F: Field>(
    columns: &Vec<GpuColumn<GpuAny>>,
    advice: &Vec<Polynomial<F, LagrangeCoeff>>,
    fixed: &Vec<Polynomial<F, LagrangeCoeff>>,
    instance: &Vec<Polynomial<F, LagrangeCoeff>>,
    sigmas: &Vec<Polynomial<F, LagrangeCoeff>>,
    n: usize,
    row: usize,
    z_next: F,
    z_here: F,
    from: usize,
    to: usize,
    current_delta: F,
    beta: F,
    gamma: F,
    start: Ghost<int>,
) -> (r: (F, F))
    requires
        row < n,
        from <= to <= columns@.len(),
        sigmas@.len() == columns@.len(),
        have_rows(sigmas@, n as nat),
        forall|j: int|
            0 <= j < columns@.len() ==> #[trigger] column_present(
                columns@[j],
                advice@,
                fixed@,
                instance@,
                n as nat,
            ),
        current_delta.val() == fmul(
            F::modulus(),
            start@,
            fpow(F::modulus(), F::delta_val(), from as nat),
        ),
    ensures
        ({
            let p = F::modulus();
            let values = row_of(
                permuted_columns(
                    columns@,
                    columns_of(advice@),
                    columns_of(fixed@),
                    columns_of(instance@),
                ),
                row as int,
            ).subrange(from as int, to as int);
            let labels = row_of(columns_of(sigmas@), row as int).subrange(from as int, to as int);
            &&& r.0.val() == fsub(
                p,
                bound_to(p, z_next.val(), values, labels, beta.val(), gamma.val()),
                spread(
                    p,
                    z_here.val(),
                    values,
                    from as nat,
                    start@,
                    F::delta_val(),
                    gamma.val(),
                ),
            )
            &&& r.1.val() == fmul(p, start@, fpow(p, F::delta_val(), to as nat))
        }),
{
    let ghost p = F::modulus();
    let ghost all_values = row_of(
        permuted_columns(
            columns@,
            columns_of(advice@),
            columns_of(fixed@),
            columns_of(instance@),
        ),
        row as int,
    );
    let ghost all_labels = row_of(columns_of(sigmas@), row as int);
    let mut left = z_next;
    let mut right = z_here;
    let mut current = current_delta;
    let mut j: usize = from;
    while j < to
        invariant
            p == F::modulus(),
            row < n,
            from <= j <= to <= columns@.len(),
            sigmas@.len() == columns@.len(),
            have_rows(sigmas@, n as nat),
            forall|j: int|
                0 <= j < columns@.len() ==> #[trigger] column_present(
                    columns@[j],
                    advice@,
                    fixed@,
                    instance@,
                    n as nat,
                ),
            all_values == row_of(
                permuted_columns(
                    columns@,
                    columns_of(advice@),
                    columns_of(fixed@),
                    columns_of(instance@),
                ),
                row as int,
            ),
            all_labels == row_of(columns_of(sigmas@), row as int),
            current.val() == fmul(p, start@, fpow(p, F::delta_val(), j as nat)),
            left.val() == bound_to(
                p,
                z_next.val(),
                all_values.subrange(from as int, j as int),
                all_labels.subrange(from as int, j as int),
                beta.val(),
                gamma.val(),
            ),
            right.val() == spread(
                p,
                z_here.val(),
                all_values.subrange(from as int, j as int),
                from as nat,
                start@,
                F::delta_val(),
                gamma.val(),
            ),
        decreases to - j,
    {
        assert(column_present(columns@[j as int], advice@, fixed@, instance@, n as nat));
        let column = values_for_column(advice, fixed, instance, columns[j], Ghost(n as nat));
        let value = column.at(row);
        assert(sigmas@[j as int]@.len() == n);
        let label = sigmas[j].at(row);
        assert(value.val() == all_values[j as int]);
        assert(label.val() == all_labels[j as int]);
        left = left.mul(&value.add(&beta.mul(&label)).add(&gamma));
        right = right.mul(&value.add(&current).add(&gamma));
        current = current.mul(&F::delta());
        proof {
            F::lemma_modulus();
            lemma_fmul_assoc(p, start@, fpow(p, F::delta_val(), j as nat), F::delta_val());
            let v0 = all_values.subrange(from as int, j as int);
            let v1 = all_values.subrange(from as int, j + 1);
            let s0 = all_labels.subrange(from as int, j as int);
            let s1 = all_labels.subrange(from as int, j + 1);
            assert(v1.drop_last() =~= v0);
            assert(s1.drop_last() =~= s0);
            assert(v1.last() == all_values[j as int]);
            assert(s1.last() == all_labels[j as int]);
            assert((from as nat) + (v1.len() - 1) as nat == j as nat);
        }
        j += 1;
    }
    (left.sub(&right), current)
}

/// Where the next chunk starts.
pub proof fn lemma_next_chunk(m: nat, chunk_len: nat, k: nat)
    requires
        chunk_len > 0,
    ensures
        chunk_start(m, chunk_len, 0) == 0,
        chunk_start(m, chunk_len, k) <= m,
        chunk_start(m, chunk_len, k + 1) == (if m - chunk_start(m, chunk_len, k) < chunk_len {
            m
        } else {
            chunk_start(m, chunk_len, k) + chunk_len
        }),
{
    assert((k + 1) * chunk_len == k * chunk_len + chunk_len) by (nonlinear_arith);
    assert(0 * chunk_len == 0) by (nonlinear_arith);
}

/// The columns of a permutation argument, as its constraints speak of them.
pub open spec fn permutation_columns<F: Field>(
    columns: Seq<GpuColumn<GpuAny>>,
    advice: Seq<Seq<int>>,
    fixed: Seq<Seq<int>>,
    instance: Seq<Seq<int>>,
    products: Seq<Seq<int>>,
    sigmas: Seq<Seq<int>>,
    l0: Seq<int>,
    l_last: Seq<int>,
    l_active: Seq<int>,
    chunk_len: nat,
    size: i32,
    last: i32,
    beta: int,
    gamma: int,
) -> PermutationColumns {
    PermutationColumns {
        products,
        sigmas,
        columns: permuted_columns(columns, advice, fixed, instance),
        l0,
        l_last,
        l_active,
        chunk_len,
        size,
        last,
        delta: F::delta_val(),
        beta,
        gamma,
    }
}

/// The values of the constraints of the permutation argument at a row.
pub fn permutation_terms<F: Field>(
    columns: &Vec<GpuColumn<GpuAny>>,
    advice: &Vec<Polynomial<F, LagrangeCoeff>>,
    fixed: &Vec<Polynomial<F, LagrangeCoeff>>,
    instance: &Vec<Polynomial<F, LagrangeCoeff>>,
    products: &Vec<Polynomial<F, LagrangeCoeff>>,
    sigmas: &Vec<Polynomial<F, LagrangeCoeff>>,
    selectors: &RowSelectors<F>,
    chunk_len: usize,
    n: usize,
    last: i32,
    beta: F,
    gamma: F,
    start: F,
    row: usize,
) -> (r: Vec<F>)
    requires
        row < n <= i32::MAX,
        -i32::MAX <= last <= 0,
        chunk_len > 0,
        sigmas@.len() == columns@.len(),
        products@.len() == chunk_count(columns@.len(), chunk_len as nat),
        have_rows(sigmas@, n as nat),
        have_rows(products@, n as nat),
        selectors.have_rows(n as nat),
        forall|j: int|
            0 <= j < columns@.len() ==> #[trigger] column_present(
                columns@[j],
                advice@,
                fixed@,
                instance@,
                n as nat,
            ),
    ensures
        vals(r@) == permutation_columns::<F>(
            columns@,
            columns_of(advice@),
            columns_of(fixed@),
            columns_of(instance@),
            columns_of(products@),
            columns_of(sigmas@),
            vals(selectors.l0@),
            vals(selectors.l_last@),
            vals(selectors.l_active@),
            chunk_len as nat,
            n as i32,
            last,
            beta.val(),
            gamma.val(),
        ).terms(F::modulus(), row, start.val()),
{
    let ghost p = F::modulus();
    let ghost model = permutation_columns::<F>(
        columns@,
        columns_of(advice@),
        columns_of(fixed@),
        columns_of(instance@),
        columns_of(products@),
        columns_of(sigmas@),
        vals(selectors.l0@),
        vals(selectors.l_last@),
        vals(selectors.l_active@),
        chunk_len as nat,
        n as i32,
        last,
        beta.val(),
        gamma.val(),
    );
    let ghost ps = products@;
    let mut out: Vec<F> = Vec::new();
    let num_sets = products.len();
    if num_sets == 0 {
        assert(vals(out@) =~= model.terms(p, row, start.val()));
        return out;
    }
    let size: i32 = n as i32;
    let r_next = get_rotation_idx(row, 1, 1, size);
    let r_last = get_rotation_idx(row, last, 1, size);
    let l0 = selectors.l0.at(row);
    let l_active = selectors.l_active.at(row);
    assert(ps[0]@.len() == n && ps[num_sets - 1]@.len() == n);
    // Enforce only for the first set.
    // l_0(X) * (1 - z_0(X)) = 0
    let z_first = products[0].at(row);
    out.push(F::one().sub(&z_first).mul(&l0));
    // Enforce only for the last set.
    // l_last(X) * (z_l(X)^2 - z_l(X)) = 0
    let z_last = products[num_sets - 1].at(row);
    out.push(z_last.mul(&z_last).sub(&z_last).mul(&selectors.l_last.at(row)));
    let ghost head = seq![
        starts_at_one(p, model.products[0][row as int], model.l0[row as int]),
        ends_in_bit(p, model.products[num_sets - 1][row as int], model.l_last[row as int]),
    ];
    assert(vals(out@) =~= head);
    // Except for the first set, enforce.
    // l_0(X) * (z_i(X) - z_{i-1}(\omega^(last) X)) = 0
    let ghost chained = Seq::new((num_sets - 1) as nat, |k: int| model.chained(p, row, k));
    let mut k: usize = 1;
    assert(vals(out@) =~= head + chained.take(0));
    while k < num_sets
        invariant
            p == F::modulus(),
            ps == products@,
            1 <= k <= num_sets,
            num_sets == ps.len(),
            row < n,
            r_last < n,
            have_rows(ps, n as nat),
            r_last == rotated(row, last, 1, size),
            size == n as i32,
            model.products == columns_of(ps),
            model.size == size,
            model.last == last,
            row < model.l0.len(),
            l0.val() == model.l0[row as int],
            chained == Seq::new((num_sets - 1) as nat, |k: int| model.chained(p, row, k)),
            vals(out@) == head + chained.take(k - 1),
        decreases num_sets - k,
    {
        assert(ps[k as int]@.len() == n && ps[k - 1]@.len() == n);
        let ghost before = out@;
        out.push(products[k].at(row).sub(&products[k - 1].at(r_last)).mul(&l0));
        assert(vals(out@) =~= vals(before).push(out@.last().val()));
        assert(out@.last().val() == chained[k - 1]);
        assert(chained.take(k as int) =~= chained.take(k - 1).push(chained[k - 1]));
        assert(vals(out@) =~= head + chained.take(k as int));
        k += 1;
    }
    assert(chained.take(num_sets - 1) =~= chained);
    // And for all the sets we enforce:
    // (1 - (l_last(X) + l_blind(X))) * (
    //   z_i(\omega X) \prod_j (p(X) + \beta s_j(X) + \gamma)
    // - z_i(X) \prod_j (p(X) + \delta^j \beta X + \gamma)
    // )
    let ghost on = Seq::new(num_sets as nat, |k: int| model.goes_on(p, row, start.val(), k));
    let mut from: usize = 0;
    let mut current = start;
    proof {
        F::lemma_modulus();
        start.lemma_val_range();
        lemma_small_mod(1, p as nat);
        lemma_units(p, start.val());
        lemma_next_chunk(columns@.len(), chunk_len as nat, 0);
        assert(fpow(p, F::delta_val(), 0) == 1);
    }
    let mut k: usize = 0;
    assert(vals(out@) =~= head + chained + on.take(0));
    while k < num_sets
        invariant
            p == F::modulus(),
            ps == products@,
            k <= num_sets,
            num_sets == ps.len(),
            row < n,
            r_next < n,
            chunk_len > 0,
            r_next == rotated(row, 1, 1, size),
            size == n as i32,
            sigmas@.len() == columns@.len(),
            have_rows(sigmas@, n as nat),
            have_rows(ps, n as nat),
            forall|j: int|
                0 <= j < columns@.len() ==> #[trigger] column_present(
                    columns@[j],
                    advice@,
                    fixed@,
                    instance@,
                    n as nat,
                ),
            model.products == columns_of(ps),
            model.sigmas == columns_of(sigmas@),
            model.columns == permuted_columns(
                columns@,
                columns_of(advice@),
                columns_of(fixed@),
                columns_of(instance@),
            ),
            model.size == size,
            model.chunk_len == chunk_len,
            model.delta == F::delta_val(),
            model.beta == beta.val(),
            model.gamma == gamma.val(),
            l_active.val() == model.l_active[row as int],
            from == chunk_start(columns@.len(), chunk_len as nat, k as nat),
            current.val() == fmul(p, start.val(), fpow(p, F::delta_val(), from as nat)),
            on == Seq::new(num_sets as nat, |k: int| model.goes_on(p, row, start.val(), k)),
            vals(out@) == head + chained + on.take(k as int),
        decreases num_sets - k,
    {
        proof {
            lemma_next_chunk(columns@.len(), chunk_len as nat, k as nat);
        }
        let to = if columns.len() - from < chunk_len {
            columns.len()
        } else {
            from + chunk_len
        };
        assert(ps[k as int]@.len() == n);
        let z_next = products[k].at(r_next);
        let z_here = products[k].at(row);
        let (difference, after) = set_difference(
            columns,
            advice,
            fixed,
            instance,
            sigmas,
            n,
            row,
            z_next,
            z_here,
            from,
            to,
            current,
            beta,
            gamma,
            Ghost(start.val()),
        );
        let ghost before = out@;
        out.push(difference.mul(&l_active));
        current = after;
        from = to;
        proof {
            assert(model.chunk_row(model.columns, k as int, row as int) =~= row_of(
                model.columns,
                row as int,
            ).subrange(chunk_start(columns@.len(), chunk_len as nat, k as nat) as int, to as int));
            assert(vals(out@) =~= vals(before).push(out@.last().val()));
            assert(out@.last().val() == on[k as int]);
            assert(on.take(k + 1) =~= on.take(k as int).push(on[k as int]));
            assert(vals(out@) =~= head + chained + on.take(k + 1));
        }
        k += 1;
    }
    assert(on.take(num_sets as int) =~= on);
    out
}

/// The columns that the constraints of a lookup argument speak of.
pub struct LookupColumns {
    pub product: Seq<int>,
    pub permuted_input: Seq<int>,
    pub permuted_table: Seq<int>,
    pub l0: Seq<int>,
    pub l_last: Seq<int>,
    pub l_active: Seq<int>,
    pub size: i32,
    pub beta: int,
    pub gamma: int,
}

impl LookupColumns {
    /// The constraints of row `i`, where `table_value` is `(A + beta) (S + gamma)`
    /// there.
    pub open spec fn terms(self, p: int, i: usize, table_value: int) -> Seq<int> {
        let z = self.product[i as int];
        let z_next = self.product[rotated(i, 1, 1, self.size)];
        let a = self.permuted_input[i as int];
        let a_prev = self.permuted_input[rotated(i, -1i32, 1, self.size)];
        let s = self.permuted_table[i as int];
        let (l0, l_active) = (self.l0[i as int], self.l_active[i as int]);
        seq![
            starts_at_one(p, z, l0),
            ends_in_bit(p, z, self.l_last[i as int]),
            fmul(
                p,
                fsub(
                    p,
                    fmul(p, fmul(p, z_next, fadd(p, a, self.beta)), fadd(p, s, self.gamma)),
                    fmul(p, z, table_value),
                ),
                l_active,
            ),
            fmul(p, fsub(p, a, s), l0),
            fmul(p, fmul(p, fsub(p, a, s), fsub(p, a, a_prev)), l_active),
        ]
    }
}

/// The columns of a lookup argument.
#[derive(Debug)]
pub struct LookupParts<F: Field> {
    pub product: Polynomial<F, LagrangeCoeff>,
    pub permuted_input: Polynomial<F, LagrangeCoeff>,
    pub permuted_table: Polynomial<F, LagrangeCoeff>,
}

impl<F: Field> LookupParts<F> {
    pub open spec fn have_rows(self, n: nat) -> bool {
        &&& self.product@.len() == n
        &&& self.permuted_input@.len() == n
        &&& self.permuted_table@.len() == n
    }
}

/// The values of the constraints of a lookup argument at a row.
pub fn lookup_terms<F: Field>(
    lookup: &LookupParts<F>,
    selectors: &RowSelectors<F>,
    n: usize,
    beta: F,
    gamma: F,
    table_value: F,
    row: usize,
) -> (r: Vec<F>)
    requires
        row < n <= i32::MAX,
        lookup.have_rows(n as nat),
        selectors.have_rows(n as nat),
    ensures
        vals(r@) == (LookupColumns {
            product: vals(lookup.product@),
            permuted_input: vals(lookup.permuted_input@),
            permuted_table: vals(lookup.permuted_table@),
            l0: vals(selectors.l0@),
            l_last: vals(selectors.l_last@),
            l_active: vals(selectors.l_active@),
            size: n as i32,
            beta: beta.val(),
            gamma: gamma.val(),
        }).terms(F::modulus(), row, table_value.val()),
{
    let size: i32 = n as i32;
    let r_next = get_rotation_idx(row, 1, 1, size);
    let r_prev = get_rotation_idx(row, -1, 1, size);
    let l0 = selectors.l0.at(row);
    let l_last = selectors.l_last.at(row);
    let l_active = selectors.l_active.at(row);
    let z = lookup.product.at(row);
    let z_next = lookup.product.at(r_next);
    let a = lookup.permuted_input.at(row);
    let s = lookup.permuted_table.at(row);
    let a_minus_s = a.sub(&s);
    let mut out: Vec<F> = Vec::new();
    // l_0(X) * (1 - z(X)) = 0
    out.push(F::one().sub(&z).mul(&l0));
    // l_last(X) * (z(X)^2 - z(X)) = 0
    out.push(z.mul(&z).sub(&z).mul(&l_last));
    // (1 - (l_last(X) + l_blind(X))) * (
    //   z(\omega X) (a'(X) + \beta) (s'(X) + \gamma)
    //   - z(X) (\theta^{m-1} a_0(X) + ... + a_{m-1}(X) + \beta)
    //          (\theta^{m-1} s_0(X) + ... + s_{m-1}(X) + \gamma)
    // ) = 0
    out.push(
        z_next.mul(&a.add(&beta)).mul(&s.add(&gamma)).sub(&z.mul(&table_value)).mul(&l_active),
    );
    // Check that the first values in the permuted input expression and permuted
    // fixed expression are the same.
    // l_0(X) * (a'(X) - s'(X)) = 0
    out.push(a_minus_s.mul(&l0));
    // Check that each value in the permuted lookup input expression is either
    // equal to the value above it, or the value at the same index in the
    // permuted table expression.
    // (1 - (l_last + l_blind)) * (a'(X) - s'(X)) (a'(X) - a'(\omega^{-1} X)) = 0
    out.push(a_minus_s.mul(&a.sub(&lookup.permuted_input.at(r_prev))).mul(&l_active));
    let ghost expected = (LookupColumns {
        product: vals(lookup.product@),
        permuted_input: vals(lookup.permuted_input@),
        permuted_table: vals(lookup.permuted_table@),
        l0: vals(selectors.l0@),
        l_last: vals(selectors.l_last@),
        l_active: vals(selectors.l_active@),
        size: n as i32,
        beta: beta.val(),
        gamma: gamma.val(),
    }).terms(F::modulus(), row, table_value.val());
    assert(vals(out@) =~= expected);
    out
}

/// Folds constraints into a value, one multiplication by `y` and one addition
/// for each.
pub fn fold_terms<F: Field>(value: F, terms: &Vec<F>, y: F) -> (r: F)
    ensures
        r.val() == horner(F::modulus(), value.val(), vals(terms@), y.val()),
{
    let mut acc = value;
    let mut i: usize = 0;
    while i < terms.len()
        invariant
            i <= terms@.len(),
            acc.val() == horner(F::modulus(), value.val(), vals(terms@).take(i as int), y.val()),
        decreases terms@.len() - i,
    {
        acc = acc.mul(&y).add(&terms[i]);
        assert(vals(terms@).take(i + 1).drop_last() =~= vals(terms@).take(i as int));
        i += 1;
    }
    assert(vals(terms@).take(i as int) =~= vals(terms@));
    acc
}

} // verus!
