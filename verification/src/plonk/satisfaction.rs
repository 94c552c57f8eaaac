//! What is folded into the quotient vanishes where a circuit is satisfied.

use crate::field::{
    fadd, finv, fmul, fpow, fsub, has_inverse, is_inverse, lemma_f_range, lemma_fmul_assoc,
    lemma_fmul_comm, lemma_fpow_add, lemma_units, Field,
};
use crate::plonk::constraint_system::GpuGate;
use crate::plonk::constraints::{
    bound_to, lemma_next_chunk, spread, LookupColumns, PermutationColumns,
};
use crate::plonk::evaluation::rotated;
use crate::plonk::evaluator::{custom_gates_graph, gate_polys, law_custom_gates_value, values_of};
use crate::plonk::graph::{all_selector_free, GraphModel};
use crate::plonk::graph_values::horner;
use crate::plonk::keygen::{first_row, last_usable, usable};
use crate::plonk::lookup;
use crate::plonk::lookup::permute::{repeats, well_permuted};
use crate::plonk::lookup::prover::{bound_pair, law_lookup_product_closes, lookup_factor};
use crate::plonk::permutation::prover::{
    chunk_count, chunk_start, labelled, labelled_product, own_labels, product_column, row_of,
    running, ProductInputs,
};
use crate::plonk::products::lemma_running_is_fprod;
use crate::plonk::quotient::{lemma_horner_append, CircuitColumns};
use vstd::arithmetic::div_mod::lemma_small_mod;
use vstd::prelude::*;

verus! {

/// Whether all values are zero.
pub open spec fn all_zero(s: Seq<int>) -> bool {
    forall|i: int| 0 <= i < s.len() ==> #[trigger] s[i] == 0
}

/// Folding constraints that all hold gives zero.
pub proof fn law_satisfied_constraints_fold_to_zero(p: int, terms: Seq<int>, y: int)
    requires
        p > 1,
        all_zero(terms),
    ensures
        horner(p, 0, terms, y) == 0,
    decreases terms.len(),
{
    if terms.len() > 0 {
        let rest = terms.drop_last();
        assert forall|i: int| 0 <= i < rest.len() implies #[trigger] rest[i] == 0 by {
            assert(terms[i] == 0);
        }
        law_satisfied_constraints_fold_to_zero(p, rest, y);
        lemma_small_mod(0, p as nat);
        assert(0 * y == 0);
        assert(terms[terms.len() - 1] == 0);
    }
}

pub proof fn lemma_zeros(p: int, a: int)
    requires
        p > 1,
    ensures
        fmul(p, a, 0) == 0,
        fmul(p, 0, a) == 0,
        fsub(p, a, a) == 0,
{
    lemma_small_mod(0, p as nat);
    assert(a * 0 == 0);
    assert(0 * a == 0);
}

/// `z b^(-1) a` times `b` is `z a`.
pub proof fn lemma_factor_undone(p: int, z: int, a: int, b: int)
    requires
        p > 1,
        0 <= a < p,
        has_inverse(p, b),
    ensures
        fmul(p, fmul(p, z, fmul(p, finv(p, b), a)), b) == fmul(p, z, a),
{
    let v = finv(p, b);
    let c = choose|c: int| is_inverse(p, b, c);
    assert(is_inverse(p, b, v));
    lemma_fmul_assoc(p, z, fmul(p, v, a), b);
    // (v a) b = (a v) b = a (v b) = a (b v) = a
    lemma_fmul_comm(p, v, a);
    lemma_fmul_assoc(p, a, v, b);
    lemma_fmul_comm(p, v, b);
    lemma_units(p, a);
}

/// The columns of a lookup whose inputs are all in the table satisfy the
/// constraints of the lookup in every row: the permuted columns are as the
/// argument asks, and the running product is that of the compressed columns over
/// the permuted ones.
pub proof fn law_lookup_constraints_hold(
    p: int,
    a: Seq<int>,
    s: Seq<int>,
    permuted_a: Seq<int>,
    permuted_s: Seq<int>,
    beta: int,
    gamma: int,
    blinds: Seq<int>,
    i: usize,
)
    requires
        p > 1,
        0 < a.len() <= i32::MAX,
        s.len() == a.len(),
        permuted_a.len() == a.len(),
        permuted_s.len() == a.len(),
        blinds.len() + 1 < a.len(),
        i < a.len(),
        ({
            let u = a.len() - blinds.len() - 1;
            &&& well_permuted(permuted_a.take(u), permuted_s.take(u))
            &&& permuted_a.take(u).to_multiset() == a.take(u).to_multiset()
            &&& permuted_s.take(u).to_multiset() == s.take(u).to_multiset()
            &&& forall|j: int|
                0 <= j < u ==> has_inverse(
                    p,
                    bound_pair(p, #[trigger] permuted_a[j], permuted_s[j], beta, gamma),
                )
        }),
    ensures
        all_zero(
            (LookupColumns {
                product: product_column(
                    p,
                    Seq::new(
                        a.len(),
                        |j: int|
                            lookup_factor(
                                p,
                                a[j],
                                s[j],
                                permuted_a[j],
                                permuted_s[j],
                                beta,
                                gamma,
                            ),
                    ),
                    1,
                    (a.len() - blinds.len()) as nat,
                    blinds,
                ),
                permuted_input: permuted_a,
                permuted_table: permuted_s,
                l0: first_row(a.len()),
                l_last: last_usable(a.len(), blinds.len()),
                l_active: usable(a.len(), blinds.len()),
                size: a.len() as i32,
                beta,
                gamma,
            }).terms(p, i, bound_pair(p, a[i as int], s[i as int], beta, gamma)),
        ),
{
    let n = a.len();
    let bf = blinds.len();
    let u = n - bf - 1;
    let factors = Seq::new(
        n,
        |j: int| lookup_factor(p, a[j], s[j], permuted_a[j], permuted_s[j], beta, gamma),
    );
    let z = product_column(p, factors, 1, (n - bf) as nat, blinds);
    let columns = LookupColumns {
        product: z,
        permuted_input: permuted_a,
        permuted_table: permuted_s,
        l0: first_row(n),
        l_last: last_usable(n, bf),
        l_active: usable(n, bf),
        size: n as i32,
        beta,
        gamma,
    };
    let r = i as int;
    let table = bound_pair(p, a[r], s[r], beta, gamma);
    let terms = columns.terms(p, i, table);
    lemma_small_mod(1, p as nat);
    // It starts at one.
    assert(terms[0] == 0) by {
        lemma_zeros(p, fsub(p, 1, z[r]));
        if r == 0 {
            assert(z[0] == 1);
            lemma_zeros(p, 1);
        }
    }
    // It ends in one.
    assert(terms[1] == 0) by {
        lemma_zeros(p, fsub(p, fmul(p, z[r], z[r]), z[r]));
        if r == u {
            let (at, st) = (a.take(u), s.take(u));
            let (pa, ps) = (permuted_a.take(u), permuted_s.take(u));
            assert forall|j: int| 0 <= j < at.len() implies has_inverse(
                p,
                bound_pair(p, #[trigger] pa[j], ps[j], beta, gamma),
            ) by {
                let _ = permuted_a[j];
            }
            law_lookup_product_closes(p, at, st, pa, ps, beta, gamma);
            lemma_running_is_fprod(p, factors, u as nat);
            assert(factors.take(u) =~= Seq::new(
                at.len(),
                |j: int| lookup_factor(p, at[j], st[j], pa[j], ps[j], beta, gamma),
            ));
            assert(z[r] == 1);
            assert(fmul(p, 1, 1) == 1);
            lemma_zeros(p, 1);
            lemma_zeros(p, 1);
        }
    }
    let l_active = columns.l_active[r];
    let (pa, ps) = (permuted_a[r], permuted_s[r]);
    // It goes on by the factor of the row.
    assert(terms[2] == 0) by {
        let z_next = z[rotated(i, 1, 1, n as i32)];
        let (x, y) = (fadd(p, pa, beta), fadd(p, ps, gamma));
        let difference = fsub(p, fmul(p, fmul(p, z_next, x), y), fmul(p, z[r], table));
        lemma_zeros(p, difference);
        if r < u {
            lemma_small_mod((r + 1) as nat, n);
            assert(z_next == running(p, factors, 1, (r + 1) as nat));
            assert(z_next == fmul(p, z[r], factors[r]));
            assert(has_inverse(p, bound_pair(p, permuted_a[r], permuted_s[r], beta, gamma)));
            lemma_fmul_assoc(p, z_next, x, y);
            lemma_f_range(p, fadd(p, a[r], beta), fadd(p, s[r], gamma));
            lemma_factor_undone(p, z[r], table, bound_pair(p, pa, ps, beta, gamma));
            lemma_zeros(p, fmul(p, z[r], table));
            lemma_zeros(p, l_active);
        }
    }
    // Inputs come in runs that start beside their value in the table.
    let (at, st) = (permuted_a.take(u), permuted_s.take(u));
    assert(terms[3] == 0) by {
        lemma_zeros(p, fsub(p, pa, ps));
        if r == 0 {
            assert(!repeats(at, 0));
            assert(st[0] == at[0]);
            lemma_zeros(p, pa);
            lemma_zeros(p, 1);
        }
    }
    assert(terms[4] == 0) by {
        let prev = permuted_a[rotated(i, -1i32, 1, n as i32)];
        let both = fmul(p, fsub(p, pa, ps), fsub(p, pa, prev));
        lemma_zeros(p, both);
        if r < u {
            lemma_zeros(p, l_active);
            if repeats(at, r) {
                lemma_small_mod((r - 1) as nat, n);
                assert(prev == permuted_a[r - 1]);
                assert(at[r] == at[r - 1]);
                lemma_zeros(p, pa);
                lemma_zeros(p, fsub(p, pa, ps));
            } else {
                assert(st[r] == at[r]);
                lemma_zeros(p, pa);
                lemma_zeros(p, fsub(p, pa, prev));
            }
        }
    }
    assert(terms.len() == 5);
}

/// `z` times bound values is `z` times their product.
proof fn lemma_bound_to(
    p: int,
    z: int,
    values: Seq<int>,
    labels: Seq<int>,
    beta: int,
    gamma: int,
)
    requires
        p > 1,
        0 <= z < p,
        labels.len() == values.len(),
    ensures
        bound_to(p, z, values, labels, beta, gamma) == fmul(
            p,
            z,
            labelled_product(p, values, labels, beta, gamma),
        ),
    decreases values.len(),
{
    if values.len() == 0 {
        lemma_units(p, z);
    } else {
        let (v, l) = (values.drop_last(), labels.drop_last());
        lemma_bound_to(p, z, v, l, beta, gamma);
        lemma_fmul_assoc(
            p,
            z,
            labelled_product(p, v, l, beta, gamma),
            labelled(p, values.last(), labels.last(), beta, gamma),
        );
    }
}

/// `z` times values bound to their own labels is `z` times their product, where
/// the labels are those of row `i`.
proof fn lemma_spread(
    p: int,
    z: int,
    values: Seq<int>,
    first: nat,
    delta: int,
    omega: int,
    beta: int,
    gamma: int,
    i: nat,
)
    requires
        p > 1,
        0 <= z < p,
    ensures
        spread(p, z, values, first, fmul(p, beta, fpow(p, omega, i)), delta, gamma) == fmul(
            p,
            z,
            labelled_product(
                p,
                values,
                own_labels(p, values.len(), fpow(p, delta, first), delta, omega, i),
                beta,
                gamma,
            ),
        ),
    decreases values.len(),
{
    let w = fpow(p, omega, i);
    let start = fmul(p, beta, w);
    if values.len() == 0 {
        lemma_units(p, z);
    } else {
        let v = values.drop_last();
        let j = (values.len() - 1) as nat;
        let labels = own_labels(p, values.len(), fpow(p, delta, first), delta, omega, i);
        let before = own_labels(p, v.len(), fpow(p, delta, first), delta, omega, i);
        assert(labels.drop_last() =~= before);
        lemma_spread(p, z, v, first, delta, omega, beta, gamma, i);
        let d = fpow(p, delta, first + j);
        lemma_fpow_add(p, delta, first, j);
        assert(labels.last() == fmul(p, d, w));
        // (beta w) d = beta (w d) = beta (d w)
        lemma_fmul_assoc(p, beta, w, d);
        lemma_fmul_comm(p, w, d);
        assert(fmul(p, start, d) == fmul(p, beta, labels.last()));
        lemma_fmul_assoc(
            p,
            z,
            labelled_product(p, v, before, beta, gamma),
            labelled(p, values.last(), labels.last(), beta, gamma),
        );
    }
}

proof fn lemma_labelled_product_range(
    p: int,
    values: Seq<int>,
    labels: Seq<int>,
    beta: int,
    gamma: int,
)
    requires
        p > 1,
    ensures
        0 <= labelled_product(p, values, labels, beta, gamma) < p,
{
    if values.len() > 0 {
        lemma_f_range(
            p,
            labelled_product(p, values.drop_last(), labels.drop_last(), beta, gamma),
            labelled(p, values.last(), labels.last(), beta, gamma),
        );
    }
}

pub proof fn lemma_running_range(p: int, factors: Seq<int>, start: int, i: nat)
    requires
        p > 1,
        0 <= start < p,
    ensures
        0 <= running(p, factors, start, i) < p,
{
    if i > 0 {
        lemma_f_range(p, running(p, factors, start, (i - 1) as nat), factors[i - 1]);
    }
}

pub proof fn lemma_start_range(x: ProductInputs, p: int, c: nat)
    requires
        p > 1,
    ensures
        0 <= x.start(p, c) < p,
    decreases c,
{
    if c > 0 {
        let b = (c - 1) as nat;
        lemma_start_range(x, p, b);
        lemma_running_range(p, x.factors(p, b), x.start(p, b), (x.acc_len - 1) as nat);
    }
}

impl ProductInputs {
    /// Whether the columns, of which `bf` rows and one hold no values, make
    /// products.
    pub open spec fn wf(self, bf: nat) -> bool {
        &&& 0 < self.n <= i32::MAX
        &&& bf + 1 < self.n
        &&& self.acc_len == self.n - bf
        &&& self.chunk_len > 0
        &&& self.sigmas.len() == self.columns.len()
        &&& self.blinds.len() == chunk_count(self.columns.len(), self.chunk_len)
        &&& forall|c: int| 0 <= c < self.blinds.len() ==> (#[trigger] self.blinds[c]).len() == bf
    }

    /// What a row's factor in a chunk is divided by.
    pub open spec fn denominator(self, p: int, c: nat, i: int) -> int {
        labelled_product(
            p,
            row_of(self.chunk(self.columns, c), i),
            row_of(self.chunk(self.sigmas, c), i),
            self.beta,
            self.gamma,
        )
    }

    /// The products and the other columns, as the constraints speak of them.
    pub open spec fn constrained(self, p: int, bf: nat) -> PermutationColumns {
        PermutationColumns {
            products: Seq::new(self.blinds.len(), |c: int| self.product(p, c as nat)),
            sigmas: self.sigmas,
            columns: self.columns,
            l0: first_row(self.n),
            l_last: last_usable(self.n, bf),
            l_active: usable(self.n, bf),
            chunk_len: self.chunk_len,
            size: self.n as i32,
            last: (-(bf + 1)) as i32,
            delta: self.delta,
            beta: self.beta,
            gamma: self.gamma,
        }
    }
}

/// A product goes on by the factor of each row.
proof fn lemma_goes_on(x: ProductInputs, p: int, bf: nat, i: usize, k: int)
    requires
        p > 1,
        x.wf(bf),
        i < x.n,
        0 <= k < x.blinds.len(),
        i < x.n - bf - 1 ==> has_inverse(p, x.denominator(p, k as nat, i as int)),
    ensures
        x.constrained(p, bf).goes_on(p, i, fmul(p, x.beta, fpow(p, x.omega, i as nat)), k) == 0,
{
    let model = x.constrained(p, bf);
    let r = i as int;
    let start = fmul(p, x.beta, fpow(p, x.omega, i as nat));
    let values = model.chunk_row(model.columns, k, r);
    let labels = model.chunk_row(model.sigmas, k, r);
    let first = chunk_start(x.columns.len(), x.chunk_len, k as nat);
    let z_next = model.products[k][rotated(i, 1, 1, model.size)];
    let z = model.products[k][r];
    let left = bound_to(p, z_next, values, labels, x.beta, x.gamma);
    let right = spread(p, z, values, first, start, x.delta, x.gamma);
    lemma_zeros(p, fsub(p, left, right));
    if r < x.n - bf - 1 {
        lemma_next_chunk(x.columns.len(), x.chunk_len, k as nat);
        let factors = x.factors(p, k as nat);
        let begin = x.start(p, k as nat);
        lemma_start_range(x, p, k as nat);
        lemma_small_mod((r + 1) as nat, x.n);
        assert(z_next == running(p, factors, begin, (r + 1) as nat));
        assert(z == running(p, factors, begin, r as nat));
        lemma_running_range(p, factors, begin, r as nat);
        lemma_running_range(p, factors, begin, (r + 1) as nat);
        assert(values =~= row_of(x.chunk(x.columns, k as nat), r));
        assert(labels =~= row_of(x.chunk(x.sigmas, k as nat), r));
        let own = own_labels(p, values.len(), fpow(p, x.delta, first), x.delta, x.omega, i as nat);
        let num = labelled_product(p, values, own, x.beta, x.gamma);
        let den = labelled_product(p, values, labels, x.beta, x.gamma);
        lemma_bound_to(p, z_next, values, labels, x.beta, x.gamma);
        lemma_spread(p, z, values, first, x.delta, x.omega, x.beta, x.gamma, i as nat);
        assert(factors[r] == fmul(p, finv(p, den), num));
        lemma_labelled_product_range(p, values, own, x.beta, x.gamma);
        lemma_factor_undone(p, z, num, den);
        assert(left == right);
        lemma_zeros(p, left);
        lemma_zeros(p, model.l_active[r]);
    }
}

/// The running products of a permutation argument satisfy its constraints in
/// every row, where the last of them ends in one, and no denominator vanishes.
pub proof fn law_permutation_constraints_hold(x: ProductInputs, p: int, bf: nat, i: usize)
    requires
        p > 1,
        x.wf(bf),
        i < x.n,
        x.start(p, x.blinds.len()) == 1,
        forall|c: int|
            0 <= c < x.blinds.len() && i < x.n - bf - 1 ==> has_inverse(
                p,
                #[trigger] x.denominator(p, c as nat, i as int),
            ),
    ensures
        all_zero(
            x.constrained(p, bf).terms(p, i, fmul(p, x.beta, fpow(p, x.omega, i as nat))),
        ),
{
    let model = x.constrained(p, bf);
    let start = fmul(p, x.beta, fpow(p, x.omega, i as nat));
    let terms = model.terms(p, i, start);
    let r = i as int;
    let n = model.products.len();
    let u = x.n - bf - 1;
    lemma_small_mod(1, p as nat);
    if n > 0 {
        assert(terms[0] == 0) by {
            let z = model.products[0][r];
            lemma_zeros(p, fsub(p, 1, z));
            if r == 0 {
                assert(z == x.start(p, 0));
                lemma_zeros(p, 1);
            }
        }
        assert(terms[1] == 0) by {
            let z = model.products[n - 1][r];
            lemma_zeros(p, fsub(p, fmul(p, z, z), z));
            if r == u {
                assert(z == x.start(p, n));
                assert(fmul(p, 1, 1) == 1);
                lemma_zeros(p, 1);
            }
        }
        assert forall|t: int| 0 <= t < terms.len() implies #[trigger] terms[t] == 0 by {
            if 2 <= t < n + 1 {
                let k = t - 2;
                assert(terms[t] == model.chained(p, i, k));
                let a = model.products[k + 1][r];
                let b = model.products[k][rotated(i, model.last, 1, model.size)];
                lemma_zeros(p, fsub(p, a, b));
                if r == 0 {
                    assert(a == x.start(p, (k + 1) as nat));
                    assert(rotated(i, model.last, 1, model.size) == u) by {
                        vstd::arithmetic::div_mod::lemma_mod_add_multiples_vanish(
                            -(bf + 1),
                            x.n as int,
                        );
                        lemma_small_mod(u as nat, x.n);
                    }
                    assert(b == x.start(p, (k + 1) as nat));
                    lemma_zeros(p, a);
                    lemma_zeros(p, 1);
                }
            } else if t >= n + 1 {
                let k = t - (n + 1);
                assert(terms[t] == model.goes_on(p, i, start, k));
                let _ = x.denominator(p, k as nat, r);
                lemma_goes_on(x, p, bf, i, k);
            }
        }
    }
}

/// The value of a row is the fold of all its constraints: those of the gates,
/// of the permutation argument, and of the lookups.
pub proof fn law_row_value_folds_constraints<F: Field>(
    part: CircuitColumns,
    gates: Seq<GpuGate<F>>,
    graphs: Seq<GraphModel>,
    i: usize,
    previous: int,
    start: int,
)
    requires
        all_selector_free(gate_polys(gates)),
        custom_gates_graph(gates).fits(),
        part.cells(i).in_range(F::modulus()),
    ensures
        part.row_value::<F>(custom_gates_graph(gates), graphs, i, previous, start) == horner(
            F::modulus(),
            previous,
            values_of(gate_polys(gates), part.cells(i)) + part.permutation_terms::<F>(i, start)
                + part.lookups_terms(F::modulus(), graphs, part.lookups.len(), i),
            part.y,
        ),
{
    let p = F::modulus();
    law_custom_gates_value(gates, part.cells(i), part.scalars(previous));
    let a = values_of(gate_polys(gates), part.cells(i));
    let b = part.permutation_terms::<F>(i, start);
    let c = part.lookups_terms(p, graphs, part.lookups.len(), i);
    lemma_horner_append(p, previous, a, b, part.y);
    lemma_horner_append(p, previous, a + b, c, part.y);
}

} // verus!
