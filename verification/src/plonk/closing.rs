//! The running products of a permutation argument close where all copies hold.

use crate::field::{
    finv, fmul, fpow, has_inverse, is_inverse, lemma_f_range, lemma_fmul_assoc, lemma_fmul_comm,
    lemma_fpow_add, lemma_units, Field,
};
use crate::plonk::constraints::lemma_next_chunk;
use crate::plonk::permutation::keygen::{label, law_mapping_is_permutation, Assembly};
use crate::plonk::permutation::prover::{
    chunk_count, chunk_start, labelled, labelled_product, law_running_product, own_labels, row_of,
    ProductInputs,
};
use crate::plonk::products::{
    fprod, lemma_fprod_append, lemma_fprod_invertible, lemma_fprod_pairs, lemma_fprod_quotients,
    lemma_fprod_range, lemma_fprod_reindexed, lemma_running_is_fprod,
};
use crate::plonk::satisfaction::{
    all_zero, law_permutation_constraints_hold, lemma_start_range,
};
use crate::plonk::witness::{cell, lemma_cells};
use vstd::arithmetic::div_mod::{lemma_fundamental_div_mod_converse, lemma_small_mod};
use vstd::prelude::*;

verus! {

/// The label of a cell: `delta^j omega^i`.
pub open spec fn own_label(p: int, delta: int, omega: int, j: int, i: int) -> int {
    fmul(p, fpow(p, delta, j as nat), fpow(p, omega, i as nat))
}

impl ProductInputs {
    /// A cell, bound to its own label.
    pub open spec fn own_factor(self, p: int, j: int, i: int) -> int {
        labelled(
            p,
            self.columns[j][i],
            own_label(p, self.delta, self.omega, j, i),
            self.beta,
            self.gamma,
        )
    }

    /// A cell, bound to the label that the permutation gives it.
    pub open spec fn new_factor(self, p: int, j: int, i: int) -> int {
        labelled(p, self.columns[j][i], self.sigmas[j][i], self.beta, self.gamma)
    }
}

/// The product over the first `u` rows of a column.
pub open spec fn column_product(p: int, g: spec_fn(int, int) -> int, u: nat, j: int) -> int {
    fprod(p, Seq::new(u, |i: int| g(j, i)))
}

/// The product over the first `u` rows of the first `m` columns.
pub open spec fn columns_product(p: int, g: spec_fn(int, int) -> int, u: nat, m: nat) -> int {
    fprod(p, Seq::new(m, |j: int| column_product(p, g, u, j)))
}

/// The product over columns, in a row.
pub open spec fn row_product(
    p: int,
    g: spec_fn(int, int) -> int,
    from: int,
    to: int,
    i: int,
) -> int {
    fprod(p, Seq::new((to - from) as nat, |k: int| g(from + k, i)))
}

/// The products over columns, row by row.
pub open spec fn row_products(
    p: int,
    g: spec_fn(int, int) -> int,
    u: nat,
    from: int,
    to: int,
) -> Seq<int> {
    Seq::new(u, |i: int| row_product(p, g, from, to, i))
}

/// Going row by row through further columns, or column by column, comes to the
/// same.
proof fn lemma_exchange(p: int, g: spec_fn(int, int) -> int, u: nat, from: int, to: int)
    requires
        p > 1,
        0 <= from <= to,
    ensures
        fmul(p, columns_product(p, g, u, from as nat), fprod(p, row_products(p, g, u, from, to)))
            == columns_product(p, g, u, to as nat),
    decreases to - from,
{
    let before = columns_product(p, g, u, from as nat);
    lemma_fprod_range(p, Seq::new(from as nat, |j: int| column_product(p, g, u, j)));
    lemma_small_mod(1, p as nat);
    if to == from {
        let rows = row_products(p, g, u, from, to);
        assert forall|i: int| 0 <= i < u implies #[trigger] rows[i] == 1 by {
            assert(Seq::new((to - from) as nat, |k: int| g(from + k, i)) =~= Seq::<int>::empty());
        }
        lemma_ones(p, rows);
        lemma_units(p, before);
    } else {
        lemma_exchange(p, g, u, from, to - 1);
        let a = row_products(p, g, u, from, to - 1);
        let b = Seq::new(u, |i: int| g(to - 1, i));
        let c = row_products(p, g, u, from, to);
        assert forall|i: int| 0 <= i < u implies #[trigger] c[i] == fmul(p, a[i], b[i]) by {
            let row = Seq::new((to - from) as nat, |k: int| g(from + k, i));
            assert(row.drop_last() =~= Seq::new((to - 1 - from) as nat, |k: int| g(from + k, i)));
        }
        lemma_fprod_pairs(p, a, b, c);
        lemma_fmul_assoc(p, before, fprod(p, a), fprod(p, b));
        let all = Seq::new(to as nat, |j: int| column_product(p, g, u, j));
        assert(all.drop_last() =~= Seq::new(
            (to - 1) as nat,
            |j: int| column_product(p, g, u, j),
        ));
    }
}

proof fn lemma_ones(p: int, s: Seq<int>)
    requires
        p > 1,
        forall|i: int| 0 <= i < s.len() ==> #[trigger] s[i] == 1,
    ensures
        fprod(p, s) == 1,
    decreases s.len(),
{
    lemma_small_mod(1, p as nat);
    if s.len() > 0 {
        lemma_ones(p, s.drop_last());
        assert(s[s.len() - 1] == 1);
        assert(fmul(p, 1, 1) == 1);
    }
}

/// The product of labelled values as a product of factors.
proof fn lemma_labelled_is_fprod(
    p: int,
    values: Seq<int>,
    labels: Seq<int>,
    beta: int,
    gamma: int,
)
    requires
        values.len() == labels.len(),
    ensures
        labelled_product(p, values, labels, beta, gamma) == fprod(
            p,
            Seq::new(values.len(), |k: int| labelled(p, values[k], labels[k], beta, gamma)),
        ),
    decreases values.len(),
{
    if values.len() > 0 {
        let (v, l) = (values.drop_last(), labels.drop_last());
        lemma_labelled_is_fprod(p, v, l, beta, gamma);
        let all = Seq::new(values.len(), |k: int| labelled(p, values[k], labels[k], beta, gamma));
        assert(all.drop_last() =~= Seq::new(
            v.len(),
            |k: int| labelled(p, v[k], l[k], beta, gamma),
        ));
    }
}

/// What a row's factor in a chunk is the quotient of.
proof fn lemma_row_quotient(x: ProductInputs, p: int, c: nat, i: int)
    requires
        p > 1,
        x.chunk_len > 0,
        x.sigmas.len() == x.columns.len(),
        0 <= i < x.n,
    ensures
        ({
            let m = x.columns.len();
            let from = chunk_start(m, x.chunk_len, c) as int;
            let to = chunk_start(m, x.chunk_len, c + 1) as int;
            let num = row_product(p, |j: int, i: int| x.own_factor(p, j, i), from, to, i);
            let den = row_product(p, |j: int, i: int| x.new_factor(p, j, i), from, to, i);
            &&& from <= to <= m
            &&& x.factors(p, c)[i] == fmul(p, finv(p, den), num)
            &&& den == x.denominator(p, c, i)
        }),
{
    let m = x.columns.len();
    let from = chunk_start(m, x.chunk_len, c) as int;
    let to = chunk_start(m, x.chunk_len, c + 1) as int;
    lemma_next_chunk(m, x.chunk_len, c);
    let values = row_of(x.chunk(x.columns, c), i);
    let sigmas = row_of(x.chunk(x.sigmas, c), i);
    let start = fpow(p, x.delta, from as nat);
    let own = own_labels(p, x.chunk(x.columns, c).len(), start, x.delta, x.omega, i as nat);
    lemma_labelled_is_fprod(p, values, sigmas, x.beta, x.gamma);
    lemma_labelled_is_fprod(p, values, own, x.beta, x.gamma);
    let len = (to - from) as nat;
    let g = |j: int, i: int| x.own_factor(p, j, i);
    let h = |j: int, i: int| x.new_factor(p, j, i);
    assert forall|k: int| 0 <= k < len implies #[trigger] own[k] == own_label(
        p,
        x.delta,
        x.omega,
        from + k,
        i,
    ) by {
        lemma_fpow_add(p, x.delta, from as nat, k as nat);
    }
    assert(Seq::new(values.len(), |k: int| labelled(p, values[k], own[k], x.beta, x.gamma))
        =~= Seq::new(len, |k: int| g(from + k, i)));
    assert(Seq::new(values.len(), |k: int| labelled(p, values[k], sigmas[k], x.beta, x.gamma))
        =~= Seq::new(len, |k: int| h(from + k, i)));
}

/// What the products of the first `c` chunks come to: the product of all cells
/// with their own labels, over that of all cells with the labels that the
/// permutation gives them.
proof fn lemma_start_quotient(x: ProductInputs, p: int, bf: nat, c: nat)
    requires
        p > 1,
        x.wf(bf),
        forall|d: nat, i: int|
            d < c && 0 <= i < x.n - bf - 1 ==> has_inverse(p, #[trigger] x.denominator(p, d, i)),
    ensures
        ({
            let u = (x.n - bf - 1) as nat;
            let m = chunk_start(x.columns.len(), x.chunk_len, c);
            let own = columns_product(p, |j: int, i: int| x.own_factor(p, j, i), u, m);
            let new = columns_product(p, |j: int, i: int| x.new_factor(p, j, i), u, m);
            &&& fmul(p, x.start(p, c), new) == own
            &&& has_inverse(p, new)
        }),
    decreases c,
{
    let u = (x.n - bf - 1) as nat;
    let g = |j: int, i: int| x.own_factor(p, j, i);
    let h = |j: int, i: int| x.new_factor(p, j, i);
    lemma_small_mod(1, p as nat);
    assert(fmul(p, 1, 1) == 1);
    assert(is_inverse(p, 1, 1));
    let total = x.columns.len();
    lemma_next_chunk(total, x.chunk_len, 0);
    if c > 0 {
        let b = (c - 1) as nat;
        lemma_start_quotient(x, p, bf, b);
        let from = chunk_start(total, x.chunk_len, b) as int;
        let to = chunk_start(total, x.chunk_len, c) as int;
        lemma_next_chunk(total, x.chunk_len, b);
        let nums = row_products(p, g, u, from, to);
        let dens = row_products(p, h, u, from, to);
        let factors = x.factors(p, b);
        let q = factors.take(u as int);
        assert forall|i: int| 0 <= i < u implies #[trigger] q[i] == fmul(
            p,
            finv(p, dens[i]),
            nums[i],
        ) by {
            lemma_row_quotient(x, p, b, i);
        }
        assert forall|i: int| 0 <= i < nums.len() implies 0 <= #[trigger] nums[i] < p by {
            lemma_fprod_range(p, Seq::new((to - from) as nat, |k: int| g(from + k, i)));
        }
        assert forall|i: int| 0 <= i < dens.len() implies has_inverse(p, #[trigger] dens[i]) by {
            lemma_row_quotient(x, p, b, i);
            assert(has_inverse(p, x.denominator(p, b, i)));
        }
        lemma_fprod_quotients(p, q, nums, dens);
        lemma_fprod_invertible(p, dens);
        lemma_exchange(p, g, u, from, to);
        lemma_exchange(p, h, u, from, to);
        lemma_running_is_fprod(p, factors, u);
        lemma_start_range(x, p, b);
        law_running_product(p, factors, x.start(p, b), u);
        let (s, k) = (x.start(p, b), fprod(p, q));
        let (pb, d) = (columns_product(p, h, u, from as nat), fprod(p, dens));
        let (pa, n) = (columns_product(p, g, u, from as nat), fprod(p, nums));
        assert(x.start(p, c) == fmul(p, s, k));
        // (s k) (pb d) = (s pb) (k d) = pa n
        lemma_four(p, s, k, pb, d);
        lemma_product_invertible(p, pb, d);
    } else {
        assert(Seq::new(0, |j: int| column_product(p, g, u, j)) =~= Seq::<int>::empty());
        assert(Seq::new(0, |j: int| column_product(p, h, u, j)) =~= Seq::<int>::empty());
    }
}

proof fn lemma_four(p: int, a: int, b: int, c: int, d: int)
    requires
        p > 1,
    ensures
        fmul(p, fmul(p, a, b), fmul(p, c, d)) == fmul(p, fmul(p, a, c), fmul(p, b, d)),
{
    lemma_fmul_assoc(p, a, b, fmul(p, c, d));
    lemma_fmul_assoc(p, b, c, d);
    lemma_fmul_comm(p, b, c);
    lemma_fmul_assoc(p, c, b, d);
    lemma_fmul_assoc(p, a, c, fmul(p, b, d));
}

proof fn lemma_product_invertible(p: int, a: int, b: int)
    requires
        p > 1,
        has_inverse(p, a),
        has_inverse(p, b),
    ensures
        has_inverse(p, fmul(p, a, b)),
{
    let c = choose|c: int| is_inverse(p, a, c);
    let d = choose|d: int| is_inverse(p, b, d);
    lemma_four(p, a, b, c, d);
    lemma_small_mod(1, p as nat);
    assert(fmul(p, 1, 1) == 1);
    lemma_f_range(p, c, d);
    assert(is_inverse(p, fmul(p, a, b), fmul(p, c, d)));
}

/// All cells of the first `m` columns, column by column.
pub open spec fn all_cells(g: spec_fn(int, int) -> int, u: nat, m: nat) -> Seq<int> {
    Seq::new(m * u, |t: int| g(t / (u as int), t % (u as int)))
}

proof fn lemma_all_cells(p: int, g: spec_fn(int, int) -> int, u: nat, m: nat)
    requires
        p > 1,
        u > 0,
    ensures
        fprod(p, all_cells(g, u, m)) == columns_product(p, g, u, m),
    decreases m,
{
    if m == 0 {
        assert(0 * u == 0);
        assert(all_cells(g, u, m) =~= Seq::<int>::empty());
        assert(Seq::new(0, |j: int| column_product(p, g, u, j)) =~= Seq::<int>::empty());
    } else {
        let k = (m - 1) as nat;
        lemma_all_cells(p, g, u, k);
        let last = Seq::new(u, |i: int| g(k as int, i));
        let before = all_cells(g, u, k);
        let all = all_cells(g, u, m);
        assert(m * u == k * u + u) by (nonlinear_arith)
            requires
                m == k + 1,
        ;
        assert(all =~= before + last) by {
            assert forall|i: int| 0 <= i < u implies #[trigger] all[k * u + i] == last[i] by {
                lemma_fundamental_div_mod_converse(k * u + i, u as int, k as int, i);
            }
            assert forall|t: int| 0 <= t < all.len() implies all[t] == (before + last)[t] by {
                if t >= k * u {
                    let i = t - k * u;
                    assert(all[k * u + i] == last[i]);
                }
            }
        }
        lemma_fprod_append(p, before, last);
        let columns = Seq::new(m, |j: int| column_product(p, g, u, j));
        assert(columns.drop_last() =~= Seq::new(k, |j: int| column_product(p, g, u, j)));
    }
}

impl ProductInputs {
    /// Whether a permutation of the cells of the first `u` rows leads from each
    /// cell to one with the same value, and gives each cell the label of the one
    /// it leads to.
    pub open spec fn follows(self, p: int, u: nat, next: spec_fn(int, int) -> (int, int)) -> bool {
        let m = self.columns.len();
        &&& forall|j: int, i: int|
            0 <= j < m && 0 <= i < u ==> {
                let y = #[trigger] next(j, i);
                &&& 0 <= y.0 < m
                &&& 0 <= y.1 < u
                &&& self.columns[y.0][y.1] == self.columns[j][i]
                &&& self.sigmas[j][i] == own_label(p, self.delta, self.omega, y.0, y.1)
            }
        &&& forall|j: int, i: int, k: int, l: int|
            0 <= j < m && 0 <= i < u && 0 <= k < m && 0 <= l < u && #[trigger] next(j, i)
                == #[trigger] next(k, l) ==> j == k && i == l
    }
}

/// Where the permutation leads from each cell to one with the same value, the
/// running products of all chunks together end in one.
pub proof fn law_permutation_products_close(
    x: ProductInputs,
    p: int,
    bf: nat,
    next: spec_fn(int, int) -> (int, int),
)
    requires
        p > 1,
        x.wf(bf),
        x.follows(p, (x.n - bf - 1) as nat, next),
        forall|c: nat, i: int|
            c < x.blinds.len() && 0 <= i < x.n - bf - 1 ==> has_inverse(
                p,
                #[trigger] x.denominator(p, c, i),
            ),
    ensures
        x.start(p, x.blinds.len()) == 1,
{
    let u = (x.n - bf - 1) as nat;
    let m = x.columns.len();
    let c = x.blinds.len();
    let g = |j: int, i: int| x.own_factor(p, j, i);
    let h = |j: int, i: int| x.new_factor(p, j, i);
    lemma_start_quotient(x, p, bf, c);
    lemma_last_chunk(m, x.chunk_len);
    assert(chunk_start(m, x.chunk_len, c) == m);
    lemma_all_cells(p, g, u, m);
    lemma_all_cells(p, h, u, m);
    let (a, b) = (all_cells(g, u, m), all_cells(h, u, m));
    let w = u as int;
    let pick = Seq::new(
        m * u,
        |t: int| {
            let y = next(t / w, t % w);
            cell(w, y.0, y.1)
        },
    );
    assert forall|t: int| 0 <= t < b.len() implies {
        &&& 0 <= #[trigger] pick[t] < a.len()
        &&& b[t] == a[pick[t]]
    } by {
        let (j, i) = (t / w, t % w);
        lemma_split(t, w, m as int);
        let y = next(j, i);
        lemma_cells(w, m as int, y.0, y.1, y.0, y.1);
        assert(w * m == m * u) by (nonlinear_arith)
            requires
                w == u,
        ;
        lemma_fundamental_div_mod_converse(cell(w, y.0, y.1), w, y.0, y.1);
    }
    assert forall|t: int| 0 <= t < b.len() implies #[trigger] b[t] == a[pick[t]] by {
        let _ = pick[t];
    }
    assert forall|t: int, r: int| 0 <= t < r < pick.len() implies #[trigger] pick[t]
        != #[trigger] pick[r] by {
        lemma_split(t, w, m as int);
        lemma_split(r, w, m as int);
        let y = next(t / w, t % w);
        let z = next(r / w, r % w);
        lemma_cells(w, m as int, y.0, y.1, z.0, z.1);
        if pick[t] == pick[r] {
            assert(y == z);
        }
    }
    lemma_fprod_reindexed(p, a, b, pick);
    // s k = k, and k has an inverse, so s is one.
    let (s, k) = (x.start(p, c), columns_product(p, h, u, m));
    lemma_start_range(x, p, c);
    lemma_fprod_range(p, b);
    let v = choose|v: int| is_inverse(p, k, v);
    lemma_fmul_assoc(p, s, k, v);
    lemma_units(p, s);
    assert(fmul(p, k, v) == 1);
}

/// A position among columns of `w` rows is a column and a row.
proof fn lemma_split(t: int, w: int, m: int)
    requires
        0 <= t < m * w,
        w > 0,
    ensures
        0 <= t / w < m,
        0 <= t % w < w,
        t == cell(w, t / w, t % w),
{
    vstd::arithmetic::div_mod::lemma_fundamental_div_mod(t, w);
    assert(w * (t / w) == (t / w) * w) by (nonlinear_arith);
    assert(t / w < m) by (nonlinear_arith)
        requires
            t < m * w,
            w > 0,
            t == (t / w) * w + t % w,
            0 <= t % w,
    ;
    assert(0 <= t / w) by (nonlinear_arith)
        requires
            0 <= t,
            w > 0,
    ;
}

/// The chunks cover all columns.
proof fn lemma_last_chunk(m: nat, chunk_len: nat)
    requires
        chunk_len > 0,
    ensures
        chunk_start(m, chunk_len, chunk_count(m, chunk_len)) == m,
{
    let c = chunk_count(m, chunk_len) as int;
    let l = chunk_len as int;
    let t = m + l - 1;
    vstd::arithmetic::div_mod::lemma_fundamental_div_mod(t, l);
    assert(0 <= t / l) by (nonlinear_arith)
        requires
            0 <= t,
            l > 0,
    ;
    assert(l * c == c * l) by (nonlinear_arith);
    assert(c * l >= m);
}

/// Whether the columns carry the same value wherever cells have been constrained
/// to be equal, and no unusable row has been.
pub open spec fn copies_hold(x: ProductInputs, g: Assembly, u: nat) -> bool {
    &&& forall|c: (usize, usize)| #[trigger]
        g.has_cell(x.n, c) && c.1 < u ==> x.columns[g.next(c).0 as int][g.next(c).1 as int]
            == x.columns[c.0 as int][c.1 as int]
    &&& forall|c: (usize, usize)| #[trigger] g.has_cell(x.n, c) && c.1 >= u ==> g.next(c) == c
}

/// Where all copies of a circuit hold, its permutation argument does: the running
/// products satisfy the constraints in every row, as long as no denominator
/// vanishes.
pub proof fn law_copies_satisfy_permutation<F: Field>(
    x: ProductInputs,
    g: Assembly,
    bf: nat,
    row: usize,
)
    requires
        x.wf(bf),
        x.delta == F::delta_val(),
        g.wf(),
        g.columns@.len() == x.columns.len(),
        x.columns.len() > 0 ==> g.rows() == x.n,
        x.columns.len() <= usize::MAX,
        forall|c: (usize, usize)| #[trigger]
            g.has_cell(x.n, c) ==> x.sigmas[c.0 as int][c.1 as int] == label::<F>(
                x.omega,
                g.next(c),
            ),
        copies_hold(x, g, (x.n - bf - 1) as nat),
        forall|c: nat, i: int|
            c < x.blinds.len() && 0 <= i < x.n - bf - 1 ==> has_inverse(
                F::modulus(),
                #[trigger] x.denominator(F::modulus(), c, i),
            ),
        row < x.n,
    ensures
        x.start(F::modulus(), x.blinds.len()) == 1,
        all_zero(
            x.constrained(F::modulus(), bf).terms(
                F::modulus(),
                row,
                fmul(F::modulus(), x.beta, fpow(F::modulus(), x.omega, row as nat)),
            ),
        ),
{
    let p = F::modulus();
    F::lemma_modulus();
    let u = (x.n - bf - 1) as nat;
    let m = x.columns.len();
    let next = |j: int, i: int| {
        let y = g.next((j as usize, i as usize));
        (y.0 as int, y.1 as int)
    };
    assert forall|j: int, i: int| 0 <= j < m && 0 <= i < u implies {
        let y = #[trigger] next(j, i);
        &&& 0 <= y.0 < m
        &&& 0 <= y.1 < u
        &&& x.columns[y.0][y.1] == x.columns[j][i]
        &&& x.sigmas[j][i] == own_label(p, x.delta, x.omega, y.0, y.1)
    } by {
        let c = (j as usize, i as usize);
        assert(g.has_cell(x.n, c));
        law_mapping_is_permutation(g, c, c);
        let d = g.next(c);
        assert(g.has_cell(x.n, d));
        if d.1 >= u {
            // The cell would lead to itself, and no other does.
            assert(g.next(d) == d);
            law_mapping_is_permutation(g, c, d);
        }
        lemma_fmul_comm(
            p,
            fpow(p, x.omega, d.1 as nat),
            fpow(p, F::delta_val(), d.0 as nat),
        );
    }
    assert forall|j: int, i: int, k: int, l: int|
        0 <= j < m && 0 <= i < u && 0 <= k < m && 0 <= l < u && #[trigger] next(j, i)
            == #[trigger] next(k, l) implies j == k && i == l by {
        let c = (j as usize, i as usize);
        let d = (k as usize, l as usize);
        assert(g.has_cell(x.n, c) && g.has_cell(x.n, d));
        law_mapping_is_permutation(g, c, d);
    }
    assert(x.follows(p, u, next));
    law_permutation_products_close(x, p, bf, next);
    assert forall|c: int| 0 <= c < x.blinds.len() && row < x.n - bf - 1 implies has_inverse(
        p,
        #[trigger] x.denominator(p, c as nat, row as int),
    ) by {
        let _ = x.denominator(p, c as nat, row as int);
    }
    law_permutation_constraints_hold(x, p, bf, row);
}

} // verus!
