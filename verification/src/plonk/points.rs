//! The folded constraints as a function of the point: each row of each part of
//! the coset stands for a point, and any point lies on a part.

use crate::field::{fmul, fpow, lemma_f_range, lemma_fmul_assoc, lemma_units, vals, Field};
use crate::plonk::circuit::GpuAny;
use crate::plonk::constraints::{permuted_columns, PermutationColumns};
use crate::plonk::evaluation::rotated;
use crate::plonk::permutation::prover::{chunk_count, row_of};
use crate::plonk::quotient::{
    first_label, have_coefficients, CircuitColumns, CircuitPolys, QuotientModel,
};
use crate::poly::arithmetic::poly_eval;
use crate::poly::domain::EvaluationDomain;
use crate::poly::rotations::law_part_rotation;
use crate::poly::transforms::lemma_zeta;
use crate::poly::Rotation;
use vstd::arithmetic::div_mod::lemma_small_mod;
use vstd::prelude::*;

verus! {

/// The value of a polynomial at a rotation of a point.
pub open spec fn at_rotation<F: Field>(
    domain: EvaluationDomain<F>,
    a: Seq<int>,
    x: int,
    rotation: int,
) -> int {
    poly_eval(F::modulus(), a, fmul(F::modulus(), x, domain.omega_power(rotation)))
}

impl<F: Field> QuotientModel<F> {
    /// The shift of the part of the coset that begins at a point.
    pub open spec fn through(self, x: int) -> int {
        fmul(F::modulus(), self.domain.g_coset_inv.val(), x)
    }

    /// The columns on the part of the coset that begins at a point.
    pub open spec fn columns_through(self, circuit: CircuitPolys<F>, x: int) -> CircuitColumns {
        self.columns(circuit, self.through(x))
    }

    /// The folded constraints of the first `c` circuits at a point.
    pub open spec fn point_value(self, circuits: Seq<CircuitPolys<F>>, c: nat, x: int) -> int {
        self.value(circuits, self.through(x), c, 0)
    }

    /// The coefficients of a column of the permutation.
    pub open spec fn permuted(self, circuit: CircuitPolys<F>, j: int) -> Seq<int> {
        let column = self.columns[j];
        match column.column_type {
            GpuAny::Advice(_) => vals(circuit.advice@[column.index as int]@),
            GpuAny::Fixed => vals(self.key.fixed@[column.index as int]@),
            GpuAny::Instance => vals(circuit.instance@[column.index as int]@),
        }
    }

    /// Whether all polynomials of a batch are there.
    pub open spec fn all_complete(self, circuits: Seq<CircuitPolys<F>>) -> bool {
        &&& self.domain.wf()
        &&& 1 < self.domain.size() <= i32::MAX
        &&& forall|c: int| 0 <= c < circuits.len() ==> self.complete(#[trigger] circuits[c])
    }

    /// Whether all polynomials are there, with as many coefficients as the
    /// domain has rows.
    pub open spec fn complete(self, circuit: CircuitPolys<F>) -> bool {
        let n = self.domain.size();
        &&& self.domain.wf()
        &&& 1 < n <= i32::MAX
        &&& self.key.wf(n)
        &&& self.key.sigmas@.len() == self.columns.len()
        &&& have_coefficients(circuit.advice@, n)
        &&& have_coefficients(circuit.instance@, n)
        &&& have_coefficients(circuit.products@, n)
        &&& self.chunk_len > 0
        &&& circuit.products@.len() == chunk_count(self.columns.len(), self.chunk_len)
        &&& forall|j: int|
            0 <= j < self.columns.len() ==> match (#[trigger] self.columns[j]).column_type {
                GpuAny::Advice(_) => self.columns[j].index < circuit.advice@.len(),
                GpuAny::Fixed => self.columns[j].index < self.key.fixed@.len(),
                GpuAny::Instance => self.columns[j].index < circuit.instance@.len(),
            }
        &&& circuit.lookups@.len() == self.graphs.len()
        &&& forall|k: int|
            0 <= k < circuit.lookups@.len() ==> {
                &&& (#[trigger] circuit.lookups@[k]).product@.len() == n
                &&& circuit.lookups@[k].permuted_input@.len() == n
                &&& circuit.lookups@[k].permuted_table@.len() == n
            }
    }
}

/// The part that begins at a point begins there.
pub proof fn lemma_through<F: Field>(model: QuotientModel<F>, x: int)
    requires
        model.domain.wf(),
        0 <= x < F::modulus(),
    ensures
        model.domain.part_point(model.through(x), 0) == x,
{
    let p = F::modulus();
    let d = model.domain;
    F::lemma_modulus();
    lemma_zeta::<F>();
    lemma_fmul_assoc(p, d.g_coset.val(), d.g_coset_inv.val(), x);
    lemma_units(p, x);
    lemma_small_mod(1, p as nat);
    assert(fpow(p, d.omega.val(), 0) == 1);
}

/// What is read from a part's column.
pub proof fn lemma_part_cell<F: Field>(
    domain: EvaluationDomain<F>,
    a: Seq<int>,
    at: int,
    i: usize,
    rotation: i32,
)
    requires
        domain.wf(),
        domain.size() <= i32::MAX,
        i < domain.size(),
    ensures
        0 <= rotated(i, rotation, 1, domain.size() as i32) < domain.size(),
        domain.part_values(a, at)[rotated(i, rotation, 1, domain.size() as i32)] == at_rotation(
            domain,
            a,
            domain.part_point(at, i as int),
            rotation as int,
        ),
        domain.part_values(a, at)[i as int] == at_rotation(
            domain,
            a,
            domain.part_point(at, i as int),
            0,
        ),
{
    domain.lemma_domain();
    law_part_rotation(domain, a, at, i as nat, rotation as int);
    law_part_rotation(domain, a, at, i as nat, 0);
    lemma_small_mod(i as nat, domain.size());
    assert(rotation * 1 == rotation);
}

/// The labels of the first column's cells are multiples of the points.
pub proof fn lemma_first_label<F: Field>(model: QuotientModel<F>, at: int, i: nat)
    requires
        model.domain.wf(),
    ensures
        first_label::<F>(model.folding.beta.val(), at, model.domain.omega.val(), i) == fmul(
            F::modulus(),
            model.folding.beta.val(),
            model.domain.part_point(at, i as int),
        ),
{
    let p = F::modulus();
    F::lemma_modulus();
    let (b, z, w) = (
        model.folding.beta.val(),
        F::zeta_val(),
        fpow(p, model.domain.omega.val(), i),
    );
    // (b z) (at w) = b ((z at) w)
    lemma_fmul_assoc(p, b, z, fmul(p, at, w));
    lemma_fmul_assoc(p, z, at, w);
}

/// Two parts whose rows stand for the same point.
pub open spec fn same_point<F: Field>(
    domain: EvaluationDomain<F>,
    a: int,
    i: usize,
    b: int,
    j: usize,
) -> bool {
    &&& domain.wf()
    &&& domain.size() <= i32::MAX
    &&& i < domain.size()
    &&& j < domain.size()
    &&& domain.part_point(a, i as int) == domain.part_point(b, j as int)
}

/// The cells that gates see depend on the point alone.
pub proof fn lemma_same_cells<F: Field>(
    model: QuotientModel<F>,
    circuit: CircuitPolys<F>,
    a: int,
    i: usize,
    b: int,
    j: usize,
)
    requires
        same_point(model.domain, a, i, b, j),
    ensures
        model.columns(circuit, a).cells(i) == model.columns(circuit, b).cells(j),
{
    let d = model.domain;
    let u = model.columns(circuit, a).cells(i);
    let v = model.columns(circuit, b).cells(j);
    assert forall|c: usize, r: Rotation| #[trigger] (u.fixed)(c, r) == (v.fixed)(c, r) by {
        if c < model.key.fixed@.len() {
            lemma_part_cell(d, vals(model.key.fixed@[c as int]@), a, i, r.0);
            lemma_part_cell(d, vals(model.key.fixed@[c as int]@), b, j, r.0);
        }
    }
    assert forall|c: usize, r: Rotation| #[trigger] (u.advice)(c, r) == (v.advice)(c, r) by {
        if c < circuit.advice@.len() {
            lemma_part_cell(d, vals(circuit.advice@[c as int]@), a, i, r.0);
            lemma_part_cell(d, vals(circuit.advice@[c as int]@), b, j, r.0);
        }
    }
    assert forall|c: usize, r: Rotation| #[trigger] (u.instance)(c, r) == (v.instance)(c, r) by {
        if c < circuit.instance@.len() {
            lemma_part_cell(d, vals(circuit.instance@[c as int]@), a, i, r.0);
            lemma_part_cell(d, vals(circuit.instance@[c as int]@), b, j, r.0);
        }
    }
    assert(u.fixed =~= v.fixed);
    assert(u.advice =~= v.advice);
    assert(u.instance =~= v.instance);
    assert(u.selector =~= v.selector);
    assert(u.challenge =~= v.challenge);
}

/// The columns of the permutation argument on a part.
pub open spec fn permutation_part<F: Field>(
    model: QuotientModel<F>,
    circuit: CircuitPolys<F>,
    at: int,
) -> PermutationColumns {
    let columns = model.columns(circuit, at);
    PermutationColumns {
        products: columns.products,
        sigmas: columns.sigmas,
        columns: permuted_columns(
            columns.columns,
            columns.advice,
            columns.fixed,
            columns.instance,
        ),
        l0: columns.l0,
        l_last: columns.l_last,
        l_active: columns.l_active,
        chunk_len: columns.chunk_len,
        size: columns.size,
        last: columns.last,
        delta: F::delta_val(),
        beta: columns.beta,
        gamma: columns.gamma,
    }
}

/// The columns of a part are the values of the columns' polynomials on it.
pub proof fn lemma_permuted_part<F: Field>(
    model: QuotientModel<F>,
    circuit: CircuitPolys<F>,
    at: int,
    j: int,
)
    requires
        model.complete(circuit),
        0 <= j < model.columns.len(),
    ensures
        permutation_part(model, circuit, at).columns.len() == model.columns.len(),
        permutation_part(model, circuit, at).columns[j] == model.domain.part_values(
            model.permuted(circuit, j),
            at,
        ),
        model.permuted(circuit, j).len() == model.domain.size(),
{
    let column = model.columns[j];
    match column.column_type {
        GpuAny::Advice(_) => {
            assert(circuit.advice@[column.index as int]@.len() == model.domain.size());
        },
        GpuAny::Fixed => {
            assert(model.key.fixed@[column.index as int]@.len() == model.domain.size());
        },
        GpuAny::Instance => {
            assert(circuit.instance@[column.index as int]@.len() == model.domain.size());
        },
    }
}

/// The constraints of the permutation argument depend on the point alone.
proof fn lemma_same_permutation<F: Field>(
    model: QuotientModel<F>,
    circuit: CircuitPolys<F>,
    a: int,
    i: usize,
    b: int,
    j: usize,
    start: int,
)
    requires
        model.complete(circuit),
        same_point(model.domain, a, i, b, j),
    ensures
        model.columns(circuit, a).permutation_terms::<F>(i, start) == model.columns(
            circuit,
            b,
        ).permutation_terms::<F>(j, start),
{
    let p = F::modulus();
    let d = model.domain;
    let u = permutation_part(model, circuit, a);
    let v = permutation_part(model, circuit, b);
    let m = u.products.len();
    assert(model.columns(circuit, a).permutation_terms::<F>(i, start) == u.terms(p, i, start));
    assert(model.columns(circuit, b).permutation_terms::<F>(j, start) == v.terms(p, j, start));
    lemma_part_cell(d, vals(model.key.l0@), a, i, 0);
    lemma_part_cell(d, vals(model.key.l0@), b, j, 0);
    lemma_part_cell(d, vals(model.key.l_last@), a, i, 0);
    lemma_part_cell(d, vals(model.key.l_last@), b, j, 0);
    lemma_part_cell(d, vals(model.key.l_active@), a, i, 0);
    lemma_part_cell(d, vals(model.key.l_active@), b, j, 0);
    assert forall|k: int| 0 <= k < m implies {
        &&& #[trigger] u.products[k][i as int] == v.products[k][j as int]
        &&& u.products[k][rotated(i, 1, 1, u.size)] == v.products[k][rotated(j, 1, 1, v.size)]
        &&& u.products[k][rotated(i, u.last, 1, u.size)] == v.products[k][rotated(
            j,
            v.last,
            1,
            v.size,
        )]
    } by {
        let c = vals(circuit.products@[k]@);
        lemma_part_cell(d, c, a, i, 1);
        lemma_part_cell(d, c, b, j, 1);
        lemma_part_cell(d, c, a, i, model.last);
        lemma_part_cell(d, c, b, j, model.last);
    }
    assert(row_of(u.columns, i as int) =~= row_of(v.columns, j as int)) by {
        assert forall|c: int| 0 <= c < u.columns.len() implies u.columns[c][i as int]
            == v.columns[c][j as int] by {
            lemma_permuted_part(model, circuit, a, c);
            lemma_permuted_part(model, circuit, b, c);
            lemma_part_cell(d, model.permuted(circuit, c), a, i, 0);
            lemma_part_cell(d, model.permuted(circuit, c), b, j, 0);
        }
    }
    assert(row_of(u.sigmas, i as int) =~= row_of(v.sigmas, j as int)) by {
        assert forall|c: int| 0 <= c < u.sigmas.len() implies u.sigmas[c][i as int]
            == v.sigmas[c][j as int] by {
            lemma_part_cell(d, vals(model.key.sigmas@[c]@), a, i, 0);
            lemma_part_cell(d, vals(model.key.sigmas@[c]@), b, j, 0);
        }
    }
    if m > 0 {
        let (s, t) = (u.terms(p, i, start), v.terms(p, j, start));
        let _ = u.products[0][i as int];
        let _ = u.products[m - 1][i as int];
        assert forall|k: int| 0 <= k < m - 1 implies u.chained(p, i, k) == v.chained(p, j, k) by {
            let _ = u.products[k][i as int];
            let _ = u.products[k + 1][i as int];
        }
        assert forall|k: int| 0 <= k < m implies u.goes_on(p, i, start, k) == v.goes_on(
            p,
            j,
            start,
            k,
        ) by {
            let _ = u.products[k][i as int];
        }
        assert(s =~= t);
    }
}

/// The constraints of the lookups depend on the point alone.
proof fn lemma_same_lookups<F: Field>(
    model: QuotientModel<F>,
    circuit: CircuitPolys<F>,
    a: int,
    i: usize,
    b: int,
    j: usize,
    k: nat,
)
    requires
        model.complete(circuit),
        same_point(model.domain, a, i, b, j),
        k <= circuit.lookups@.len(),
    ensures
        model.columns(circuit, a).lookups_terms(F::modulus(), model.graphs, k, i)
            == model.columns(circuit, b).lookups_terms(F::modulus(), model.graphs, k, j),
    decreases k,
{
    if k > 0 {
        let d = model.domain;
        let (u, v) = (model.columns(circuit, a), model.columns(circuit, b));
        lemma_same_lookups(model, circuit, a, i, b, j, (k - 1) as nat);
        lemma_same_cells(model, circuit, a, i, b, j);
        let l = circuit.lookups@[k - 1];
        let input = d.coefficients(vals(l.permuted_input@));
        let table = d.coefficients(vals(l.permuted_table@));
        lemma_part_cell(d, vals(l.product@), a, i, 1);
        lemma_part_cell(d, vals(l.product@), b, j, 1);
        lemma_part_cell(d, input, a, i, -1i32);
        lemma_part_cell(d, input, b, j, -1i32);
        lemma_part_cell(d, table, a, i, 0);
        lemma_part_cell(d, table, b, j, 0);
        lemma_part_cell(d, vals(model.key.l0@), a, i, 0);
        lemma_part_cell(d, vals(model.key.l0@), b, j, 0);
        lemma_part_cell(d, vals(model.key.l_last@), a, i, 0);
        lemma_part_cell(d, vals(model.key.l_last@), b, j, 0);
        lemma_part_cell(d, vals(model.key.l_active@), a, i, 0);
        lemma_part_cell(d, vals(model.key.l_active@), b, j, 0);
        assert(u.scalars(0) == v.scalars(0));
        let g = model.graphs[k - 1];
        assert(u.lookup_terms(F::modulus(), g, k - 1, i) =~= v.lookup_terms(
            F::modulus(),
            g,
            k - 1,
            j,
        ));
    }
}

/// The rows of all parts are points: the folded constraints in a row are those
/// at the point that the row stands for.
pub proof fn law_rows_are_points<F: Field>(
    model: QuotientModel<F>,
    circuits: Seq<CircuitPolys<F>>,
    c: nat,
    at: int,
    i: usize,
)
    requires
        model.all_complete(circuits),
        c <= circuits.len(),
        i < model.domain.size(),
    ensures
        model.value(circuits, at, c, i) == model.point_value(
            circuits,
            c,
            model.domain.part_point(at, i as int),
        ),
    decreases c,
{
    if c > 0 {
        let p = F::modulus();
        let d = model.domain;
        d.lemma_domain();
        let circuit = circuits[c - 1];
        assert(model.complete(circuit));
        law_rows_are_points(model, circuits, (c - 1) as nat, at, i);
        let x = d.part_point(at, i as int);
        lemma_f_range(p, fmul(p, d.g_coset.val(), at), fpow(p, d.omega.val(), i as nat));
        let b = model.through(x);
        lemma_through(model, x);
        lemma_first_label(model, at, i as nat);
        lemma_first_label(model, b, 0);
        let start = first_label::<F>(model.folding.beta.val(), at, d.omega.val(), i as nat);
        lemma_same_cells(model, circuit, at, i, b, 0);
        lemma_same_permutation(model, circuit, at, i, b, 0, start);
        lemma_same_lookups(model, circuit, at, i, b, 0, circuit.lookups@.len());
        let (u, v) = (model.columns(circuit, at), model.columns(circuit, b));
        let previous = model.value(circuits, at, (c - 1) as nat, i);
        assert(u.scalars(previous) == v.scalars(previous));
    }
}

} // verus!
