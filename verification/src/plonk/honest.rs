//! The polynomials of an honest prover: where gates and copies hold and the
//! inputs of lookups are in their tables, all constraints hold in all rows.

use crate::field::{fmul, fpow, fsub, has_inverse, vals, Field};
use crate::plonk::closing::{copies_hold, law_copies_satisfy_permutation};
use crate::plonk::completeness::{law_domain_is_a_part, law_satisfied_circuits_have_quotients};
use crate::plonk::constraint_system::GpuGate;
use crate::plonk::degrees::lemma_point_cells_in_range;
use crate::plonk::evaluator::{gate_polys, law_lookup_value, lookup_graph, values_of};
use crate::plonk::graph_values::horner;
use crate::plonk::keygen::{first_row, last_usable, usable};
use crate::plonk::lookup;
use crate::plonk::lookup::permute::well_permuted;
use crate::plonk::lookup::prover::{bound_pair, lookup_factor};
use crate::plonk::permutation::keygen::{label, Assembly};
use crate::plonk::permutation::prover::{product_column, ProductInputs};
use crate::plonk::points::{lemma_permuted_part, lemma_same_cells, lemma_through, permutation_part};
use crate::plonk::quotient::{CircuitPolys, QuotientModel};
use crate::plonk::satisfaction::{
    all_zero, law_lookup_constraints_hold, lemma_running_range, lemma_start_range,
};
use crate::poly::arithmetic::{canonical, lemma_vals_canonical, poly_eval};
use crate::poly::exact::divided;
use vstd::prelude::*;

verus! {

/// The columns that a lookup is made of.
pub struct LookupInputs {
    /// The compressed inputs.
    pub a: Seq<int>,
    /// The compressed table.
    pub s: Seq<int>,
    pub permuted_a: Seq<int>,
    pub permuted_s: Seq<int>,
    pub blinds: Seq<int>,
}

impl LookupInputs {
    /// The running product of the lookup.
    pub open spec fn product(self, p: int, beta: int, gamma: int) -> Seq<int> {
        product_column(
            p,
            Seq::new(
                self.a.len(),
                |j: int|
                    lookup_factor(
                        p,
                        self.a[j],
                        self.s[j],
                        self.permuted_a[j],
                        self.permuted_s[j],
                        beta,
                        gamma,
                    ),
            ),
            1,
            (self.a.len() - self.blinds.len()) as nat,
            self.blinds,
        )
    }

    /// Whether the columns have `n` rows, and are permuted as the argument asks.
    pub open spec fn permuted_well(self, p: int, n: nat, bf: nat, beta: int, gamma: int) -> bool {
        let u = n - bf - 1;
        &&& bf + 1 < n
        &&& self.a.len() == n
        &&& self.s.len() == n
        &&& self.permuted_a.len() == n
        &&& self.permuted_s.len() == n
        &&& self.blinds.len() == bf
        &&& canonical(p, self.blinds)
        &&& well_permuted(self.permuted_a.take(u), self.permuted_s.take(u))
        &&& self.permuted_a.take(u).to_multiset() == self.a.take(u).to_multiset()
        &&& self.permuted_s.take(u).to_multiset() == self.s.take(u).to_multiset()
        &&& forall|j: int|
            0 <= j < u ==> has_inverse(
                p,
                bound_pair(p, #[trigger] self.permuted_a[j], self.permuted_s[j], beta, gamma),
            )
    }
}

impl<F: Field> QuotientModel<F> {
    /// Whether the key's selectors of rows are those of a circuit with `bf`
    /// blinding factors.
    pub open spec fn selects_rows(self, bf: nat) -> bool {
        let n = self.domain.size();
        &&& vals(self.key.l0@) == self.domain.coefficients(first_row(n))
        &&& vals(self.key.l_last@) == self.domain.coefficients(last_usable(n, bf))
        &&& vals(self.key.l_active@) == self.domain.coefficients(usable(n, bf))
    }

    /// Whether the polynomials of the permutation argument are those of the
    /// given columns and their products.
    pub open spec fn permutes(self, circuit: CircuitPolys<F>, x: ProductInputs, bf: nat) -> bool {
        let p = F::modulus();
        let n = self.domain.size();
        &&& x.wf(bf)
        &&& x.n == n
        &&& x.chunk_len == self.chunk_len
        &&& x.delta == F::delta_val()
        &&& x.omega == self.domain.omega.val()
        &&& x.beta == self.folding.beta.val()
        &&& x.gamma == self.folding.gamma.val()
        &&& self.last == -(bf + 1)
        &&& x.columns.len() == self.columns.len()
        &&& forall|j: int|
            0 <= j < x.columns.len() ==> {
                &&& (#[trigger] x.columns[j]).len() == n
                &&& canonical(p, x.columns[j])
                &&& self.permuted(circuit, j) == self.domain.coefficients(x.columns[j])
            }
        &&& forall|j: int|
            0 <= j < x.sigmas.len() ==> {
                &&& (#[trigger] x.sigmas[j]).len() == n
                &&& canonical(p, x.sigmas[j])
                &&& vals(self.key.sigmas@[j]@) == self.domain.coefficients(x.sigmas[j])
            }
        &&& forall|c: int|
            0 <= c < x.blinds.len() ==> {
                &&& canonical(p, #[trigger] x.blinds[c])
                &&& vals(circuit.products@[c]@) == self.domain.coefficients(
                    x.product(p, c as nat),
                )
            }
    }

    /// Whether the polynomials of a lookup are those of the given columns, which
    /// hold the compressed expressions.
    pub open spec fn looks_up(
        self,
        circuit: CircuitPolys<F>,
        argument: lookup::Argument<F>,
        k: int,
        l: LookupInputs,
        bf: nat,
    ) -> bool {
        let p = F::modulus();
        let (beta, gamma) = (self.folding.beta.val(), self.folding.gamma.val());
        &&& l.permuted_well(p, self.domain.size(), bf, beta, gamma)
        &&& vals(circuit.lookups@[k].product@) == self.domain.coefficients(
            l.product(p, beta, gamma),
        )
        &&& vals(circuit.lookups@[k].permuted_input@) == l.permuted_a
        &&& vals(circuit.lookups@[k].permuted_table@) == l.permuted_s
        &&& forall|i: usize|
            i < self.domain.size() ==> {
                let cells = #[trigger] self.domain_columns(circuit).cells(i);
                let theta = self.folding.theta.val();
                &&& l.a[i as int] == horner(
                    p,
                    0,
                    values_of(argument.input_expressions@, cells),
                    theta,
                )
                &&& l.s[i as int] == horner(
                    p,
                    0,
                    values_of(argument.table_expressions@, cells),
                    theta,
                )
            }
    }
}

/// On the domain the selectors of rows are what they were made of.
proof fn lemma_row_selectors<F: Field>(model: QuotientModel<F>, bf: nat)
    requires
        model.domain.wf(),
        model.selects_rows(bf),
    ensures
        ({
            let d = model.domain;
            let at = d.g_coset_inv.val();
            &&& d.part_values(vals(model.key.l0@), at) == first_row(d.size())
            &&& d.part_values(vals(model.key.l_last@), at) == last_usable(d.size(), bf)
            &&& d.part_values(vals(model.key.l_active@), at) == usable(d.size(), bf)
        }),
{
    F::lemma_modulus();
    let n = model.domain.size();
    law_domain_is_a_part(model.domain, first_row(n));
    law_domain_is_a_part(model.domain, last_usable(n, bf));
    law_domain_is_a_part(model.domain, usable(n, bf));
}

/// The permutation argument in the rows of the domain is that of the columns.
proof fn lemma_domain_permutation<F: Field>(
    model: QuotientModel<F>,
    circuit: CircuitPolys<F>,
    x: ProductInputs,
    bf: nat,
)
    requires
        model.complete(circuit),
        model.selects_rows(bf),
        model.permutes(circuit, x, bf),
    ensures
        permutation_part(model, circuit, model.domain.g_coset_inv.val()) == x.constrained(
            F::modulus(),
            bf,
        ),
{
    let p = F::modulus();
    let d = model.domain;
    let at = d.g_coset_inv.val();
    let u = permutation_part(model, circuit, at);
    let v = x.constrained(p, bf);
    F::lemma_modulus();
    lemma_row_selectors(model, bf);
    assert(u.products =~= v.products) by {
        assert forall|c: int| 0 <= c < u.products.len() implies u.products[c] == v.products[c] by {
            let column = x.product(p, c as nat);
            let blinds = x.blinds[c];
            assert(canonical(p, blinds));
            assert forall|i: int| 0 <= i < column.len() implies 0 <= #[trigger] column[i] < p by {
                if i < x.acc_len {
                    lemma_start_range(x, p, c as nat);
                    lemma_running_range(
                        p,
                        x.factors(p, c as nat),
                        x.start(p, c as nat),
                        i as nat,
                    );
                } else {
                    assert(0 <= blinds[i - x.acc_len] < p);
                }
            }
            law_domain_is_a_part(d, column);
        }
    }
    assert(u.sigmas =~= v.sigmas) by {
        assert forall|j: int| 0 <= j < u.sigmas.len() implies u.sigmas[j] == v.sigmas[j] by {
            let _ = x.sigmas[j];
            law_domain_is_a_part(d, x.sigmas[j]);
        }
    }
    assert(u.columns =~= v.columns) by {
        assert forall|j: int| 0 <= j < u.columns.len() implies u.columns[j] == v.columns[j] by {
            let _ = x.columns[j];
            lemma_permuted_part(model, circuit, at, j);
            law_domain_is_a_part(d, x.columns[j]);
        }
    }
}

/// The cells in the rows of the domain are canonical representatives.
proof fn lemma_domain_cells<F: Field>(model: QuotientModel<F>, circuit: CircuitPolys<F>, i: usize)
    requires
        model.complete(circuit),
        i < model.domain.size(),
    ensures
        model.domain_columns(circuit).cells(i).in_range(F::modulus()),
{
    let p = F::modulus();
    let d = model.domain;
    d.lemma_domain();
    vstd::arithmetic::power2::lemma_pow2_pos(d.k as nat);
    let at = d.g_coset_inv.val();
    let x = d.part_point(at, i as int);
    crate::field::lemma_f_range(
        p,
        fmul(p, d.g_coset.val(), at),
        fpow(p, d.omega.val(), i as nat),
    );
    lemma_through(model, x);
    lemma_same_cells(model, circuit, at, i, model.through(x), 0);
    lemma_point_cells_in_range(model, circuit, x);
}

/// A lookup that was permuted well holds in all rows of the domain.
pub proof fn law_lookup_holds_in_row<F: Field>(
    model: QuotientModel<F>,
    circuit: CircuitPolys<F>,
    gates: Seq<GpuGate<F>>,
    lookups: Seq<lookup::Argument<F>>,
    k: int,
    l: LookupInputs,
    bf: nat,
    i: usize,
)
    requires
        model.complete(circuit),
        model.describes(gates, lookups),
        model.selects_rows(bf),
        0 <= k < lookups.len(),
        model.looks_up(circuit, lookups[k], k, l, bf),
        i < model.domain.size(),
    ensures
        all_zero(
            model.domain_columns(circuit).lookup_terms(F::modulus(), model.graphs[k], k, i),
        ),
{
    let p = F::modulus();
    let d = model.domain;
    let columns = model.domain_columns(circuit);
    let (beta, gamma) = (model.folding.beta.val(), model.folding.gamma.val());
    F::lemma_modulus();
    lemma_row_selectors(model, bf);
    let polys = circuit.lookups@[k];
    // The columns of the lookup.
    let product = l.product(p, beta, gamma);
    assert forall|j: int| 0 <= j < product.len() implies 0 <= #[trigger] product[j] < p by {
        let acc = (l.a.len() - l.blinds.len()) as nat;
        if j < acc {
            lemma_running_range(
                p,
                Seq::new(
                    l.a.len(),
                    |t: int|
                        lookup_factor(
                            p,
                            l.a[t],
                            l.s[t],
                            l.permuted_a[t],
                            l.permuted_s[t],
                            beta,
                            gamma,
                        ),
                ),
                1,
                j as nat,
            );
        } else {
            assert(0 <= l.blinds[j - acc] < p);
        }
    }
    law_domain_is_a_part(d, product);
    lemma_vals_canonical(polys.permuted_input@);
    lemma_vals_canonical(polys.permuted_table@);
    law_domain_is_a_part(d, l.permuted_a);
    law_domain_is_a_part(d, l.permuted_s);
    // The value of the graph.
    let inputs = lookups[k].input_expressions@;
    let tables = lookups[k].table_expressions@;
    let cells = columns.cells(i);
    lemma_domain_cells(model, circuit, i);
    assert(model.graphs[k] == lookup_graph(inputs, tables));
    law_lookup_value(inputs, tables, cells, columns.scalars(0));
    law_lookup_constraints_hold(
        p,
        l.a,
        l.s,
        l.permuted_a,
        l.permuted_s,
        beta,
        gamma,
        l.blinds,
        i,
    );
    assert(columns.lookups[k] == (product, l.permuted_a, l.permuted_s));
    assert(columns.size == l.a.len() as i32);
}

/// What an honest prover makes the polynomials of a circuit from.
pub struct HonestCircuit {
    /// What the products of the permutation argument are made of.
    pub products: ProductInputs,
    /// What the lookups are made of.
    pub lookups: Seq<LookupInputs>,
}

impl<F: Field> QuotientModel<F> {
    /// Whether a circuit is that of an honest prover: its gates hold in every
    /// row, its copies hold, its lookups were permuted well, and no denominator
    /// of a running product vanishes.
    pub open spec fn honest(
        self,
        circuit: CircuitPolys<F>,
        gates: Seq<GpuGate<F>>,
        lookups: Seq<lookup::Argument<F>>,
        copies: Assembly,
        made_from: HonestCircuit,
        bf: nat,
    ) -> bool {
        let x = made_from.products;
        // The gates hold.
        &&& forall|i: usize|
            i < self.domain.size() ==> all_zero(
                values_of(
                    gate_polys(gates),
                    #[trigger] self.domain_columns(circuit).cells(i),
                ),
            )
        // The copies hold.
        &&& self.permutes(circuit, x, bf)
        &&& copies.columns@.len() == x.columns.len()
        &&& x.columns.len() > 0 ==> copies.rows() == x.n
        &&& x.columns.len() <= usize::MAX
        &&& forall|c: (usize, usize)| #[trigger]
            copies.has_cell(x.n, c) ==> x.sigmas[c.0 as int][c.1 as int] == label::<F>(
                x.omega,
                copies.next(c),
            )
        &&& copies_hold(x, copies, (x.n - bf - 1) as nat)
        &&& forall|c: nat, i: int|
            c < x.blinds.len() && 0 <= i < x.n - bf - 1 ==> has_inverse(
                F::modulus(),
                #[trigger] x.denominator(F::modulus(), c, i),
            )
        // The lookups were permuted well.
        &&& made_from.lookups.len() == lookups.len()
        &&& forall|k: int|
            0 <= k < lookups.len() ==> self.looks_up(
                circuit,
                lookups[k],
                k,
                #[trigger] made_from.lookups[k],
                bf,
            )
    }
}

/// All constraints of an honest prover's circuit hold in all rows.
pub proof fn law_honest_circuits_hold<F: Field>(
    model: QuotientModel<F>,
    circuit: CircuitPolys<F>,
    gates: Seq<GpuGate<F>>,
    lookups: Seq<lookup::Argument<F>>,
    copies: Assembly,
    made_from: HonestCircuit,
    bf: nat,
    i: usize,
)
    requires
        model.complete(circuit),
        model.describes(gates, lookups),
        model.selects_rows(bf),
        copies.wf(),
        model.honest(circuit, gates, lookups, copies, made_from, bf),
        i < model.domain.size(),
    ensures
        model.holds_in_row(circuit, gates, i),
{
    let p = F::modulus();
    let x = made_from.products;
    let columns = model.domain_columns(circuit);
    let _ = columns.cells(i);
    let start = fmul(p, x.beta, fpow(p, x.omega, i as nat));
    lemma_domain_permutation(model, circuit, x, bf);
    law_copies_satisfy_permutation::<F>(x, copies, bf, i);
    assert(columns.permutation_terms::<F>(i, start) == permutation_part(
        model,
        circuit,
        model.domain.g_coset_inv.val(),
    ).terms(p, i, start));
    assert forall|k: int| 0 <= k < model.graphs.len() implies all_zero(
        #[trigger] columns.lookup_terms(p, model.graphs[k], k, i),
    ) by {
        law_lookup_holds_in_row(
            model,
            circuit,
            gates,
            lookups,
            k,
            made_from.lookups[k],
            bf,
            i,
        );
    }
}

/// Honest proofs are complete. For a batch of circuits whose gates hold in every
/// row, whose copies hold, and whose lookups were permuted well, where no
/// denominator of a running product vanishes, the numerator on the coset, divided
/// there and turned into coefficients, is a polynomial `h` with `h(x) (x^n - 1)`
/// equal to the folded constraints at every point `x`.
pub proof fn law_honest_proofs_are_complete<F: Field>(
    model: QuotientModel<F>,
    circuits: Seq<CircuitPolys<F>>,
    gates: Seq<GpuGate<F>>,
    lookups: Seq<lookup::Argument<F>>,
    copies: Assembly,
    made_from: Seq<HonestCircuit>,
    bf: nat,
    numerator: Seq<int>,
    point: int,
)
    requires
        model.all_complete(circuits),
        model.describes(gates, lookups),
        model.within_degree(
            gates,
            lookups,
            (model.domain.quotient_poly_degree + 1) as nat,
        ),
        model.selects_rows(bf),
        copies.wf(),
        made_from.len() == circuits.len(),
        forall|c: int|
            0 <= c < circuits.len() ==> model.honest(
                #[trigger] circuits[c],
                gates,
                lookups,
                copies,
                made_from[c],
                bf,
            ),
        model.is_numerator(circuits, numerator),
        0 <= point < F::modulus(),
    ensures
        fmul(
            F::modulus(),
            poly_eval(F::modulus(), model.quotient(numerator), point),
            fsub(F::modulus(), fpow(F::modulus(), point, model.domain.size()), 1),
        ) == model.point_value(circuits, circuits.len(), point),
{
    assert forall|c: int, i: usize|
        0 <= c < circuits.len() && i < model.domain.size() implies #[trigger] model.holds_in_row(
        circuits[c],
        gates,
        i,
    ) by {
        assert(model.complete(circuits[c]));
        law_honest_circuits_hold(
            model,
            circuits[c],
            gates,
            lookups,
            copies,
            made_from[c],
            bf,
            i,
        );
    }
    law_satisfied_circuits_have_quotients(model, circuits, gates, lookups, numerator, point);
}

} // verus!
