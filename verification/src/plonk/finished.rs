//! Finished proofs: what has been made of a witness that satisfies its circuit is
//! opened to values that satisfy the folded constraints.

use crate::field::{
    fmul, fpow, fsub, has_inverse, lemma_fmul_comm, lemma_units, vals, Field,
};
use crate::plonk::circuit::GpuAny;
use crate::plonk::closing::copies_hold;
use crate::plonk::completeness::law_domain_is_a_part;
use crate::plonk::constraint_system::GpuGate;
use crate::plonk::evaluation::cells_at;
use crate::plonk::evaluator::{gate_polys, gates_selector_free, values_of};
use crate::plonk::expression::CellValues;
use crate::plonk::graph::{all_selector_free, selector_free};
use crate::plonk::graph_values::horner;
use crate::plonk::honest::{law_honest_proofs_are_complete, HonestCircuit, LookupInputs};
use crate::plonk::lookup::prover::{bound_pair, lookup_factor};
use crate::plonk::permutation::keygen::{label, Assembly};
use crate::plonk::permutation::prover::column_values;
use crate::plonk::prover::Opened;
use crate::plonk::proving::{holds_key, lemma_key_followable, numerators, ProofKey, ProofState};
use crate::plonk::quotient::{part_columns, CircuitPolys, KeyPolys, QuotientModel};
use crate::plonk::reading::lemma_closed_selector_free;
use crate::plonk::running::ProofRun;
use crate::plonk::satisfaction::all_zero;
use crate::plonk::vanishing::{concatenated, law_folded_pieces, piece};
use crate::poly::arithmetic::{canonical, lemma_vals_canonical, poly_eval};
use crate::poly::domain::EvaluationDomain;
use crate::poly::{columns_of, Coeff, LagrangeCoeff, Polynomial, Rotation};
use vstd::prelude::*;

verus! {

impl<F: Field> ProofKey<F> {
    /// Whether the permutation of the key is that of the copies.
    pub open spec fn permutes(self, copies: Assembly) -> bool {
        let permutations = self.parts.vk.permutations@;
        &&& copies.columns@.len() == permutations.len()
        &&& permutations.len() > 0 ==> copies.rows() == self.n()
        &&& forall|c: (usize, usize)| #[trigger]
            copies.has_cell(self.n(), c) ==> permutations[c.0 as int]@[c.1 as int].val()
                == label::<F>(self.domain.omega.val(), copies.next(c))
    }

    /// Whether the domain provides for the degree of all constraints.
    pub open spec fn provides(self) -> bool {
        &&& self.cs().constraint_degree() <= self.domain.quotient_poly_degree + 1
        &&& self.degree <= self.domain.quotient_poly_degree + 1
    }
}

impl<F: Field> ProofState<F> {
    /// The cells seen from a row.
    pub open spec fn row_cells(self, key: ProofKey<F>, i: usize) -> CellValues {
        cells_at(
            key.parts.vk.fixed@,
            self.advice_values(),
            self.instance_values(),
            self.challenges@,
            i,
            1,
            key.n() as i32,
        )
    }

    /// Whether the gates hold in every row, and the copies hold.
    pub open spec fn satisfies(self, key: ProofKey<F>, copies: Assembly) -> bool {
        &&& forall|i: usize|
            i < key.n() ==> all_zero(
                values_of(gate_polys(key.cs().gates@), #[trigger] self.row_cells(key, i)),
            )
        &&& copies_hold(
            self.product_inputs(key),
            copies,
            (key.n() - key.bf() - 1) as nat,
        )
    }

    /// Whether no denominator of a running product vanishes in a usable row.
    pub open spec fn divides(self, key: ProofKey<F>) -> bool {
        let u = key.n() - key.bf() - 1;
        &&& forall|c: nat, i: int|
            c < key.num_sets() && 0 <= i < u ==> has_inverse(
                F::modulus(),
                #[trigger] self.product_inputs(key).denominator(F::modulus(), c, i),
            )
        &&& forall|l: int, i: int|
            0 <= l < self.permuted@.len() && 0 <= i < u ==> has_inverse(
                F::modulus(),
                #[trigger] self.lookup_denominator(l, i),
            )
    }

    /// What a row's factor of a lookup is divided by.
    pub open spec fn lookup_denominator(self, l: int, i: int) -> int {
        bound_pair(
            F::modulus(),
            self.permuted@[l].permuted_input_expression@[i].val(),
            self.permuted@[l].permuted_table_expression@[i].val(),
            self.beta.val(),
            self.gamma.val(),
        )
    }

    /// The columns of a lookup.
    pub open spec fn lookup_inputs(self, l: int) -> LookupInputs {
        LookupInputs {
            a: vals(self.permuted@[l].compressed_input_expression@),
            s: vals(self.permuted@[l].compressed_table_expression@),
            permuted_a: vals(self.permuted@[l].permuted_input_expression@),
            permuted_s: vals(self.permuted@[l].permuted_table_expression@),
            blinds: vals(self.lookup_blinds@[l]@),
        }
    }

    /// Whether all has been made.
    pub open spec fn complete(self, key: ProofKey<F>) -> bool {
        &&& self.wf(key)
        &&& self.columns is Some
        &&& self.challenges@.len() == key.cs().num_challenges
        &&& self.permuted@.len() == key.cs().lookups@.len()
        &&& self.products@.len() == key.cs().lookups@.len()
        &&& self.set_blinds@.len() == key.num_sets()
        &&& key.num_sets() == 0 || self.sets@.len() > 0
        &&& key.domain.quotient_poly_degree == 0 || self.pieces@.len() > 0
    }
}

proof fn lemma_gate_polys_selector_free<F: Field>(gates: Seq<GpuGate<F>>)
    requires
        gates_selector_free(gates),
    ensures
        all_selector_free(gate_polys(gates)),
    decreases gates.len(),
{
    if gates.len() > 0 {
        let front = gates.drop_last();
        assert forall|i: int| 0 <= i < front.len() implies all_selector_free(
            (#[trigger] front[i]).polys@,
        ) by {
            assert(front[i] == gates[i]);
        }
        lemma_gate_polys_selector_free(front);
        let last = gates[gates.len() - 1].polys@;
        assert(all_selector_free(last));
        let all = gate_polys(gates);
        assert(all == gate_polys(front) + last);
        assert forall|i: int| 0 <= i < all.len() implies selector_free(#[trigger] all[i]) by {
            if i < gate_polys(front).len() {
                assert(all[i] == gate_polys(front)[i]);
            } else {
                assert(all[i] == last[i - gate_polys(front).len()]);
            }
        }
    }
}

/// The columns of interpolated polynomials, in the rows of the domain.
proof fn lemma_domain_rows<F: Field>(
    domain: EvaluationDomain<F>,
    polys: Seq<Polynomial<F, Coeff>>,
    values: Seq<Polynomial<F, LagrangeCoeff>>,
)
    requires
        domain.wf(),
        polys.len() == values.len(),
        forall|c: int| 0 <= c < values.len() ==> (#[trigger] values[c])@.len() == domain.size(),
        forall|c: int|
            0 <= c < polys.len() ==> vals((#[trigger] polys[c])@) == domain.coefficients(
                vals(values[c]@),
            ),
    ensures
        part_columns(domain, polys, domain.g_coset_inv.val()) == columns_of(values),
{
    let a = part_columns(domain, polys, domain.g_coset_inv.val());
    let b = columns_of(values);
    assert forall|c: int| 0 <= c < a.len() implies #[trigger] a[c] == b[c] by {
        let _ = polys[c];
        lemma_vals_canonical(values[c]@);
        assert(vals(values[c]@).len() == values[c]@.len());
        law_domain_is_a_part(domain, vals(values[c]@));
    }
    assert(a =~= b);
}

/// All of a polynomial is in its pieces.
proof fn lemma_pieces_concatenate(q: Seq<int>, n: nat, m: nat)
    requires
        q.len() == n * m,
    ensures
        concatenated(Seq::new(m, |i: int| piece(q, n, i))) == q,
    decreases m,
{
    let pieces = Seq::new(m, |i: int| piece(q, n, i));
    if m == 0 {
        assert(n * m == 0) by (nonlinear_arith)
            requires
                m == 0,
        ;
        assert(concatenated(pieces) =~= q);
    } else {
        assert(n * m == n * (m - 1) + n) by (nonlinear_arith);
        assert(n * (m - 1) >= 0) by (nonlinear_arith)
            requires
                m >= 1,
                n >= 0,
        ;
        let rest = q.skip(n as int);
        lemma_pieces_concatenate(rest, n, (m - 1) as nat);
        let others = Seq::new((m - 1) as nat, |i: int| piece(rest, n, i));
        assert forall|i: int| 0 <= i < others.len() implies #[trigger] pieces.drop_first()[i]
            == others[i] by {
            assert((i + 1) * n == i * n + n) by (nonlinear_arith);
            assert((i + 2) * n == (i + 1) * n + n) by (nonlinear_arith);
            assert((i + 1) * n <= (m - 1) * n) by (nonlinear_arith)
                requires
                    i + 1 <= m - 1,
                    n >= 0,
            ;
            assert((m - 1) * n == n * (m - 1)) by (nonlinear_arith);
            assert(i * n >= 0) by (nonlinear_arith)
                requires
                    i >= 0,
                    n >= 0,
            ;
            assert(piece(q, n, i + 1) =~= piece(rest, n, i));
        }
        assert(pieces.drop_first() =~= others);
        assert(0 * n == 0 && 1 * n == n);
        assert(pieces[0] == q.subrange(0, n as int));
        assert(q =~= pieces[0] + rest);
    }
}

/// A finished proof has made all.
pub proof fn lemma_finished_is_complete<F: Field>(run: ProofRun<F>, key: ProofKey<F>)
    requires
        run.wf(key),
        run.done(),
    ensures
        run.state.complete(key),
{
    run.lemma_finished(key);
    lemma_key_followable(key, run.query_instance, run.state.instances@);
}

impl<F: Field> ProofState<F> {
    /// The cells of the circuit in the rows of the domain are those of its columns.
    proof fn lemma_rows(
        self,
        key: ProofKey<F>,
        polys: KeyPolys<F>,
        circuit: CircuitPolys<F>,
        i: usize,
    )
        requires
            key.wf(),
            self.complete(key),
            holds_key(polys, key.parts),
            self.holds_circuit(key, circuit),
        ensures
            self.quotient_model(key, polys).domain_columns(circuit).cells(i) == self.row_cells(
                key,
                i,
            ),
    {
        let columns = self.columns->0;
        assert forall|c: int| 0 <= c < polys.fixed@.len() implies vals(
            (#[trigger] polys.fixed@[c])@,
        ) == key.domain.coefficients(vals(key.parts.vk.fixed@[c]@)) by {
            assert(polys.fixed@[c]@ == key.parts.fixed_polys@[c]@);
        }
        lemma_domain_rows(key.domain, polys.fixed@, key.parts.vk.fixed@);
        assert forall|c: int| 0 <= c < circuit.advice@.len() implies vals(
            (#[trigger] circuit.advice@[c])@,
        ) == key.domain.coefficients(vals(columns.advice.advice_values@[c]@)) by {
            assert(circuit.advice@[c]@ == columns.advice.advice_polys@[c]@);
        }
        lemma_domain_rows(key.domain, circuit.advice@, columns.advice.advice_values@);
        assert forall|c: int| 0 <= c < circuit.instance@.len() implies vals(
            (#[trigger] circuit.instance@[c])@,
        ) == key.domain.coefficients(vals(columns.instance.instance_values@[c]@)) by {
            assert(circuit.instance@[c]@ == columns.instance.instance_polys@[c]@);
        }
        lemma_domain_rows(key.domain, circuit.instance@, columns.instance.instance_values@);
    }

    /// The polynomials of the permutation argument are those of its columns.
    proof fn lemma_permutes(
        self,
        key: ProofKey<F>,
        polys: KeyPolys<F>,
        circuit: CircuitPolys<F>,
    )
        requires
            key.wf(),
            self.complete(key),
            holds_key(polys, key.parts),
            self.holds_circuit(key, circuit),
        ensures
            self.quotient_model(key, polys).permutes(
                circuit,
                self.product_inputs(key),
                key.bf(),
            ),
    {
        let p = F::modulus();
        let cs = key.cs();
        let columns = self.columns->0;
        let model = self.quotient_model(key, polys);
        let x = self.product_inputs(key);
        assert forall|c: int| 0 <= c < x.blinds.len() implies (#[trigger] x.blinds[c]).len()
            == key.bf() by {
            assert(self.set_blinds@[c]@.len() == key.bf());
            assert(vals(self.set_blinds@[c]@).len() == self.set_blinds@[c]@.len());
        }
        assert forall|j: int| 0 <= j < x.columns.len() implies {
            &&& (#[trigger] x.columns[j]).len() == key.n()
            &&& canonical(p, x.columns[j])
            &&& model.permuted(circuit, j) == key.domain.coefficients(x.columns[j])
        } by {
            let column = cs.permutation.columns@[j];
            assert(cs.has_column(column));
            let values = column_values(
                column,
                self.advice_values(),
                key.parts.vk.fixed@,
                self.instance_values(),
            );
            lemma_vals_canonical(values@);
            let c = column.index as int;
            match column.column_type {
                GpuAny::Advice(_) => {
                    assert(circuit.advice@[c]@ == columns.advice.advice_polys@[c]@);
                    assert(columns.advice.advice_values@[c]@.len() == key.n());
                },
                GpuAny::Fixed => {
                    assert(polys.fixed@[c]@ == key.parts.fixed_polys@[c]@);
                    assert(key.parts.vk.fixed@[c]@.len() == key.n());
                },
                GpuAny::Instance => {
                    assert(circuit.instance@[c]@ == columns.instance.instance_polys@[c]@);
                    assert(columns.instance.instance_values@[c]@.len() == key.n());
                },
            }
            assert(vals(values@).len() == values@.len());
        }
        assert forall|j: int| 0 <= j < x.sigmas.len() implies {
            &&& (#[trigger] x.sigmas[j]).len() == key.n()
            &&& canonical(p, x.sigmas[j])
            &&& vals(polys.sigmas@[j]@) == key.domain.coefficients(x.sigmas[j])
        } by {
            assert(polys.sigmas@[j]@ == key.parts.permutation_polys@[j]@);
            lemma_vals_canonical(key.parts.vk.permutations@[j]@);
            assert(key.parts.vk.permutations@[j]@.len() == key.n());
            assert(vals(key.parts.vk.permutations@[j]@).len() == key.n());
        }
        assert forall|c: int| 0 <= c < x.blinds.len() implies {
            &&& canonical(p, #[trigger] x.blinds[c])
            &&& vals(circuit.products@[c]@) == key.domain.coefficients(x.product(p, c as nat))
        } by {
            lemma_vals_canonical(self.set_blinds@[c]@);
            assert(circuit.products@[c]@ == self.sets@[c]@);
        }
    }

    /// The polynomials of a lookup are those of its columns.
    #[verifier::rlimit(40)]
    proof fn lemma_looks_up(
        self,
        key: ProofKey<F>,
        polys: KeyPolys<F>,
        circuit: CircuitPolys<F>,
        k: int,
    )
        requires
            key.wf(),
            self.complete(key),
            self.divides(key),
            holds_key(polys, key.parts),
            self.holds_circuit(key, circuit),
            0 <= k < key.cs().lookups@.len(),
        ensures
            self.quotient_model(key, polys).looks_up(
                circuit,
                key.cs().lookups@[k],
                k,
                self.lookup_inputs(k),
                key.bf(),
            ),
    {
        let p = F::modulus();
        let model = self.quotient_model(key, polys);
        let l = self.lookup_inputs(k);
        let columns = self.permuted@[k];
        let (beta, gamma) = (self.beta.val(), self.gamma.val());
        let u = key.n() - key.bf() - 1;
        key.domain.lemma_domain();
        assert(columns.has_rows(key.n()));
        assert(self.lookup_permutes_to(key, k, columns));
        assert(self.lookup_blinds@[k]@.len() == key.bf());
        lemma_vals_canonical(self.lookup_blinds@[k]@);
        assert forall|j: int| 0 <= j < u implies has_inverse(
            p,
            bound_pair(p, #[trigger] l.permuted_a[j], l.permuted_s[j], beta, gamma),
        ) by {
            assert(has_inverse(p, self.lookup_denominator(k, j)));
        }
        assert(l.permuted_well(p, key.n(), key.bf(), beta, gamma));
        let factors = Seq::new(
            l.a.len(),
            |j: int|
                lookup_factor(
                    p,
                    l.a[j],
                    l.s[j],
                    l.permuted_a[j],
                    l.permuted_s[j],
                    beta,
                    gamma,
                ),
        );
        assert(columns.factors(beta, gamma) =~= factors);
        assert(self.lookup_product(key, k) == l.product(p, beta, gamma));
        assert(vals(self.products@[k]@) == self.lookup_product(key, k));
        let _ = circuit.lookups@[k];
        assert forall|i: usize| i < key.n() implies {
            let cells = #[trigger] model.domain_columns(circuit).cells(i);
            let theta = self.theta.val();
            &&& l.a[i as int] == horner(
                p,
                0,
                values_of(key.cs().lookups@[k].input_expressions@, cells),
                theta,
            )
            &&& l.s[i as int] == horner(
                p,
                0,
                values_of(key.cs().lookups@[k].table_expressions@, cells),
                theta,
            )
        } by {
            self.lemma_rows(key, polys, circuit, i);
        }
    }

    /// The circuit is that of an honest prover.
    proof fn lemma_honest(
        self,
        key: ProofKey<F>,
        polys: KeyPolys<F>,
        circuit: CircuitPolys<F>,
        copies: Assembly,
    )
        requires
            key.wf(),
            self.complete(key),
            key.permutes(copies),
            self.satisfies(key, copies),
            self.divides(key),
            holds_key(polys, key.parts),
            self.holds_circuit(key, circuit),
        ensures
            self.quotient_model(key, polys).honest(
                circuit,
                key.cs().gates@,
                key.cs().lookups@,
                copies,
                HonestCircuit {
                    products: self.product_inputs(key),
                    lookups: Seq::new(
                        key.cs().lookups@.len(),
                        |k: int| self.lookup_inputs(k),
                    ),
                },
                key.bf(),
            ),
    {
        let cs = key.cs();
        let model = self.quotient_model(key, polys);
        let x = self.product_inputs(key);
        let inputs = Seq::new(cs.lookups@.len(), |k: int| self.lookup_inputs(k));
        assert(cs.permutation.columns.len() == cs.permutation.columns@.len());
        assert forall|i: usize| i < key.n() implies all_zero(
            values_of(
                gate_polys(cs.gates@),
                #[trigger] model.domain_columns(circuit).cells(i),
            ),
        ) by {
            self.lemma_rows(key, polys, circuit, i);
            let _ = self.row_cells(key, i);
        }
        self.lemma_permutes(key, polys, circuit);
        assert forall|c: (usize, usize)| #[trigger]
            copies.has_cell(x.n, c) implies x.sigmas[c.0 as int][c.1 as int] == label::<F>(
            x.omega,
            copies.next(c),
        ) by {
            assert(copies.has_cell(key.n(), c));
            assert(key.parts.vk.permutations@[c.0 as int]@.len() == key.n());
        }
        assert forall|k: int| 0 <= k < cs.lookups@.len() implies model.looks_up(
            circuit,
            cs.lookups@[k],
            k,
            #[trigger] inputs[k],
            key.bf(),
        ) by {
            self.lemma_looks_up(key, polys, circuit, k);
        }
    }

    /// The folded pieces of the quotient have its value at the point.
    proof fn lemma_quotient_value(
        self,
        key: ProofKey<F>,
        polys: KeyPolys<F>,
        circuit: CircuitPolys<F>,
    )
        requires
            key.wf(),
            self.complete(key),
            self.pieces_from(key, polys, circuit, self.pieces@),
        ensures
            ({
                let model = self.quotient_model(key, polys);
                self.evaluation(key, Opened::Quotient, Rotation(0)) == poly_eval(
                    F::modulus(),
                    model.quotient(numerators(model, circuit)),
                    self.x.val(),
                )
            }),
    {
        let p = F::modulus();
        let d = key.domain;
        let n = key.n();
        let model = self.quotient_model(key, polys);
        let q = model.quotient(numerators(model, circuit));
        let m = d.quotient_poly_degree as nat;
        let pieces = Seq::new(self.pieces@.len(), |i: int| vals(self.pieces@[i]@));
        F::lemma_modulus();
        d.lemma_domain();
        assert(d.n * d.quotient_poly_degree == n * m);
        assert(q.len() == n * m);
        assert(pieces =~= Seq::new(m, |i: int| piece(q, n, i)));
        lemma_pieces_concatenate(q, n, m);
        assert forall|i: int| 0 <= i < pieces.len() implies (#[trigger] pieces[i]).len() == n by {
            assert(self.pieces@[i]@.len() == n);
            assert(vals(self.pieces@[i]@).len() == n);
        }
        self.x.lemma_val_range();
        law_folded_pieces(p, n, pieces, self.x.val());
        vstd::arithmetic::div_mod::lemma_small_mod(1, p as nat);
        lemma_units(p, self.x.val());
        lemma_fmul_comm(p, 1, self.x.val());
        assert(d.omega_power(0) == 1);
    }
}

/// The values of the constraints on the extended domain are the numerator.
proof fn lemma_numerators<F: Field>(model: QuotientModel<F>, circuit: CircuitPolys<F>)
    requires
        model.domain.wf(),
        model.domain.size() <= i32::MAX,
    ensures
        model.is_numerator(seq![circuit], numerators(model, circuit)),
{
    let d = model.domain;
    let values = numerators(model, circuit);
    d.lemma_domain();
    assert forall|row: int, part: int|
        0 <= row < d.size() && 0 <= part < d.parts() implies #[trigger] values[row * d.parts()
        + part] == model.value(seq![circuit], model.shift(part as nat), 1, row as usize) by {
        let parts = d.parts() as int;
        let i = row * parts + part;
        vstd::arithmetic::div_mod::lemma_fundamental_div_mod_converse(i, parts, row, part);
        assert(0 <= i < d.size() * d.parts()) by (nonlinear_arith)
            requires
                i == row * parts + part,
                0 <= row < d.size(),
                0 <= part < parts,
                parts == d.parts(),
        ;
    }
}

/// A finished proof of a satisfied circuit opens to what the verifier asks for.
/// Where the gates hold in every row of the columns that have been taken in, and
/// the copies hold, where the domain provides for the degree of the constraints, and
/// no denominator of a running product vanishes, the value of the quotient at the
/// point, times `x^n - 1`, is the value there of the folded constraints, of the
/// polynomials that have been committed to. (That the inputs of lookups are in their
/// tables has been found out on the way: otherwise the proof is not finished.)
#[verifier::rlimit(40)]
pub proof fn law_finished_proofs_are_complete<F: Field>(
    run: ProofRun<F>,
    key: ProofKey<F>,
    copies: Assembly,
)
    requires
        run.wf(key),
        run.done(),
        copies.wf(),
        key.permutes(copies),
        key.provides(),
        run.state.satisfies(key, copies),
        run.state.divides(key),
    ensures
        exists|polys: KeyPolys<F>, circuit: CircuitPolys<F>| #[trigger]
            run.state.pieces_from(key, polys, circuit, run.state.pieces@) && fmul(
                F::modulus(),
                run.state.evaluation(key, Opened::Quotient, Rotation(0)),
                fsub(
                    F::modulus(),
                    fpow(F::modulus(), run.state.x.val(), key.n()),
                    1,
                ),
            ) == run.state.quotient_model(key, polys).point_value(
                seq![circuit],
                1,
                run.state.x.val(),
            ),
{
    let state = run.state;
    let cs = key.cs();
    lemma_finished_is_complete(run, key);
    assert(key.domain.quotient_poly_degree >= 2);
    let (polys, circuit) = choose|polys: KeyPolys<F>, circuit: CircuitPolys<F>| #[trigger]
        state.pieces_from(key, polys, circuit, state.pieces@);
    let model = state.quotient_model(key, polys);
    state.lemma_model_complete(key, polys, circuit);
    lemma_closed_selector_free(cs);
    lemma_gate_polys_selector_free(cs.gates@);
    assert(model.describes(cs.gates@, cs.lookups@)) by {
        assert forall|k: int| 0 <= k < cs.lookups@.len() implies model.graphs[k].fits() by {
            let _ = model.graphs[k];
        }
    }
    state.lemma_honest(key, polys, circuit, copies);
    let made_from = HonestCircuit {
        products: state.product_inputs(key),
        lookups: Seq::new(cs.lookups@.len(), |k: int| state.lookup_inputs(k)),
    };
    lemma_numerators(model, circuit);
    state.x.lemma_val_range();
    law_honest_proofs_are_complete(
        model,
        seq![circuit],
        cs.gates@,
        cs.lookups@,
        copies,
        seq![made_from],
        key.bf(),
        numerators(model, circuit),
        state.x.val(),
    );
    state.lemma_quotient_value(key, polys, circuit);
}

} // verus!
