//! What the steps of a proof commit to, evaluate and hash.

use crate::field::{fmul, fpow, vals, Field};
use crate::plonk::error::Error;
use crate::plonk::evaluator::{custom_gates_graph, lookup_graph, Evaluator};
use crate::plonk::lookup::prover::{LookupPoly, Permuted};
use crate::plonk::permutation::prover::{column_present, product_column, ProductInputs};
use crate::plonk::proving::{
    all_have, divided_into, holds_key, lemma_key_followable, numerators, same_polys,
    ProofAction, ProofKey, ProofState,
};
use crate::plonk::prover::{Committed, Opened, ProofStep};
use crate::plonk::quotient::{
    evaluate_h, graphs_of, CircuitPolys, FoldingChallenges, KeyPolys, LookupPolys, QuotientModel,
};
use crate::plonk::reading::{
    law_graphs_read_what_there_is, lemma_closed_selector_free, lemma_lookup_present,
};
use crate::plonk::vanishing::{fold_pieces, folded_pieces, piece, quotient_pieces, random_poly};
use crate::plonk::witness::coefficients_of;
use crate::poly::arithmetic::{poly_eval, poly_zero};
use crate::poly::domain::EvaluationDomain;
use crate::poly::exact::divided;
use crate::poly::transforms::copied;
use crate::poly::{Coeff, LagrangeCoeff, Polynomial, Rotation};
use vstd::prelude::*;

verus! {

impl<F: Field> ProofState<F> {
    /// Whether a lookup holds with the challenge `theta`.
    pub open spec fn lookup_holds(self, key: ProofKey<F>, l: int) -> bool {
        key.cs().lookups@[l].holds(
            self.theta.val(),
            key.n() as usize,
            key.bf() as usize,
            key.parts.vk.fixed@,
            self.advice_values(),
            self.instance_values(),
            self.challenges@,
        )
    }

    /// Whether columns are those of a lookup, compressed by `theta` and permuted.
    pub open spec fn lookup_permutes_to(
        self,
        key: ProofKey<F>,
        l: int,
        columns: Permuted<F>,
    ) -> bool {
        key.cs().lookups@[l].permutes_to(
            self.theta.val(),
            key.n() as usize,
            key.bf() as usize,
            key.parts.vk.fixed@,
            self.advice_values(),
            self.instance_values(),
            self.challenges@,
            columns,
        )
    }

    /// What the products of the permutation argument are made of.
    pub open spec fn product_inputs(self, key: ProofKey<F>) -> ProductInputs {
        key.cs().permutation.product_inputs(
            key.degree,
            self.advice_values(),
            key.parts.vk.fixed@,
            self.instance_values(),
            key.parts.vk.permutations@,
            key.domain.omega,
            self.beta,
            self.gamma,
            self.set_blinds@,
            key.n(),
            key.bf(),
        )
    }

    /// Whether polynomials are the products of the permutation argument, with the
    /// challenges `beta` and `gamma`.
    pub open spec fn are_sets(self, key: ProofKey<F>, sets: Seq<Polynomial<F, Coeff>>) -> bool {
        let inputs = self.product_inputs(key);
        &&& sets.len() == key.num_sets()
        &&& forall|c: int|
            0 <= c < sets.len() ==> vals((#[trigger] sets[c])@) == key.domain.coefficients(
                inputs.product(F::modulus(), c as nat),
            )
    }

    /// The product of a lookup, with the challenges `beta` and `gamma`.
    pub open spec fn lookup_product(self, key: ProofKey<F>, l: int) -> Seq<int> {
        product_column(
            F::modulus(),
            self.permuted@[l].factors(self.beta.val(), self.gamma.val()),
            1,
            (key.n() - key.bf()) as nat,
            vals(self.lookup_blinds@[l]@),
        )
    }

    /// Whether polynomials are those of the circuit.
    pub open spec fn holds_circuit(self, key: ProofKey<F>, circuit: CircuitPolys<F>) -> bool {
        &&& same_polys(circuit.advice@, self.columns->0.advice.advice_polys@)
        &&& same_polys(circuit.instance@, self.columns->0.instance.instance_polys@)
        &&& same_polys(circuit.products@, self.sets@)
        &&& circuit.lookups@.len() == self.permuted@.len()
        &&& forall|l: int|
            0 <= l < circuit.lookups@.len() ==> {
                &&& vals((#[trigger] circuit.lookups@[l]).product@) == key.domain.coefficients(
                    vals(self.products@[l]@),
                )
                &&& circuit.lookups@[l].permuted_input@
                    == self.permuted@[l].permuted_input_expression@
                &&& circuit.lookups@[l].permuted_table@
                    == self.permuted@[l].permuted_table_expression@
            }
    }

    /// The constraints of the circuit, folded with the challenges.
    pub open spec fn quotient_model(self, key: ProofKey<F>, polys: KeyPolys<F>) -> QuotientModel<
        F,
    > {
        let cs = key.cs();
        QuotientModel {
            domain: key.domain,
            key: polys,
            gates: custom_gates_graph(cs.gates@),
            graphs: Seq::new(
                cs.lookups@.len(),
                |k: int|
                    lookup_graph(
                        cs.lookups@[k].input_expressions@,
                        cs.lookups@[k].table_expressions@,
                    ),
            ),
            columns: cs.permutation.columns@,
            challenges: self.challenges@,
            folding: FoldingChallenges {
                y: self.y,
                beta: self.beta,
                gamma: self.gamma,
                theta: self.theta,
            },
            chunk_len: (key.degree - 2) as nat,
            last: (-(key.bf() + 1)) as i32,
        }
    }

    /// Whether these are the pieces of the quotient of the constraints, with the
    /// given polynomials of the key and of the circuit.
    pub open spec fn pieces_from(
        self,
        key: ProofKey<F>,
        polys: KeyPolys<F>,
        circuit: CircuitPolys<F>,
        pieces: Seq<Vec<F>>,
    ) -> bool {
        let model = self.quotient_model(key, polys);
        &&& holds_key(polys, key.parts)
        &&& self.holds_circuit(key, circuit)
        &&& model.gates.fits()
        &&& forall|k: int| 0 <= k < model.graphs.len() ==> (#[trigger] model.graphs[k]).fits()
        &&& divided_into(model, circuit, pieces)
    }

    /// Whether these are the pieces of the quotient of the circuit's constraints.
    pub open spec fn are_pieces(self, key: ProofKey<F>, pieces: Seq<Vec<F>>) -> bool {
        exists|polys: KeyPolys<F>, circuit: CircuitPolys<F>| #[trigger]
            self.pieces_from(key, polys, circuit, pieces)
    }

    /// What the quotient is does not depend on whether it has been made.
    proof fn lemma_pieces_are(self, after: ProofState<F>, key: ProofKey<F>)
        requires
            self.are_pieces(key, after.pieces@),
            after == (ProofState { pieces: after.pieces, ..self }),
        ensures
            after.are_pieces(key, after.pieces@),
    {
        let (polys, circuit) = choose|polys: KeyPolys<F>, circuit: CircuitPolys<F>| #[trigger]
            self.pieces_from(key, polys, circuit, after.pieces@);
        assert(after.quotient_model(key, polys) == self.quotient_model(key, polys));
        assert(after.holds_circuit(key, circuit));
        assert(after.pieces_from(key, polys, circuit, after.pieces@));
    }

    /// The coefficients of a polynomial that is evaluated and opened.
    pub open spec fn opened(self, key: ProofKey<F>, which: Opened) -> Seq<int> {
        match which {
            Opened::Instance(c) => vals(self.columns->0.instance.instance_polys@[c as int]@),
            Opened::Advice(c) => vals(self.columns->0.advice.advice_polys@[c as int]@),
            Opened::Fixed(c) => vals(key.parts.fixed_polys@[c as int]@),
            Opened::PermutationCommon(c) => vals(key.parts.permutation_polys@[c as int]@),
            Opened::PermutationProduct(s) => vals(self.sets@[s as int]@),
            Opened::Lookup(l, LookupPoly::Product) => key.domain.coefficients(
                vals(self.products@[l as int]@),
            ),
            Opened::Lookup(l, LookupPoly::PermutedInput) => key.domain.coefficients(
                vals(self.permuted@[l as int].permuted_input_expression@),
            ),
            Opened::Lookup(l, LookupPoly::PermutedTable) => key.domain.coefficients(
                vals(self.permuted@[l as int].permuted_table_expression@),
            ),
            Opened::Quotient => folded_pieces(
                F::modulus(),
                key.n(),
                Seq::new(self.pieces@.len(), |i: int| vals(self.pieces@[i]@)),
                fpow(F::modulus(), self.x.val(), key.n()),
            ),
            Opened::Blinding => seq![1int] + poly_zero((key.n() - 1) as nat),
        }
    }

    /// The value of a polynomial at a rotation of the point.
    pub open spec fn evaluation(self, key: ProofKey<F>, which: Opened, at: Rotation) -> int {
        poly_eval(
            F::modulus(),
            self.opened(key, which),
            fmul(F::modulus(), self.x.val(), key.domain.omega_power(at.0 as int)),
        )
    }

    /// What a commitment is to, and what making it leaves behind:
    ///
    /// - that to an advice column is to the column as it has been taken in;
    /// - those to a lookup are to its compressed columns, permuted, which are kept;
    /// - those to the products of the permutation argument are to the products with
    ///   `beta` and `gamma`, all of which are computed with the first;
    /// - that to the product of a lookup is to its product with `beta` and `gamma`,
    ///   which is kept;
    /// - that to the blinding polynomial is to the constant one;
    /// - those to the quotient are to its pieces, all of which are computed with the
    ///   first.
    pub open spec fn committed(
        self,
        key: ProofKey<F>,
        what: Committed,
        after: ProofState<F>,
        action: ProofAction<F>,
    ) -> bool {
        match what {
            Committed::Advice(c) => {
                &&& after == self
                &&& action matches ProofAction::WriteValues(v) && v@ == self.advice_values()[c
                    as int]@
            },
            Committed::LookupInput(l) => {
                &&& after == (ProofState { permuted: after.permuted, ..self })
                &&& after.permuted@ == self.permuted@.push(after.permuted@[l as int])
                &&& self.lookup_permutes_to(key, l as int, after.permuted@[l as int])
                &&& action matches ProofAction::WriteValues(v) && v@ == after.permuted@[l
                    as int].permuted_input_expression@
            },
            Committed::LookupTable(l) => {
                &&& after == self
                &&& action matches ProofAction::WriteValues(v) && v@ == self.permuted@[l
                    as int].permuted_table_expression@
            },
            Committed::PermutationProduct(s) => {
                &&& after == (ProofState { sets: after.sets, ..self })
                &&& if self.sets@.len() == 0 {
                    self.are_sets(key, after.sets@)
                } else {
                    after == self
                }
                &&& action matches ProofAction::WriteCoefficients(v) && v@ == after.sets@[s
                    as int]@
            },
            Committed::LookupProduct(l) => {
                &&& after == (ProofState { products: after.products, ..self })
                &&& after.products@ == self.products@.push(after.products@[l as int])
                &&& vals(after.products@[l as int]@) == self.lookup_product(key, l as int)
                &&& action matches ProofAction::WriteValues(v) && v@ == after.products@[l as int]@
            },
            Committed::Blinding => {
                &&& after == self
                &&& action matches ProofAction::WriteCoefficients(v) && vals(v@) == self.opened(
                    key,
                    Opened::Blinding,
                )
            },
            Committed::QuotientPiece(i) => {
                &&& after == (ProofState { pieces: after.pieces, ..self })
                &&& if self.pieces@.len() == 0 {
                    self.are_pieces(key, after.pieces@)
                } else {
                    after == self
                }
                &&& action matches ProofAction::WriteCoefficients(v) && v@ == after.pieces@[i
                    as int]@
            },
        }
    }

    /// What is to be done at a step, and what it leaves behind.
    pub open spec fn performed(
        self,
        key: ProofKey<F>,
        step: ProofStep,
        after: ProofState<F>,
        action: ProofAction<F>,
    ) -> bool {
        match step {
            ProofStep::HashKey => after == self && action is HashKey,
            ProofStep::CommonScalar(c, i) => {
                &&& after == self
                &&& action == ProofAction::CommonScalar(self.instances@[c as int]@[i as int])
            },
            ProofStep::CommonPoint(c) => {
                &&& after == self
                &&& action matches ProofAction::CommonPoint(v) && v@ == self.instance_values()[c
                    as int]@
            },
            ProofStep::Draw(_, count) => after == self && action == ProofAction::<F>::Draw(count),
            ProofStep::WritePoint(what) => self.committed(key, what, after, action),
            ProofStep::Squeeze(_) => after == self && action is Squeeze,
            ProofStep::WriteScalar(which, at) => {
                &&& after == self
                &&& action matches ProofAction::WriteScalar(v) && v.val() == self.evaluation(
                    key,
                    which,
                    at,
                )
            },
        }
    }

    /// The coefficients of a polynomial that is evaluated and opened.
    #[verifier::rlimit(40)]
    pub fn poly(&self, key: &ProofKey<F>, which: Opened) -> (r: Vec<F>)
        requires
            key.wf(),
            self.wf(*key),
            key.shape(false, self.instances@).available(self.progress(), which),
        ensures
            vals(r@) == self.opened(*key, which),
            r@.len() == key.n(),
    {
        proof {
            lemma_key_followable(*key, false, self.instances@);
            key.domain.lemma_domain();
        }
        let n = key.domain.rows();
        let r = match which {
            Opened::Instance(c) => {
                let columns = self.columns.as_ref().unwrap();
                assert(vals(columns.instance.instance_values@[c as int]@).len() == n);
                copied(columns.instance.instance_polys[c].values())
            },
            Opened::Advice(c) => {
                let columns = self.columns.as_ref().unwrap();
                assert(vals(columns.advice.advice_values@[c as int]@).len() == n);
                copied(columns.advice.advice_polys[c].values())
            },
            Opened::Fixed(c) => {
                assert(vals(key.parts.vk.fixed@[c as int]@).len() == n);
                copied(key.parts.fixed_polys[c].values())
            },
            Opened::PermutationCommon(c) => {
                assert(vals(key.parts.vk.permutations@[c as int]@).len() == n);
                copied(key.parts.permutation_polys[c].values())
            },
            Opened::PermutationProduct(s) => {
                assert(vals(self.sets@[s as int]@).len() == n);
                copied(self.sets[s].values())
            },
            Opened::Lookup(l, LookupPoly::Product) => {
                assert(self.products@[l as int]@.len() == key.n());
                coefficients(&key.domain, &self.products[l])
            },
            Opened::Lookup(l, LookupPoly::PermutedInput) => {
                assert(self.permuted@[l as int].has_rows(key.n()));
                coefficients(&key.domain, &self.permuted[l].permuted_input_expression)
            },
            Opened::Lookup(l, LookupPoly::PermutedTable) => {
                assert(self.permuted@[l as int].has_rows(key.n()));
                coefficients(&key.domain, &self.permuted[l].permuted_table_expression)
            },
            Opened::Quotient => fold_pieces(&self.pieces, self.x.pow_vartime(n as u64), n),
            Opened::Blinding => random_poly(n),
        };
        assert(vals(r@).len() == r@.len());
        r
    }

    /// The value of a polynomial at a rotation of the point.
    pub fn evaluate(&self, key: &ProofKey<F>, which: Opened, at: Rotation) -> (r: F)
        requires
            key.wf(),
            self.wf(*key),
            key.shape(false, self.instances@).available(self.progress(), which),
        ensures
            r.val() == self.evaluation(*key, which, at),
    {
        let poly = self.poly(key, which);
        let point = key.domain.rotate_omega(self.x, at);
        assert(Seq::new(poly@.len(), |i: int| poly@[i].val()) =~= vals(poly@));
        F::eval_polynomial(&poly, point)
    }

    /// Computes the products of the permutation argument.
    fn compute_sets(&self, key: &ProofKey<F>) -> (r: Vec<Polynomial<F, Coeff>>)
        requires
            key.wf(),
            self.wf(*key),
            self.columns is Some,
            self.set_blinds@.len() == key.num_sets(),
        ensures
            self.are_sets(*key, r@),
            forall|c: int| 0 <= c < r@.len() ==> (#[trigger] r@[c])@.len() == key.n(),
    {
        let cs = &key.parts.vk.cs;
        let columns = self.columns.as_ref().unwrap();
        let n = key.domain.rows();
        proof {
            key.domain.lemma_domain();
            assert forall|j: int| 0 <= j < cs.permutation.columns@.len() implies column_present(
                #[trigger] cs.permutation.columns@[j],
                columns.advice.advice_values@,
                key.parts.vk.fixed@,
                columns.instance.instance_values@,
                n as nat,
            ) by {
                assert(cs.has_column(cs.permutation.columns@[j]));
            }
        }
        let products = cs.permutation.products(
            key.degree,
            cs.blinding_factors(),
            n,
            &columns.advice.advice_values,
            &key.parts.vk.fixed,
            &columns.instance.instance_values,
            &key.parts.vk.permutations,
            key.domain.omega,
            self.beta,
            self.gamma,
            &self.set_blinds,
        );
        let ghost inputs = self.product_inputs(*key);
        proof {
            assert forall|c: int| 0 <= c < products@.len() implies (
            #[trigger] products@[c])@.len() == key.n() by {
                assert(self.set_blinds@[c]@.len() == key.bf());
                assert(vals(products@[c]@) == inputs.product(F::modulus(), c as nat));
                assert(vals(products@[c]@).len() == products@[c]@.len());
            }
        }
        let sets = coefficients_of(&key.domain, &products);
        proof {
            assert forall|c: int| 0 <= c < sets@.len() implies (#[trigger] sets@[c])@.len()
                == key.n() by {
                assert(vals(sets@[c]@) == key.domain.coefficients(vals(products@[c]@)));
                assert(vals(sets@[c]@).len() == sets@[c]@.len());
                assert(vals(products@[c]@).len() == products@[c]@.len());
            }
        }
        sets
    }

    /// The polynomials of the key.
    fn key_polys(key: &ProofKey<F>) -> (r: KeyPolys<F>)
        requires
            key.wf(),
        ensures
            holds_key(r, key.parts),
    {
        KeyPolys {
            fixed: copied_polys(&key.parts.fixed_polys),
            l0: Polynomial::new(copied(key.parts.l0.values())),
            l_last: Polynomial::new(copied(key.parts.l_last.values())),
            l_active: Polynomial::new(copied(key.parts.l_active_row.values())),
            sigmas: copied_polys(&key.parts.permutation_polys),
        }
    }

    /// The polynomials of the circuit.
    fn circuit_polys(&self, key: &ProofKey<F>) -> (r: CircuitPolys<F>)
        requires
            key.wf(),
            self.wf(*key),
            self.columns is Some,
            self.products@.len() == self.permuted@.len(),
        ensures
            self.holds_circuit(*key, r),
    {
        let mut lookups: Vec<LookupPolys<F>> = Vec::new();
        let mut l: usize = 0;
        while l < self.permuted.len()
            invariant
                key.wf(),
                self.wf(*key),
                self.products@.len() == self.permuted@.len(),
                l <= self.permuted@.len(),
                lookups@.len() == l,
                forall|k: int|
                    0 <= k < l ==> {
                        &&& vals((#[trigger] lookups@[k]).product@) == key.domain.coefficients(
                            vals(self.products@[k]@),
                        )
                        &&& lookups@[k].permuted_input@
                            == self.permuted@[k].permuted_input_expression@
                        &&& lookups@[k].permuted_table@
                            == self.permuted@[k].permuted_table_expression@
                    },
            decreases self.permuted@.len() - l,
        {
            assert(self.products@[l as int]@.len() == key.n());
            let product = coefficients(&key.domain, &self.products[l]);
            lookups.push(
                LookupPolys {
                    product: Polynomial::new(product),
                    permuted_input: Polynomial::new(
                        copied(&self.permuted[l].permuted_input_expression),
                    ),
                    permuted_table: Polynomial::new(
                        copied(&self.permuted[l].permuted_table_expression),
                    ),
                },
            );
            l += 1;
        }
        let columns = self.columns.as_ref().unwrap();
        CircuitPolys {
            advice: copied_polys(&columns.advice.advice_polys),
            instance: copied_polys(&columns.instance.instance_polys),
            products: copied_polys(&self.sets),
            lookups,
        }
    }
}

/// Where a position of the extended domain lies: its row and its part.
proof fn lemma_row_and_part(i: int, size: nat, parts: nat)
    requires
        0 <= i < size * parts,
        parts > 0,
    ensures
        0 <= i / parts as int,
        i / parts as int <= i,
        i / (parts as int) < size,
        0 <= i % (parts as int) < parts,
        (i / (parts as int)) * parts + i % (parts as int) == i,
{
    let k = parts as int;
    vstd::arithmetic::div_mod::lemma_fundamental_div_mod(i, k);
    vstd::arithmetic::div_mod::lemma_mod_bound(i, k);
    let q = i / k;
    assert(q * k == k * q) by (nonlinear_arith);
    assert(0 <= q < size && q <= i) by (nonlinear_arith)
        requires
            i == k * q + i % k,
            0 <= i % k < k,
            0 <= i < size * k,
    ;
}

impl<F: Field> ProofState<F> {
    /// All polynomials that the constraints speak of are there.
    pub proof fn lemma_model_complete(
        self,
        key: ProofKey<F>,
        polys: KeyPolys<F>,
        circuit: CircuitPolys<F>,
    )
        requires
            key.wf(),
            self.wf(key),
            self.columns is Some,
            key.num_sets() == 0 || self.sets@.len() > 0,
            self.permuted@.len() == key.cs().lookups@.len(),
            self.products@.len() == key.cs().lookups@.len(),
            holds_key(polys, key.parts),
            self.holds_circuit(key, circuit),
        ensures
            self.quotient_model(key, polys).complete(circuit),
            polys.fixed@.len() == key.cs().num_fixed_columns,
            circuit.advice@.len() == key.cs().num_advice_columns,
            circuit.instance@.len() == key.cs().num_instance_columns,
    {
        let cs = key.cs();
        let n = key.n();
        let columns = self.columns->0;
        key.domain.lemma_domain();
        assert forall|c: int| 0 <= c < polys.fixed@.len() implies (
        #[trigger] polys.fixed@[c])@.len() == n by {
            assert(polys.fixed@[c]@ == key.parts.fixed_polys@[c]@);
            assert(vals(polys.fixed@[c]@).len() == polys.fixed@[c]@.len());
            assert(key.parts.vk.fixed@[c]@.len() == n);
            assert(vals(key.parts.vk.fixed@[c]@).len() == n);
        }
        assert forall|c: int| 0 <= c < polys.sigmas@.len() implies (
        #[trigger] polys.sigmas@[c])@.len() == n by {
            assert(polys.sigmas@[c]@ == key.parts.permutation_polys@[c]@);
            assert(vals(polys.sigmas@[c]@).len() == polys.sigmas@[c]@.len());
            assert(key.parts.vk.permutations@[c]@.len() == n);
            assert(vals(key.parts.vk.permutations@[c]@).len() == n);
        }
        assert(vals(polys.l0@).len() == polys.l0@.len());
        assert(vals(polys.l_last@).len() == polys.l_last@.len());
        assert(vals(polys.l_active@).len() == polys.l_active@.len());
        assert forall|c: int| 0 <= c < circuit.advice@.len() implies (
        #[trigger] circuit.advice@[c])@.len() == n by {
            assert(circuit.advice@[c]@ == columns.advice.advice_polys@[c]@);
            assert(vals(circuit.advice@[c]@).len() == circuit.advice@[c]@.len());
            assert(columns.advice.advice_values@[c]@.len() == n);
            assert(vals(columns.advice.advice_values@[c]@).len() == n);
        }
        assert forall|c: int| 0 <= c < circuit.instance@.len() implies (
        #[trigger] circuit.instance@[c])@.len() == n by {
            assert(circuit.instance@[c]@ == columns.instance.instance_polys@[c]@);
            assert(vals(circuit.instance@[c]@).len() == circuit.instance@[c]@.len());
            assert(columns.instance.instance_values@[c]@.len() == n);
            assert(vals(columns.instance.instance_values@[c]@).len() == n);
        }
        assert forall|c: int| 0 <= c < circuit.products@.len() implies (
        #[trigger] circuit.products@[c])@.len() == n by {
            assert(circuit.products@[c]@ == self.sets@[c]@);
        }
        assert forall|k: int| 0 <= k < circuit.lookups@.len() implies (
        #[trigger] circuit.lookups@[k]).product@.len() == n && circuit.lookups@[
            k
        ].permuted_input@.len() == n && circuit.lookups@[k].permuted_table@.len() == n by {
            assert(self.permuted@[k].has_rows(n));
            assert(self.products@[k]@.len() == n);
            assert(vals(self.products@[k]@).len() == n);
            assert(vals(circuit.lookups@[k].product@).len() == circuit.lookups@[k].product@.len());
        }
        assert forall|j: int| 0 <= j < cs.permutation.columns@.len() implies cs.has_column(
            #[trigger] cs.permutation.columns@[j],
        ) by {}
    }

    /// All that the constraints speak of is there.
    proof fn lemma_circuit_complete(
        self,
        key: ProofKey<F>,
        polys: KeyPolys<F>,
        circuit: CircuitPolys<F>,
        evaluator: Evaluator<F>,
    )
        requires
            key.wf(),
            self.wf(key),
            self.columns is Some,
            key.num_sets() == 0 || self.sets@.len() > 0,
            self.permuted@.len() == key.cs().lookups@.len(),
            self.products@.len() == key.cs().lookups@.len(),
            self.challenges@.len() == key.cs().num_challenges,
            holds_key(polys, key.parts),
            self.holds_circuit(key, circuit),
            evaluator.evaluates(key.cs().gates@, key.cs().lookups@),
        ensures
            polys.wf(key.n()),
            circuit.complete(
                polys,
                evaluator,
                key.cs().permutation.columns@,
                self.challenges@.len(),
                (key.degree - 2) as usize,
                key.n(),
            ),
    {
        self.lemma_model_complete(key, polys, circuit);
        law_graphs_read_what_there_is(key.cs(), evaluator, key.n() as int);
        let model = self.quotient_model(key, polys);
        assert(model.columns == key.cs().permutation.columns@);
    }

    /// Computes the pieces of the quotient.
    #[verifier::rlimit(40)]
    fn compute_pieces(&self, key: &ProofKey<F>) -> (r: Vec<Vec<F>>)
        requires
            key.wf(),
            self.wf(*key),
            self.columns is Some,
            key.num_sets() == 0 || self.sets@.len() > 0,
            self.permuted@.len() == key.cs().lookups@.len(),
            self.products@.len() == key.cs().lookups@.len(),
            self.challenges@.len() == key.cs().num_challenges,
        ensures
            self.are_pieces(*key, r@),
            r@.len() == key.domain.quotient_poly_degree,
            all_have(r@, key.n()),
    {
        let cs = &key.parts.vk.cs;
        proof {
            lemma_closed_selector_free(*cs);
            key.domain.lemma_domain();
        }
        let evaluator = Evaluator::new(cs);
        let polys = Self::key_polys(key);
        let circuit = self.circuit_polys(key);
        let ghost one = circuit;
        proof {
            self.lemma_circuit_complete(*key, polys, circuit, evaluator);
        }
        let mut circuits: Vec<CircuitPolys<F>> = Vec::new();
        circuits.push(circuit);
        assert(circuits@ =~= seq![one]);
        let folding = FoldingChallenges {
            y: self.y,
            beta: self.beta,
            gamma: self.gamma,
            theta: self.theta,
        };
        let chunk_len = key.degree - 2;
        let last = -(cs.blinding_factors() as i32 + 1);
        let h = evaluate_h(
            &evaluator,
            &key.domain,
            &polys,
            &cs.permutation.columns,
            &circuits,
            &self.challenges,
            folding,
            chunk_len,
            last,
        );
        let pieces = quotient_pieces(&key.domain, &h);
        proof {
            let model = self.quotient_model(*key, polys);
            let d = key.domain;
            assert(graphs_of(evaluator.lookups@) =~= model.graphs);
            let size = d.size();
            let parts = d.parts();
            vstd::arithmetic::power2::lemma_pow2_pos((d.extended_k - d.k) as nat);
            let expected = numerators(model, one);
            assert forall|i: int| 0 <= i < expected.len() implies #[trigger] vals(h@)[i]
                == expected[i] by {
                lemma_row_and_part(i, size, parts);
                let row = i / (parts as int);
                let part = i % (parts as int);
                assert(h@[row * parts + part].val() == model.value(
                    seq![one],
                    fpow(F::modulus(), d.extended_omega.val(), part as nat),
                    1,
                    row as usize,
                ));
            }
            assert(vals(h@) =~= expected);
            let q = model.quotient(expected);
            assert(Seq::new(
                h@.len(),
                |i: int|
                    fmul(
                        F::modulus(),
                        h@[i].val(),
                        d.t_evaluations@[i % (d.t_evaluations@.len() as int)].val(),
                    ),
            ) =~= divided(d, expected));
            let g = evaluator.custom_gates;
            assert(g.constants.len() <= usize::MAX && g.rotations.len() <= usize::MAX
                && g.calculations.len() <= usize::MAX);
            assert(model.gates.fits());
            assert forall|k: int| 0 <= k < model.graphs.len() implies (
            #[trigger] model.graphs[k]).fits() by {
                let l = evaluator.lookups@[k];
                assert(model.graphs[k] == l@);
                assert(l.constants.len() <= usize::MAX && l.rotations.len() <= usize::MAX
                    && l.calculations.len() <= usize::MAX);
            }
            assert(divided_into(model, one, pieces@));
            assert(self.pieces_from(*key, polys, one, pieces@));
            assert forall|i: int| 0 <= i < pieces@.len() implies (#[trigger] pieces@[i])@.len()
                == key.n() by {
                assert(vals(pieces@[i]@) == piece(q, size, i));
                assert(vals(pieces@[i]@).len() == pieces@[i]@.len());
                assert((i + 1) * size - i * size == size) by (nonlinear_arith);
                let m = d.quotient_poly_degree as int;
                assert((i + 1) * size <= m * size) by (nonlinear_arith)
                    requires
                        i + 1 <= m,
                        0 <= size,
                ;
                assert(m * size == size * m) by (nonlinear_arith);
                assert(0 <= i * size) by (nonlinear_arith)
                    requires
                        i >= 0,
                        size >= 0,
                ;
            }
        }
        pieces
    }

    /// What is to be committed to.
    #[verifier::rlimit(40)]
    fn commit(&mut self, key: &ProofKey<F>, what: Committed) -> (r: Result<ProofAction<F>, Error>)
        requires
            key.wf(),
            old(self).wf(*key),
            old(self).ready(*key, ProofStep::WritePoint(what)),
        ensures
            final(self).wf(*key),
            r matches Ok(action) ==> old(self).committed(*key, what, *final(self), action),
            r is Ok ==> final(self).progress() == old(self).progress().after(
                ProofStep::WritePoint(what),
            ),
            r matches Err(e) ==> e == Error::ConstraintSystemFailure && *final(self) == *old(self),
            r is Err <==> (what matches Committed::LookupInput(l) && !old(self).lookup_holds(
                *key,
                l as int,
            )),
    {
        proof {
            lemma_key_followable(*key, false, self.instances@);
            key.domain.lemma_domain();
        }
        let n = key.domain.rows();
        let cs = &key.parts.vk.cs;
        let ghost before = *self;
        match what {
            Committed::Advice(c) => {
                let columns = self.columns.as_ref().unwrap();
                Ok(ProofAction::WriteValues(copied(columns.advice.advice_values[c].values())))
            },
            Committed::LookupInput(l) => {
                let columns = self.columns.as_ref().unwrap();
                proof {
                    lemma_lookup_present(
                        *cs,
                        l as int,
                        key.parts.vk.fixed@,
                        columns.advice.advice_values@,
                        columns.instance.instance_values@,
                        self.challenges@,
                        n,
                    );
                }
                let permuted = match cs.lookups[l].commit_permuted(
                    self.theta,
                    n,
                    cs.blinding_factors(),
                    &key.parts.vk.fixed,
                    &columns.advice.advice_values,
                    &columns.instance.instance_values,
                    &self.challenges,
                ) {
                    Ok(permuted) => permuted,
                    Err(e) => {
                        return Err(e);
                    },
                };
                proof {
                    assert(vals(permuted.compressed_input_expression@).len() == n);
                    assert(vals(permuted.compressed_table_expression@).len() == n);
                    assert(vals(permuted.permuted_input_expression@).len() == n);
                    assert(vals(permuted.permuted_table_expression@).len() == n);
                    assert(permuted.has_rows(key.n()));
                }
                let values = copied(&permuted.permuted_input_expression);
                self.permuted.push(permuted);
                Ok(ProofAction::WriteValues(values))
            },
            Committed::LookupTable(l) => {
                Ok(ProofAction::WriteValues(copied(&self.permuted[l].permuted_table_expression)))
            },
            Committed::PermutationProduct(s) => {
                if self.sets.len() == 0 {
                    self.sets = self.compute_sets(key);
                    assert(self.are_sets(*key, self.sets@));
                }
                Ok(ProofAction::WriteCoefficients(copied(self.sets[s].values())))
            },
            Committed::LookupProduct(l) => {
                proof {
                    assert(self.permuted@[l as int].has_rows(key.n()));
                    assert(self.lookup_blinds@[l as int]@.len() == key.bf());
                }
                let product = self.permuted[l].product(
                    self.beta,
                    self.gamma,
                    &self.lookup_blinds[l],
                );
                proof {
                    assert(vals(product@).len() == product@.len());
                    assert(vals(self.lookup_blinds@[l as int]@).len() == key.bf());
                }
                let values = copied(&product);
                self.products.push(product);
                Ok(ProofAction::WriteValues(values))
            },
            Committed::Blinding => Ok(ProofAction::WriteCoefficients(random_poly(n))),
            Committed::QuotientPiece(i) => {
                if self.pieces.len() == 0 {
                    self.pieces = self.compute_pieces(key);
                    proof {
                        let made = ProofState { pieces: self.pieces, ..before };
                        assert(made == *self);
                        before.lemma_pieces_are(*self, *key);
                    }
                }
                Ok(ProofAction::WriteCoefficients(copied(&self.pieces[i])))
            },
        }
    }

    /// Does what a step works on inside the proof, and says what is to be done
    /// outside of it. It fails where a lookup does not hold.
    pub fn perform(&mut self, key: &ProofKey<F>, step: ProofStep) -> (r: Result<
        ProofAction<F>,
        Error,
    >)
        requires
            key.wf(),
            old(self).wf(*key),
            old(self).ready(*key, step),
        ensures
            final(self).wf(*key),
            r matches Ok(action) ==> old(self).performed(*key, step, *final(self), action),
            r is Ok && !(step is Draw) && !(step is Squeeze) ==> final(self).progress() == old(
                self,
            ).progress().after(step),
            r matches Err(e) ==> e == Error::ConstraintSystemFailure && *final(self) == *old(self),
            r is Err <==> (step matches ProofStep::WritePoint(Committed::LookupInput(l)) && !old(
                self,
            ).lookup_holds(*key, l as int)),
    {
        match step {
            ProofStep::HashKey => Ok(ProofAction::HashKey),
            ProofStep::CommonScalar(c, i) => Ok(ProofAction::CommonScalar(self.instances[c][i])),
            ProofStep::CommonPoint(c) => {
                let columns = self.columns.as_ref().unwrap();
                Ok(ProofAction::CommonPoint(copied(columns.instance.instance_values[c].values())))
            },
            ProofStep::Draw(_, count) => Ok(ProofAction::Draw(count)),
            ProofStep::WritePoint(what) => self.commit(key, what),
            ProofStep::Squeeze(_) => Ok(ProofAction::Squeeze),
            ProofStep::WriteScalar(which, at) => {
                Ok(ProofAction::WriteScalar(self.evaluate(key, which, at)))
            },
        }
    }
}

/// The coefficients of the polynomial that has the given values on the domain.
fn coefficients<F: Field>(domain: &EvaluationDomain<F>, values: &Vec<F>) -> (r: Vec<F>)
    requires
        domain.wf(),
        values@.len() == domain.size(),
    ensures
        vals(r@) == domain.coefficients(vals(values@)),
        r@.len() == domain.size(),
{
    let values: Polynomial<F, LagrangeCoeff> = Polynomial::new(copied(values));
    domain.lagrange_to_coeff(values).into_values()
}

/// A copy of polynomials.
fn copied_polys<F: Field>(polys: &Vec<Polynomial<F, Coeff>>) -> (r: Vec<Polynomial<F, Coeff>>)
    ensures
        same_polys(r@, polys@),
{
    let mut out: Vec<Polynomial<F, Coeff>> = Vec::new();
    let mut c: usize = 0;
    while c < polys.len()
        invariant
            c <= polys@.len(),
            out@.len() == c,
            forall|d: int| 0 <= d < c ==> (#[trigger] out@[d])@ == polys@[d]@,
        decreases polys@.len() - c,
    {
        out.push(Polynomial::new(copied(polys[c].values())));
        c += 1;
    }
    out
}

} // verus!
