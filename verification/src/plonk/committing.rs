//! What is committed to is what is opened, and what is opened is what the constraints
//! are about.

use crate::field::{vals, Field};
use crate::plonk::lookup;
use crate::plonk::evaluator::custom_gates_graph;
use crate::plonk::lookup::permute::repeats;
use crate::plonk::lookup::prover::{LookupPoly, Permuted};
use crate::plonk::prover::{Blinded, ChallengeName, Committed, Opened, ProofStep};
use crate::plonk::proving::{holds_key, lemma_key_followable, ProofAction, ProofKey, ProofState};
use crate::plonk::quotient::{CircuitPolys, KeyPolys};
use crate::plonk::witness::in_phase;
use crate::poly::{LagrangeCoeff, Polynomial};
use crate::poly::arithmetic::poly_eval;
use vstd::prelude::*;

verus! {

/// A commitment is to the polynomial that is opened later: one that is given by values to
/// the polynomial with these values on the domain. Those to the quotient are to its pieces,
/// in their order.
pub proof fn law_commitments_are_opened<F: Field>(
    before: ProofState<F>,
    after: ProofState<F>,
    key: ProofKey<F>,
    what: Committed,
    action: ProofAction<F>,
)
    requires
        key.wf(),
        before.wf(key),
        before.ready(key, ProofStep::WritePoint(what)),
        before.performed(key, ProofStep::WritePoint(what), after, action),
    ensures
        match what {
            Committed::Advice(c) => action matches ProofAction::WriteValues(v)
                && key.domain.coefficients(vals(v@)) == after.opened(key, Opened::Advice(c)),
            Committed::LookupInput(l) => action matches ProofAction::WriteValues(v)
                && key.domain.coefficients(vals(v@)) == after.opened(
                key,
                Opened::Lookup(l, LookupPoly::PermutedInput),
            ),
            Committed::LookupTable(l) => action matches ProofAction::WriteValues(v)
                && key.domain.coefficients(vals(v@)) == after.opened(
                key,
                Opened::Lookup(l, LookupPoly::PermutedTable),
            ),
            Committed::PermutationProduct(s) => action matches ProofAction::WriteCoefficients(v)
                && vals(v@) == after.opened(key, Opened::PermutationProduct(s)),
            Committed::LookupProduct(l) => action matches ProofAction::WriteValues(v)
                && key.domain.coefficients(vals(v@)) == after.opened(
                key,
                Opened::Lookup(l, LookupPoly::Product),
            ),
            Committed::Blinding => action matches ProofAction::WriteCoefficients(v) && vals(v@)
                == after.opened(key, Opened::Blinding),
            Committed::QuotientPiece(i) => action matches ProofAction::WriteCoefficients(v) && v@
                == after.pieces@[i as int]@,
        },
{
    lemma_key_followable(key, false, before.instances@);
    if let Committed::Advice(c) = what {
        let _ = before.columns->0.advice.advice_polys@[c as int];
    }
}

/// What else goes to the transcript: an instance value as it is, or the instance column
/// that is opened later; and the value of a polynomial at the point, times `omega` to the
/// power of the rotation.
pub proof fn law_hashed_and_written<F: Field>(
    before: ProofState<F>,
    after: ProofState<F>,
    key: ProofKey<F>,
    step: ProofStep,
    action: ProofAction<F>,
)
    requires
        key.wf(),
        before.wf(key),
        before.ready(key, step),
        before.performed(key, step, after, action),
    ensures
        match step {
            ProofStep::HashKey => action is HashKey && after == before,
            ProofStep::CommonScalar(c, r) => action == ProofAction::CommonScalar(
                before.instances@[c as int]@[r as int],
            ) && after == before,
            ProofStep::CommonPoint(c) => action matches ProofAction::CommonPoint(v)
                && key.domain.coefficients(vals(v@)) == after.opened(key, Opened::Instance(c))
                && after == before,
            ProofStep::Draw(_, count) => action == ProofAction::<F>::Draw(count) && after
                == before,
            ProofStep::Squeeze(_) => action is Squeeze && after == before,
            ProofStep::WriteScalar(which, at) => action matches ProofAction::WriteScalar(v)
                && v.val() == poly_eval(
                F::modulus(),
                after.opened(key, which),
                (after.x.val() * key.domain.omega_power(at.0 as int)) % F::modulus(),
            ) && after == before,
            ProofStep::WritePoint(_) => true,
        },
{
    if let ProofStep::CommonPoint(c) = step {
        lemma_key_followable(key, false, before.instances@);
        let _ = before.columns->0.instance.instance_polys@[c as int];
    }
}

/// The polynomials that are opened are those that the constraints are about.
pub proof fn law_opened_are_constrained<F: Field>(
    state: ProofState<F>,
    key: ProofKey<F>,
    polys: KeyPolys<F>,
    circuit: CircuitPolys<F>,
    c: usize,
)
    requires
        holds_key(polys, key.parts),
        state.holds_circuit(key, circuit),
    ensures
        c < circuit.advice@.len() ==> state.opened(key, Opened::Advice(c)) == vals(
            circuit.advice@[c as int]@,
        ),
        c < circuit.instance@.len() ==> state.opened(key, Opened::Instance(c)) == vals(
            circuit.instance@[c as int]@,
        ),
        c < polys.fixed@.len() ==> state.opened(key, Opened::Fixed(c)) == vals(
            polys.fixed@[c as int]@,
        ),
        c < polys.sigmas@.len() ==> state.opened(key, Opened::PermutationCommon(c)) == vals(
            polys.sigmas@[c as int]@,
        ),
        c < circuit.products@.len() ==> state.opened(key, Opened::PermutationProduct(c)) == vals(
            circuit.products@[c as int]@,
        ),
        c < circuit.lookups@.len() ==> {
            let l = circuit.lookups@[c as int];
            &&& state.opened(key, Opened::Lookup(c, LookupPoly::Product)) == vals(l.product@)
            &&& state.opened(key, Opened::Lookup(c, LookupPoly::PermutedInput))
                == key.domain.coefficients(vals(l.permuted_input@))
            &&& state.opened(key, Opened::Lookup(c, LookupPoly::PermutedTable))
                == key.domain.coefficients(vals(l.permuted_table@))
        },
        state.opened(key, Opened::Blinding).len() >= 1,
        state.opened(key, Opened::Blinding)[0] == 1,
{
    let i = c as int;
    if i < circuit.advice@.len() {
        let _ = circuit.advice@[i];
    }
    if i < circuit.instance@.len() {
        let _ = circuit.instance@[i];
    }
    if i < polys.fixed@.len() {
        let _ = polys.fixed@[i];
    }
    if i < polys.sigmas@.len() {
        let _ = polys.sigmas@[i];
    }
    if i < circuit.products@.len() {
        let _ = circuit.products@[i];
    }
}

/// A challenge is kept under its own name, and all else stays.
pub proof fn law_challenges_are_kept<F: Field>(
    before: ProofState<F>,
    after: ProofState<F>,
    name: ChallengeName,
    value: F,
)
    requires
        before.challenged(name, value, after),
    ensures
        after.theta == (if name is Theta {
            value
        } else {
            before.theta
        }),
        after.beta == (if name is Beta {
            value
        } else {
            before.beta
        }),
        after.gamma == (if name is Gamma {
            value
        } else {
            before.gamma
        }),
        after.y == (if name is Y {
            value
        } else {
            before.y
        }),
        after.x == (if name is X {
            value
        } else {
            before.x
        }),
        after.challenges@ == (if name is Circuit {
            before.challenges@.push(value)
        } else {
            before.challenges@
        }),
        after.columns == before.columns,
        after.instances == before.instances,
        after.advice == before.advice,
        after.advice_blinds == before.advice_blinds,
        after.set_blinds == before.set_blinds,
        after.lookup_blinds == before.lookup_blinds,
        after.permuted == before.permuted,
        after.sets == before.sets,
        after.products == before.products,
        after.pieces == before.pieces,
{
}

/// Random values are kept for what they were drawn for, and all that has been made stays.
pub proof fn law_draws_are_kept<F: Field>(
    before: ProofState<F>,
    after: ProofState<F>,
    key: ProofKey<F>,
    what: Blinded,
    values: Vec<F>,
)
    requires
        before.drawn(key, what, values, after),
    ensures
        after.advice_blinds@ == (if what is Advice {
            before.advice_blinds@.push(values)
        } else {
            before.advice_blinds@
        }),
        after.set_blinds@ == (if what is PermutationProduct {
            before.set_blinds@.push(values)
        } else {
            before.set_blinds@
        }),
        after.lookup_blinds@ == (if what is LookupProduct {
            before.lookup_blinds@.push(values)
        } else {
            before.lookup_blinds@
        }),
        !(what is Advice) ==> after.columns == before.columns && after.advice == before.advice,
        what is Advice && before.advice_blinds@.len() + 1 < in_phase(
            key.cs().advice_column_phase@,
            0,
        ).len() ==> after.columns == before.columns && after.advice == before.advice,
        what is Advice && before.advice_blinds@.len() + 1 >= in_phase(
            key.cs().advice_column_phase@,
            0,
        ).len() ==> (after.columns matches Some(columns) && columns.taken_from(
            key,
            before.instances@,
            before.advice@,
            before.advice_blinds@.push(values),
        )),
        after.instances == before.instances,
        after.permuted == before.permuted,
        after.sets == before.sets,
        after.products == before.products,
        after.pieces == before.pieces,
        after.challenges == before.challenges,
        after.theta == before.theta,
        after.beta == before.beta,
        after.gamma == before.gamma,
        after.y == before.y,
        after.x == before.x,
{
}

/// The constraints are folded with the challenges of the proof, over the columns of its
/// key: two less than the degree to a set, and with the row behind the usable ones as the
/// last.
pub proof fn law_constraints_of_proof<F: Field>(
    state: ProofState<F>,
    key: ProofKey<F>,
    polys: KeyPolys<F>,
)
    requires
        key.wf(),
    ensures
        ({
            let model = state.quotient_model(key, polys);
            &&& model.domain == key.domain
            &&& model.key == polys
            &&& model.gates == custom_gates_graph(key.cs().gates@)
            &&& model.graphs.len() == key.cs().lookups@.len()
            &&& model.columns == key.cs().permutation.columns@
            &&& model.challenges == state.challenges@
            &&& model.folding.y == state.y
            &&& model.folding.beta == state.beta
            &&& model.folding.gamma == state.gamma
            &&& model.folding.theta == state.theta
            &&& model.chunk_len == key.degree - 2
            &&& model.last == -(key.bf() + 1)
        }),
{
}

/// The permuted columns of a lookup. In the usable rows the inputs ascend; a table entry
/// stands beside the first of equal inputs, and beside the others stand those that are
/// left, which descend. Both hold what the compressed columns hold there, and zeros behind.
pub proof fn law_permuted_rows<F: Field>(
    argument: lookup::Argument<F>,
    theta: int,
    n: usize,
    bf: usize,
    fixed: Seq<Polynomial<F, LagrangeCoeff>>,
    advice: Seq<Polynomial<F, LagrangeCoeff>>,
    instance: Seq<Polynomial<F, LagrangeCoeff>>,
    challenges: Seq<F>,
    columns: Permuted<F>,
    i: int,
    j: int,
)
    requires
        bf < n,
        argument.permutes_to(theta, n, bf, fixed, advice, instance, challenges, columns),
    ensures
        ({
            let a = vals(columns.permuted_input_expression@);
            let t = vals(columns.permuted_table_expression@);
            let rows = n - bf - 1;
            &&& a.len() == n
            &&& t.len() == n
            &&& 0 <= i < j < rows ==> a[i] <= a[j]
            &&& 0 <= i < rows && (i == 0 || a[i] != a[i - 1]) ==> t[i] == a[i]
            &&& 0 < i < j < rows && a[i] == a[i - 1] && a[j] == a[j - 1] ==> t[i] >= t[j]
            &&& rows <= i < n ==> a[i] == 0 && t[i] == 0
            &&& a.take(rows).to_multiset() == vals(columns.compressed_input_expression@).take(
                rows,
            ).to_multiset()
            &&& t.take(rows).to_multiset() == vals(columns.compressed_table_expression@).take(
                rows,
            ).to_multiset()
        }),
{
    let rows = n - bf - 1;
    let a = vals(columns.permuted_input_expression@);
    let t = vals(columns.permuted_table_expression@);
    let (x, y) = (a.take(rows), t.take(rows));
    if 0 <= i < rows {
        assert(x[i] == a[i] && y[i] == t[i]);
        if i > 0 {
            assert(x[i - 1] == a[i - 1]);
        }
    }
    if 0 <= j < rows {
        assert(x[j] == a[j] && y[j] == t[j]);
        if j > 0 {
            assert(x[j - 1] == a[j - 1]);
        }
    }
    if 0 < i < j < rows && a[i] == a[i - 1] && a[j] == a[j - 1] {
        assert(repeats(x, i) && repeats(x, j));
    }
}

} // verus!
