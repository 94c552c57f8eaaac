//! What the device folds the gates of each circuit of a batch into.

use crate::field::Field;
use crate::plonk::constraint_system::GpuGate;
use crate::plonk::degrees::lemma_part_cells_in_range;
use crate::plonk::encoding::{packed_sources, rules_of};
use crate::plonk::evaluator::{
    custom_gates_graph, gate_polys, is_result, law_custom_gates_value, lemma_expressions_plain,
    plain, Evaluator,
};
use crate::plonk::graph::{
    all_selector_free, empty_graph, lemma_find, CalculationModel, ValueSource,
};
use crate::plonk::graph_values::horner;
use crate::plonk::launch::Seed;
use crate::plonk::lookup;
use crate::plonk::quotient::{first_label, CircuitPolys, QuotientModel};
use crate::plonk::tape::{all_small, law_tape_computes_graph, tape_value};
use vstd::prelude::*;

verus! {

/// What the custom gates' graph ends in: Horner's rule over the results of plain
/// calculations, from the previous value and by `y`.
proof fn lemma_custom_gates_shape<F: Field>(gates: Seq<GpuGate<F>>)
    ensures
        ({
            let g = custom_gates_graph(gates);
            let parts = empty_graph().with_expressions(gate_polys(gates)).1;
            &&& g.calculations.len() > 0
            &&& g.calculations.last() == CalculationModel::Horner(
                ValueSource::PreviousValue(),
                parts,
                ValueSource::Y(),
            )
            &&& forall|i: int|
                0 <= i < g.calculations.len() - 1 ==> plain(#[trigger] g.calculations[i])
            &&& forall|i: int| 0 <= i < parts.len() ==> is_result(#[trigger] parts[i])
        }),
{
    let s = gate_polys(gates);
    let (h, parts) = empty_graph().with_expressions(s);
    let c = CalculationModel::Horner(ValueSource::PreviousValue(), parts, ValueSource::Y());
    lemma_expressions_plain(empty_graph(), s, 0);
    lemma_find(h.calculations, c);
    assert forall|i: int| 0 <= i < h.calculations.len() implies #[trigger] h.calculations[i]
        != c by {
        assert(plain(h.calculations[i]));
    }
}

/// The device folds the gates of a circuit into the value that the circuits before
/// it have come to: from the seed of the circuit, the tape that
/// [`quotient_device`] hands out gives the value of the gates, and folding the
/// constraints of the permutation argument and of the lookups into it gives the
/// value of the row.
///
/// [`quotient_device`]: crate::plonk::launch::quotient_device
pub proof fn law_seeded_tape_gives_row_value<F: Field>(
    model: QuotientModel<F>,
    evaluator: Evaluator<F>,
    gates: Seq<GpuGate<F>>,
    lookups: Seq<lookup::Argument<F>>,
    circuits: Seq<CircuitPolys<F>>,
    c: nat,
    at: int,
    i: usize,
)
    requires
        model.domain.wf(),
        c < circuits.len(),
        evaluator.evaluates(gates, lookups),
        model.gates == evaluator.custom_gates@,
        all_selector_free(gate_polys(gates)),
        model.gates.fits(),
        all_small(model.gates, model.gates.calculations.len()),
    ensures
        ({
            let p = F::modulus();
            let g = model.gates;
            let columns = model.columns(circuits[c as int], at);
            let before = model.value(circuits, at, c, i);
            let gate_value = tape_value(
                p,
                rules_of(g.calculations.drop_last(), g.rotations),
                packed_sources(g.calculations.last()->Horner_1, g.rotations),
                Seed::of_circuit(c).value(before),
                columns.y,
                g.constants,
                columns.cells(i),
            );
            let start = first_label::<F>(
                model.folding.beta.val(),
                at,
                model.domain.omega.val(),
                i as nat,
            );
            &&& gate_value == g.value(p, columns.cells(i), columns.scalars(before))
            &&& columns.row_value::<F>(g, model.graphs, i, before, start) == horner(
                p,
                horner(p, gate_value, columns.permutation_terms::<F>(i, start), columns.y),
                columns.lookups_terms(p, model.graphs, columns.lookups.len(), i),
                columns.y,
            )
            &&& model.value(circuits, at, c + 1, i) == columns.row_value::<F>(
                g,
                model.graphs,
                i,
                before,
                start,
            )
        }),
{
    let p = F::modulus();
    let g = model.gates;
    let columns = model.columns(circuits[c as int], at);
    let before = model.value(circuits, at, c, i);
    let scalars = columns.scalars(before);
    F::lemma_modulus();
    lemma_part_cells_in_range(model, circuits[c as int], at, i);
    law_custom_gates_value(gates, columns.cells(i), scalars);
    lemma_custom_gates_shape(gates);
    assert forall|k: int| 0 <= k < g.constants.len() implies 0 <= #[trigger] g.constants[k] < p by {
        evaluator.custom_gates.constants@[k].lemma_val_range();
    }
    law_tape_computes_graph(g, p, columns.cells(i), scalars);
    assert(c == 0 ==> before == 0);
}

} // verus!
