//! What the device is handed to evaluate a graph over all rows.

use crate::field::{fneg, vals, Field};
use crate::plonk::encoding::{graph_encodable, packed_sources, rules_of, CalcRule};
use crate::plonk::evaluator::{compress_graph, Evaluator};
use crate::plonk::expression::GpuExpression;
use crate::plonk::flattening::{device_encodable, terminated};
use crate::plonk::graph::{all_selector_free, GraphEvaluator};
use crate::poly::transforms::copied;
use vstd::prelude::*;

verus! {

/// The tape of a graph, with the constants that it reads.
#[derive(Debug)]
pub struct Launch<F: Field> {
    /// The constants of the graph.
    pub constants: Vec<F>,
    /// The constants of the kernel: `[0, 1, -1, 2, factor]`, where `factor` is
    /// what the value parts are folded by.
    pub expr_constants: Vec<F>,
    pub intermediate_rules: Vec<CalcRule>,
    pub value_part_rules: Vec<u64>,
    /// What the value parts are folded into.
    pub seed: Seed,
}

/// What the value parts of a row are folded into.
#[derive(Clone, Copy, Debug, PartialEq, Eq, Structural)]
pub enum Seed {
    /// Zero.
    Zero,
    /// The value of the row that the circuits before have come to.
    Previous,
}

impl Seed {
    /// The value that a row is folded into, where `previous` is what the circuits
    /// before have come to.
    pub open spec fn value(self, previous: int) -> int {
        match self {
            Seed::Zero => 0,
            Seed::Previous => previous,
        }
    }

    /// The seed of a circuit of a batch: zero for the first.
    pub open spec fn of_circuit(c: nat) -> Seed {
        if c == 0 {
            Seed::Zero
        } else {
            Seed::Previous
        }
    }

    /// The seed of a circuit of a batch.
    pub fn for_circuit(c: usize) -> (r: Seed)
        ensures
            r == Seed::of_circuit(c as nat),
    {
        if c == 0 {
            Seed::Zero
        } else {
            Seed::Previous
        }
    }

    /// The rows of the values before that a chunk of rows is folded into: the
    /// same rows, or none.
    pub fn rows(&self, chunk: (usize, usize)) -> (r: Option<(usize, usize)>)
        ensures
            r == (match *self {
                Seed::Zero => None,
                Seed::Previous => Some(chunk),
            }),
    {
        match self {
            Seed::Zero => None,
            Seed::Previous => Some(chunk),
        }
    }
}

/// The kernel's constants.
pub fn expr_constants<F: Field>(factor: F) -> (r: Vec<F>)
    ensures
        vals(r@) == seq![
            0int,
            1int,
            fneg(F::modulus(), 1),
            2int % F::modulus(),
            factor.val(),
        ],
{
    let mut out: Vec<F> = Vec::new();
    out.push(F::zero());
    out.push(F::one());
    out.push(F::one().neg());
    out.push(F::from_u64(2));
    out.push(factor);
    assert(vals(out@) =~= seq![
        0int,
        1int,
        fneg(F::modulus(), 1),
        2int % F::modulus(),
        factor.val(),
    ]);
    out
}

/// Whether chunks follow each other, each of `batch_size` rows, but for the last,
/// which may have fewer.
pub open spec fn are_chunks(chunks: Seq<(usize, usize)>, num_rows: int, batch_size: int) -> bool {
    &&& forall|i: int|
        0 <= i < chunks.len() ==> (#[trigger] chunks[i]).0 == i * batch_size && chunks[i].1 == (if (
        i + 1) * batch_size <= num_rows {
            (i + 1) * batch_size
        } else {
            num_rows
        }) && chunks[i].0 < chunks[i].1
    &&& num_rows == 0 ==> chunks.len() == 0
    &&& num_rows > 0 ==> chunks.len() > 0 && chunks.last().1 == num_rows
}

/// The rows in chunks that the device can take at once, from start to end.
pub fn row_chunks(num_rows: usize, batch_size: usize) -> (r: Vec<(usize, usize)>)
    requires
        batch_size > 0,
    ensures
        are_chunks(r@, num_rows as int, batch_size as int),
{
    let mut out: Vec<(usize, usize)> = Vec::new();
    let mut row_cursor: usize = 0;
    assert(0 * batch_size == 0);
    while row_cursor < num_rows
        invariant
            batch_size > 0,
            row_cursor <= num_rows,
            row_cursor < num_rows ==> row_cursor == out@.len() * batch_size,
            row_cursor == 0 ==> out@.len() == 0,
            row_cursor > 0 ==> out@.len() > 0 && out@.last().1 == row_cursor,
            forall|i: int|
                0 <= i < out@.len() ==> (#[trigger] out@[i]).0 == i * batch_size && out@[i].1 == (
                if (i + 1) * batch_size <= num_rows {
                    (i + 1) * batch_size
                } else {
                    num_rows as int
                }) && out@[i].0 < out@[i].1,
        decreases num_rows - row_cursor,
    {
        let rest = num_rows - row_cursor;
        let chunk_len = if rest < batch_size {
            rest
        } else {
            batch_size
        };
        let ghost i = out@.len() as int;
        proof {
            assert((i + 1) * batch_size == i * batch_size + batch_size) by (nonlinear_arith);
        }
        out.push((row_cursor, row_cursor + chunk_len));
        row_cursor = row_cursor + chunk_len;
    }
    out
}

/// Every row is in one chunk, and in no other.
pub proof fn law_chunks_cover_rows(
    chunks: Seq<(usize, usize)>,
    num_rows: int,
    batch_size: int,
    row: int,
)
    requires
        are_chunks(chunks, num_rows, batch_size),
        batch_size > 0,
        0 <= row < num_rows,
    ensures
        0 <= row / batch_size < chunks.len(),
        forall|i: int|
            0 <= i < chunks.len() ==> ((#[trigger] chunks[i]).0 <= row < chunks[i].1 <==> i == row
                / batch_size),
{
    let q = row / batch_size;
    vstd::arithmetic::div_mod::lemma_fundamental_div_mod(row, batch_size);
    assert(0 <= q) by (nonlinear_arith)
        requires
            row >= 0,
            batch_size > 0,
            q == row / batch_size,
    ;
    let b = batch_size;
    assert(b * q == q * b) by (nonlinear_arith);
    assert(q * b <= row < q * b + b);
    let n = chunks.len() as int;
    assert(q < n) by {
        let last = chunks[n - 1];
        assert(last.1 == num_rows);
        if q >= n {
            assert(q * b >= n * b) by (nonlinear_arith)
                requires
                    q >= n,
                    b > 0,
            ;
            assert(n * b == (n - 1 + 1) * b);
        }
    }
    assert forall|i: int| 0 <= i < chunks.len() implies ((#[trigger] chunks[i]).0 <= row
        < chunks[i].1 <==> i == q) by {
        assert((i + 1) * b == i * b + b) by (nonlinear_arith);
        if i < q {
            assert((i + 1) * b <= q * b) by (nonlinear_arith)
                requires
                    i + 1 <= q,
                    b > 0,
            ;
        }
        if i > q {
            assert(i * b >= (q + 1) * b) by (nonlinear_arith)
                requires
                    i >= q + 1,
                    b > 0,
            ;
            assert((q + 1) * b == q * b + b) by (nonlinear_arith);
        }
    }
}

/// What the device is handed to fold expressions by `theta`: slot 4 is the
/// kernel's Horner factor.
pub fn compress_expressions_device<F: Field>(expressions: &Vec<GpuExpression<F>>, theta: F) -> (r:
    Launch<F>)
    requires
        all_selector_free(expressions@),
        graph_encodable(
            compress_graph(expressions@).calculations,
            compress_graph(expressions@).rotations,
        ),
    ensures
        ({
            let g = compress_graph(expressions@);
            &&& vals(r.constants@) == g.constants
            &&& vals(r.expr_constants@) == seq![
                0int,
                1int,
                fneg(F::modulus(), 1),
                2int % F::modulus(),
                theta.val(),
            ]
            &&& r.intermediate_rules@ == rules_of(g.calculations.drop_last(), g.rotations)
            &&& r.value_part_rules@ == packed_sources(
                g.calculations.last()->Horner_1,
                g.rotations,
            )
        }),
        r.seed == Seed::Zero,
{
    let graph = GraphEvaluator::for_compress(expressions);
    compress_expressions_in_place_device(&graph, theta)
}

/// What the device is handed to evaluate a graph that ends in a fold by
/// `factor`.
pub fn compress_expressions_in_place_device<F: Field>(graph: &GraphEvaluator<F>, factor: F) -> (r:
    Launch<F>)
    requires
        graph_encodable(graph@.calculations, graph@.rotations),
    ensures
        r.constants@ == graph.constants@,
        vals(r.constants@) == graph@.constants,
        vals(r.expr_constants@) == seq![
            0int,
            1int,
            fneg(F::modulus(), 1),
            2int % F::modulus(),
            factor.val(),
        ],
        r.intermediate_rules@ == rules_of(graph@.calculations.drop_last(), graph@.rotations),
        r.value_part_rules@ == packed_sources(
            graph@.calculations.last()->Horner_1,
            graph@.rotations,
        ),
        r.seed == Seed::Zero,
{
    let (intermediate_rules, value_part_rules) = graph.encode_for_device();
    let constants = copied(&graph.constants);
    assert(vals(constants@) =~= graph@.constants);
    Launch {
        constants,
        expr_constants: expr_constants(factor),
        intermediate_rules,
        value_part_rules,
        seed: Seed::Zero,
    }
}

/// What the device is handed to evaluate a graph that reads the challenges: they
/// lie behind the graph's own constants, and the value parts are not folded by
/// anything.
pub fn compress_expressions_with_runtime_constants_device<F: Field>(
    graph: &GraphEvaluator<F>,
    theta: F,
    beta: F,
    gamma: F,
    y: F,
) -> (r: Launch<F>)
    requires
        device_encodable(graph@),
    ensures
        r.constants@ == graph.constants@ + seq![theta, beta, gamma, y],
        vals(r.expr_constants@) == seq![
            0int,
            1int,
            fneg(F::modulus(), 1),
            2int % F::modulus(),
            0int,
        ],
        ({
            let t = terminated(graph@.calculations, graph@.constants.len());
            &&& r.intermediate_rules@ == rules_of(t.drop_last(), graph@.rotations)
            &&& r.value_part_rules@ == packed_sources(t.last()->Horner_1, graph@.rotations)
        }),
        r.seed == Seed::Zero,
{
    let (constants, intermediate_rules, value_part_rules) =
        graph.encode_for_device_with_runtime_constants(theta, beta, gamma, y);
    Launch {
        constants,
        expr_constants: expr_constants(F::zero()),
        intermediate_rules,
        value_part_rules,
        seed: Seed::Zero,
    }
}

/// What the device is handed to evaluate the custom gates of a circuit of a batch,
/// folded by `y` into what the circuits before it have come to.
pub fn quotient_device<F: Field>(evaluator: &Evaluator<F>, y: F, circuit: usize) -> (r: Launch<F>)
    requires
        graph_encodable(evaluator.custom_gates@.calculations, evaluator.custom_gates@.rotations),
    ensures
        vals(r.constants@) == evaluator.custom_gates@.constants,
        vals(r.expr_constants@) == seq![
            0int,
            1int,
            fneg(F::modulus(), 1),
            2int % F::modulus(),
            y.val(),
        ],
        r.intermediate_rules@ == rules_of(
            evaluator.custom_gates@.calculations.drop_last(),
            evaluator.custom_gates@.rotations,
        ),
        r.value_part_rules@ == packed_sources(
            evaluator.custom_gates@.calculations.last()->Horner_1,
            evaluator.custom_gates@.rotations,
        ),
        r.seed == Seed::of_circuit(circuit as nat),
{
    let launch = compress_expressions_in_place_device(&evaluator.custom_gates, y);
    Launch { seed: Seed::for_circuit(circuit), ..launch }
}

} // verus!
