//! The order of a proof: what is hashed, committed to, squeezed, evaluated and
//! opened, one after another.

use crate::field::{vals, Field};
use crate::plonk::circuit::{GpuAdvice, GpuColumn, GpuFixed, GpuInstance, Phase};
use crate::plonk::constraint_system::GpuConstraintSystem;
use crate::plonk::error::{Error, GpuError};
use crate::plonk::lookup::prover::LookupPoly;
use crate::plonk::lookup;
use crate::plonk::permutation;
use crate::plonk::permutation::prover::{
    chunk_count, last_rotation, lemma_append_contains,
};
use crate::plonk::queries::{law_queries_distinct, with_queries};
use crate::plonk::witness::{
    check_instances, column_and_challenge_indices, column_values, in_phase, phases_exist,
    synthesize_advices_and_instances, WitnessCollection,
};
use crate::poly::{LagrangeCoeff, Polynomial, Rotation};
use vstd::prelude::*;

verus! {

/// What a commitment is made to.
#[derive(Clone, Copy, Debug, PartialEq, Eq, Structural)]
pub enum Committed {
    /// An advice column.
    Advice(usize),
    /// The permuted inputs of a lookup.
    LookupInput(usize),
    /// The permuted table of a lookup.
    LookupTable(usize),
    /// The running product of a set of permuted columns.
    PermutationProduct(usize),
    /// The running product of a lookup.
    LookupProduct(usize),
    /// The blinding polynomial of the vanishing argument.
    Blinding,
    /// A piece of the quotient polynomial.
    QuotientPiece(usize),
}

/// What random values are drawn for.
#[derive(Clone, Copy, Debug, PartialEq, Eq, Structural)]
pub enum Blinded {
    /// The last rows of an advice column.
    Advice(usize),
    /// The last rows of the running product of a set of permuted columns.
    PermutationProduct(usize),
    /// The last rows of the running product of a lookup.
    LookupProduct(usize),
    /// The commitment to a piece of the quotient polynomial.
    QuotientPiece(usize),
}

/// A challenge that the verifier would send.
#[derive(Clone, Copy, Debug, PartialEq, Eq, Structural)]
pub enum ChallengeName {
    /// A challenge of the circuit.
    Circuit(usize),
    /// The challenge that keeps lookup columns linearly independent.
    Theta,
    /// The first challenge of the permutation and lookup arguments.
    Beta,
    /// The second challenge of the permutation and lookup arguments.
    Gamma,
    /// The challenge that keeps all gates linearly independent.
    Y,
    /// The point at which everything is evaluated.
    X,
}

/// A polynomial that is evaluated and opened.
#[derive(Clone, Copy, Debug, PartialEq, Eq, Structural)]
pub enum Opened {
    Instance(usize),
    Advice(usize),
    Fixed(usize),
    /// The polynomial that says where a column is permuted to.
    PermutationCommon(usize),
    PermutationProduct(usize),
    Lookup(usize, LookupPoly),
    /// The folded pieces of the quotient polynomial.
    Quotient,
    /// The blinding polynomial of the vanishing argument.
    Blinding,
}

/// A step of a proof.
#[derive(Clone, Copy, Debug, PartialEq, Eq, Structural)]
pub enum ProofStep {
    /// Hash the verifying key into the transcript.
    HashKey,
    /// Hash an instance value, given by its column and row.
    CommonScalar(usize, usize),
    /// Hash the commitment to an instance column.
    CommonPoint(usize),
    /// Draw as many random values.
    Draw(Blinded, usize),
    /// Write a commitment.
    WritePoint(Committed),
    /// Squeeze a challenge.
    Squeeze(ChallengeName),
    /// Write the value of a polynomial at a rotation of the point.
    WriteScalar(Opened, Rotation),
}

/// The values of the first `rows` rows of a column.
pub open spec fn column_scalars(column: int, rows: nat) -> Seq<ProofStep> {
    Seq::new(rows, |i: int| ProofStep::CommonScalar(column as usize, i as usize))
}

/// The values of the instances, column by column.
pub open spec fn instance_scalars<F>(instances: Seq<Vec<F>>) -> Seq<ProofStep>
    decreases instances.len(),
{
    if instances.len() == 0 {
        Seq::empty()
    } else {
        instance_scalars(instances.drop_last()) + column_scalars(
            instances.len() - 1,
            instances.last()@.len(),
        )
    }
}

/// The commitments to the instance columns.
pub open spec fn instance_points(n: nat) -> Seq<ProofStep> {
    Seq::new(n, |i: int| ProofStep::CommonPoint(i as usize))
}

/// The draws for the last rows of advice columns.
pub open spec fn advice_draws(columns: Seq<usize>, count: usize) -> Seq<ProofStep> {
    Seq::new(columns.len(), |i: int| ProofStep::Draw(Blinded::Advice(columns[i]), count))
}

/// The commitments to advice columns.
pub open spec fn advice_steps(columns: Seq<usize>) -> Seq<ProofStep> {
    Seq::new(columns.len(), |i: int| ProofStep::WritePoint(Committed::Advice(columns[i])))
}

/// All of the first `n` columns.
pub open spec fn first_columns(n: nat) -> Seq<usize> {
    Seq::new(n, |i: int| i as usize)
}

/// The challenges of the circuit.
pub open spec fn challenge_steps(indices: Seq<usize>) -> Seq<ProofStep> {
    Seq::new(
        indices.len(),
        |i: int| ProofStep::Squeeze(ChallengeName::Circuit(indices[i])),
    )
}

/// The commitments to the permuted columns of the lookups.
pub open spec fn permuted_steps(n: nat) -> Seq<ProofStep>
    decreases n,
{
    if n == 0 {
        Seq::empty()
    } else {
        permuted_steps((n - 1) as nat).push(
            ProofStep::WritePoint(Committed::LookupInput((n - 1) as usize)),
        ).push(ProofStep::WritePoint(Committed::LookupTable((n - 1) as usize)))
    }
}

/// How a phase of a witness is closed: the instances are hashed with the first
/// phase, as values or, where the verifier can query them, as commitments. The
/// columns of the phase get their random values and are committed to, and the
/// challenges of the phase are squeezed.
pub open spec fn next_phase_order<F>(
    instances: Seq<Vec<F>>,
    query_instance: bool,
    phase: int,
    columns: Seq<usize>,
    challenges: Seq<usize>,
    count: usize,
) -> Seq<ProofStep> {
    (if phase == 0 && !query_instance {
        instance_scalars(instances)
    } else {
        Seq::empty()
    }) + advice_draws(columns, count) + (if phase == 0 && query_instance {
        instance_points(instances.len())
    } else {
        Seq::empty()
    }) + advice_steps(columns) + challenge_steps(challenges)
}

/// How columns of values are taken in: the values of the instances are hashed in
/// any phase, and all advice columns are committed to.
pub open spec fn raw_advice_order<F>(
    instances: Seq<Vec<F>>,
    query_instance: bool,
    phase: int,
    columns: Seq<usize>,
    num_advice: nat,
    challenges: Seq<usize>,
    count: usize,
) -> Seq<ProofStep> {
    (if !query_instance {
        instance_scalars(instances)
    } else {
        Seq::empty()
    }) + advice_draws(columns, count) + (if phase == 0 && query_instance {
        instance_points(instances.len())
    } else {
        Seq::empty()
    }) + advice_steps(first_columns(num_advice)) + challenge_steps(challenges)
}

/// The draws for the last rows of the products of the permutation argument.
pub open spec fn permutation_draws(n: nat, count: usize) -> Seq<ProofStep> {
    Seq::new(n, |i: int| ProofStep::Draw(Blinded::PermutationProduct(i as usize), count))
}

/// The commitments to the products of the permutation argument.
pub open spec fn permutation_steps(n: nat) -> Seq<ProofStep> {
    Seq::new(n, |i: int| ProofStep::WritePoint(Committed::PermutationProduct(i as usize)))
}

/// The products of the lookups: for each, the draws for its last rows, and the
/// commitment.
pub open spec fn product_steps(n: nat, count: usize) -> Seq<ProofStep>
    decreases n,
{
    if n == 0 {
        Seq::empty()
    } else {
        product_steps((n - 1) as nat, count).push(
            ProofStep::Draw(Blinded::LookupProduct((n - 1) as usize), count),
        ).push(ProofStep::WritePoint(Committed::LookupProduct((n - 1) as usize)))
    }
}

/// The draws for the commitments to the pieces of the quotient, one each.
pub open spec fn quotient_draws(n: nat) -> Seq<ProofStep> {
    Seq::new(n, |i: int| ProofStep::Draw(Blinded::QuotientPiece(i as usize), 1))
}

/// The commitments to the pieces of the quotient.
pub open spec fn quotient_steps(n: nat) -> Seq<ProofStep> {
    Seq::new(n, |i: int| ProofStep::WritePoint(Committed::QuotientPiece(i as usize)))
}

/// What a proof is about, as far as its order depends on it.
pub struct ProofShape<F> {
    pub query_instance: bool,
    pub instances: Seq<Vec<F>>,
    pub num_advice: nat,
    /// The advice columns of the first phase.
    pub columns: Seq<usize>,
    /// The challenges of the first phase.
    pub challenges: Seq<usize>,
    pub blinding_factors: usize,
    pub num_lookups: nat,
    pub num_sets: nat,
    pub num_permuted: nat,
    pub num_pieces: nat,
    pub num_fixed: nat,
    pub last: Rotation,
    pub instance_queries: Seq<(GpuColumn<GpuInstance>, Rotation)>,
    pub advice_queries: Seq<(GpuColumn<GpuAdvice>, Rotation)>,
    pub fixed_queries: Seq<(GpuColumn<GpuFixed>, Rotation)>,
}

/// Queries of instance columns.
pub open spec fn instance_opened(q: Seq<(GpuColumn<GpuInstance>, Rotation)>) -> Seq<
    (Opened, Rotation),
> {
    Seq::new(q.len(), |i: int| (Opened::Instance(q[i].0.index), q[i].1))
}

/// Queries of advice columns.
pub open spec fn advice_opened(q: Seq<(GpuColumn<GpuAdvice>, Rotation)>) -> Seq<
    (Opened, Rotation),
> {
    Seq::new(q.len(), |i: int| (Opened::Advice(q[i].0.index), q[i].1))
}

/// Queries of fixed columns.
pub open spec fn fixed_opened(q: Seq<(GpuColumn<GpuFixed>, Rotation)>) -> Seq<(Opened, Rotation)> {
    Seq::new(q.len(), |i: int| (Opened::Fixed(q[i].0.index), q[i].1))
}

/// Queries of the polynomials of the permutation, each at the point.
pub open spec fn common_opened(n: nat) -> Seq<(Opened, Rotation)> {
    Seq::new(n, |i: int| (Opened::PermutationCommon(i as usize), Rotation(0)))
}

/// Queries of the products of the permutation.
pub open spec fn products_opened(q: Seq<(usize, Rotation)>) -> Seq<(Opened, Rotation)> {
    Seq::new(q.len(), |i: int| (Opened::PermutationProduct(q[i].0), q[i].1))
}

/// Queries of a lookup.
pub open spec fn lookup_opened(lookup: usize, q: Seq<(LookupPoly, Rotation)>) -> Seq<
    (Opened, Rotation),
> {
    Seq::new(q.len(), |i: int| (Opened::Lookup(lookup, q[i].0), q[i].1))
}

/// Queries of the first `n` lookups.
pub open spec fn lookups_opened(n: nat, q: Seq<(LookupPoly, Rotation)>) -> Seq<(Opened, Rotation)>
    decreases n,
{
    if n == 0 {
        Seq::empty()
    } else {
        lookups_opened((n - 1) as nat, q) + lookup_opened((n - 1) as usize, q)
    }
}

impl<F> ProofShape<F> {
    /// Whether the queries are of columns that there are.
    pub open spec fn wf(self) -> bool {
        &&& self.num_sets <= usize::MAX
        &&& self.num_lookups <= usize::MAX
        &&& self.instance_queries.len() > 0 ==> self.instances.len() > 0
        &&& self.advice_queries.len() > 0 ==> self.num_advice > 0
        &&& self.fixed_queries.len() > 0 ==> self.num_fixed > 0
    }

    /// The evaluations, in the order in which they are written.
    pub open spec fn evaluations(self) -> Seq<(Opened, Rotation)> {
        (if self.query_instance && self.instances.len() > 0 {
            instance_opened(self.instance_queries)
        } else {
            Seq::empty()
        }) + (if self.num_advice > 0 {
            advice_opened(self.advice_queries)
        } else {
            Seq::empty()
        }) + (if self.num_fixed > 0 {
            fixed_opened(self.fixed_queries)
        } else {
            Seq::empty()
        }) + seq![(Opened::Blinding, Rotation(0))] + common_opened(self.num_permuted)
            + products_opened(
            permutation::prover::evaluations(self.num_sets, self.num_sets, self.last),
        ) + lookups_opened(self.num_lookups, lookup::prover::evaluations())
    }

    /// The openings, in their order.
    pub open spec fn openings(self) -> Seq<(Opened, Rotation)> {
        (if self.query_instance {
            instance_opened(self.instance_queries)
        } else {
            Seq::empty()
        }) + advice_opened(self.advice_queries) + products_opened(
            permutation::prover::openings(self.num_sets, self.last),
        ) + lookups_opened(self.num_lookups, lookup::prover::openings()) + fixed_opened(
            self.fixed_queries,
        ) + common_opened(self.num_permuted) + seq![
            (Opened::Quotient, Rotation(0)),
            (Opened::Blinding, Rotation(0)),
        ]
    }

    /// How the advice is taken in.
    pub open spec fn advice(self) -> Seq<ProofStep> {
        raw_advice_order(
            self.instances,
            self.query_instance,
            0,
            self.columns,
            self.num_advice,
            self.challenges,
            (self.blinding_factors + 1) as usize,
        )
    }

    /// The steps up to the point at which everything is evaluated.
    pub open spec fn commitments(self) -> Seq<ProofStep> {
        seq![ProofStep::HashKey] + self.advice() + seq![
            ProofStep::Squeeze(ChallengeName::Theta),
        ] + permuted_steps(self.num_lookups) + seq![
            ProofStep::Squeeze(ChallengeName::Beta),
            ProofStep::Squeeze(ChallengeName::Gamma),
        ] + permutation_draws(self.num_sets, self.blinding_factors) + permutation_steps(
            self.num_sets,
        ) + product_steps(self.num_lookups, self.blinding_factors) + seq![
            ProofStep::WritePoint(Committed::Blinding),
            ProofStep::Squeeze(ChallengeName::Y),
        ] + quotient_draws(self.num_pieces) + quotient_steps(self.num_pieces) + seq![
            ProofStep::Squeeze(ChallengeName::X),
        ]
    }

    /// The steps of the proof, before the openings are proved.
    pub open spec fn steps(self) -> Seq<ProofStep> {
        self.commitments() + written(self.evaluations())
    }
}

/// The steps that write evaluations.
pub open spec fn written(e: Seq<(Opened, Rotation)>) -> Seq<ProofStep> {
    Seq::new(e.len(), |i: int| ProofStep::WriteScalar(e[i].0, e[i].1))
}

/// Pushes the values of an instance column.
fn push_column_scalars(out: &mut Vec<ProofStep>, column: usize, rows: usize)
    ensures
        final(out)@ == old(out)@ + column_scalars(column as int, rows as nat),
{
    let ghost first = out@;
    let ghost all = column_scalars(column as int, rows as nat);
    let mut i: usize = 0;
    while i < rows
        invariant
            i <= rows,
            all == column_scalars(column as int, rows as nat),
            out@ == first + all.take(i as int),
        decreases rows - i,
    {
        out.push(ProofStep::CommonScalar(column, i));
        assert(all.take(i + 1) =~= all.take(i as int).push(all[i as int]));
        assert(out@ =~= first + all.take(i + 1));
        i += 1;
    }
    assert(all.take(i as int) =~= all);
}

/// Pushes the commitments to the instance columns.
fn push_instance_points(out: &mut Vec<ProofStep>, n: usize)
    ensures
        final(out)@ == old(out)@ + instance_points(n as nat),
{
    let ghost first = out@;
    let ghost all = instance_points(n as nat);
    let mut i: usize = 0;
    while i < n
        invariant
            i <= n,
            all == instance_points(n as nat),
            out@ == first + all.take(i as int),
        decreases n - i,
    {
        out.push(ProofStep::CommonPoint(i));
        assert(all.take(i + 1) =~= all.take(i as int).push(all[i as int]));
        assert(out@ =~= first + all.take(i + 1));
        i += 1;
    }
    assert(all.take(i as int) =~= all);
}

/// Pushes the draws for advice columns.
fn push_advice_draws(out: &mut Vec<ProofStep>, columns: &Vec<usize>, count: usize)
    ensures
        final(out)@ == old(out)@ + advice_draws(columns@, count),
{
    let ghost first = out@;
    let ghost all = advice_draws(columns@, count);
    let mut i: usize = 0;
    while i < columns.len()
        invariant
            i <= columns@.len(),
            all == advice_draws(columns@, count),
            out@ == first + all.take(i as int),
        decreases columns@.len() - i,
    {
        out.push(ProofStep::Draw(Blinded::Advice(columns[i]), count));
        assert(all.take(i + 1) =~= all.take(i as int).push(all[i as int]));
        assert(out@ =~= first + all.take(i + 1));
        i += 1;
    }
    assert(all.take(i as int) =~= all);
}

/// Pushes the commitments to advice columns.
fn push_advice_steps(out: &mut Vec<ProofStep>, columns: &Vec<usize>)
    ensures
        final(out)@ == old(out)@ + advice_steps(columns@),
{
    let ghost first = out@;
    let ghost all = advice_steps(columns@);
    let mut i: usize = 0;
    while i < columns.len()
        invariant
            i <= columns@.len(),
            all == advice_steps(columns@),
            out@ == first + all.take(i as int),
        decreases columns@.len() - i,
    {
        out.push(ProofStep::WritePoint(Committed::Advice(columns[i])));
        assert(all.take(i + 1) =~= all.take(i as int).push(all[i as int]));
        assert(out@ =~= first + all.take(i + 1));
        i += 1;
    }
    assert(all.take(i as int) =~= all);
}

/// All of the first `n` columns.
fn columns_to(n: usize) -> (r: Vec<usize>)
    ensures
        r@ == first_columns(n as nat),
{
    let mut out: Vec<usize> = Vec::new();
    let mut i: usize = 0;
    while i < n
        invariant
            i <= n,
            out@ =~= first_columns(i as nat),
        decreases n - i,
    {
        out.push(i);
        i += 1;
    }
    out
}

/// Pushes the challenges of the circuit.
fn push_challenge_steps(out: &mut Vec<ProofStep>, indices: &Vec<usize>)
    ensures
        final(out)@ == old(out)@ + challenge_steps(indices@),
{
    let ghost first = out@;
    let ghost all = challenge_steps(indices@);
    let mut i: usize = 0;
    while i < indices.len()
        invariant
            i <= indices@.len(),
            all == challenge_steps(indices@),
            out@ == first + all.take(i as int),
        decreases indices@.len() - i,
    {
        out.push(ProofStep::Squeeze(ChallengeName::Circuit(indices[i])));
        assert(all.take(i + 1) =~= all.take(i as int).push(all[i as int]));
        assert(out@ =~= first + all.take(i + 1));
        i += 1;
    }
    assert(all.take(i as int) =~= all);
}

/// Pushes the commitments to the products of the permutation argument.
fn push_permutation_steps(out: &mut Vec<ProofStep>, n: usize)
    ensures
        final(out)@ == old(out)@ + permutation_steps(n as nat),
{
    let ghost first = out@;
    let ghost all = permutation_steps(n as nat);
    let mut i: usize = 0;
    while i < n
        invariant
            i <= n,
            all == permutation_steps(n as nat),
            out@ == first + all.take(i as int),
        decreases n - i,
    {
        out.push(ProofStep::WritePoint(Committed::PermutationProduct(i)));
        assert(all.take(i + 1) =~= all.take(i as int).push(all[i as int]));
        assert(out@ =~= first + all.take(i + 1));
        i += 1;
    }
    assert(all.take(i as int) =~= all);
}

/// Pushes the draws for the products of the permutation argument.
fn push_permutation_draws(out: &mut Vec<ProofStep>, n: usize, count: usize)
    ensures
        final(out)@ == old(out)@ + permutation_draws(n as nat, count),
{
    let ghost first = out@;
    let ghost all = permutation_draws(n as nat, count);
    let mut i: usize = 0;
    while i < n
        invariant
            i <= n,
            all == permutation_draws(n as nat, count),
            out@ == first + all.take(i as int),
        decreases n - i,
    {
        out.push(ProofStep::Draw(Blinded::PermutationProduct(i), count));
        assert(all.take(i + 1) =~= all.take(i as int).push(all[i as int]));
        assert(out@ =~= first + all.take(i + 1));
        i += 1;
    }
    assert(all.take(i as int) =~= all);
}

/// Pushes the draws for and the commitments to the products of the lookups.
fn push_product_steps(out: &mut Vec<ProofStep>, n: usize, count: usize)
    ensures
        final(out)@ == old(out)@ + product_steps(n as nat, count),
{
    let ghost first = out@;
    let mut i: usize = 0;
    assert(out@ =~= first + product_steps(0, count));
    while i < n
        invariant
            i <= n,
            out@ == first + product_steps(i as nat, count),
        decreases n - i,
    {
        out.push(ProofStep::Draw(Blinded::LookupProduct(i), count));
        out.push(ProofStep::WritePoint(Committed::LookupProduct(i)));
        assert(out@ =~= first + product_steps((i + 1) as nat, count));
        i += 1;
    }
}

/// Pushes the draws for the pieces of the quotient.
fn push_quotient_draws(out: &mut Vec<ProofStep>, n: usize)
    ensures
        final(out)@ == old(out)@ + quotient_draws(n as nat),
{
    let ghost first = out@;
    let ghost all = quotient_draws(n as nat);
    let mut i: usize = 0;
    while i < n
        invariant
            i <= n,
            all == quotient_draws(n as nat),
            out@ == first + all.take(i as int),
        decreases n - i,
    {
        out.push(ProofStep::Draw(Blinded::QuotientPiece(i), 1));
        assert(all.take(i + 1) =~= all.take(i as int).push(all[i as int]));
        assert(out@ =~= first + all.take(i + 1));
        i += 1;
    }
    assert(all.take(i as int) =~= all);
}

/// Pushes the commitments to the pieces of the quotient.
fn push_quotient_steps(out: &mut Vec<ProofStep>, n: usize)
    ensures
        final(out)@ == old(out)@ + quotient_steps(n as nat),
{
    let ghost first = out@;
    let ghost all = quotient_steps(n as nat);
    let mut i: usize = 0;
    while i < n
        invariant
            i <= n,
            all == quotient_steps(n as nat),
            out@ == first + all.take(i as int),
        decreases n - i,
    {
        out.push(ProofStep::WritePoint(Committed::QuotientPiece(i)));
        assert(all.take(i + 1) =~= all.take(i as int).push(all[i as int]));
        assert(out@ =~= first + all.take(i + 1));
        i += 1;
    }
    assert(all.take(i as int) =~= all);
}

/// Pushes queries of instance columns.
fn push_instance_opened(
    out: &mut Vec<(Opened, Rotation)>,
    q: &Vec<(GpuColumn<GpuInstance>, Rotation)>,
)
    ensures
        final(out)@ == old(out)@ + instance_opened(q@),
{
    let ghost first = out@;
    let ghost all = instance_opened(q@);
    let mut i: usize = 0;
    while i < q.len()
        invariant
            i <= q@.len(),
            all == instance_opened(q@),
            out@ == first + all.take(i as int),
        decreases q@.len() - i,
    {
        out.push((Opened::Instance(q[i].0.index), q[i].1));
        assert(all.take(i + 1) =~= all.take(i as int).push(all[i as int]));
        assert(out@ =~= first + all.take(i + 1));
        i += 1;
    }
    assert(all.take(i as int) =~= all);
}

/// Pushes queries of advice columns.
fn push_advice_opened(
    out: &mut Vec<(Opened, Rotation)>,
    q: &Vec<(GpuColumn<GpuAdvice>, Rotation)>,
)
    ensures
        final(out)@ == old(out)@ + advice_opened(q@),
{
    let ghost first = out@;
    let ghost all = advice_opened(q@);
    let mut i: usize = 0;
    while i < q.len()
        invariant
            i <= q@.len(),
            all == advice_opened(q@),
            out@ == first + all.take(i as int),
        decreases q@.len() - i,
    {
        out.push((Opened::Advice(q[i].0.index), q[i].1));
        assert(all.take(i + 1) =~= all.take(i as int).push(all[i as int]));
        assert(out@ =~= first + all.take(i + 1));
        i += 1;
    }
    assert(all.take(i as int) =~= all);
}

/// Pushes queries of fixed columns.
fn push_fixed_opened(
    out: &mut Vec<(Opened, Rotation)>,
    q: &Vec<(GpuColumn<GpuFixed>, Rotation)>,
)
    ensures
        final(out)@ == old(out)@ + fixed_opened(q@),
{
    let ghost first = out@;
    let ghost all = fixed_opened(q@);
    let mut i: usize = 0;
    while i < q.len()
        invariant
            i <= q@.len(),
            all == fixed_opened(q@),
            out@ == first + all.take(i as int),
        decreases q@.len() - i,
    {
        out.push((Opened::Fixed(q[i].0.index), q[i].1));
        assert(all.take(i + 1) =~= all.take(i as int).push(all[i as int]));
        assert(out@ =~= first + all.take(i + 1));
        i += 1;
    }
    assert(all.take(i as int) =~= all);
}

/// Pushes queries of the polynomials of the permutation.
fn push_common_opened(out: &mut Vec<(Opened, Rotation)>, n: usize)
    ensures
        final(out)@ == old(out)@ + common_opened(n as nat),
{
    let ghost first = out@;
    let ghost all = common_opened(n as nat);
    let mut i: usize = 0;
    while i < n
        invariant
            i <= n,
            all == common_opened(n as nat),
            out@ == first + all.take(i as int),
        decreases n - i,
    {
        out.push((Opened::PermutationCommon(i), Rotation::cur()));
        assert(all.take(i + 1) =~= all.take(i as int).push(all[i as int]));
        assert(out@ =~= first + all.take(i + 1));
        i += 1;
    }
    assert(all.take(i as int) =~= all);
}

/// Pushes queries of the products of the permutation.
fn push_products_opened(out: &mut Vec<(Opened, Rotation)>, q: &Vec<(usize, Rotation)>)
    ensures
        final(out)@ == old(out)@ + products_opened(q@),
{
    let ghost first = out@;
    let ghost all = products_opened(q@);
    let mut i: usize = 0;
    while i < q.len()
        invariant
            i <= q@.len(),
            all == products_opened(q@),
            out@ == first + all.take(i as int),
        decreases q@.len() - i,
    {
        out.push((Opened::PermutationProduct(q[i].0), q[i].1));
        assert(all.take(i + 1) =~= all.take(i as int).push(all[i as int]));
        assert(out@ =~= first + all.take(i + 1));
        i += 1;
    }
    assert(all.take(i as int) =~= all);
}

/// Pushes queries of a lookup.
fn push_lookup_opened(
    out: &mut Vec<(Opened, Rotation)>,
    lookup: usize,
    q: &Vec<(LookupPoly, Rotation)>,
)
    ensures
        final(out)@ == old(out)@ + lookup_opened(lookup, q@),
{
    let ghost first = out@;
    let ghost all = lookup_opened(lookup, q@);
    let mut i: usize = 0;
    while i < q.len()
        invariant
            i <= q@.len(),
            all == lookup_opened(lookup, q@),
            out@ == first + all.take(i as int),
        decreases q@.len() - i,
    {
        out.push((Opened::Lookup(lookup, q[i].0), q[i].1));
        assert(all.take(i + 1) =~= all.take(i as int).push(all[i as int]));
        assert(out@ =~= first + all.take(i + 1));
        i += 1;
    }
    assert(all.take(i as int) =~= all);
}

/// Pushes queries of all lookups.
fn push_lookups_opened(
    out: &mut Vec<(Opened, Rotation)>,
    n: usize,
    q: &Vec<(LookupPoly, Rotation)>,
)
    ensures
        final(out)@ == old(out)@ + lookups_opened(n as nat, q@),
{
    let ghost first = out@;
    let mut i: usize = 0;
    assert(out@ =~= first + lookups_opened(0, q@));
    while i < n
        invariant
            i <= n,
            out@ == first + lookups_opened(i as nat, q@),
        decreases n - i,
    {
        push_lookup_opened(out, i, q);
        assert(out@ =~= first + lookups_opened((i + 1) as nat, q@));
        i += 1;
    }
}

/// Pushes the commitments to the permuted columns of the lookups.
fn push_permuted_steps(out: &mut Vec<ProofStep>, n: usize)
    ensures
        final(out)@ == old(out)@ + permuted_steps(n as nat),
{
    let ghost first = out@;
    let mut i: usize = 0;
    assert(out@ =~= first + permuted_steps(0));
    while i < n
        invariant
            i <= n,
            out@ == first + permuted_steps(i as nat),
        decreases n - i,
    {
        out.push(ProofStep::WritePoint(Committed::LookupInput(i)));
        out.push(ProofStep::WritePoint(Committed::LookupTable(i)));
        assert(out@ =~= first + permuted_steps((i + 1) as nat));
        i += 1;
    }
}

/// Pushes the values of the instances.
fn push_instance_scalars<F: Field>(out: &mut Vec<ProofStep>, instances: &Vec<Vec<F>>)
    ensures
        final(out)@ == old(out)@ + instance_scalars(instances@),
{
    let ghost first = out@;
    let mut i: usize = 0;
    assert(out@ =~= first + instance_scalars(instances@.take(0)));
    while i < instances.len()
        invariant
            i <= instances@.len(),
            out@ == first + instance_scalars(instances@.take(i as int)),
        decreases instances@.len() - i,
    {
        push_column_scalars(out, i, instances[i].len());
        assert(instances@.take(i + 1).drop_last() =~= instances@.take(i as int));
        assert(instances@.take(i + 1).last() == instances@[i as int]);
        assert(out@ =~= first + instance_scalars(instances@.take(i + 1)));
        i += 1;
    }
    assert(instances@.take(i as int) =~= instances@);
}

/// How the current phase of a witness is closed, in the order of what goes to the
/// transcript and is drawn at random.
pub fn next_phase_steps<F: Field>(witness: &WitnessCollection<F>, query_instance: bool) -> (r: Vec<
    ProofStep,
>)
    requires
        witness.wf(),
        witness.current_phase.0 < 3,
    ensures
        r@ == next_phase_order(
            witness.instances@,
            query_instance,
            witness.current_phase.0 as int,
            witness.phase_columns(),
            witness.phase_challenges(),
            (witness.params_n - witness.usable_rows) as usize,
        ),
{
    let phase = witness.current_phase.0 as usize;
    let mut steps: Vec<ProofStep> = Vec::new();
    if phase == 0 && !query_instance {
        push_instance_scalars(&mut steps, &witness.instances);
    }
    push_advice_draws(
        &mut steps,
        &witness.column_indices[phase],
        witness.params_n - witness.usable_rows,
    );
    if phase == 0 && query_instance {
        push_instance_points(&mut steps, witness.instances.len());
    }
    push_advice_steps(&mut steps, &witness.column_indices[phase]);
    push_challenge_steps(&mut steps, &witness.challenge_indices[phase]);
    assert(steps@ =~= next_phase_order(
        witness.instances@,
        query_instance,
        phase as int,
        witness.phase_columns(),
        witness.phase_challenges(),
        (witness.params_n - witness.usable_rows) as usize,
    ));
    steps
}

/// How columns of values are taken in by [`convert_raw_advice`], in the order of
/// what goes to the transcript and is drawn at random.
///
/// [`convert_raw_advice`]: crate::plonk::witness::convert_raw_advice
pub fn raw_advice_steps<F: Field>(
    meta: &GpuConstraintSystem<F>,
    query_instance: bool,
    instances: &Vec<Vec<F>>,
    phase: usize,
) -> (r: Vec<ProofStep>)
    requires
        meta.wf(),
        phases_exist(*meta),
        phase < 3,
        meta.spec_blinding_factors() < usize::MAX,
    ensures
        r@ == raw_advice_order(
            instances@,
            query_instance,
            phase as int,
            in_phase(meta.advice_column_phase@, phase as int),
            meta.num_advice_columns as nat,
            in_phase(meta.challenge_phase@, phase as int),
            (meta.spec_blinding_factors() + 1) as usize,
        ),
{
    let (columns, challenges) = column_and_challenge_indices(meta);
    let all = columns_to(meta.num_advice_columns);
    let count = meta.blinding_factors() + 1;
    let mut steps: Vec<ProofStep> = Vec::new();
    if !query_instance {
        push_instance_scalars(&mut steps, instances);
    }
    push_advice_draws(&mut steps, &columns[phase], count);
    if phase == 0 && query_instance {
        push_instance_points(&mut steps, instances.len());
    }
    push_advice_steps(&mut steps, &all);
    push_challenge_steps(&mut steps, &challenges[phase]);
    assert(steps@ =~= raw_advice_order(
        instances@,
        query_instance,
        phase as int,
        in_phase(meta.advice_column_phase@, phase as int),
        meta.num_advice_columns as nat,
        in_phase(meta.challenge_phase@, phase as int),
        count,
    ));
    steps
}

/// Where all columns belong to the first phase, it has all of them.
pub proof fn lemma_all_in_phase(phases: Seq<Phase>)
    requires
        forall|i: int| 0 <= i < phases.len() ==> (#[trigger] phases[i]).0 == 0,
    ensures
        in_phase(phases, 0) == first_columns(phases.len()),
    decreases phases.len(),
{
    if phases.len() > 0 {
        let front = phases.drop_last();
        assert forall|i: int| 0 <= i < front.len() implies (#[trigger] front[i]).0 == 0 by {
            assert(phases[i].0 == 0);
        }
        lemma_all_in_phase(front);
        assert(phases[phases.len() - 1].0 == 0);
    }
    assert(in_phase(phases, 0) =~= first_columns(phases.len()));
}

/// Columns of values are taken in as the cells of a witness are: for a circuit
/// whose advice columns all belong to the first phase, what goes to the
/// transcript and is drawn at random is the same, in the same order.
pub proof fn law_raw_advice_follows_phase<F: Field>(
    meta: GpuConstraintSystem<F>,
    instances: Seq<Vec<F>>,
    query_instance: bool,
    count: usize,
)
    requires
        meta.wf(),
        forall|i: int|
            0 <= i < meta.advice_column_phase@.len() ==> (
            #[trigger] meta.advice_column_phase@[i]).0 == 0,
    ensures
        raw_advice_order(
            instances,
            query_instance,
            0,
            in_phase(meta.advice_column_phase@, 0),
            meta.num_advice_columns as nat,
            in_phase(meta.challenge_phase@, 0),
            count,
        ) == next_phase_order(
            instances,
            query_instance,
            0,
            in_phase(meta.advice_column_phase@, 0),
            in_phase(meta.challenge_phase@, 0),
            count,
        ),
{
    lemma_all_in_phase(meta.advice_column_phase@);
}

/// The order of a proof.
#[derive(Debug)]
pub struct ProofPlan {
    /// What is done one after another.
    pub steps: Vec<ProofStep>,
    /// What is opened then.
    pub openings: Vec<(Opened, Rotation)>,
    /// The number of columns that a product of the permutation argument covers.
    pub chunk_len: usize,
}

/// The shape of a proof for a circuit of the given degree.
pub open spec fn shape_of<F: Field>(
    meta: GpuConstraintSystem<F>,
    query_instance: bool,
    instances: Seq<Vec<F>>,
    degree: usize,
    num_pieces: usize,
) -> ProofShape<F> {
    ProofShape {
        query_instance,
        instances,
        num_advice: meta.num_advice_columns as nat,
        columns: in_phase(meta.advice_column_phase@, 0),
        challenges: in_phase(meta.challenge_phase@, 0),
        blinding_factors: meta.spec_blinding_factors() as usize,
        num_lookups: meta.lookups@.len(),
        num_sets: chunk_count(meta.permutation.columns@.len(), (degree - 2) as nat),
        num_permuted: meta.permutation.columns@.len(),
        num_pieces: num_pieces as nat,
        num_fixed: meta.num_fixed_columns as nat,
        last: last_rotation(meta.spec_blinding_factors() as usize),
        instance_queries: meta.instance_queries@,
        advice_queries: meta.advice_queries@,
        fixed_queries: meta.fixed_queries@,
    }
}

/// The steps of a proof up to the point at which everything is evaluated.
#[verifier::rlimit(40)]
fn commitment_steps<F: Field>(
    meta: &GpuConstraintSystem<F>,
    query_instance: bool,
    instances: &Vec<Vec<F>>,
    degree: usize,
    num_sets: usize,
    num_pieces: usize,
) -> (r: Vec<ProofStep>)
    requires
        meta.wf(),
        phases_exist(*meta),
        meta.spec_blinding_factors() < i32::MAX,
        num_sets == shape_of(*meta, query_instance, instances@, degree, num_pieces).num_sets,
    ensures
        r@ == shape_of(*meta, query_instance, instances@, degree, num_pieces).commitments(),
{
    let ghost shape = shape_of(*meta, query_instance, instances@, degree, num_pieces);
    let num_lookups = meta.lookups.len();
    let blinding_factors = meta.blinding_factors();
    let mut steps: Vec<ProofStep> = Vec::new();
    steps.push(ProofStep::HashKey);
    let mut advice = raw_advice_steps(meta, query_instance, instances, 0);
    steps.append(&mut advice);
    steps.push(ProofStep::Squeeze(ChallengeName::Theta));
    push_permuted_steps(&mut steps, num_lookups);
    steps.push(ProofStep::Squeeze(ChallengeName::Beta));
    steps.push(ProofStep::Squeeze(ChallengeName::Gamma));
    push_permutation_draws(&mut steps, num_sets, blinding_factors);
    push_permutation_steps(&mut steps, num_sets);
    push_product_steps(&mut steps, num_lookups, blinding_factors);
    // Random polynomial blinds h(x_3).
    steps.push(ProofStep::WritePoint(Committed::Blinding));
    // y keeps all gates linearly independent.
    steps.push(ProofStep::Squeeze(ChallengeName::Y));
    push_quotient_draws(&mut steps, num_pieces);
    push_quotient_steps(&mut steps, num_pieces);
    steps.push(ProofStep::Squeeze(ChallengeName::X));
    assert(steps@ =~= shape.commitments());
    steps
}

/// The evaluations of a proof.
fn evaluation_list<F: Field>(
    meta: &GpuConstraintSystem<F>,
    query_instance: bool,
    instances: &Vec<Vec<F>>,
    degree: usize,
    num_sets: usize,
    num_pieces: usize,
) -> (r: Vec<(Opened, Rotation)>)
    requires
        meta.wf(),
        meta.spec_blinding_factors() < i32::MAX,
        num_sets == shape_of(*meta, query_instance, instances@, degree, num_pieces).num_sets,
    ensures
        r@ == shape_of(*meta, query_instance, instances@, degree, num_pieces).evaluations(),
{
    let ghost shape = shape_of(*meta, query_instance, instances@, degree, num_pieces);
    let mut evaluations: Vec<(Opened, Rotation)> = Vec::new();
    if query_instance && instances.len() > 0 {
        push_instance_opened(&mut evaluations, &meta.instance_queries);
    }
    if meta.num_advice_columns > 0 {
        push_advice_opened(&mut evaluations, &meta.advice_queries);
    }
    if meta.num_fixed_columns > 0 {
        push_fixed_opened(&mut evaluations, &meta.fixed_queries);
    }
    evaluations.push((Opened::Blinding, Rotation::cur()));
    push_common_opened(&mut evaluations, meta.permutation.columns.len());
    push_products_opened(
        &mut evaluations,
        &permutation::prover::evaluation_order(num_sets, meta.blinding_factors()),
    );
    push_lookups_opened(
        &mut evaluations,
        meta.lookups.len(),
        &lookup::prover::evaluation_order(),
    );
    assert(evaluations@ =~= shape.evaluations());
    evaluations
}

/// The openings of a proof.
fn opening_list<F: Field>(
    meta: &GpuConstraintSystem<F>,
    query_instance: bool,
    instances: &Vec<Vec<F>>,
    degree: usize,
    num_sets: usize,
    num_pieces: usize,
) -> (r: Vec<(Opened, Rotation)>)
    requires
        meta.wf(),
        meta.spec_blinding_factors() < i32::MAX,
        num_sets == shape_of(*meta, query_instance, instances@, degree, num_pieces).num_sets,
    ensures
        r@ == shape_of(*meta, query_instance, instances@, degree, num_pieces).openings(),
{
    let ghost shape = shape_of(*meta, query_instance, instances@, degree, num_pieces);
    let mut openings: Vec<(Opened, Rotation)> = Vec::new();
    if query_instance {
        push_instance_opened(&mut openings, &meta.instance_queries);
    }
    push_advice_opened(&mut openings, &meta.advice_queries);
    push_products_opened(
        &mut openings,
        &permutation::prover::opening_order(num_sets, meta.blinding_factors()),
    );
    push_lookups_opened(&mut openings, meta.lookups.len(), &lookup::prover::opening_order());
    push_fixed_opened(&mut openings, &meta.fixed_queries);
    push_common_opened(&mut openings, meta.permutation.columns.len());
    openings.push((Opened::Quotient, Rotation::cur()));
    openings.push((Opened::Blinding, Rotation::cur()));
    assert(openings@ =~= shape.openings());
    openings
}

/// Pushes the steps that write evaluations.
fn push_written(out: &mut Vec<ProofStep>, evaluations: &Vec<(Opened, Rotation)>)
    ensures
        final(out)@ == old(out)@ + written(evaluations@),
{
    let ghost first = out@;
    let ghost all = written(evaluations@);
    let mut i: usize = 0;
    while i < evaluations.len()
        invariant
            i <= evaluations@.len(),
            all == written(evaluations@),
            out@ == first + all.take(i as int),
        decreases evaluations@.len() - i,
    {
        out.push(ProofStep::WriteScalar(evaluations[i].0, evaluations[i].1));
        assert(all.take(i + 1) =~= all.take(i as int).push(all[i as int]));
        assert(out@ =~= first + all.take(i + 1));
        i += 1;
    }
    assert(all.take(i as int) =~= all);
}

/// The order of a proof from advice columns that have been synthesized. Products
/// of the permutation argument cover as many columns as the degree of the
/// constraint system allows, and the quotient comes in `num_pieces` pieces. What each
/// step works on, [`ProofRun`] says.
///
/// [`ProofRun`]: crate::plonk::running::ProofRun
pub fn create_proof_from_advice<F: Field>(
    meta: &GpuConstraintSystem<F>,
    query_instance: bool,
    instances: &Vec<Vec<F>>,
    degree: usize,
    num_pieces: usize,
) -> (r: Result<ProofPlan, GpuError>)
    requires
        meta.wf(),
        phases_exist(*meta),
        degree > 2,
        meta.permutation.columns@.len() + (degree - 2) <= usize::MAX,
        meta.spec_blinding_factors() < i32::MAX,
    ensures
        instances@.len() != meta.num_instance_columns ==> r == Err::<ProofPlan, GpuError>(
            GpuError::Canonical(Error::InvalidInstances),
        ),
        instances@.len() == meta.num_instance_columns ==> r is Ok,
        r matches Ok(plan) ==> {
            let shape = shape_of(*meta, query_instance, instances@, degree, num_pieces);
            &&& plan.steps@ == shape.steps()
            &&& plan.openings@ == shape.openings()
            &&& plan.chunk_len == degree - 2
        },
{
    match check_instances(meta.num_instance_columns, instances) {
        Ok(_) => {},
        Err(e) => {
            return Err(e);
        },
    }
    let chunk_len = degree - 2;
    let num_sets = (meta.permutation.columns.len() + chunk_len - 1) / chunk_len;
    let mut steps = commitment_steps(
        meta,
        query_instance,
        instances,
        degree,
        num_sets,
        num_pieces,
    );
    let evaluations = evaluation_list(
        meta,
        query_instance,
        instances,
        degree,
        num_sets,
        num_pieces,
    );
    push_written(&mut steps, &evaluations);
    let openings = opening_list(meta, query_instance, instances, degree, num_sets, num_pieces);
    Ok(ProofPlan { steps, openings, chunk_len })
}

/// The order of a proof for a circuit that has been synthesized, with the values
/// of its advice columns.
pub fn create_proof<F: Field>(
    meta: &GpuConstraintSystem<F>,
    query_instance: bool,
    witness: &WitnessCollection<F>,
    degree: usize,
    num_pieces: usize,
) -> (r: Result<(Vec<Polynomial<F, LagrangeCoeff>>, ProofPlan), GpuError>)
    requires
        witness.wf(),
        meta.wf(),
        phases_exist(*meta),
        witness.num_advice_columns == meta.num_advice_columns,
        meta.last_phase() == 0,
        degree > 2,
        meta.permutation.columns@.len() + (degree - 2) <= usize::MAX,
        meta.spec_blinding_factors() < i32::MAX,
    ensures
        witness.instances@.len() != meta.num_instance_columns ==> r == Err::<
            (Vec<Polynomial<F, LagrangeCoeff>>, ProofPlan),
            GpuError,
        >(GpuError::Canonical(Error::InvalidInstances)),
        witness.instances@.len() == meta.num_instance_columns ==> r is Ok,
        r matches Ok((advice, plan)) ==> {
            let shape = shape_of(*meta, query_instance, witness.instances@, degree, num_pieces);
            &&& advice@.len() == meta.num_advice_columns
            &&& forall|c: int|
                0 <= c < advice@.len() ==> vals((#[trigger] advice@[c])@) == column_values(
                    witness.advice@,
                    witness.params_n as nat,
                    c,
                )
            &&& plan.steps@ == shape.steps()
            &&& plan.openings@ == shape.openings()
            &&& plan.chunk_len == degree - 2
        },
{
    let advice = match synthesize_advices_and_instances(meta, witness) {
        Ok(advice) => advice,
        Err(e) => {
            return Err(e);
        },
    };
    match create_proof_from_advice(
        meta,
        query_instance,
        &witness.instances,
        degree,
        num_pieces,
    ) {
        Ok(plan) => Ok((advice, plan)),
        Err(e) => Err(e),
    }
}

/// The polynomials of openings, one after another.
pub open spec fn polys_of(openings: Seq<(Opened, Rotation)>) -> Seq<Opened> {
    Seq::new(openings.len(), |i: int| openings[i].0)
}

/// The polynomials that are opened, each once.
#[derive(Debug)]
pub struct OpenedPolys {
    /// The polynomials in the order in which they are first opened.
    pub polys: Vec<Opened>,
    /// The position of each opening's polynomial among them.
    pub ids: Vec<usize>,
}

/// Numbers the polynomials that are opened.
pub fn opened_polys(openings: &Vec<(Opened, Rotation)>) -> (r: OpenedPolys)
    ensures
        r.polys@ == with_queries(Seq::<Opened>::empty(), polys_of(openings@)),
        r.polys@.no_duplicates(),
        r.ids@.len() == openings@.len(),
        forall|i: int|
            0 <= i < openings@.len() ==> (#[trigger] r.ids@[i]) < r.polys@.len()
                && r.polys@[r.ids@[i] as int] == openings@[i].0,
{
    let ghost all = polys_of(openings@);
    let mut polys: Vec<Opened> = Vec::new();
    let mut ids: Vec<usize> = Vec::new();
    let mut i: usize = 0;
    assert(polys@ =~= Seq::<Opened>::empty());
    while i < openings.len()
        invariant
            i <= openings@.len(),
            all == polys_of(openings@),
            polys@ == with_queries(Seq::<Opened>::empty(), all.take(i as int)),
            ids@.len() == i,
            forall|j: int|
                0 <= j < i ==> (#[trigger] ids@[j]) < polys@.len() && polys@[ids@[j] as int]
                    == openings@[j].0,
        decreases openings@.len() - i,
    {
        let which = openings[i].0;
        let ghost before = polys@;
        let mut k: usize = 0;
        while k < polys.len() && polys[k] != which
            invariant
                k <= polys@.len(),
                polys@ == before,
                forall|j: int| 0 <= j < k ==> #[trigger] polys@[j] != which,
            decreases polys@.len() - k,
        {
            k += 1;
        }
        proof {
            assert(all.take(i + 1).drop_last() =~= all.take(i as int));
            assert(all.take(i + 1).last() == which);
            if k < before.len() {
                assert(before[k as int] == which);
                assert(before.contains(which));
            } else {
                assert(!before.contains(which));
            }
        }
        if k == polys.len() {
            polys.push(which);
        }
        ids.push(k);
        i += 1;
    }
    proof {
        assert(all.take(i as int) =~= all);
        law_queries_distinct(Seq::<Opened>::empty(), all);
    }
    OpenedPolys { polys, ids }
}

/// What the queries of the first `n` lookups are.
pub proof fn lemma_lookups_contain(n: nat, q: Seq<(LookupPoly, Rotation)>, item: (Opened, Rotation))
    requires
        n <= usize::MAX,
    ensures
        lookups_opened(n, q).contains(item) <==> (item.0 matches Opened::Lookup(l, poly) && l < n
            && q.contains((poly, item.1))),
    decreases n,
{
    if n > 0 {
        let set = (n - 1) as usize;
        lemma_lookups_contain((n - 1) as nat, q, item);
        lemma_append_contains(lookups_opened((n - 1) as nat, q), lookup_opened(set, q), item);
        let here = lookup_opened(set, q);
        if here.contains(item) {
            let i = choose|i: int| 0 <= i < here.len() && here[i] == item;
            assert(q[i] == (q[i].0, item.1));
        }
        if let Opened::Lookup(l, poly) = item.0 {
            if l == set && q.contains((poly, item.1)) {
                let i = choose|i: int| 0 <= i < q.len() && q[i] == (poly, item.1);
                assert(here[i] == item);
            }
        }
    }
}

/// What the queries of products are.
pub proof fn lemma_products_contain(q: Seq<(usize, Rotation)>, item: (Opened, Rotation))
    ensures
        products_opened(q).contains(item) <==> (item.0 matches Opened::PermutationProduct(set)
            && q.contains((set, item.1))),
{
    let here = products_opened(q);
    if here.contains(item) {
        let i = choose|i: int| 0 <= i < here.len() && here[i] == item;
        assert(q[i] == (q[i].0, item.1));
    }
    if let Opened::PermutationProduct(set) = item.0 {
        if q.contains((set, item.1)) {
            let i = choose|i: int| 0 <= i < q.len() && q[i] == (set, item.1);
            assert(here[i] == item);
        }
    }
}

/// Every value that a proof holds is opened, and every polynomial that is opened
/// has its value in the proof, but for the quotient, whose value the verifier
/// computes from the others.
pub proof fn law_openings_match<F>(shape: ProofShape<F>, item: (Opened, Rotation))
    requires
        shape.wf(),
    ensures
        shape.openings().contains(item) <==> shape.evaluations().contains(item) || item == (
            Opened::Quotient,
            Rotation(0),
        ),
{
    let none = Seq::<(Opened, Rotation)>::empty();
    let instance = instance_opened(shape.instance_queries);
    let advice = advice_opened(shape.advice_queries);
    let fixed = fixed_opened(shape.fixed_queries);
    let common = common_opened(shape.num_permuted);
    assert(shape.instance_queries.len() == 0 ==> instance =~= none);
    assert(shape.advice_queries.len() == 0 ==> advice =~= none);
    assert(shape.fixed_queries.len() == 0 ==> fixed =~= none);
    let first = if shape.query_instance {
        instance
    } else {
        none
    };
    let blinding = seq![(Opened::Blinding, Rotation(0))];
    let end = seq![(Opened::Quotient, Rotation(0)), (Opened::Blinding, Rotation(0))];
    let e_products = products_opened(
        permutation::prover::evaluations(shape.num_sets, shape.num_sets, shape.last),
    );
    let o_products = products_opened(permutation::prover::openings(shape.num_sets, shape.last));
    let e_lookups = lookups_opened(shape.num_lookups, lookup::prover::evaluations());
    let o_lookups = lookups_opened(shape.num_lookups, lookup::prover::openings());
    let e1 = first + advice;
    let e2 = e1 + fixed;
    let e3 = e2 + blinding;
    let e4 = e3 + common;
    let e5 = e4 + e_products;
    assert(shape.evaluations() == e5 + e_lookups);
    lemma_append_contains(first, advice, item);
    lemma_append_contains(e1, fixed, item);
    lemma_append_contains(e2, blinding, item);
    lemma_append_contains(e3, common, item);
    lemma_append_contains(e4, e_products, item);
    lemma_append_contains(e5, e_lookups, item);
    let o2 = e1 + o_products;
    let o3 = o2 + o_lookups;
    let o4 = o3 + fixed;
    let o5 = o4 + common;
    assert(shape.openings() == o5 + end);
    lemma_append_contains(e1, o_products, item);
    lemma_append_contains(o2, o_lookups, item);
    lemma_append_contains(o3, fixed, item);
    lemma_append_contains(o4, common, item);
    lemma_append_contains(o5, end, item);
    lemma_lookups_contain(shape.num_lookups, lookup::prover::evaluations(), item);
    lemma_lookups_contain(shape.num_lookups, lookup::prover::openings(), item);
    if let Opened::Lookup(_, poly) = item.0 {
        lookup::prover::law_lookup_openings_match((poly, item.1));
    }
    lemma_products_contain(
        permutation::prover::evaluations(shape.num_sets, shape.num_sets, shape.last),
        item,
    );
    lemma_products_contain(permutation::prover::openings(shape.num_sets, shape.last), item);
    if let Opened::PermutationProduct(set) = item.0 {
        permutation::prover::law_permutation_openings_match(
            shape.num_sets,
            shape.last,
            (set, item.1),
        );
    }
    let h: (Opened, Rotation) = (Opened::Quotient, Rotation(0));
    let b: (Opened, Rotation) = (Opened::Blinding, Rotation(0));
    assert(blinding.contains(item) <==> item == b) by {
        assert(blinding[0] == b);
    }
    assert(end.contains(item) <==> item == h || item == b) by {
        assert(end[0] == h && end[1] == b);
    }
}

/// The part of the proof that a step belongs to.
pub open spec fn rank(step: ProofStep) -> int {
    match step {
        ProofStep::HashKey => 0,
        ProofStep::CommonScalar(_, _) => 1,
        ProofStep::Draw(Blinded::Advice(_), _) => 2,
        ProofStep::CommonPoint(_) => 3,
        ProofStep::WritePoint(Committed::Advice(_)) => 4,
        ProofStep::Squeeze(ChallengeName::Circuit(_)) => 5,
        ProofStep::Squeeze(ChallengeName::Theta) => 6,
        ProofStep::WritePoint(Committed::LookupInput(_)) => 7,
        ProofStep::WritePoint(Committed::LookupTable(_)) => 7,
        ProofStep::Squeeze(ChallengeName::Beta) => 8,
        ProofStep::Squeeze(ChallengeName::Gamma) => 9,
        ProofStep::Draw(Blinded::PermutationProduct(_), _) => 10,
        ProofStep::WritePoint(Committed::PermutationProduct(_)) => 11,
        ProofStep::Draw(Blinded::LookupProduct(_), _) => 12,
        ProofStep::WritePoint(Committed::LookupProduct(_)) => 12,
        ProofStep::WritePoint(Committed::Blinding) => 13,
        ProofStep::Squeeze(ChallengeName::Y) => 14,
        ProofStep::Draw(Blinded::QuotientPiece(_), _) => 15,
        ProofStep::WritePoint(Committed::QuotientPiece(_)) => 16,
        ProofStep::Squeeze(ChallengeName::X) => 17,
        ProofStep::WriteScalar(_, _) => 18,
    }
}

/// Whether the steps go from part to part, from `low` to `high`.
pub open spec fn ordered(s: Seq<ProofStep>, low: int, high: int) -> bool {
    &&& forall|i: int| 0 <= i < s.len() ==> low <= rank(#[trigger] s[i]) <= high
    &&& forall|i: int, j: int|
        0 <= i < j < s.len() ==> rank(#[trigger] s[i]) <= rank(#[trigger] s[j])
}

proof fn lemma_ordered_append(a: Seq<ProofStep>, b: Seq<ProofStep>, low: int, m: int, high: int)
    requires
        low <= m <= high,
        ordered(a, low, m),
        ordered(b, m, high),
    ensures
        ordered(a + b, low, high),
{
    let s = a + b;
    assert forall|i: int| 0 <= i < s.len() implies low <= rank(#[trigger] s[i]) <= high by {
        if i < a.len() {
            assert(s[i] == a[i]);
        } else {
            assert(s[i] == b[i - a.len()]);
        }
    }
    assert forall|i: int, j: int| 0 <= i < j < s.len() implies rank(#[trigger] s[i]) <= rank(
        #[trigger] s[j],
    ) by {
        if j < a.len() {
            assert(s[i] == a[i] && s[j] == a[j]);
        } else if i < a.len() {
            assert(s[i] == a[i] && s[j] == b[j - a.len()]);
        } else {
            assert(s[i] == b[i - a.len()] && s[j] == b[j - a.len()]);
        }
    }
}

proof fn lemma_instance_scalars_ordered<F>(instances: Seq<Vec<F>>)
    ensures
        ordered(instance_scalars(instances), 1, 1),
    decreases instances.len(),
{
    if instances.len() > 0 {
        lemma_instance_scalars_ordered(instances.drop_last());
        lemma_ordered_append(
            instance_scalars(instances.drop_last()),
            column_scalars(instances.len() - 1, instances.last()@.len()),
            1,
            1,
            1,
        );
    }
}

proof fn lemma_permuted_ordered(n: nat)
    ensures
        ordered(permuted_steps(n), 7, 7),
    decreases n,
{
    if n > 0 {
        lemma_permuted_ordered((n - 1) as nat);
    }
}

proof fn lemma_products_ordered(n: nat, count: usize)
    ensures
        ordered(product_steps(n, count), 12, 12),
    decreases n,
{
    if n > 0 {
        lemma_products_ordered((n - 1) as nat, count);
    }
}

/// Every challenge comes after all that it is to depend on: a proof goes from
/// part to part, and never back to one that it has left.
pub proof fn law_steps_in_order<F>(shape: ProofShape<F>)
    ensures
        forall|i: int, j: int|
            0 <= i < j < shape.steps().len() ==> rank(#[trigger] shape.steps()[i]) <= rank(
                #[trigger] shape.steps()[j],
            ),
{
    let none = Seq::<ProofStep>::empty();
    let bf = shape.blinding_factors;
    let count = (bf + 1) as usize;
    // How the advice is taken in.
    lemma_instance_scalars_ordered(shape.instances);
    let scalars = if !shape.query_instance {
        instance_scalars(shape.instances)
    } else {
        none
    };
    let points = if shape.query_instance {
        instance_points(shape.instances.len())
    } else {
        none
    };
    let draws = advice_draws(shape.columns, count);
    let written_advice = advice_steps(first_columns(shape.num_advice));
    let a1 = scalars + draws;
    lemma_ordered_append(scalars, draws, 1, 1, 2);
    let a2 = a1 + points;
    lemma_ordered_append(a1, points, 1, 2, 3);
    let a3 = a2 + written_advice;
    lemma_ordered_append(a2, written_advice, 1, 3, 4);
    lemma_ordered_append(a3, challenge_steps(shape.challenges), 1, 4, 5);
    assert(shape.advice() == a3 + challenge_steps(shape.challenges));
    // The rest of the proof.
    lemma_permuted_ordered(shape.num_lookups);
    lemma_products_ordered(shape.num_lookups, bf);
    let s0 = seq![ProofStep::HashKey];
    let s3 = s0 + shape.advice();
    lemma_ordered_append(s0, shape.advice(), 0, 0, 5);
    let theta = seq![ProofStep::Squeeze(ChallengeName::Theta)];
    let s4 = s3 + theta;
    lemma_ordered_append(s3, theta, 0, 5, 6);
    let s5 = s4 + permuted_steps(shape.num_lookups);
    lemma_ordered_append(s4, permuted_steps(shape.num_lookups), 0, 6, 7);
    let pair = seq![
        ProofStep::Squeeze(ChallengeName::Beta),
        ProofStep::Squeeze(ChallengeName::Gamma),
    ];
    let s6 = s5 + pair;
    lemma_ordered_append(s5, pair, 0, 7, 9);
    let s7 = s6 + permutation_draws(shape.num_sets, bf);
    lemma_ordered_append(s6, permutation_draws(shape.num_sets, bf), 0, 9, 10);
    let s8 = s7 + permutation_steps(shape.num_sets);
    lemma_ordered_append(s7, permutation_steps(shape.num_sets), 0, 10, 11);
    let s9 = s8 + product_steps(shape.num_lookups, bf);
    lemma_ordered_append(s8, product_steps(shape.num_lookups, bf), 0, 11, 12);
    let blinding = seq![
        ProofStep::WritePoint(Committed::Blinding),
        ProofStep::Squeeze(ChallengeName::Y),
    ];
    let s10 = s9 + blinding;
    lemma_ordered_append(s9, blinding, 0, 12, 14);
    let s11 = s10 + quotient_draws(shape.num_pieces);
    lemma_ordered_append(s10, quotient_draws(shape.num_pieces), 0, 14, 15);
    let s12 = s11 + quotient_steps(shape.num_pieces);
    lemma_ordered_append(s11, quotient_steps(shape.num_pieces), 0, 15, 16);
    let x = seq![ProofStep::Squeeze(ChallengeName::X)];
    let s13 = s12 + x;
    lemma_ordered_append(s12, x, 0, 16, 17);
    assert(shape.commitments() == s13);
    lemma_ordered_append(s13, written(shape.evaluations()), 0, 17, 18);
}

} // verus!
