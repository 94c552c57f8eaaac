//! The witness of a circuit, phase by phase.

use crate::field::{vals, Field};
use crate::plonk::assigned::{AssignedModel, GpuAssigned};
use crate::plonk::circuit::{GpuAdvice, GpuChallenge, GpuColumn, GpuInstance, Phase};
use crate::plonk::constraint_system::GpuConstraintSystem;
use crate::plonk::error::{Error, GpuError};
use crate::poly::domain::EvaluationDomain;
use crate::poly::transforms::copied;
use crate::poly::{batch_invert_assigned, Coeff, LagrangeCoeff, Polynomial};
use std::collections::HashMap;
use vstd::prelude::*;

verus! {

/// The positions of the entries of a phase, in ascending order.
pub open spec fn in_phase(phases: Seq<Phase>, phase: int) -> Seq<usize>
    decreases phases.len(),
{
    if phases.len() == 0 {
        Seq::empty()
    } else {
        let before = in_phase(phases.drop_last(), phase);
        if phases.last().0 == phase {
            before.push((phases.len() - 1) as usize)
        } else {
            before
        }
    }
}

/// The entries of a phase are listed once each, in ascending order.
pub proof fn law_phase_members(phases: Seq<Phase>, phase: int)
    requires
        phases.len() <= usize::MAX,
    ensures
        forall|i: int, j: int|
            0 <= i < j < in_phase(phases, phase).len() ==> #[trigger] in_phase(phases, phase)[i]
                < #[trigger] in_phase(phases, phase)[j],
        forall|i: int|
            0 <= i < in_phase(phases, phase).len() ==> (#[trigger] in_phase(phases, phase)[i])
                < phases.len(),
        forall|c: usize| #[trigger]
            in_phase(phases, phase).contains(c) <==> c < phases.len() && phases[c as int].0
                == phase,
    decreases phases.len(),
{
    if phases.len() > 0 {
        let rest = phases.drop_last();
        law_phase_members(rest, phase);
        let last = (phases.len() - 1) as usize;
        let s = in_phase(phases, phase);
        let b = in_phase(rest, phase);
        assert forall|c: usize| #[trigger] s.contains(c) <==> c < phases.len() && phases[c as int].0
            == phase by {
            if s.contains(c) {
                let i = choose|i: int| 0 <= i < s.len() && s[i] == c;
                if i < b.len() {
                    assert(b[i] == c);
                    assert(b.contains(c));
                }
            }
            if c < phases.len() && phases[c as int].0 == phase {
                if c == last {
                    assert(s[b.len() as int] == c);
                } else {
                    assert(b.contains(c));
                    let i = choose|i: int| 0 <= i < b.len() && b[i] == c;
                    assert(s[i] == c);
                }
            }
        }
    }
}

/// Whether the lists bucket the phases of a circuit.
pub open spec fn buckets(lists: Seq<Vec<usize>>, phases: Seq<Phase>) -> bool {
    &&& lists.len() == 3
    &&& forall|ph: int| 0 <= ph < 3 ==> (#[trigger] lists[ph])@ == in_phase(phases, ph)
}

/// Three empty buckets, filled phase by phase.
fn bucketed(phases: &Vec<Phase>) -> (r: Vec<Vec<usize>>)
    requires
        forall|i: int| 0 <= i < phases@.len() ==> (#[trigger] phases@[i]).0 < 3,
    ensures
        buckets(r@, phases@),
{
    let mut out: Vec<Vec<usize>> = Vec::new();
    out.push(Vec::new());
    out.push(Vec::new());
    out.push(Vec::new());
    let mut i: usize = 0;
    assert forall|ph: int| 0 <= ph < 3 implies (#[trigger] out@[ph])@ == in_phase(
        phases@.take(0),
        ph,
    ) by {
        assert(out@[ph]@ =~= Seq::<usize>::empty());
    }
    while i < phases.len()
        invariant
            i <= phases@.len(),
            forall|i: int| 0 <= i < phases@.len() ==> (#[trigger] phases@[i]).0 < 3,
            buckets(out@, phases@.take(i as int)),
        decreases phases@.len() - i,
    {
        let ghost before = out@;
        let at = phases[i].0 as usize;
        out[at].push(i);
        proof {
            assert(phases@.take(i + 1).drop_last() =~= phases@.take(i as int));
            assert forall|ph: int| 0 <= ph < 3 implies (#[trigger] out@[ph])@ == in_phase(
                phases@.take(i + 1),
                ph,
            ) by {
                let _ = before[ph];
            }
        }
        i += 1;
    }
    assert(phases@.take(i as int) =~= phases@);
    out
}

/// Whether all phases are among the three that there are.
pub open spec fn phases_exist<F: Field>(cs: GpuConstraintSystem<F>) -> bool {
    &&& forall|i: int|
        0 <= i < cs.advice_column_phase@.len() ==> (#[trigger] cs.advice_column_phase@[i]).0 < 3
    &&& forall|i: int|
        0 <= i < cs.challenge_phase@.len() ==> (#[trigger] cs.challenge_phase@[i]).0 < 3
}

/// Bucket advice columns and challenges by their phase index (0/1/2).
pub fn column_and_challenge_indices<F: Field>(meta: &GpuConstraintSystem<F>) -> (r: (
    Vec<Vec<usize>>,
    Vec<Vec<usize>>,
))
    requires
        phases_exist(*meta),
    ensures
        buckets(r.0@, meta.advice_column_phase@),
        buckets(r.1@, meta.challenge_phase@),
{
    (bucketed(&meta.advice_column_phase), bucketed(&meta.challenge_phase))
}

/// The instance columns of a circuit, as values and as coefficients.
#[derive(Debug)]
pub struct InstanceSingle<F: Field> {
    pub instance_values: Vec<Polynomial<F, LagrangeCoeff>>,
    pub instance_polys: Vec<Polynomial<F, Coeff>>,
}

/// The advice columns of a circuit, as values and as coefficients.
#[derive(Debug)]
pub struct AdviceSingle<F: Field> {
    pub advice_polys: Vec<Polynomial<F, Coeff>>,
    pub advice_values: Vec<Polynomial<F, LagrangeCoeff>>,
}

/// The advice columns that the phases so far have filled.
#[derive(Debug)]
pub struct AdviceSingleOption<F: Field> {
    pub advice_values: Vec<Option<Polynomial<F, LagrangeCoeff>>>,
    pub advice_polys: Vec<Option<Polynomial<F, Coeff>>>,
}

/// The position of a cell among columns of `n` rows that lie one after another.
pub open spec fn cell(n: int, column: int, row: int) -> int {
    column * n + row
}

/// Cells lie within the columns, and no two cells at one position.
pub proof fn lemma_cells(n: int, columns: int, c: int, i: int, d: int, j: int)
    requires
        0 <= c < columns,
        0 <= i < n,
        0 <= d < columns,
        0 <= j < n,
    ensures
        0 <= cell(n, c, i) < n * columns,
        c * n + n <= n * columns,
        cell(n, c, i) == cell(n, d, j) ==> c == d && i == j,
{
    assert((c + 1) * n <= columns * n) by (nonlinear_arith)
        requires
            c + 1 <= columns,
            0 <= n,
    ;
    assert(c * n >= 0) by (nonlinear_arith)
        requires
            c >= 0,
            n >= 0,
    ;
    assert((c + 1) * n == c * n + n) by (nonlinear_arith);
    assert(columns * n == n * columns) by (nonlinear_arith);
    if c < d {
        assert((c + 1) * n <= d * n) by (nonlinear_arith)
            requires
                c + 1 <= d,
                0 <= n,
        ;
    }
    if d < c {
        assert((d + 1) * n <= c * n) by (nonlinear_arith)
            requires
                d + 1 <= c,
                0 <= n,
        ;
        assert((d + 1) * n == d * n + n) by (nonlinear_arith);
    }
}

/// The cells that a circuit has assigned so far, with what the finished phases
/// have made of them.
pub struct WitnessCollection<F: Field> {
    pub k: u32,
    pub params_n: usize,
    pub current_phase: Phase,
    pub num_advice_columns: usize,
    /// The advice cells, column after column.
    pub advice: Vec<GpuAssigned<F>>,
    pub challenges: HashMap<usize, F>,
    pub instances: Vec<Vec<F>>,
    /// The rows below this one can be assigned; the others hold blinding factors.
    pub usable_rows: usize,
    pub advice_single: AdviceSingleOption<F>,
    pub instance_single: InstanceSingle<F>,
    pub column_indices: Vec<Vec<usize>>,
    pub challenge_indices: Vec<Vec<usize>>,
}

impl<F: Field> WitnessCollection<F> {
    /// Every advice column has all its rows, and the buckets list columns that
    /// there are.
    pub open spec fn wf(self) -> bool {
        &&& self.advice@.len() == self.params_n * self.num_advice_columns
        &&& self.advice@.len() <= usize::MAX
        &&& self.usable_rows <= self.params_n
        &&& self.advice_single.advice_values@.len() == self.num_advice_columns
        &&& self.advice_single.advice_polys@.len() == self.num_advice_columns
        &&& self.column_indices@.len() == 3
        &&& self.challenge_indices@.len() == 3
        &&& forall|ph: int, j: int|
            0 <= ph < 3 && 0 <= j < self.column_indices@[ph]@.len()
                ==> #[trigger] self.column_indices@[ph]@[j] < self.num_advice_columns
        &&& forall|ph: int|
            0 <= ph < 3 ==> (#[trigger] self.column_indices@[ph])@.no_duplicates()
        &&& forall|ph: int|
            0 <= ph < 3 ==> (#[trigger] self.challenge_indices@[ph])@.no_duplicates()
    }

    /// Whether the two differ in their advice cells at most.
    pub open spec fn same_but_advice(self, other: Self) -> bool {
        &&& self.k == other.k
        &&& self.params_n == other.params_n
        &&& self.current_phase == other.current_phase
        &&& self.num_advice_columns == other.num_advice_columns
        &&& self.challenges == other.challenges
        &&& self.instances == other.instances
        &&& self.usable_rows == other.usable_rows
        &&& self.advice_single == other.advice_single
        &&& self.instance_single == other.instance_single
        &&& self.column_indices == other.column_indices
        &&& self.challenge_indices == other.challenge_indices
    }

    /// A witness with nothing assigned, for a circuit with `2^k = n` rows.
    pub fn new(k: u32, n: usize, meta: &GpuConstraintSystem<F>, instances: Vec<Vec<F>>) -> (r: Self)
        requires
            meta.wf(),
            phases_exist(*meta),
            meta.spec_blinding_factors() + 1 <= n,
            n * meta.num_advice_columns <= usize::MAX,
        ensures
            r.wf(),
            r.k == k,
            r.params_n == n,
            r.current_phase == Phase(0),
            r.num_advice_columns == meta.num_advice_columns,
            forall|i: int|
                0 <= i < r.advice@.len() ==> (#[trigger] r.advice@[i])@ == AssignedModel::Zero,
            r.challenges@ == Map::<usize, F>::empty(),
            r.instances == instances,
            r.usable_rows == n - (meta.spec_blinding_factors() + 1),
            forall|c: int|
                0 <= c < meta.num_advice_columns
                    ==> (#[trigger] r.advice_single.advice_values@[c]) is None,
            forall|c: int|
                0 <= c < meta.num_advice_columns
                    ==> (#[trigger] r.advice_single.advice_polys@[c]) is None,
            r.instance_single.instance_values@.len() == 0,
            r.instance_single.instance_polys@.len() == 0,
            buckets(r.column_indices@, meta.advice_column_phase@),
            buckets(r.challenge_indices@, meta.challenge_phase@),
    {
        broadcast use vstd::std_specs::hash::group_hash_axioms;

        let usable_rows = n - (meta.blinding_factors() + 1);
        let (column_indices, challenge_indices) = column_and_challenge_indices(meta);
        proof {
            assert(meta.advice_column_phase.len() == meta.advice_column_phase@.len());
            assert(meta.challenge_phase.len() == meta.challenge_phase@.len());
            assert forall|ph: int| 0 <= ph < 3 implies (#[trigger] column_indices@[ph])@.no_duplicates()
                && forall|j: int|
                0 <= j < column_indices@[ph]@.len() ==> #[trigger] column_indices@[ph]@[j]
                    < meta.num_advice_columns by {
                law_phase_members(meta.advice_column_phase@, ph);
            }
            assert forall|ph: int| 0 <= ph < 3 implies (
            #[trigger] challenge_indices@[ph])@.no_duplicates() by {
                law_phase_members(meta.challenge_phase@, ph);
            }
        }
        let columns = meta.num_advice_columns;
        let total = n * columns;
        let mut advice: Vec<GpuAssigned<F>> = Vec::new();
        let mut i: usize = 0;
        while i < total
            invariant
                i <= total,
                advice@.len() == i,
                forall|j: int|
                    0 <= j < i ==> (#[trigger] advice@[j])@ == AssignedModel::Zero,
            decreases total - i,
        {
            advice.push(GpuAssigned::Zero);
            i += 1;
        }
        let mut advice_values: Vec<Option<Polynomial<F, LagrangeCoeff>>> = Vec::new();
        let mut advice_polys: Vec<Option<Polynomial<F, Coeff>>> = Vec::new();
        let mut c: usize = 0;
        while c < columns
            invariant
                c <= columns,
                advice_values@.len() == c,
                advice_polys@.len() == c,
                forall|d: int| 0 <= d < c ==> (#[trigger] advice_values@[d]) is None,
                forall|d: int| 0 <= d < c ==> (#[trigger] advice_polys@[d]) is None,
            decreases columns - c,
        {
            advice_values.push(None);
            advice_polys.push(None);
            c += 1;
        }
        WitnessCollection {
            k,
            params_n: n,
            current_phase: Phase(0),
            num_advice_columns: columns,
            advice,
            challenges: HashMap::new(),
            instances,
            usable_rows,
            advice_single: AdviceSingleOption { advice_values, advice_polys },
            instance_single: InstanceSingle {
                instance_values: Vec::new(),
                instance_polys: Vec::new(),
            },
            column_indices,
            challenge_indices,
        }
    }

    /// The value of an instance cell.
    pub fn query_instance(&self, column: GpuColumn<GpuInstance>, row: usize) -> (r: Result<F,
        Error>)
        ensures
            row >= self.usable_rows ==> r == Err::<F, Error>(
                Error::NotEnoughRowsAvailable { current_k: self.k },
            ),
            row < self.usable_rows ==> {
                if column.index < self.instances@.len()
                    && row < self.instances@[column.index as int]@.len() {
                    r == Ok::<F, Error>(self.instances@[column.index as int]@[row as int])
                } else {
                    r == Err::<F, Error>(Error::BoundsFailure)
                }
            },
    {
        if row >= self.usable_rows {
            return Err(Error::NotEnoughRowsAvailable { current_k: self.k });
        }
        if column.index < self.instances.len() && row < self.instances[column.index].len() {
            Ok(self.instances[column.index][row])
        } else {
            Err(Error::BoundsFailure)
        }
    }

    /// Assigns an advice cell, and hands back what it holds.
    pub fn assign_advice(&mut self, column: GpuColumn<GpuAdvice>, row: usize,
        to: GpuAssigned<F>) -> (r:
        GpuAssigned<F>)
        requires
            old(self).wf(),
            column.index < old(self).num_advice_columns,
            row < old(self).usable_rows,
        ensures
            r == to,
            final(self).wf(),
            final(self).same_but_advice(*old(self)),
            final(self).advice@ == old(self).advice@.update(
                cell(old(self).params_n as int, column.index as int, row as int),
                to,
            ),
    {
        proof {
            lemma_cells(
                self.params_n as int,
                self.num_advice_columns as int,
                column.index as int,
                row as int,
                column.index as int,
                row as int,
            );
        }
        let at = column.index * self.params_n + row;
        self.advice[at] = to;
        to
    }

    /// The value of a challenge, where it has been squeezed.
    pub fn get_challenge(&self, challenge: GpuChallenge) -> (r: Option<F>)
        ensures
            r == (if self.challenges@.contains_key(challenge.index) {
                Some(self.challenges@[challenge.index])
            } else {
                None
            }),
    {
        broadcast use vstd::std_specs::hash::group_hash_axioms;

        match self.challenges.get(&challenge.index) {
            Some(v) => Some(*v),
            None => None,
        }
    }
}

/// A column of `n` rows that holds the values first, and zeros behind them.
pub open spec fn padded(values: Seq<int>, n: nat) -> Seq<int> {
    Seq::new(
        n,
        |i: int|
            if i < values.len() {
                values[i]
            } else {
                0
            },
    )
}

/// The instance columns, each padded with zeros to `n` rows.
pub fn padded_columns<F: Field>(instances: &Vec<Vec<F>>, n: usize) -> (r: Vec<
    Polynomial<F, LagrangeCoeff>,
>)
    ensures
        r@.len() == instances@.len(),
        forall|c: int|
            0 <= c < r@.len() ==> vals((#[trigger] r@[c])@) == padded(
                vals(instances@[c]@),
                n as nat,
            ),
{
    let mut out: Vec<Polynomial<F, LagrangeCoeff>> = Vec::new();
    let mut c: usize = 0;
    while c < instances.len()
        invariant
            c <= instances@.len(),
            out@.len() == c,
            forall|d: int|
                0 <= d < c ==> vals((#[trigger] out@[d])@) == padded(
                    vals(instances@[d]@),
                    n as nat,
                ),
        decreases instances@.len() - c,
    {
        let mut column: Vec<F> = Vec::new();
        let mut i: usize = 0;
        while i < n
            invariant
                c < instances@.len(),
                i <= n,
                column@.len() == i,
                forall|j: int|
                    0 <= j < i ==> (#[trigger] column@[j]).val() == padded(
                        vals(instances@[c as int]@),
                        n as nat,
                    )[j],
            decreases n - i,
        {
            if i < instances[c].len() {
                column.push(instances[c][i]);
            } else {
                column.push(F::zero());
            }
            i += 1;
        }
        assert(vals(column@) =~= padded(vals(instances@[c as int]@), n as nat));
        out.push(Polynomial::new(column));
        c += 1;
    }
    out
}

/// The coefficient forms of columns, which stay as they are.
pub fn coefficients_of<F: Field>(
    domain: &EvaluationDomain<F>,
    values: &Vec<Polynomial<F, LagrangeCoeff>>,
) -> (r: Vec<Polynomial<F, Coeff>>)
    requires
        domain.wf(),
        forall|c: int| 0 <= c < values@.len() ==> (#[trigger] values@[c])@.len() == domain.size(),
    ensures
        r@.len() == values@.len(),
        forall|c: int|
            0 <= c < r@.len() ==> vals((#[trigger] r@[c])@) == domain.coefficients(
                vals(values@[c]@),
            ),
{
    let mut copies: Vec<Polynomial<F, LagrangeCoeff>> = Vec::new();
    let mut c: usize = 0;
    while c < values.len()
        invariant
            c <= values@.len(),
            copies@.len() == c,
            forall|d: int| 0 <= d < c ==> (#[trigger] copies@[d])@ == values@[d]@,
        decreases values@.len() - c,
    {
        copies.push(Polynomial::new(copied(values[c].values())));
        c += 1;
    }
    proof {
        assert forall|d: int| 0 <= d < copies@.len() implies (#[trigger] copies@[d])@.len()
            == domain.size() by {
            let _ = values@[d];
        }
    }
    domain.lagrange_to_coeff_many(copies)
}

/// Whether the rows from `start` on of the listed columns hold their blinding
/// factors, and all other cells what they held before.
pub open spec fn blinds<F: Field>(
    new: Seq<GpuAssigned<F>>,
    old: Seq<GpuAssigned<F>>,
    n: int,
    start: int,
    num_columns: int,
    columns: Seq<usize>,
    blinders: Seq<Vec<F>>,
) -> bool {
    &&& new.len() == old.len()
    &&& forall|j: int, i: int|
        0 <= j < columns.len() && start <= i < n ==> #[trigger] new[cell(n, columns[j] as int, i)]
            == GpuAssigned::Trivial(blinders[j]@[i - start])
    &&& forall|c: int, i: int|
        0 <= c < num_columns && 0 <= i < n && (i < start || !columns.contains(c as usize))
            ==> #[trigger] new[cell(n, c, i)] == old[cell(n, c, i)]
}

/// Writes the blinding factors of the listed columns.
fn blind<F: Field>(
    advice: &mut Vec<GpuAssigned<F>>,
    n: usize,
    start: usize,
    num_columns: usize,
    columns: &Vec<usize>,
    blinders: &Vec<Vec<F>>,
)
    requires
        old(advice)@.len() == n * num_columns,
        start <= n,
        columns@.no_duplicates(),
        forall|j: int| 0 <= j < columns@.len() ==> #[trigger] columns@[j] < num_columns,
        blinders@.len() == columns@.len(),
        forall|j: int| 0 <= j < blinders@.len() ==> (#[trigger] blinders@[j])@.len() == n - start,
    ensures
        blinds(
            final(advice)@,
            old(advice)@,
            n as int,
            start as int,
            num_columns as int,
            columns@,
            blinders@,
        ),
{
    let ghost first = advice@;
    let ghost (nn, cols) = (n as int, num_columns as int);
    assert(advice.len() == advice@.len());
    let mut j: usize = 0;
    while j < columns.len()
        invariant
            nn == n,
            cols == num_columns,
            first.len() == n * num_columns,
            first.len() <= usize::MAX,
            start <= n,
            columns@.no_duplicates(),
            forall|j: int| 0 <= j < columns@.len() ==> #[trigger] columns@[j] < num_columns,
            blinders@.len() == columns@.len(),
            forall|j: int|
                0 <= j < blinders@.len() ==> (#[trigger] blinders@[j])@.len() == n - start,
            j <= columns@.len(),
            blinds(advice@, first, nn, start as int, cols, columns@.take(j as int), blinders@),
        decreases columns@.len() - j,
    {
        let ghost before = advice@;
        let column = columns[j];
        let blinding = &blinders[j];
        let mut i = start;
        while i < n
            invariant
                nn == n,
                cols == num_columns,
                before.len() == n * num_columns,
                before.len() <= usize::MAX,
                start <= i <= n,
                column < num_columns,
                blinding@.len() == n - start,
                advice@.len() == before.len(),
                forall|l: int|
                    start <= l < i ==> #[trigger] advice@[cell(nn, column as int, l)]
                        == GpuAssigned::Trivial(blinding@[l - start]),
                forall|c: int, l: int|
                    0 <= c < cols && 0 <= l < nn && (c != column || l < start)
                        ==> #[trigger] advice@[cell(nn, c, l)] == before[cell(nn, c, l)],
            decreases n - i,
        {
            let ghost inner = advice@;
            proof {
                lemma_cells(nn, cols, column as int, i as int, column as int, i as int);
            }
            let at = column * n + i;
            advice[at] = GpuAssigned::Trivial(blinding[i - start]);
            proof {
                assert forall|l: int| start <= l < i + 1 implies #[trigger] advice@[cell(
                    nn,
                    column as int,
                    l,
                )] == GpuAssigned::Trivial(blinding@[l - start]) by {
                    lemma_cells(nn, cols, column as int, l, column as int, i as int);
                    if l < i {
                        assert(inner[cell(nn, column as int, l)] == GpuAssigned::Trivial(
                            blinding@[l - start],
                        ));
                    }
                }
                assert forall|c: int, l: int|
                    0 <= c < cols && 0 <= l < nn && (c != column || l < start) implies
                    #[trigger] advice@[cell(nn, c, l)] == before[cell(nn, c, l)] by {
                    lemma_cells(nn, cols, c, l, column as int, i as int);
                    assert(inner[cell(nn, c, l)] == before[cell(nn, c, l)]);
                }
            }
            i += 1;
        }
        proof {
            let done = columns@.take(j as int);
            let more = columns@.take(j + 1);
            assert forall|m: int, l: int| 0 <= m < more.len() && start <= l < nn implies
                #[trigger] advice@[cell(nn, more[m] as int, l)] == GpuAssigned::Trivial(
                blinders@[m]@[l - start],
            ) by {
                if m < j {
                    assert(done[m] == columns@[m] && columns@[m] != column);
                    assert(before[cell(nn, done[m] as int, l)] == GpuAssigned::Trivial(
                        blinders@[m]@[l - start],
                    ));
                } else {
                    assert(more[m] == column);
                }
            }
            assert forall|c: int, l: int|
                0 <= c < cols && 0 <= l < nn && (l < start || !more.contains(c as usize)) implies
                #[trigger] advice@[cell(nn, c, l)] == first[cell(nn, c, l)] by {
                if l >= start {
                    if c == column {
                        assert(more[j as int] == column);
                        assert(more.contains(c as usize));
                    }
                    if done.contains(c as usize) {
                        let m = choose|m: int| 0 <= m < done.len() && done[m] == c as usize;
                        assert(more[m] == c as usize);
                    }
                }
                assert(before[cell(nn, c, l)] == first[cell(nn, c, l)]);
            }
        }
        j += 1;
    }
    assert(columns@.take(j as int) =~= columns@);
}

/// The values of an advice column, with the deferred inversions done.
pub open spec fn column_values<F: Field>(advice: Seq<GpuAssigned<F>>, n: nat, column: int) -> Seq<
    int,
> {
    Seq::new(n, |i: int| advice[cell(n as int, column, i)]@.value(F::modulus()))
}

/// The values of the listed columns.
pub fn columns_inverted<F: Field>(
    advice: &Vec<GpuAssigned<F>>,
    n: usize,
    num_columns: usize,
    columns: &Vec<usize>,
) -> (r: Vec<Polynomial<F, LagrangeCoeff>>)
    requires
        advice@.len() == n * num_columns,
        forall|j: int| 0 <= j < columns@.len() ==> #[trigger] columns@[j] < num_columns,
    ensures
        r@.len() == columns@.len(),
        forall|j: int|
            0 <= j < r@.len() ==> vals((#[trigger] r@[j])@) == column_values(
                advice@,
                n as nat,
                columns@[j] as int,
            ),
{
    let ghost p = F::modulus();
    let ghost nn = n as int;
    assert(advice.len() == advice@.len());
    let mut parts: Vec<Vec<GpuAssigned<F>>> = Vec::new();
    let mut j: usize = 0;
    while j < columns.len()
        invariant
            nn == n,
            advice@.len() == n * num_columns,
            advice@.len() <= usize::MAX,
            forall|j: int| 0 <= j < columns@.len() ==> #[trigger] columns@[j] < num_columns,
            j <= columns@.len(),
            parts@.len() == j,
            forall|m: int| 0 <= m < j ==> (#[trigger] parts@[m])@.len() == n,
            forall|m: int, l: int|
                0 <= m < j && 0 <= l < n ==> #[trigger] parts@[m]@[l] == advice@[cell(
                    nn,
                    columns@[m] as int,
                    l,
                )],
        decreases columns@.len() - j,
    {
        let column = columns[j];
        let mut part: Vec<GpuAssigned<F>> = Vec::new();
        let mut i: usize = 0;
        while i < n
            invariant
                nn == n,
                advice@.len() == n * num_columns,
                advice@.len() <= usize::MAX,
                column < num_columns,
                i <= n,
                part@.len() == i,
                forall|l: int|
                    0 <= l < i ==> #[trigger] part@[l] == advice@[cell(nn, column as int, l)],
            decreases n - i,
        {
            proof {
                lemma_cells(
                    nn,
                    num_columns as int,
                    column as int,
                    i as int,
                    column as int,
                    i as int,
                );
            }
            part.push(advice[column * n + i]);
            i += 1;
        }
        let ghost before = parts@;
        parts.push(part);
        proof {
            assert forall|m: int, l: int| 0 <= m < j + 1 && 0 <= l < n implies
                #[trigger] parts@[m]@[l] == advice@[cell(nn, columns@[m] as int, l)] by {
                if m < j {
                    assert(before[m]@[l] == advice@[cell(nn, columns@[m] as int, l)]);
                }
            }
        }
        j += 1;
    }
    let out = batch_invert_assigned(&parts);
    proof {
        assert forall|j: int| 0 <= j < out@.len() implies vals((#[trigger] out@[j])@)
            == column_values(advice@, n as nat, columns@[j] as int) by {
            assert(parts@[j]@.len() == n);
            assert forall|l: int| 0 <= l < n implies vals(out@[j]@)[l] == column_values(
                advice@,
                n as nat,
                columns@[j] as int,
            )[l] by {
                assert(parts@[j]@[l] == advice@[cell(nn, columns@[j] as int, l)]);
                assert(out@[j]@[l].val() == parts@[j]@[l]@.value(p));
            }
            assert(vals(out@[j]@) =~= column_values(advice@, n as nat, columns@[j] as int));
        }
    }
    out
}

impl<F: Field> InstanceSingle<F> {
    /// Whether these are the given instances, padded to the rows of the domain.
    pub open spec fn holds(self, domain: EvaluationDomain<F>, instances: Seq<Vec<F>>) -> bool {
        &&& self.instance_values@.len() == instances.len()
        &&& self.instance_polys@.len() == instances.len()
        &&& forall|c: int|
            0 <= c < instances.len() ==> vals((#[trigger] self.instance_values@[c])@) == padded(
                vals(instances[c]@),
                domain.size(),
            )
        &&& forall|c: int|
            0 <= c < instances.len() ==> vals((#[trigger] self.instance_polys@[c])@)
                == domain.coefficients(padded(vals(instances[c]@), domain.size()))
    }

    /// The instance columns, padded with zeros, with their coefficients.
    pub fn from_instances(domain: &EvaluationDomain<F>, instances: &Vec<Vec<F>>) -> (r: Self)
        requires
            domain.wf(),
        ensures
            r.holds(*domain, instances@),
    {
        let instance_values = padded_columns(instances, domain.rows());
        proof {
            assert forall|c: int| 0 <= c < instance_values@.len() implies (
            #[trigger] instance_values@[c])@.len() == domain.size() by {
                assert(vals(instance_values@[c]@).len() == domain.size());
            }
        }
        let instance_polys = coefficients_of(domain, &instance_values);
        proof {
            assert forall|c: int| 0 <= c < instances@.len() implies vals(
                (#[trigger] instance_polys@[c])@,
            ) == domain.coefficients(padded(vals(instances@[c]@), domain.size())) by {
                let _ = instance_values@[c];
            }
        }
        InstanceSingle { instance_values, instance_polys }
    }
}

impl<F: Field> WitnessCollection<F> {
    /// The columns of the current phase.
    pub open spec fn phase_columns(self) -> Seq<usize> {
        self.column_indices@[self.current_phase.0 as int]@
    }

    /// The challenges of the current phase.
    pub open spec fn phase_challenges(self) -> Seq<usize> {
        self.challenge_indices@[self.current_phase.0 as int]@
    }

    /// Whether a column has been filled from its cells.
    pub open spec fn filled(self, domain: EvaluationDomain<F>, column: int) -> bool {
        &&& self.advice_single.advice_values@[column] matches Some(values) && vals(values@)
            == column_values(self.advice@, self.params_n as nat, column)
        &&& self.advice_single.advice_polys@[column] matches Some(poly) && vals(poly@)
            == domain.coefficients(column_values(self.advice@, self.params_n as nat, column))
    }

    /// Whether what stays the same in a phase has stayed the same.
    pub open spec fn same_circuit(self, other: Self) -> bool {
        &&& self.k == other.k
        &&& self.params_n == other.params_n
        &&& self.num_advice_columns == other.num_advice_columns
        &&& self.instances == other.instances
        &&& self.usable_rows == other.usable_rows
        &&& self.column_indices == other.column_indices
        &&& self.challenge_indices == other.challenge_indices
    }

    /// Ends the assignments of the current phase: its columns get their blinding
    /// factors, and are kept as values and as coefficients, ready to be committed
    /// to. The first phase does so with the instances, too.
    pub fn close_phase(&mut self, domain: &EvaluationDomain<F>, blinders: &Vec<Vec<F>>)
        requires
            old(self).wf(),
            old(self).current_phase.0 < 3,
            domain.wf(),
            domain.size() == old(self).params_n,
            blinders@.len() == old(self).phase_columns().len(),
            forall|j: int|
                0 <= j < blinders@.len() ==> (#[trigger] blinders@[j])@.len() == old(self).params_n
                    - old(self).usable_rows,
        ensures
            final(self).wf(),
            final(self).same_circuit(*old(self)),
            final(self).current_phase == old(self).current_phase,
            final(self).challenges == old(self).challenges,
            blinds(
                final(self).advice@,
                old(self).advice@,
                old(self).params_n as int,
                old(self).usable_rows as int,
                old(self).num_advice_columns as int,
                old(self).phase_columns(),
                blinders@,
            ),
            old(self).current_phase.0 == 0 ==> final(self).instance_single.holds(
                *domain,
                old(self).instances@,
            ),
            old(self).current_phase.0 != 0 ==> final(self).instance_single == old(
                self,
            ).instance_single,
            forall|c: int|
                0 <= c < old(self).num_advice_columns ==> {
                    if old(self).phase_columns().contains(c as usize) {
                        #[trigger] final(self).filled(*domain, c)
                    } else {
                        &&& final(self).advice_single.advice_values@[c] == old(
                            self,
                        ).advice_single.advice_values@[c]
                        &&& final(self).advice_single.advice_polys@[c] == old(
                            self,
                        ).advice_single.advice_polys@[c]
                    }
                },
    {
        let ghost first = *self;
        let phase = self.current_phase.0 as usize;
        if phase == 0 {
            self.instance_single = InstanceSingle::from_instances(domain, &self.instances);
        }
        let n = self.params_n;
        let num_columns = self.num_advice_columns;
        let columns = copied_indices(&self.column_indices[phase]);
        assert(columns@ == first.phase_columns());
        blind(&mut self.advice, n, self.usable_rows, num_columns, &columns, blinders);
        let mut values = columns_inverted(&self.advice, n, num_columns, &columns);
        proof {
            assert forall|c: int| 0 <= c < values@.len() implies (#[trigger] values@[c])@.len()
                == domain.size() by {
                assert(vals(values@[c]@).len() == n);
            }
        }
        let mut polys = coefficients_of(domain, &values);
        let ghost advice = self.advice@;
        let ghost instances_after = self.instance_single;
        proof {
            assert forall|m: int| 0 <= m < polys@.len() implies vals((#[trigger] polys@[m])@)
                == domain.coefficients(column_values(advice, n as nat, columns@[m] as int)) by {
                let _ = values@[m];
            }
        }
        // From the last column to the first: each leaves the end of its list.
        let mut j = columns.len();
        assert(values@.take(j as int) =~= values@);
        while j > 0
            invariant
                j <= columns@.len(),
                n == first.params_n,
                num_columns == first.num_advice_columns,
                columns@ == first.phase_columns(),
                columns@.no_duplicates(),
                forall|m: int| 0 <= m < columns@.len() ==> #[trigger] columns@[m] < num_columns,
                values@.len() == j,
                polys@.len() == j,
                forall|m: int|
                    0 <= m < j ==> vals((#[trigger] values@[m])@) == column_values(
                        advice,
                        n as nat,
                        columns@[m] as int,
                    ),
                forall|m: int|
                    0 <= m < j ==> vals((#[trigger] polys@[m])@) == domain.coefficients(
                        column_values(advice, n as nat, columns@[m] as int),
                    ),
                self.wf(),
                self.same_circuit(first),
                self.current_phase == first.current_phase,
                self.challenges == first.challenges,
                self.advice@ == advice,
                self.instance_single == instances_after,
                forall|m: int|
                    j <= m < columns@.len() ==> self.filled(
                        *domain,
                        #[trigger] columns@[m] as int,
                    ),
                forall|c: int|
                    0 <= c < num_columns && !columns@.skip(j as int).contains(c as usize) ==> {
                        &&& #[trigger] self.advice_single.advice_values@[c]
                            == first.advice_single.advice_values@[c]
                        &&& self.advice_single.advice_polys@[c]
                            == first.advice_single.advice_polys@[c]
                    },
            decreases j,
        {
            j -= 1;
            let ghost before = *self;
            let column = columns[j];
            let value = values.pop();
            let poly = polys.pop();
            self.advice_single.advice_values[column] = value;
            self.advice_single.advice_polys[column] = poly;
            proof {
                assert forall|m: int| j <= m < columns@.len() implies self.filled(
                    *domain,
                    #[trigger] columns@[m] as int,
                ) by {
                    if m > j {
                        assert(columns@[m] != column);
                        assert(before.filled(*domain, columns@[m] as int));
                    }
                }
                assert forall|c: int|
                    0 <= c < num_columns && !columns@.skip(j as int).contains(c as usize) implies {
                    &&& #[trigger] self.advice_single.advice_values@[c]
                        == first.advice_single.advice_values@[c]
                    &&& self.advice_single.advice_polys@[c] == first.advice_single.advice_polys@[c]
                } by {
                    assert(columns@.skip(j as int)[0] == column);
                    assert(columns@.skip(j as int).contains(column));
                    let later = columns@.skip(j + 1);
                    if later.contains(c as usize) {
                        let m = choose|m: int| 0 <= m < later.len() && later[m] == c as usize;
                        assert(columns@.skip(j as int)[m + 1] == c as usize);
                    }
                    assert(before.advice_single.advice_values@[c]
                        == first.advice_single.advice_values@[c]);
                }
            }
        }
        proof {
            assert(columns@.skip(0) =~= columns@);
            assert forall|c: int| 0 <= c < first.num_advice_columns implies {
                if first.phase_columns().contains(c as usize) {
                    #[trigger] self.filled(*domain, c)
                } else {
                    &&& self.advice_single.advice_values@[c]
                        == first.advice_single.advice_values@[c]
                    &&& self.advice_single.advice_polys@[c] == first.advice_single.advice_polys@[c]
                }
            } by {
                if columns@.contains(c as usize) {
                    let m = choose|m: int| 0 <= m < columns@.len() && columns@[m] == c as usize;
                    assert(self.filled(*domain, columns@[m] as int));
                } else {
                    let _ = self.advice_single.advice_values@[c];
                }
            }
        }
    }

    /// Takes in the challenges of the current phase, and goes on to the next.
    pub fn next_phase(&mut self, squeezed: &Vec<F>)
        requires
            old(self).wf(),
            old(self).current_phase.0 < 2,
            squeezed@.len() == old(self).phase_challenges().len(),
            forall|j: int|
                0 <= j < squeezed@.len() ==> !old(self).challenges@.contains_key(
                    #[trigger] old(self).phase_challenges()[j],
                ),
        ensures
            final(self).wf(),
            final(self).same_circuit(*old(self)),
            final(self).current_phase.0 == old(self).current_phase.0 + 1,
            final(self).advice == old(self).advice,
            final(self).advice_single == old(self).advice_single,
            final(self).instance_single == old(self).instance_single,
            final(self).challenges@.dom() == old(self).challenges@.dom().union(
                old(self).phase_challenges().to_set(),
            ),
            forall|j: int|
                0 <= j < squeezed@.len() ==> final(self).challenges@[#[trigger] old(
                    self,
                ).phase_challenges()[j]] == squeezed@[j],
            forall|i: usize| #[trigger]
                old(self).challenges@.contains_key(i) ==> final(self).challenges@[i] == old(
                    self,
                ).challenges@[i],
    {
        broadcast use vstd::std_specs::hash::group_hash_axioms;

        let ghost first = *self;
        let phase = self.current_phase.0 as usize;
        let indices = copied_indices(&self.challenge_indices[phase]);
        let mut j: usize = 0;
        assert(first.challenges@.dom() =~= first.challenges@.dom().union(
            indices@.take(0).to_set(),
        ));
        while j < indices.len()
            invariant
                indices@ == first.phase_challenges(),
                indices@.no_duplicates(),
                squeezed@.len() == indices@.len(),
                j <= indices@.len(),
                forall|j: int|
                    0 <= j < squeezed@.len() ==> !first.challenges@.contains_key(
                        #[trigger] indices@[j],
                    ),
                self.wf(),
                self.same_circuit(first),
                self.current_phase == first.current_phase,
                self.advice == first.advice,
                self.advice_single == first.advice_single,
                self.instance_single == first.instance_single,
                self.challenges@.dom() == first.challenges@.dom().union(
                    indices@.take(j as int).to_set(),
                ),
                forall|m: int|
                    0 <= m < j ==> self.challenges@[#[trigger] indices@[m]] == squeezed@[m],
                forall|i: usize| #[trigger]
                    first.challenges@.contains_key(i) ==> self.challenges@[i]
                        == first.challenges@[i],
            decreases indices@.len() - j,
        {
            broadcast use vstd::std_specs::hash::group_hash_axioms;

            self.challenges.insert(indices[j], squeezed[j]);
            proof {
                let done = indices@.take(j as int);
                let more = indices@.take(j + 1);
                assert(more =~= done.push(indices@[j as int]));
                assert forall|i: usize| more.to_set().contains(i) <==> done.to_set().contains(i)
                    || i == indices@[j as int] by {
                    if more.contains(i) {
                        let m = choose|m: int| 0 <= m < more.len() && more[m] == i;
                        if m < j {
                            assert(done[m] == i);
                        }
                    }
                    if done.contains(i) {
                        let m = choose|m: int| 0 <= m < done.len() && done[m] == i;
                        assert(more[m] == i);
                    }
                    assert(more[j as int] == indices@[j as int]);
                }
                assert(self.challenges@.dom() =~= first.challenges@.dom().union(more.to_set()));
            }
            j += 1;
        }
        assert(indices@.take(j as int) =~= indices@);
        self.current_phase = self.current_phase.next();
    }
}

/// A copy of a list of indices.
fn copied_indices(a: &Vec<usize>) -> (r: Vec<usize>)
    ensures
        r@ == a@,
{
    let mut out: Vec<usize> = Vec::new();
    let mut i: usize = 0;
    while i < a.len()
        invariant
            i <= a@.len(),
            out@ == a@.take(i as int),
        decreases a@.len() - i,
    {
        out.push(a[i]);
        i += 1;
    }
    assert(a@.take(i as int) =~= a@);
    out
}

/// Values whose rows from `start` on are replaced.
pub open spec fn with_tail(values: Seq<int>, start: int, tail: Seq<int>) -> Seq<int> {
    values.take(start) + tail
}

/// Whether the columns are the raw ones, with blinding factors in the listed
/// ones.
pub open spec fn blinds_columns<F: Field>(
    new: Seq<Polynomial<F, LagrangeCoeff>>,
    old: Seq<Vec<F>>,
    start: int,
    columns: Seq<usize>,
    blinders: Seq<Vec<F>>,
) -> bool {
    &&& new.len() == old.len()
    &&& forall|j: int|
        0 <= j < columns.len() ==> vals(new[#[trigger] columns[j] as int]@) == with_tail(
            vals(old[columns[j] as int]@),
            start,
            vals(blinders[j]@),
        )
    &&& forall|c: int|
        0 <= c < new.len() && !columns.contains(c as usize) ==> vals((#[trigger] new[c])@) == vals(
            old[c]@,
        )
}

/// Writes blinding factors behind the usable rows of the listed columns.
fn blind_columns<F: Field>(
    advice_values: Vec<Vec<F>>,
    n: usize,
    start: usize,
    columns: &Vec<usize>,
    blinders: &Vec<Vec<F>>,
) -> (r: Vec<Polynomial<F, LagrangeCoeff>>)
    requires
        start <= n,
        forall|c: int|
            0 <= c < advice_values@.len() ==> (#[trigger] advice_values@[c])@.len() == n,
        columns@.no_duplicates(),
        forall|j: int| 0 <= j < columns@.len() ==> #[trigger] columns@[j] < advice_values@.len(),
        blinders@.len() == columns@.len(),
        forall|j: int| 0 <= j < blinders@.len() ==> (#[trigger] blinders@[j])@.len() == n - start,
    ensures
        blinds_columns(r@, advice_values@, start as int, columns@, blinders@),
        forall|c: int| 0 <= c < r@.len() ==> (#[trigger] r@[c])@.len() == n,
{
    let ghost first = advice_values@;
    let mut values = advice_values;
    let mut j: usize = 0;
    while j < columns.len()
        invariant
            start <= n,
            values@.len() == first.len(),
            forall|c: int| 0 <= c < first.len() ==> (#[trigger] first[c])@.len() == n,
            columns@.no_duplicates(),
            forall|j: int| 0 <= j < columns@.len() ==> #[trigger] columns@[j] < first.len(),
            blinders@.len() == columns@.len(),
            forall|j: int|
                0 <= j < blinders@.len() ==> (#[trigger] blinders@[j])@.len() == n - start,
            j <= columns@.len(),
            forall|m: int|
                0 <= m < j ==> vals(values@[#[trigger] columns@[m] as int]@) == with_tail(
                    vals(first[columns@[m] as int]@),
                    start as int,
                    vals(blinders@[m]@),
                ),
            forall|m: int|
                j <= m < columns@.len() ==> values@[#[trigger] columns@[m] as int]
                    == first[columns@[m] as int],
            forall|c: int|
                0 <= c < first.len() && !columns@.contains(c as usize) ==> #[trigger] values@[c]
                    == first[c],
        decreases columns@.len() - j,
    {
        let ghost before = values@;
        let column = columns[j];
        let mut blinded: Vec<F> = Vec::new();
        let mut i: usize = 0;
        while i < n
            invariant
                start <= n,
                column < values@.len(),
                j < blinders@.len(),
                values@[column as int]@.len() == n,
                blinders@[j as int]@.len() == n - start,
                i <= n,
                blinded@.len() == i,
                forall|l: int|
                    0 <= l < i ==> #[trigger] blinded@[l] == (if l < start {
                        values@[column as int]@[l]
                    } else {
                        blinders@[j as int]@[l - start]
                    }),
            decreases n - i,
        {
            if i < start {
                blinded.push(values[column][i]);
            } else {
                blinded.push(blinders[j][i - start]);
            }
            i += 1;
        }
        assert(vals(blinded@) =~= with_tail(
            vals(first[column as int]@),
            start as int,
            vals(blinders@[j as int]@),
        ));
        values[column] = blinded;
        proof {
            assert forall|m: int| 0 <= m < j + 1 implies vals(
                values@[#[trigger] columns@[m] as int]@,
            ) == with_tail(vals(first[columns@[m] as int]@), start as int, vals(blinders@[m]@)) by {
                if m < j {
                    assert(columns@[m] != column);
                }
            }
            assert forall|c: int| 0 <= c < first.len() && !columns@.contains(c as usize) implies
                #[trigger] values@[c] == first[c] by {
                assert(columns@.contains(column));
                assert(before[c] == first[c]);
            }
        }
        j += 1;
    }
    let ghost blinded = values@;
    let mut out: Vec<Polynomial<F, LagrangeCoeff>> = Vec::new();
    let mut c: usize = 0;
    while c < values.len()
        invariant
            c <= values@.len(),
            values@ == blinded,
            out@.len() == c,
            forall|d: int| 0 <= d < c ==> (#[trigger] out@[d])@ == blinded[d]@,
        decreases values@.len() - c,
    {
        out.push(Polynomial::new(copied(&values[c])));
        c += 1;
    }
    proof {
        assert forall|c: int| 0 <= c < out@.len() implies (#[trigger] out@[c])@.len() == n by {
            if columns@.contains(c as usize) {
                let m = choose|m: int| 0 <= m < columns@.len() && columns@[m] == c as usize;
                let _ = columns@[m];
                assert(vals(blinded[c]@).len() == n);
            } else {
                assert(blinded[c] == first[c]);
            }
        }
    }
    out
}

/// Does for columns of values what [`WitnessCollection::close_phase`] does for
/// columns of cells: pads the instances, blinds the advice columns of the phase,
/// and gives the coefficients of all columns.
pub fn convert_raw_advice<F: Field>(
    domain: &EvaluationDomain<F>,
    meta: &GpuConstraintSystem<F>,
    instances: &Vec<Vec<F>>,
    advice_values: Vec<Vec<F>>,
    phase: usize,
    blinders: &Vec<Vec<F>>,
) -> (r: (InstanceSingle<F>, AdviceSingle<F>))
    requires
        domain.wf(),
        meta.wf(),
        phases_exist(*meta),
        phase < 3,
        meta.spec_blinding_factors() + 1 <= domain.size(),
        advice_values@.len() == meta.num_advice_columns,
        forall|c: int|
            0 <= c < advice_values@.len() ==> (#[trigger] advice_values@[c])@.len()
                == domain.size(),
        blinders@.len() == in_phase(meta.advice_column_phase@, phase as int).len(),
        forall|j: int|
            0 <= j < blinders@.len() ==> (#[trigger] blinders@[j])@.len()
                == meta.spec_blinding_factors() + 1,
    ensures
        r.0.holds(*domain, instances@),
        blinds_columns(
            r.1.advice_values@,
            advice_values@,
            domain.size() - (meta.spec_blinding_factors() + 1),
            in_phase(meta.advice_column_phase@, phase as int),
            blinders@,
        ),
        r.1.advice_polys@.len() == advice_values@.len(),
        forall|c: int|
            0 <= c < advice_values@.len() ==> vals((#[trigger] r.1.advice_polys@[c])@)
                == domain.coefficients(vals(r.1.advice_values@[c]@)),
{
    let n = domain.rows();
    let start = n - (meta.blinding_factors() + 1);
    let (column_indices, _challenge_indices) = column_and_challenge_indices(meta);
    proof {
        assert(meta.advice_column_phase.len() == meta.advice_column_phase@.len());
        law_phase_members(meta.advice_column_phase@, phase as int);
    }
    let instance = InstanceSingle::from_instances(domain, instances);
    let values = blind_columns(advice_values, n, start, &column_indices[phase], blinders);
    let polys = coefficients_of(domain, &values);
    (instance, AdviceSingle { advice_polys: polys, advice_values: values })
}

/// Blinding the cells of a column and then inverting gives what inverting and
/// then blinding the values does.
pub proof fn law_blinding_commutes<F: Field>(
    new: Seq<GpuAssigned<F>>,
    old: Seq<GpuAssigned<F>>,
    n: nat,
    start: int,
    num_columns: int,
    columns: Seq<usize>,
    blinders: Seq<Vec<F>>,
    j: int,
)
    requires
        blinds(new, old, n as int, start, num_columns, columns, blinders),
        0 <= start <= n,
        0 <= j < columns.len(),
        columns[j] < num_columns,
        blinders[j]@.len() == n - start,
    ensures
        column_values(new, n, columns[j] as int) == with_tail(
            column_values(old, n, columns[j] as int),
            start,
            vals(blinders[j]@),
        ),
{
    let c = columns[j] as int;
    let a = column_values(new, n, c);
    let b = with_tail(column_values(old, n, c), start, vals(blinders[j]@));
    assert forall|i: int| 0 <= i < n implies a[i] == b[i] by {
        if i < start {
            assert(new[cell(n as int, c, i)] == old[cell(n as int, c, i)]);
        } else {
            assert(new[cell(n as int, columns[j] as int, i)] == GpuAssigned::Trivial(
                blinders[j]@[i - start],
            ));
        }
    }
    assert(a =~= b);
}

/// The number of instance columns is that of the circuit, or the instances are
/// refused.
pub fn check_instances<F: Field>(num_instance_columns: usize,
    instances: &Vec<Vec<F>>) -> (r: Result<
    (),
    GpuError,
>)
    ensures
        r == (if instances@.len() == num_instance_columns {
            Ok::<(), GpuError>(())
        } else {
            Err(GpuError::Canonical(Error::InvalidInstances))
        }),
{
    if instances.len() != num_instance_columns {
        return Err(GpuError::Canonical(Error::InvalidInstances));
    }
    Ok(())
}

/// The advice columns of a circuit that has been synthesized, as values in the
/// shape that [`convert_raw_advice`] takes: what has not been assigned is zero,
/// the rows for the blinding factors among it.
///
/// This is for circuits of a single phase: the challenges of further phases are
/// squeezed in between, while the circuit is being synthesized.
pub fn synthesize_advices_and_instances<F: Field>(
    meta: &GpuConstraintSystem<F>,
    witness: &WitnessCollection<F>,
) -> (r: Result<Vec<Polynomial<F, LagrangeCoeff>>, GpuError>)
    requires
        witness.wf(),
        meta.wf(),
        witness.num_advice_columns == meta.num_advice_columns,
        meta.last_phase() == 0,
    ensures
        witness.instances@.len() != meta.num_instance_columns ==> r == Err::<
            Vec<Polynomial<F, LagrangeCoeff>>,
            GpuError,
        >(GpuError::Canonical(Error::InvalidInstances)),
        witness.instances@.len() == meta.num_instance_columns ==> r is Ok,
        r matches Ok(columns) ==> {
            &&& columns@.len() == meta.num_advice_columns
            &&& forall|c: int|
                0 <= c < columns@.len() ==> vals((#[trigger] columns@[c])@) == column_values(
                    witness.advice@,
                    witness.params_n as nat,
                    c,
                )
        },
{
    match check_instances(meta.num_instance_columns, &witness.instances) {
        Ok(_) => {},
        Err(e) => {
            return Err(e);
        },
    }
    let mut columns: Vec<usize> = Vec::new();
    let mut c: usize = 0;
    while c < meta.num_advice_columns
        invariant
            c <= meta.num_advice_columns,
            columns@.len() == c,
            forall|d: int| 0 <= d < c ==> #[trigger] columns@[d] == d,
        decreases meta.num_advice_columns - c,
    {
        columns.push(c);
        c += 1;
    }
    let out = columns_inverted(
        &witness.advice,
        witness.params_n,
        witness.num_advice_columns,
        &columns,
    );
    proof {
        assert forall|c: int| 0 <= c < out@.len() implies vals((#[trigger] out@[c])@)
            == column_values(witness.advice@, witness.params_n as nat, c) by {
            let _ = columns@[c];
        }
    }
    Ok(out)
}

/// Unpacks a list in which everything is there.
pub(crate) fn all_there<T>(list: Vec<Option<T>>) -> (r: Vec<T>)
    requires
        forall|i: int| 0 <= i < list@.len() ==> (#[trigger] list@[i]) is Some,
    ensures
        r@.len() == list@.len(),
        forall|i: int| 0 <= i < r@.len() ==> Some(#[trigger] r@[i]) == list@[i],
{
    let ghost all = list@;
    let mut rest = list;
    let mut out: Vec<T> = Vec::new();
    while rest.len() > 0
        invariant
            out@.len() + rest@.len() == all.len(),
            rest@ == all.skip(out@.len() as int),
            forall|i: int| 0 <= i < all.len() ==> (#[trigger] all[i]) is Some,
            forall|i: int| 0 <= i < out@.len() ==> Some(#[trigger] out@[i]) == all[i],
        decreases rest@.len(),
    {
        let ghost at = out@.len() as int;
        let first = rest.remove(0);
        assert(first == all[at]);
        match first {
            Some(t) => out.push(t),
            None => {},
        }
        assert(rest@ =~= all.skip(out@.len() as int));
    }
    out
}

/// What a circuit that has gone through its phases holds, without proving: the
/// instance and advice columns and the challenges, each in its order. This is for
/// comparison against witnesses that come from elsewhere.
pub fn synthesize_witness<F: Field>(meta: &GpuConstraintSystem<F>,
    witness: WitnessCollection<F>) -> (r:
    Result<(InstanceSingle<F>, AdviceSingle<F>, Vec<F>), GpuError>)
    requires
        witness.wf(),
        meta.wf(),
        witness.num_advice_columns == meta.num_advice_columns,
        forall|c: int|
            0 <= c < meta.num_advice_columns
                ==> (#[trigger] witness.advice_single.advice_values@[c]) is Some,
        forall|c: int|
            0 <= c < meta.num_advice_columns
                ==> (#[trigger] witness.advice_single.advice_polys@[c]) is Some,
        forall|i: usize|
            i < meta.num_challenges ==> #[trigger] witness.challenges@.contains_key(i),
    ensures
        witness.instances@.len() != meta.num_instance_columns ==> r == Err::<
            (InstanceSingle<F>, AdviceSingle<F>, Vec<F>),
            GpuError,
        >(GpuError::Canonical(Error::InvalidInstances)),
        witness.instances@.len() == meta.num_instance_columns ==> r is Ok,
        r matches Ok((instance, advice, challenges)) ==> {
            &&& instance == witness.instance_single
            &&& advice.advice_values@.len() == meta.num_advice_columns
            &&& advice.advice_polys@.len() == meta.num_advice_columns
            &&& forall|c: int|
                0 <= c < meta.num_advice_columns ==> Some(#[trigger] advice.advice_values@[c])
                    == witness.advice_single.advice_values@[c]
            &&& forall|c: int|
                0 <= c < meta.num_advice_columns ==> Some(#[trigger] advice.advice_polys@[c])
                    == witness.advice_single.advice_polys@[c]
            &&& challenges@.len() == meta.num_challenges
            &&& forall|i: int|
                0 <= i < meta.num_challenges ==> #[trigger] challenges@[i]
                    == witness.challenges@[i as usize]
        },
{
    broadcast use vstd::std_specs::hash::group_hash_axioms;

    match check_instances(meta.num_instance_columns, &witness.instances) {
        Ok(_) => {},
        Err(e) => {
            return Err(e);
        },
    }
    let ghost squeezed = witness.challenges@;
    let mut challenges: Vec<F> = Vec::new();
    let mut i: usize = 0;
    while i < meta.num_challenges
        invariant
            i <= meta.num_challenges,
            squeezed == witness.challenges@,
            forall|i: usize| i < meta.num_challenges ==> #[trigger] squeezed.contains_key(i),
            challenges@.len() == i,
            forall|j: int| 0 <= j < i ==> #[trigger] challenges@[j] == squeezed[j as usize],
        decreases meta.num_challenges - i,
    {
        broadcast use vstd::std_specs::hash::group_hash_axioms;

        assert(squeezed.contains_key(i));
        match witness.challenges.get(&i) {
            Some(v) => challenges.push(*v),
            None => {},
        }
        i += 1;
    }
    let advice_values = all_there(witness.advice_single.advice_values);
    let advice_polys = all_there(witness.advice_single.advice_polys);
    Ok((witness.instance_single, AdviceSingle { advice_polys, advice_values }, challenges))
}

} // verus!
