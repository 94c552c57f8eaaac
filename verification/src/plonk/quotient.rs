//! The numerator of the quotient polynomial: the constraints of gates,
//! permutations and lookups, folded into one value for each point.

use crate::field::{fmul, fpow, lemma_fmul_assoc, lemma_units, vals, Field};
use crate::plonk::circuit::{GpuAny, GpuColumn};
use crate::plonk::constraints::{
    fold_terms, have_rows, lookup_terms, permutation_columns, permutation_terms, LookupColumns,
    LookupParts, RowSelectors,
};
use crate::plonk::evaluation::{cells_of, present, sources_of};
use crate::plonk::evaluator::Evaluator;
use crate::plonk::expression::CellValues;
use crate::plonk::graph::{GraphEvaluator, GraphModel, ValueSource};
use crate::plonk::graph_values::{horner, RuntimeScalars};
use crate::plonk::permutation::prover::{chunk_count, column_present};
use crate::poly::arithmetic::{poly_eval, zeros};
use crate::poly::domain::EvaluationDomain;
use crate::poly::rotations::law_part_rotation;
use crate::poly::transforms::copied;
use crate::poly::{
    columns_of, Coeff, ExtendedLagrangeCoeff, LagrangeCoeff, Polynomial, Rotation,
};
use vstd::arithmetic::div_mod::lemma_small_mod;
use vstd::prelude::*;

verus! {

/// The challenges that constraints are folded by.
#[derive(Clone, Copy, Debug)]
pub struct FoldingChallenges<F: Field> {
    pub y: F,
    pub beta: F,
    pub gamma: F,
    pub theta: F,
}

/// Whether all that a graph reads is there, among columns of `n` rows.
pub open spec fn graph_present(
    g: GraphModel,
    num_fixed: nat,
    num_advice: nat,
    num_instance: nat,
    num_challenges: nat,
    n: int,
) -> bool {
    &&& forall|i: int|
        0 <= i < g.rotations.len() ==> n + #[trigger] g.rotations[i] <= i32::MAX
    &&& forall|i: int, j: int|
        0 <= i < g.calculations.len() && 0 <= j < sources_of(g.calculations[i]).len() ==> {
            let s = #[trigger] sources_of(g.calculations[i])[j];
            &&& g.valid(s, i as nat)
            &&& match s {
                ValueSource::Fixed(c, _) => c < num_fixed,
                ValueSource::Advice(c, _) => c < num_advice,
                ValueSource::Instance(c, _) => c < num_instance,
                ValueSource::Challenge(c) => c < num_challenges,
                _ => true,
            }
        }
}

/// The columns of a circuit on a part of the coset, with what its constraints
/// depend on.
pub struct CircuitColumns {
    pub fixed: Seq<Seq<int>>,
    pub advice: Seq<Seq<int>>,
    pub instance: Seq<Seq<int>>,
    pub challenges: Seq<int>,
    pub l0: Seq<int>,
    pub l_last: Seq<int>,
    pub l_active: Seq<int>,
    pub products: Seq<Seq<int>>,
    pub sigmas: Seq<Seq<int>>,
    /// The product, the permuted input and the permuted table of each lookup.
    pub lookups: Seq<(Seq<int>, Seq<int>, Seq<int>)>,
    pub columns: Seq<GpuColumn<GpuAny>>,
    pub chunk_len: nat,
    pub size: i32,
    pub last: i32,
    pub y: int,
    pub beta: int,
    pub gamma: int,
    pub theta: int,
}

impl CircuitColumns {
    /// The cells seen from row `i`.
    pub open spec fn cells(self, i: usize) -> CellValues {
        cells_of(self.fixed, self.advice, self.instance, self.challenges, i, 1, self.size)
    }

    /// The challenges, with the value that comes before.
    pub open spec fn scalars(self, previous: int) -> RuntimeScalars {
        RuntimeScalars {
            beta: self.beta,
            gamma: self.gamma,
            theta: self.theta,
            y: self.y,
            previous,
        }
    }

    /// The constraints of the permutation argument at row `i`.
    pub open spec fn permutation_terms<F: Field>(self, i: usize, start: int) -> Seq<int> {
        permutation_columns::<F>(
            self.columns,
            self.advice,
            self.fixed,
            self.instance,
            self.products,
            self.sigmas,
            self.l0,
            self.l_last,
            self.l_active,
            self.chunk_len,
            self.size,
            self.last,
            self.beta,
            self.gamma,
        ).terms(F::modulus(), i, start)
    }

    /// The constraints of the `k`th lookup at row `i`.
    pub open spec fn lookup_terms(self, p: int, graph: GraphModel, k: int, i: usize) -> Seq<int> {
        (LookupColumns {
            product: self.lookups[k].0,
            permuted_input: self.lookups[k].1,
            permuted_table: self.lookups[k].2,
            l0: self.l0,
            l_last: self.l_last,
            l_active: self.l_active,
            size: self.size,
            beta: self.beta,
            gamma: self.gamma,
        }).terms(p, i, graph.value(p, self.cells(i), self.scalars(0)))
    }

    /// The constraints of the first `k` lookups at row `i`.
    pub open spec fn lookups_terms(self, p: int, graphs: Seq<GraphModel>, k: nat, i: usize) -> Seq<
        int,
    >
        decreases k,
    {
        if k == 0 {
            Seq::empty()
        } else {
            self.lookups_terms(p, graphs, (k - 1) as nat, i) + self.lookup_terms(
                p,
                graphs[k - 1],
                k - 1,
                i,
            )
        }
    }

    /// The value of row `i`: that of the gates, into which the constraints of
    /// the permutation argument and of the lookups are folded.
    pub open spec fn row_value<F: Field>(
        self,
        gates: GraphModel,
        graphs: Seq<GraphModel>,
        i: usize,
        previous: int,
        start: int,
    ) -> int {
        let p = F::modulus();
        horner(
            p,
            horner(
                p,
                gates.value(p, self.cells(i), self.scalars(previous)),
                self.permutation_terms::<F>(i, start),
                self.y,
            ),
            self.lookups_terms(p, graphs, self.lookups.len(), i),
            self.y,
        )
    }
}

/// The models of graphs.
pub open spec fn graphs_of<F: Field>(s: Seq<GraphEvaluator<F>>) -> Seq<GraphModel> {
    Seq::new(s.len(), |i: int| s[i]@)
}

/// The values of the columns of lookups.
pub open spec fn lookup_columns_of<F: Field>(s: Seq<LookupParts<F>>) -> Seq<
    (Seq<int>, Seq<int>, Seq<int>),
> {
    Seq::new(
        s.len(),
        |i: int| (vals(s[i].product@), vals(s[i].permuted_input@), vals(s[i].permuted_table@)),
    )
}

/// The columns of a circuit on a part of the coset.
#[derive(Debug)]
pub struct CircuitPart<F: Field> {
    pub advice: Vec<Polynomial<F, LagrangeCoeff>>,
    pub instance: Vec<Polynomial<F, LagrangeCoeff>>,
    /// The running products of the permutation argument.
    pub products: Vec<Polynomial<F, LagrangeCoeff>>,
    /// Where the permutation leads.
    pub sigmas: Vec<Polynomial<F, LagrangeCoeff>>,
    pub lookups: Vec<LookupParts<F>>,
}

/// What all circuits of a batch share.
#[derive(Debug)]
pub struct SharedParts<F: Field> {
    pub fixed: Vec<Polynomial<F, LagrangeCoeff>>,
    pub selectors: RowSelectors<F>,
}

impl<F: Field> CircuitPart<F> {
    /// The columns as the constraints speak of them.
    pub open spec fn columns(
        self,
        shared: SharedParts<F>,
        columns: Seq<GpuColumn<GpuAny>>,
        challenges: Seq<F>,
        folding: FoldingChallenges<F>,
        chunk_len: usize,
        n: usize,
        last: i32,
    ) -> CircuitColumns {
        CircuitColumns {
            fixed: columns_of(shared.fixed@),
            advice: columns_of(self.advice@),
            instance: columns_of(self.instance@),
            challenges: vals(challenges),
            l0: vals(shared.selectors.l0@),
            l_last: vals(shared.selectors.l_last@),
            l_active: vals(shared.selectors.l_active@),
            products: columns_of(self.products@),
            sigmas: columns_of(self.sigmas@),
            lookups: lookup_columns_of(self.lookups@),
            columns,
            chunk_len: chunk_len as nat,
            size: n as i32,
            last,
            y: folding.y.val(),
            beta: folding.beta.val(),
            gamma: folding.gamma.val(),
            theta: folding.theta.val(),
        }
    }

    /// Whether all columns that the constraints speak of are there, with `n` rows.
    pub open spec fn complete(
        self,
        shared: SharedParts<F>,
        evaluator: Evaluator<F>,
        columns: Seq<GpuColumn<GpuAny>>,
        challenges: Seq<F>,
        chunk_len: usize,
        n: usize,
    ) -> bool {
        &&& 0 < n <= i32::MAX
        &&& chunk_len > 0
        &&& have_rows(shared.fixed@, n as nat)
        &&& have_rows(self.advice@, n as nat)
        &&& have_rows(self.instance@, n as nat)
        &&& have_rows(self.products@, n as nat)
        &&& have_rows(self.sigmas@, n as nat)
        &&& shared.selectors.have_rows(n as nat)
        &&& self.sigmas@.len() == columns.len()
        &&& self.products@.len() == chunk_count(columns.len(), chunk_len as nat)
        &&& forall|j: int|
            0 <= j < columns.len() ==> #[trigger] column_present(
                columns[j],
                self.advice@,
                shared.fixed@,
                self.instance@,
                n as nat,
            )
        &&& self.lookups@.len() == evaluator.lookups@.len()
        &&& forall|k: int|
            0 <= k < self.lookups@.len() ==> (#[trigger] self.lookups@[k]).have_rows(n as nat)
        &&& evaluator.custom_gates.wf()
        &&& graph_present(
            evaluator.custom_gates@,
            shared.fixed@.len(),
            self.advice@.len(),
            self.instance@.len(),
            challenges.len(),
            n as int,
        )
        &&& forall|k: int|
            0 <= k < evaluator.lookups@.len() ==> {
                &&& (#[trigger] evaluator.lookups@[k]).wf()
                &&& graph_present(
                    evaluator.lookups@[k]@,
                    shared.fixed@.len(),
                    self.advice@.len(),
                    self.instance@.len(),
                    challenges.len(),
                    n as int,
                )
            }
    }
}

/// The value of a graph at a row.
fn graph_row<F: Field>(
    graph: &GraphEvaluator<F>,
    part: &CircuitPart<F>,
    shared: &SharedParts<F>,
    challenges: &Vec<F>,
    folding: FoldingChallenges<F>,
    previous: F,
    n: usize,
    row: usize,
) -> (r: F)
    requires
        row < n <= i32::MAX,
        graph.wf(),
        have_rows(shared.fixed@, n as nat),
        have_rows(part.advice@, n as nat),
        have_rows(part.instance@, n as nat),
        graph_present(
            graph@,
            shared.fixed@.len(),
            part.advice@.len(),
            part.instance@.len(),
            challenges@.len(),
            n as int,
        ),
    ensures
        r.val() == graph@.value(
            F::modulus(),
            cells_of(
                columns_of(shared.fixed@),
                columns_of(part.advice@),
                columns_of(part.instance@),
                vals(challenges@),
                row,
                1,
                n as i32,
            ),
            (RuntimeScalars {
                beta: folding.beta.val(),
                gamma: folding.gamma.val(),
                theta: folding.theta.val(),
                y: folding.y.val(),
                previous: previous.val(),
            }),
        ),
{
    let mut data = graph.instance();
    let size: i32 = n as i32;
    proof {
        let g = graph@;
        assert forall|i: int, j: int|
            0 <= i < g.calculations.len() && 0 <= j < sources_of(
                g.calculations[i],
            ).len() implies present(
            g,
            #[trigger] sources_of(g.calculations[i])[j],
            i as nat,
            shared.fixed@,
            part.advice@,
            part.instance@,
            challenges@,
            row,
            1,
            size,
        ) by {
            let s = sources_of(g.calculations[i])[j];
            assert(g.valid(s, i as nat));
            match s {
                ValueSource::Fixed(c, at) => {
                    assert(shared.fixed@[c as int]@.len() == n);
                },
                ValueSource::Advice(c, at) => {
                    assert(part.advice@[c as int]@.len() == n);
                },
                ValueSource::Instance(c, at) => {
                    assert(part.instance@[c as int]@.len() == n);
                },
                _ => {},
            }
        }
        assert forall|i: int| 0 <= i < graph.rotations@.len() implies
            crate::plonk::evaluation::rotatable(row, #[trigger] graph.rotations@[i], 1, size) by {
            assert(n + g.rotations[i] <= i32::MAX);
        }
    }
    graph.evaluate(
        &mut data,
        shared.fixed.as_slice(),
        part.advice.as_slice(),
        part.instance.as_slice(),
        challenges.as_slice(),
        &folding.beta,
        &folding.gamma,
        &folding.theta,
        &folding.y,
        &previous,
        row,
        1,
        size,
    )
}

/// The label of the first column's cell in row `i`, times `beta`.
pub open spec fn first_label<F: Field>(beta: int, shift: int, omega: int, i: nat) -> int {
    let p = F::modulus();
    fmul(p, fmul(p, beta, F::zeta_val()), fmul(p, shift, fpow(p, omega, i)))
}

/// Folds the constraints of a circuit on a part of the coset into the values of
/// the circuits before it.
pub fn circuit_part_values<F: Field>(
    evaluator: &Evaluator<F>,
    columns: &Vec<GpuColumn<GpuAny>>,
    part: &CircuitPart<F>,
    shared: &SharedParts<F>,
    challenges: &Vec<F>,
    folding: FoldingChallenges<F>,
    chunk_len: usize,
    n: usize,
    last: i32,
    shift: F,
    omega: F,
    previous: &Vec<F>,
) -> (r: Vec<F>)
    requires
        part.complete(*shared, *evaluator, columns@, challenges@, chunk_len, n),
        -i32::MAX <= last <= 0,
        previous@.len() == n,
    ensures
        r@.len() == n,
        forall|i: usize|
            i < n ==> (#[trigger] r@[i as int]).val() == part.columns(
                *shared,
                columns@,
                challenges@,
                folding,
                chunk_len,
                n,
                last,
            ).row_value::<F>(
                evaluator.custom_gates@,
                graphs_of(evaluator.lookups@),
                i,
                previous@[i as int].val(),
                first_label::<F>(folding.beta.val(), shift.val(), omega.val(), i as nat),
            ),
{
    let ghost p = F::modulus();
    let ghost model = part.columns(
        *shared,
        columns@,
        challenges@,
        folding,
        chunk_len,
        n,
        last,
    );
    let ghost graphs = graphs_of(evaluator.lookups@);
    let delta_start = folding.beta.mul(&F::zeta());
    let mut beta_term = shift;
    proof {
        F::lemma_modulus();
        shift.lemma_val_range();
        lemma_small_mod(1, p as nat);
        lemma_units(p, shift.val());
        assert(fpow(p, omega.val(), 0) == 1);
    }
    let mut out: Vec<F> = Vec::new();
    let mut i: usize = 0;
    while i < n
        invariant
            p == F::modulus(),
            i <= n,
            part.complete(*shared, *evaluator, columns@, challenges@, chunk_len, n),
            -i32::MAX <= last <= 0,
            previous@.len() == n,
            model == part.columns(*shared, columns@, challenges@, folding, chunk_len, n, last),
            graphs == graphs_of(evaluator.lookups@),
            delta_start.val() == fmul(p, folding.beta.val(), F::zeta_val()),
            beta_term.val() == fmul(p, shift.val(), fpow(p, omega.val(), i as nat)),
            out@.len() == i,
            forall|j: usize|
                j < i ==> (#[trigger] out@[j as int]).val() == model.row_value::<F>(
                    evaluator.custom_gates@,
                    graphs,
                    j,
                    previous@[j as int].val(),
                    first_label::<F>(folding.beta.val(), shift.val(), omega.val(), j as nat),
                ),
        decreases n - i,
    {
        let start = delta_start.mul(&beta_term);
        // Custom gates
        let gates = graph_row(
            &evaluator.custom_gates,
            part,
            shared,
            challenges,
            folding,
            previous[i],
            n,
            i,
        );
        // Permutations
        let terms = permutation_terms(
            columns,
            &part.advice,
            &shared.fixed,
            &part.instance,
            &part.products,
            &part.sigmas,
            &shared.selectors,
            chunk_len,
            n,
            last,
            folding.beta,
            folding.gamma,
            start,
            i,
        );
        let permuted = fold_terms(gates, &terms, folding.y);
        // Lookups
        let mut value = permuted;
        let mut k: usize = 0;
        while k < part.lookups.len()
            invariant
                p == F::modulus(),
                i < n,
                k <= part.lookups@.len(),
                part.complete(*shared, *evaluator, columns@, challenges@, chunk_len, n),
                model == part.columns(*shared, columns@, challenges@, folding, chunk_len, n, last),
                graphs == graphs_of(evaluator.lookups@),
                value.val() == horner(
                    p,
                    permuted.val(),
                    model.lookups_terms(p, graphs, k as nat, i),
                    folding.y.val(),
                ),
            decreases part.lookups@.len() - k,
        {
            assert(part.lookups@[k as int].have_rows(n as nat));
            assert(evaluator.lookups@[k as int].wf());
            let table_value = graph_row(
                &evaluator.lookups[k],
                part,
                shared,
                challenges,
                folding,
                F::zero(),
                n,
                i,
            );
            let more = lookup_terms(
                &part.lookups[k],
                &shared.selectors,
                n,
                folding.beta,
                folding.gamma,
                table_value,
                i,
            );
            value = fold_terms(value, &more, folding.y);
            proof {
                assert(graphs[k as int] == evaluator.lookups@[k as int]@);
                assert(vals(more@) == model.lookup_terms(p, graphs[k as int], k as int, i));
                lemma_horner_append(
                    p,
                    permuted.val(),
                    model.lookups_terms(p, graphs, k as nat, i),
                    vals(more@),
                    folding.y.val(),
                );
            }
            k += 1;
        }
        out.push(value);
        beta_term = beta_term.mul(&omega);
        proof {
            F::lemma_modulus();
            lemma_fmul_assoc(p, shift.val(), fpow(p, omega.val(), i as nat), omega.val());
        }
        i += 1;
    }
    out
}

/// Folding two lists one after the other is folding both together.
pub proof fn lemma_horner_append(p: int, start: int, a: Seq<int>, b: Seq<int>, factor: int)
    ensures
        horner(p, start, a + b, factor) == horner(p, horner(p, start, a, factor), b, factor),
    decreases b.len(),
{
    if b.len() == 0 {
        assert(a + b =~= a);
    } else {
        lemma_horner_append(p, start, a, b.drop_last(), factor);
        assert((a + b).drop_last() =~= a + b.drop_last());
        assert((a + b).last() == b.last());
    }
}

/// The polynomials of a proving key that constraints speak of.
#[derive(Debug)]
pub struct KeyPolys<F: Field> {
    pub fixed: Vec<Polynomial<F, Coeff>>,
    pub l0: Polynomial<F, Coeff>,
    pub l_last: Polynomial<F, Coeff>,
    pub l_active: Polynomial<F, Coeff>,
    pub sigmas: Vec<Polynomial<F, Coeff>>,
}

/// The polynomials of a lookup.
#[derive(Debug)]
pub struct LookupPolys<F: Field> {
    pub product: Polynomial<F, Coeff>,
    pub permuted_input: Polynomial<F, LagrangeCoeff>,
    pub permuted_table: Polynomial<F, LagrangeCoeff>,
}

/// The polynomials of a circuit.
#[derive(Debug)]
pub struct CircuitPolys<F: Field> {
    pub advice: Vec<Polynomial<F, Coeff>>,
    pub instance: Vec<Polynomial<F, Coeff>>,
    pub products: Vec<Polynomial<F, Coeff>>,
    pub lookups: Vec<LookupPolys<F>>,
}

/// The values of polynomials on a part of the coset.
pub open spec fn part_columns<F: Field>(
    domain: EvaluationDomain<F>,
    polys: Seq<Polynomial<F, Coeff>>,
    factor: int,
) -> Seq<Seq<int>> {
    Seq::new(polys.len(), |c: int| domain.part_values(vals(polys[c]@), factor))
}

/// The values of the columns of lookups on a part of the coset.
pub open spec fn lookup_part_columns<F: Field>(
    domain: EvaluationDomain<F>,
    lookups: Seq<LookupPolys<F>>,
    factor: int,
) -> Seq<(Seq<int>, Seq<int>, Seq<int>)> {
    Seq::new(
        lookups.len(),
        |k: int|
            (
                domain.part_values(vals(lookups[k].product@), factor),
                domain.part_values(
                    domain.coefficients(vals(lookups[k].permuted_input@)),
                    factor,
                ),
                domain.part_values(
                    domain.coefficients(vals(lookups[k].permuted_table@)),
                    factor,
                ),
            ),
    )
}

/// Whether all polynomials have `n` coefficients.
pub open spec fn have_coefficients<F: Field>(s: Seq<Polynomial<F, Coeff>>, n: nat) -> bool {
    forall|c: int| 0 <= c < s.len() ==> (#[trigger] s[c])@.len() == n
}

/// What the constraints of a batch of circuits depend on, besides the circuits.
pub struct QuotientModel<F: Field> {
    pub domain: EvaluationDomain<F>,
    pub key: KeyPolys<F>,
    pub gates: GraphModel,
    pub graphs: Seq<GraphModel>,
    pub columns: Seq<GpuColumn<GpuAny>>,
    pub challenges: Seq<F>,
    pub folding: FoldingChallenges<F>,
    pub chunk_len: nat,
    pub last: i32,
}

impl<F: Field> QuotientModel<F> {
    /// The `k`th shift of the domain.
    pub open spec fn shift(self, k: nat) -> int {
        fpow(F::modulus(), self.domain.extended_omega.val(), k)
    }

    /// The columns of a circuit on the part with the shift `at`.
    pub open spec fn columns(self, circuit: CircuitPolys<F>, at: int) -> CircuitColumns {
        CircuitColumns {
            fixed: part_columns(self.domain, self.key.fixed@, at),
            advice: part_columns(self.domain, circuit.advice@, at),
            instance: part_columns(self.domain, circuit.instance@, at),
            challenges: vals(self.challenges),
            l0: self.domain.part_values(vals(self.key.l0@), at),
            l_last: self.domain.part_values(vals(self.key.l_last@), at),
            l_active: self.domain.part_values(vals(self.key.l_active@), at),
            products: part_columns(self.domain, circuit.products@, at),
            sigmas: part_columns(self.domain, self.key.sigmas@, at),
            lookups: lookup_part_columns(self.domain, circuit.lookups@, at),
            columns: self.columns,
            chunk_len: self.chunk_len,
            size: self.domain.size() as i32,
            last: self.last,
            y: self.folding.y.val(),
            beta: self.folding.beta.val(),
            gamma: self.folding.gamma.val(),
            theta: self.folding.theta.val(),
        }
    }

    /// The value of row `i` of the part with the shift `at`, after the first `c`
    /// circuits.
    pub open spec fn value(
        self,
        circuits: Seq<CircuitPolys<F>>,
        at: int,
        c: nat,
        i: usize,
    ) -> int
        decreases c,
    {
        if c == 0 {
            0
        } else {
            self.columns(circuits[c - 1], at).row_value::<F>(
                self.gates,
                self.graphs,
                i,
                self.value(circuits, at, (c - 1) as nat, i),
                first_label::<F>(
                    self.folding.beta.val(),
                    at,
                    self.domain.omega.val(),
                    i as nat,
                ),
            )
        }
    }
}

impl<F: Field> CircuitPolys<F> {
    /// Whether all that the constraints speak of is there.
    pub open spec fn complete(
        self,
        key: KeyPolys<F>,
        evaluator: Evaluator<F>,
        columns: Seq<GpuColumn<GpuAny>>,
        num_challenges: nat,
        chunk_len: usize,
        n: nat,
    ) -> bool {
        &&& have_coefficients(self.advice@, n)
        &&& have_coefficients(self.instance@, n)
        &&& have_coefficients(self.products@, n)
        &&& self.products@.len() == chunk_count(columns.len(), chunk_len as nat)
        &&& forall|j: int|
            0 <= j < columns.len() ==> match (#[trigger] columns[j]).column_type {
                GpuAny::Advice(_) => columns[j].index < self.advice@.len(),
                GpuAny::Fixed => columns[j].index < key.fixed@.len(),
                GpuAny::Instance => columns[j].index < self.instance@.len(),
            }
        &&& self.lookups@.len() == evaluator.lookups@.len()
        &&& forall|k: int|
            0 <= k < self.lookups@.len() ==> {
                &&& (#[trigger] self.lookups@[k]).product@.len() == n
                &&& self.lookups@[k].permuted_input@.len() == n
                &&& self.lookups@[k].permuted_table@.len() == n
            }
        &&& graph_present(
            evaluator.custom_gates@,
            key.fixed@.len(),
            self.advice@.len(),
            self.instance@.len(),
            num_challenges,
            n as int,
        )
        &&& forall|k: int|
            0 <= k < evaluator.lookups@.len() ==> graph_present(
                (#[trigger] evaluator.lookups@[k])@,
                key.fixed@.len(),
                self.advice@.len(),
                self.instance@.len(),
                num_challenges,
                n as int,
            )
    }
}

impl<F: Field> KeyPolys<F> {
    /// Whether all polynomials have `n` coefficients.
    pub open spec fn wf(self, n: nat) -> bool {
        &&& have_coefficients(self.fixed@, n)
        &&& have_coefficients(self.sigmas@, n)
        &&& self.l0@.len() == n
        &&& self.l_last@.len() == n
        &&& self.l_active@.len() == n
    }
}

/// The values of the columns of lookups on a part of the coset.
fn lookup_parts<F: Field>(
    domain: &EvaluationDomain<F>,
    lookups: &Vec<LookupPolys<F>>,
    factor: F,
) -> (r: Vec<LookupParts<F>>)
    requires
        domain.wf(),
        forall|k: int|
            0 <= k < lookups@.len() ==> {
                &&& (#[trigger] lookups@[k]).product@.len() == domain.size()
                &&& lookups@[k].permuted_input@.len() == domain.size()
                &&& lookups@[k].permuted_table@.len() == domain.size()
            },
    ensures
        r@.len() == lookups@.len(),
        lookup_columns_of(r@) == lookup_part_columns(*domain, lookups@, factor.val()),
        forall|k: int| 0 <= k < r@.len() ==> (#[trigger] r@[k]).have_rows(domain.size()),
{
    let ghost expected = lookup_part_columns(*domain, lookups@, factor.val());
    let mut out: Vec<LookupParts<F>> = Vec::new();
    let mut k: usize = 0;
    while k < lookups.len()
        invariant
            domain.wf(),
            k <= lookups@.len(),
            forall|k: int|
                0 <= k < lookups@.len() ==> {
                    &&& (#[trigger] lookups@[k]).product@.len() == domain.size()
                    &&& lookups@[k].permuted_input@.len() == domain.size()
                    &&& lookups@[k].permuted_table@.len() == domain.size()
                },
            expected == lookup_part_columns(*domain, lookups@, factor.val()),
            out@.len() == k,
            forall|j: int| 0 <= j < k ==> (#[trigger] out@[j]).have_rows(domain.size()),
            forall|j: int|
                0 <= j < k ==> (
                    vals((#[trigger] out@[j]).product@),
                    vals(out@[j].permuted_input@),
                    vals(out@[j].permuted_table@),
                ) == expected[j],
        decreases lookups@.len() - k,
    {
        assert(lookups@[k as int].product@.len() == domain.size());
        let product = domain.coeff_to_extended_part(&lookups[k].product, factor);
        let permuted_input = domain.lagrange_to_extend_part(
            Polynomial::new(copied(lookups[k].permuted_input.values())),
            factor,
        );
        let permuted_table = domain.lagrange_to_extend_part(
            Polynomial::new(copied(lookups[k].permuted_table.values())),
            factor,
        );
        assert(vals(permuted_input@).len() == domain.size());
        assert(vals(permuted_table@).len() == domain.size());
        out.push(
            LookupParts {
                product,
                permuted_input: Polynomial::new(permuted_input.into_values()),
                permuted_table: Polynomial::new(permuted_table.into_values()),
            },
        );
        k += 1;
    }
    assert(lookup_columns_of(out@) =~= expected);
    out
}

/// The values of polynomials on a part of the coset.
fn parts_of<F: Field>(
    domain: &EvaluationDomain<F>,
    polys: &Vec<Polynomial<F, Coeff>>,
    factor: F,
) -> (r: Vec<Polynomial<F, LagrangeCoeff>>)
    requires
        domain.wf(),
        have_coefficients(polys@, domain.size()),
    ensures
        r@.len() == polys@.len(),
        columns_of(r@) == part_columns(*domain, polys@, factor.val()),
        have_rows(r@, domain.size()),
{
    let out = domain.coeff_to_extended_part_many(polys, factor);
    assert(columns_of(out@) =~= part_columns(*domain, polys@, factor.val()));
    out
}

/// The value of the folded constraints at all points of the extended domain, for
/// a batch of circuits.
///
/// The constraints are evaluated part by part. Within a part each circuit goes on
/// from the value of the one before it, as in `value * y + contribution`.
pub fn evaluate_h<F: Field>(
    evaluator: &Evaluator<F>,
    domain: &EvaluationDomain<F>,
    key: &KeyPolys<F>,
    columns: &Vec<GpuColumn<GpuAny>>,
    circuits: &Vec<CircuitPolys<F>>,
    challenges: &Vec<F>,
    folding: FoldingChallenges<F>,
    chunk_len: usize,
    last: i32,
) -> (r: Polynomial<F, ExtendedLagrangeCoeff>)
    requires
        domain.wf(),
        domain.size() <= i32::MAX,
        key.wf(domain.size()),
        key.sigmas@.len() == columns@.len(),
        chunk_len > 0,
        -i32::MAX <= last <= 0,
        evaluator.custom_gates.wf(),
        forall|k: int|
            0 <= k < evaluator.lookups@.len() ==> (#[trigger] evaluator.lookups@[k]).wf(),
        forall|c: int|
            0 <= c < circuits@.len() ==> (#[trigger] circuits@[c]).complete(
                *key,
                *evaluator,
                columns@,
                challenges@.len(),
                chunk_len,
                domain.size(),
            ),
    ensures
        r@.len() == domain.size() * domain.parts(),
        forall|row: int, part: int|
            0 <= row < domain.size() && 0 <= part < domain.parts() ==> (
            #[trigger] r@[row * domain.parts() + part]).val() == (QuotientModel {
                domain: *domain,
                key: *key,
                gates: evaluator.custom_gates@,
                graphs: graphs_of(evaluator.lookups@),
                columns: columns@,
                challenges: challenges@,
                folding,
                chunk_len: chunk_len as nat,
                last,
            }).value(
                circuits@,
                fpow(F::modulus(), domain.extended_omega.val(), part as nat),
                circuits@.len(),
                row as usize,
            ),
{
    let ghost p = F::modulus();
    let ghost model = QuotientModel {
        domain: *domain,
        key: *key,
        gates: evaluator.custom_gates@,
        graphs: graphs_of(evaluator.lookups@),
        columns: columns@,
        challenges: challenges@,
        folding,
        chunk_len: chunk_len as nat,
        last,
    };
    let n = domain.rows();
    let num_parts = domain.t_evaluations.len();
    let ghost batch = circuits@.len();
    // Calculate the quotient polynomial for each part
    let mut current = F::one();
    let mut value_parts: Vec<Polynomial<F, LagrangeCoeff>> = Vec::new();
    let mut part: usize = 0;
    proof {
        domain.lemma_domain();
        vstd::arithmetic::power2::lemma_pow2_pos(domain.k as nat);
        F::lemma_modulus();
        lemma_small_mod(1, p as nat);
        assert(fpow(p, domain.extended_omega.val(), 0) == 1);
    }
    while part < num_parts
        invariant
            p == F::modulus(),
            domain.wf(),
            n == domain.size(),
            0 < n <= i32::MAX,
            num_parts == domain.parts(),
            batch == circuits@.len(),
            key.wf(domain.size()),
            key.sigmas@.len() == columns@.len(),
            chunk_len > 0,
            -i32::MAX <= last <= 0,
            evaluator.custom_gates.wf(),
            forall|k: int|
                0 <= k < evaluator.lookups@.len() ==> (#[trigger] evaluator.lookups@[k]).wf(),
            forall|c: int|
                0 <= c < circuits@.len() ==> (#[trigger] circuits@[c]).complete(
                    *key,
                    *evaluator,
                    columns@,
                    challenges@.len(),
                    chunk_len,
                    domain.size(),
                ),
            model == (QuotientModel {
                domain: *domain,
                key: *key,
                gates: evaluator.custom_gates@,
                graphs: graphs_of(evaluator.lookups@),
                columns: columns@,
                challenges: challenges@,
                folding,
                chunk_len: chunk_len as nat,
                last,
            }),
            part <= num_parts,
            current.val() == model.shift(part as nat),
            value_parts@.len() == part,
            forall|j: int| 0 <= j < part ==> (#[trigger] value_parts@[j])@.len() == n,
            forall|j: int, i: int|
                0 <= j < part && 0 <= i < n ==> (#[trigger] value_parts@[j]@[i]).val()
                    == model.value(circuits@, model.shift(j as nat), batch, i as usize),
        decreases num_parts - part,
    {
        let ghost at = current.val();
        let shared = SharedParts {
            fixed: parts_of(domain, &key.fixed, current),
            selectors: RowSelectors {
                l0: domain.coeff_to_extended_part(&key.l0, current),
                l_last: domain.coeff_to_extended_part(&key.l_last, current),
                l_active: domain.coeff_to_extended_part(&key.l_active, current),
            },
        };
        let mut values: Vec<F> = zeros(n);
        assert(vals(values@).len() == n);
        let mut c: usize = 0;
        assert forall|i: int| 0 <= i < n implies (#[trigger] values@[i]).val() == model.value(
            circuits@,
            at,
            0,
            i as usize,
        ) by {
            assert(vals(values@)[i] == 0);
        }
        while c < circuits.len()
            invariant
                p == F::modulus(),
                domain.wf(),
                n == domain.size(),
                0 < n <= i32::MAX,
                batch == circuits@.len(),
                key.wf(domain.size()),
                key.sigmas@.len() == columns@.len(),
                chunk_len > 0,
                -i32::MAX <= last <= 0,
                evaluator.custom_gates.wf(),
                forall|k: int|
                    0 <= k < evaluator.lookups@.len() ==> (#[trigger] evaluator.lookups@[k]).wf(),
                forall|c: int|
                    0 <= c < circuits@.len() ==> (#[trigger] circuits@[c]).complete(
                        *key,
                        *evaluator,
                        columns@,
                        challenges@.len(),
                        chunk_len,
                        domain.size(),
                    ),
                model == (QuotientModel {
                    domain: *domain,
                    key: *key,
                    gates: evaluator.custom_gates@,
                    graphs: graphs_of(evaluator.lookups@),
                    columns: columns@,
                    challenges: challenges@,
                    folding,
                    chunk_len: chunk_len as nat,
                    last,
                }),
                c <= batch,
                current.val() == at,
                shared.fixed@.len() == key.fixed@.len(),
                columns_of(shared.fixed@) == part_columns(*domain, key.fixed@, at),
                have_rows(shared.fixed@, n as nat),
                shared.selectors.have_rows(n as nat),
                vals(shared.selectors.l0@) == domain.part_values(vals(key.l0@), at),
                vals(shared.selectors.l_last@) == domain.part_values(vals(key.l_last@), at),
                vals(shared.selectors.l_active@) == domain.part_values(vals(key.l_active@), at),
                values@.len() == n,
                forall|i: int|
                    0 <= i < n ==> (#[trigger] values@[i]).val() == model.value(
                        circuits@,
                        at,
                        c as nat,
                        i as usize,
                    ),
            decreases batch - c,
        {
            let circuit = &circuits[c];
            assert(circuits@[c as int].complete(
                *key,
                *evaluator,
                columns@,
                challenges@.len(),
                chunk_len,
                domain.size(),
            ));
            let here = CircuitPart {
                advice: parts_of(domain, &circuit.advice, current),
                instance: parts_of(domain, &circuit.instance, current),
                products: parts_of(domain, &circuit.products, current),
                sigmas: parts_of(domain, &key.sigmas, current),
                lookups: lookup_parts(domain, &circuit.lookups, current),
            };
            proof {
                assert forall|j: int| 0 <= j < columns@.len() implies #[trigger] column_present(
                    columns@[j],
                    here.advice@,
                    shared.fixed@,
                    here.instance@,
                    n as nat,
                ) by {
                    let column = columns@[j];
                    match column.column_type {
                        GpuAny::Advice(_) => {
                            assert(here.advice@[column.index as int]@.len() == n);
                        },
                        GpuAny::Fixed => {
                            assert(shared.fixed@[column.index as int]@.len() == n);
                        },
                        GpuAny::Instance => {
                            assert(here.instance@[column.index as int]@.len() == n);
                        },
                    }
                }
            }
            let ghost before = values@;
            values = circuit_part_values(
                evaluator,
                columns,
                &here,
                &shared,
                challenges,
                folding,
                chunk_len,
                n,
                last,
                current,
                domain.omega,
                &values,
            );
            proof {
                let model_here = here.columns(
                    shared,
                    columns@,
                    challenges@,
                    folding,
                    chunk_len,
                    n,
                    last,
                );
                assert(model_here == model.columns(circuits@[c as int], at));
                assert forall|i: int| 0 <= i < n implies (#[trigger] values@[i]).val()
                    == model.value(circuits@, at, (c + 1) as nat, i as usize) by {
                    let row = i as usize;
                    assert(values@[row as int].val() == model_here.row_value::<F>(
                        model.gates,
                        model.graphs,
                        row,
                        before[row as int].val(),
                        first_label::<F>(
                            folding.beta.val(),
                            at,
                            domain.omega.val(),
                            row as nat,
                        ),
                    ));
                    assert(before[i].val() == model.value(circuits@, at, c as nat, row));
                }
            }
            c += 1;
        }
        current = current.mul(&domain.extended_omega);
        let ghost before = value_parts@;
        value_parts.push(Polynomial::new(values));
        proof {
            assert forall|j: int, i: int| 0 <= j < part + 1 && 0 <= i < n implies (
            #[trigger] value_parts@[j]@[i]).val() == model.value(
                circuits@,
                model.shift(j as nat),
                batch,
                i as usize,
            ) by {
                if j < part {
                    assert(value_parts@[j] == before[j]);
                    let _ = before[j]@[i];
                } else {
                    let _ = values@[i];
                }
            }
        }
        part += 1;
    }
    let ghost all = value_parts@;
    let out = domain.extended_from_lagrange_vec(value_parts);
    proof {
        assert forall|row: int, part: int|
            0 <= row < domain.size() && 0 <= part < domain.parts() implies (
        #[trigger] out@[row * domain.parts() + part]).val() == model.value(
            circuits@,
            model.shift(part as nat),
            circuits@.len(),
            row as usize,
        ) by {
            assert(out@[row * all.len() + part] == all[part]@[row]);
        }
    }
    out
}

/// What a gate sees at row `i` of a part are the values of the columns'
/// polynomials at the rotations of the point that the row stands for.
pub proof fn law_part_cells<F: Field>(
    model: QuotientModel<F>,
    circuit: CircuitPolys<F>,
    at: int,
    i: usize,
    column: usize,
    rotation: Rotation,
)
    requires
        model.domain.wf(),
        model.domain.size() <= i32::MAX,
        i < model.domain.size(),
    ensures
        ({
            let cells = model.columns(circuit, at).cells(i);
            let point = fmul(
                F::modulus(),
                model.domain.part_point(at, i as int),
                model.domain.omega_power(rotation.0 as int),
            );
            &&& column < model.key.fixed@.len() ==> (cells.fixed)(column, rotation) == poly_eval(
                F::modulus(),
                vals(model.key.fixed@[column as int]@),
                point,
            )
            &&& column < circuit.advice@.len() ==> (cells.advice)(column, rotation) == poly_eval(
                F::modulus(),
                vals(circuit.advice@[column as int]@),
                point,
            )
            &&& column < circuit.instance@.len() ==> (cells.instance)(column, rotation)
                == poly_eval(F::modulus(), vals(circuit.instance@[column as int]@), point)
        }),
{
    let d = model.domain;
    let r = rotation.0 as int;
    assert(rotation.0 * 1 == r);
    if column < model.key.fixed@.len() {
        law_part_rotation(d, vals(model.key.fixed@[column as int]@), at, i as nat, r);
    }
    if column < circuit.advice@.len() {
        law_part_rotation(d, vals(circuit.advice@[column as int]@), at, i as nat, r);
    }
    if column < circuit.instance@.len() {
        law_part_rotation(d, vals(circuit.instance@[column as int]@), at, i as nat, r);
    }
}

} // verus!
