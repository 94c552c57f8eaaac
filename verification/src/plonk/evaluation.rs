//! Evaluating expressions and calculation graphs over the rows of columns.

use crate::field::{fadd, fmul, fneg, vals, Field};
use crate::plonk::expression::{evaluable, evaluates, CellValues, GpuExpression};
use crate::plonk::circuit::{GpuAdviceQuery, GpuChallenge, GpuFixedQuery, GpuInstanceQuery,
    GpuSelector};
use crate::plonk::graph::{Calculation, CalculationModel, GraphEvaluator, GraphModel, ValueSource};
use crate::plonk::graph_values::{
    calculation_value, horner, lemma_intermediates_prefix, RuntimeScalars,
};
use crate::poly::{columns_of, Basis, Polynomial, Rotation};
use vstd::prelude::*;

verus! {

/// The row that a rotation leads to from row `idx` of a column of `size` rows.
pub open spec fn rotated(idx: usize, rot: i32, rot_scale: i32, size: i32) -> int {
    (idx as int + rot * rot_scale) % (size as int)
}

/// Whether the row that a rotation leads to can be computed in 32 bits.
pub open spec fn rotatable(idx: usize, rot: i32, rot_scale: i32, size: i32) -> bool {
    &&& size > 0
    &&& idx <= i32::MAX
    &&& i32::MIN <= rot * rot_scale <= i32::MAX
    &&& i32::MIN <= idx as int + rot * rot_scale <= i32::MAX
}

/// Return the index in the polynomial of size `isize` after rotation `rot`.
pub fn get_rotation_idx(idx: usize, rot: i32, rot_scale: i32, isize: i32) -> (r: usize)
    requires
        rotatable(idx, rot, rot_scale, isize),
    ensures
        r == rotated(idx, rot, rot_scale, isize),
        r < isize,
{
    let row: i32 = (idx as i32) + (rot * rot_scale);
    let r: i32 = row.checked_rem_euclid(isize).unwrap();
    r as usize
}

/// The value that a source refers to, where `rows` are the rows that the
/// rotations lead to.
pub open spec fn source_value<F: Field, B>(
    s: ValueSource,
    rows: Seq<usize>,
    constants: Seq<F>,
    intermediates: Seq<F>,
    fixed: Seq<Polynomial<F, B>>,
    advice: Seq<Polynomial<F, B>>,
    instance: Seq<Polynomial<F, B>>,
    challenges: Seq<F>,
    scalars: RuntimeScalars,
) -> int {
    match s {
        ValueSource::Constant(i) => constants[i as int].val(),
        ValueSource::Intermediate(i) => intermediates[i as int].val(),
        ValueSource::Fixed(c, at) => fixed[c as int]@[rows[at as int] as int].val(),
        ValueSource::Advice(c, at) => advice[c as int]@[rows[at as int] as int].val(),
        ValueSource::Instance(c, at) => instance[c as int]@[rows[at as int] as int].val(),
        ValueSource::Challenge(i) => challenges[i as int].val(),
        ValueSource::Beta() => scalars.beta,
        ValueSource::Gamma() => scalars.gamma,
        ValueSource::Theta() => scalars.theta,
        ValueSource::Y() => scalars.y,
        ValueSource::PreviousValue() => scalars.previous,
    }
}

/// Whether what a source refers to is there.
pub open spec fn readable<F: Field, B>(
    s: ValueSource,
    rows: Seq<usize>,
    constants: Seq<F>,
    intermediates: Seq<F>,
    fixed: Seq<Polynomial<F, B>>,
    advice: Seq<Polynomial<F, B>>,
    instance: Seq<Polynomial<F, B>>,
    challenges: Seq<F>,
) -> bool {
    match s {
        ValueSource::Constant(i) => i < constants.len(),
        ValueSource::Intermediate(i) => i < intermediates.len(),
        ValueSource::Fixed(c, at) => c < fixed.len() && at < rows.len() && rows[at as int]
            < fixed[c as int]@.len(),
        ValueSource::Advice(c, at) => c < advice.len() && at < rows.len() && rows[at as int]
            < advice[c as int]@.len(),
        ValueSource::Instance(c, at) => c < instance.len() && at < rows.len() && rows[at as int]
            < instance[c as int]@.len(),
        ValueSource::Challenge(i) => i < challenges.len(),
        _ => true,
    }
}

/// The sources that a calculation reads, in their order.
pub open spec fn sources_of(c: CalculationModel) -> Seq<ValueSource> {
    match c {
        CalculationModel::Add(a, b) => seq![a, b],
        CalculationModel::Sub(a, b) => seq![a, b],
        CalculationModel::Mul(a, b) => seq![a, b],
        CalculationModel::Square(a) => seq![a],
        CalculationModel::Double(a) => seq![a],
        CalculationModel::Negate(a) => seq![a],
        CalculationModel::Horner(start, parts, factor) => seq![start, factor] + parts,
        CalculationModel::Store(a) => seq![a],
    }
}

impl ValueSource {
    /// Get the value for this source
    pub fn get<F: Field, B: Basis>(
        &self,
        rotations: &[usize],
        constants: &[F],
        intermediates: &[F],
        fixed_values: &[Polynomial<F, B>],
        advice_values: &[Polynomial<F, B>],
        instance_values: &[Polynomial<F, B>],
        challenges: &[F],
        beta: &F,
        gamma: &F,
        theta: &F,
        y: &F,
        previous_value: &F,
    ) -> (r: F)
        requires
            readable(
                *self,
                rotations@,
                constants@,
                intermediates@,
                fixed_values@,
                advice_values@,
                instance_values@,
                challenges@,
            ),
        ensures
            r.val() == source_value(
                *self,
                rotations@,
                constants@,
                intermediates@,
                fixed_values@,
                advice_values@,
                instance_values@,
                challenges@,
                (RuntimeScalars {
                    beta: beta.val(),
                    gamma: gamma.val(),
                    theta: theta.val(),
                    y: y.val(),
                    previous: previous_value.val(),
                }),
            ),
    {
        match self {
            ValueSource::Constant(idx) => constants[*idx],
            ValueSource::Intermediate(idx) => intermediates[*idx],
            ValueSource::Fixed(column_index, rotation) => {
                fixed_values[*column_index].at(rotations[*rotation])
            },
            ValueSource::Advice(column_index, rotation) => {
                advice_values[*column_index].at(rotations[*rotation])
            },
            ValueSource::Instance(column_index, rotation) => {
                instance_values[*column_index].at(rotations[*rotation])
            },
            ValueSource::Challenge(index) => challenges[*index],
            ValueSource::Beta() => *beta,
            ValueSource::Gamma() => *gamma,
            ValueSource::Theta() => *theta,
            ValueSource::Y() => *y,
            ValueSource::PreviousValue() => *previous_value,
        }
    }
}

impl Calculation {
    /// Get the resulting value of this calculation
    pub fn evaluate<F: Field, B: Basis>(
        &self,
        rotations: &[usize],
        constants: &[F],
        intermediates: &[F],
        fixed_values: &[Polynomial<F, B>],
        advice_values: &[Polynomial<F, B>],
        instance_values: &[Polynomial<F, B>],
        challenges: &[F],
        beta: &F,
        gamma: &F,
        theta: &F,
        y: &F,
        previous_value: &F,
    ) -> (r: F)
        requires
            forall|i: int|
                0 <= i < sources_of(self@).len() ==> readable(
                    #[trigger] sources_of(self@)[i],
                    rotations@,
                    constants@,
                    intermediates@,
                    fixed_values@,
                    advice_values@,
                    instance_values@,
                    challenges@,
                ),
        ensures
            r.val() == calculation_value(
                F::modulus(),
                self@,
                |s: ValueSource|
                    source_value(
                        s,
                        rotations@,
                        constants@,
                        intermediates@,
                        fixed_values@,
                        advice_values@,
                        instance_values@,
                        challenges@,
                        (RuntimeScalars {
                            beta: beta.val(),
                            gamma: gamma.val(),
                            theta: theta.val(),
                            y: y.val(),
                            previous: previous_value.val(),
                        }),
                    ),
            ),
    {
        let ghost scalars = RuntimeScalars {
            beta: beta.val(),
            gamma: gamma.val(),
            theta: theta.val(),
            y: y.val(),
            previous: previous_value.val(),
        };
        let ghost can_read = |s: ValueSource|
            readable(
                s,
                rotations@,
                constants@,
                intermediates@,
                fixed_values@,
                advice_values@,
                instance_values@,
                challenges@,
            );
        let ghost value = |s: ValueSource|
            source_value(
                s,
                rotations@,
                constants@,
                intermediates@,
                fixed_values@,
                advice_values@,
                instance_values@,
                challenges@,
                scalars,
            );
        let get_value = |v: &ValueSource| -> (x: F)
            requires
                can_read(*v),
            ensures
                x.val() == value(*v),
            {
                v.get(
                    rotations,
                    constants,
                    intermediates,
                    fixed_values,
                    advice_values,
                    instance_values,
                    challenges,
                    beta,
                    gamma,
                    theta,
                    y,
                    previous_value,
                )
            };
        let ghost sources = sources_of(self@);
        match self {
            Calculation::Add(a, b) => {
                assert(sources[0] == *a && sources[1] == *b);
                get_value(a).add(&get_value(b))
            },
            Calculation::Sub(a, b) => {
                assert(sources[0] == *a && sources[1] == *b);
                get_value(a).sub(&get_value(b))
            },
            Calculation::Mul(a, b) => {
                assert(sources[0] == *a && sources[1] == *b);
                get_value(a).mul(&get_value(b))
            },
            Calculation::Square(v) => {
                assert(sources[0] == *v);
                get_value(v).square()
            },
            Calculation::Double(v) => {
                assert(sources[0] == *v);
                get_value(v).double()
            },
            Calculation::Negate(v) => {
                assert(sources[0] == *v);
                get_value(v).neg()
            },
            Calculation::Horner(start_value, parts, factor_source) => {
                assert(sources[0] == *start_value && sources[1] == *factor_source);
                let factor = get_value(factor_source);
                let mut acc = get_value(start_value);
                let ghost values = Seq::new(parts@.len(), |i: int| value(parts@[i]));
                let mut i: usize = 0;
                assert(values.take(0) =~= seq![]);
                assert forall|j: int| 0 <= j < parts@.len() implies can_read(
                    #[trigger] parts@[j],
                ) by {
                    assert(sources[j + 2] == parts@[j]);
                }
                while i < parts.len()
                    invariant
                        i <= parts@.len(),
                        values == Seq::new(parts@.len(), |i: int| value(parts@[i])),
                        forall|v: &ValueSource|
                            can_read(*v) ==> #[trigger] call_requires(get_value, (v,)),
                        forall|v: &ValueSource, x: F|
                            #[trigger] call_ensures(get_value, (v,), x) ==> x.val() == value(*v),
                        forall|j: int| 0 <= j < parts@.len() ==> can_read(#[trigger] parts@[j]),
                        factor.val() == value(*factor_source),
                        acc.val() == horner(
                            F::modulus(),
                            value(*start_value),
                            values.take(i as int),
                            value(*factor_source),
                        ),
                    decreases parts@.len() - i,
                {
                    acc = acc.mul(&factor).add(&get_value(&parts[i]));
                    assert(values.take(i + 1).drop_last() =~= values.take(i as int));
                    i += 1;
                }
                assert(values.take(i as int) =~= values);
                acc
            },
            Calculation::Store(v) => {
                assert(sources[0] == *v);
                get_value(v)
            },
        }
    }
}

/// The value of a cell, or zero where there is none.
pub open spec fn cell_of(columns: Seq<Seq<int>>, column: usize, row: int) -> int {
    if column < columns.len() && 0 <= row < columns[column as int].len() {
        columns[column as int][row]
    } else {
        0
    }
}

/// The rows of columns as the cells that expressions refer to, seen from row `idx`.
pub open spec fn cells_of(
    fixed: Seq<Seq<int>>,
    advice: Seq<Seq<int>>,
    instance: Seq<Seq<int>>,
    challenges: Seq<int>,
    idx: usize,
    rot_scale: i32,
    size: i32,
) -> CellValues {
    CellValues {
        selector: |s: GpuSelector| 0int,
        fixed: |c: usize, r: Rotation| cell_of(fixed, c, rotated(idx, r.0, rot_scale, size)),
        advice: |c: usize, r: Rotation| cell_of(advice, c, rotated(idx, r.0, rot_scale, size)),
        instance: |c: usize, r: Rotation| cell_of(instance, c, rotated(idx, r.0, rot_scale, size)),
        challenge: |i: usize|
            if i < challenges.len() {
                challenges[i as int]
            } else {
                0
            },
    }
}

/// The rows of polynomials as the cells that expressions refer to.
pub open spec fn cells_at<F: Field, B>(
    fixed: Seq<Polynomial<F, B>>,
    advice: Seq<Polynomial<F, B>>,
    instance: Seq<Polynomial<F, B>>,
    challenges: Seq<F>,
    idx: usize,
    rot_scale: i32,
    size: i32,
) -> CellValues {
    cells_of(
        columns_of(fixed),
        columns_of(advice),
        columns_of(instance),
        vals(challenges),
        idx,
        rot_scale,
        size,
    )
}

/// All cells of all rows hold canonical representatives.
pub proof fn law_cells_in_range<F: Field, B>(
    fixed: Seq<Polynomial<F, B>>,
    advice: Seq<Polynomial<F, B>>,
    instance: Seq<Polynomial<F, B>>,
    challenges: Seq<F>,
    idx: usize,
    rot_scale: i32,
    size: i32,
)
    ensures
        cells_at(fixed, advice, instance, challenges, idx, rot_scale, size).in_range(F::modulus()),
{
    F::lemma_modulus();
    let cells = cells_at(fixed, advice, instance, challenges, idx, rot_scale, size);
    let p = F::modulus();
    assert forall|c: usize, r: Rotation| 0 <= #[trigger] (cells.fixed)(c, r) < p by {
        fixed[c as int]@[rotated(idx, r.0, rot_scale, size)].lemma_val_range();
    }
    assert forall|c: usize, r: Rotation| 0 <= #[trigger] (cells.advice)(c, r) < p by {
        advice[c as int]@[rotated(idx, r.0, rot_scale, size)].lemma_val_range();
    }
    assert forall|c: usize, r: Rotation| 0 <= #[trigger] (cells.instance)(c, r) < p by {
        instance[c as int]@[rotated(idx, r.0, rot_scale, size)].lemma_val_range();
    }
    assert forall|c: usize| 0 <= #[trigger] (cells.challenge)(c) < p by {
        challenges[c as int].lemma_val_range();
    }
}

/// EvaluationData
#[derive(Debug)]
pub struct EvaluationData<F: Field> {
    /// Intermediates
    pub intermediates: Vec<F>,
    /// Rotations
    pub rotations: Vec<usize>,
}

/// Whether a source refers to something that is there when row `idx` is
/// evaluated, and to none but the first `n` intermediates.
pub open spec fn present<F: Field, B>(
    g: GraphModel,
    s: ValueSource,
    n: nat,
    fixed: Seq<Polynomial<F, B>>,
    advice: Seq<Polynomial<F, B>>,
    instance: Seq<Polynomial<F, B>>,
    challenges: Seq<F>,
    idx: usize,
    rot_scale: i32,
    size: i32,
) -> bool {
    &&& g.valid(s, n)
    &&& match s {
        ValueSource::Fixed(c, at) => c < fixed.len() && rotated(
            idx,
            g.rotations[at as int],
            rot_scale,
            size,
        ) < fixed[c as int]@.len(),
        ValueSource::Advice(c, at) => c < advice.len() && rotated(
            idx,
            g.rotations[at as int],
            rot_scale,
            size,
        ) < advice[c as int]@.len(),
        ValueSource::Instance(c, at) => c < instance.len() && rotated(
            idx,
            g.rotations[at as int],
            rot_scale,
            size,
        ) < instance[c as int]@.len(),
        ValueSource::Challenge(i) => i < challenges.len(),
        _ => true,
    }
}

impl<F: Field> GraphEvaluator<F> {
    /// Creates a new evaluation structure
    pub fn instance(&self) -> (r: EvaluationData<F>)
        ensures
            r.intermediates@.len() == self.num_intermediates,
            forall|i: int|
                0 <= i < r.intermediates@.len() ==> (#[trigger] r.intermediates@[i]).val() == 0,
            r.rotations@ == Seq::new(self.rotations@.len(), |i: int| 0usize),
    {
        let mut intermediates: Vec<F> = Vec::new();
        let mut i: usize = 0;
        while i < self.num_intermediates
            invariant
                i <= self.num_intermediates,
                intermediates@.len() == i,
                forall|j: int| 0 <= j < i ==> (#[trigger] intermediates@[j]).val() == 0,
            decreases self.num_intermediates - i,
        {
            intermediates.push(F::zero());
            i += 1;
        }
        let mut rotations: Vec<usize> = Vec::new();
        let mut i: usize = 0;
        while i < self.rotations.len()
            invariant
                i <= self.rotations@.len(),
                rotations@ == Seq::new(i as nat, |i: int| 0usize),
            decreases self.rotations@.len() - i,
        {
            rotations.push(0);
            i += 1;
        }
        EvaluationData { intermediates, rotations }
    }

    /// Evaluates the graph at row `idx`: its value there is that of its last
    /// calculation.
    pub fn evaluate<B: Basis>(
        &self,
        data: &mut EvaluationData<F>,
        fixed: &[Polynomial<F, B>],
        advice: &[Polynomial<F, B>],
        instance: &[Polynomial<F, B>],
        challenges: &[F],
        beta: &F,
        gamma: &F,
        theta: &F,
        y: &F,
        previous_value: &F,
        idx: usize,
        rot_scale: i32,
        isize: i32,
    ) -> (r: F)
        requires
            self.wf(),
            old(data).intermediates@.len() >= self.calculations@.len(),
            old(data).rotations@.len() >= self.rotations@.len(),
            forall|i: int|
                0 <= i < self.rotations@.len() ==> rotatable(
                    idx,
                    #[trigger] self.rotations@[i],
                    rot_scale,
                    isize,
                ),
            forall|i: int, j: int|
                0 <= i < self@.calculations.len() && 0 <= j < sources_of(
                    self@.calculations[i],
                ).len() ==> present(
                    self@,
                    #[trigger] sources_of(self@.calculations[i])[j],
                    i as nat,
                    fixed@,
                    advice@,
                    instance@,
                    challenges@,
                    idx,
                    rot_scale,
                    isize,
                ),
        ensures
            ({
                let cells = cells_at(
                    fixed@,
                    advice@,
                    instance@,
                    challenges@,
                    idx,
                    rot_scale,
                    isize,
                );
                let scalars = RuntimeScalars {
                    beta: beta.val(),
                    gamma: gamma.val(),
                    theta: theta.val(),
                    y: y.val(),
                    previous: previous_value.val(),
                };
                let n = self.calculations@.len() as int;
                let rows = self.rotations@.len() as int;
                &&& r.val() == self@.value(F::modulus(), cells, scalars)
                &&& final(data).intermediates@.len() == old(data).intermediates@.len()
                &&& vals(final(data).intermediates@.take(n)) == self@.all_intermediates(
                    F::modulus(),
                    cells,
                    scalars,
                )
                &&& final(data).intermediates@.skip(n) == old(data).intermediates@.skip(n)
                &&& final(data).rotations@.len() == old(data).rotations@.len()
                &&& forall|i: int|
                    0 <= i < rows ==> (#[trigger] final(data).rotations@[i]) == rotated(
                        idx,
                        self.rotations@[i],
                        rot_scale,
                        isize,
                    )
                &&& final(data).rotations@.skip(rows) == old(data).rotations@.skip(rows)
            }),
    {
        let ghost cells = cells_at(
            fixed@,
            advice@,
            instance@,
            challenges@,
            idx,
            rot_scale,
            isize,
        );
        let ghost scalars = RuntimeScalars {
            beta: beta.val(),
            gamma: gamma.val(),
            theta: theta.val(),
            y: y.val(),
            previous: previous_value.val(),
        };
        let ghost p = F::modulus();
        let ghost g = self@;
        // All rotation index values
        let mut i: usize = 0;
        while i < self.rotations.len()
            invariant
                i <= self.rotations@.len(),
                data.rotations@.len() == old(data).rotations@.len(),
                data.rotations@.len() >= self.rotations@.len(),
                data.intermediates == old(data).intermediates,
                forall|j: int|
                    0 <= j < self.rotations@.len() ==> rotatable(
                        idx,
                        #[trigger] self.rotations@[j],
                        rot_scale,
                        isize,
                    ),
                forall|j: int|
                    0 <= j < i ==> (#[trigger] data.rotations@[j]) == rotated(
                        idx,
                        self.rotations@[j],
                        rot_scale,
                        isize,
                    ),
                forall|j: int|
                    self.rotations@.len() <= j < data.rotations@.len() ==> (
                    #[trigger] data.rotations@[j]) == old(data).rotations@[j],
            decreases self.rotations@.len() - i,
        {
            assert(rotatable(idx, self.rotations@[i as int], rot_scale, isize));
            let row: usize = get_rotation_idx(idx, self.rotations[i], rot_scale, isize);
            data.rotations.set(i, row);
            i += 1;
        }
        // All calculations, with cached intermediate results
        let mut i: usize = 0;
        while i < self.calculations.len()
            invariant
                i <= self.calculations@.len(),
                self.wf(),
                p == F::modulus(),
                g == self@,
                cells == cells_at(
                    fixed@,
                    advice@,
                    instance@,
                    challenges@,
                    idx,
                    rot_scale,
                    isize,
                ),
                scalars == (RuntimeScalars {
                    beta: beta.val(),
                    gamma: gamma.val(),
                    theta: theta.val(),
                    y: y.val(),
                    previous: previous_value.val(),
                }),
                data.rotations@.len() == old(data).rotations@.len(),
                data.rotations@.len() >= self.rotations@.len(),
                data.intermediates@.len() == old(data).intermediates@.len(),
                data.intermediates@.len() >= self.calculations@.len(),
                forall|j: int|
                    0 <= j < self.rotations@.len() ==> (#[trigger] data.rotations@[j]) == rotated(
                        idx,
                        self.rotations@[j],
                        rot_scale,
                        isize,
                    ),
                forall|j: int|
                    self.rotations@.len() <= j < data.rotations@.len() ==> (
                    #[trigger] data.rotations@[j]) == old(data).rotations@[j],
                forall|i: int, j: int|
                    0 <= i < g.calculations.len() && 0 <= j < sources_of(
                        g.calculations[i],
                    ).len() ==> present(
                        g,
                        #[trigger] sources_of(g.calculations[i])[j],
                        i as nat,
                        fixed@,
                        advice@,
                        instance@,
                        challenges@,
                        idx,
                        rot_scale,
                        isize,
                    ),
                vals(data.intermediates@.take(i as int)) == g.intermediates(
                    p,
                    i as nat,
                    cells,
                    scalars,
                ),
                forall|j: int|
                    self.calculations@.len() <= j < data.intermediates@.len() ==> (
                    #[trigger] data.intermediates@[j]) == old(data).intermediates@[j],
            decreases self.calculations@.len() - i,
        {
            let calc = &self.calculations[i];
            let ghost c = calc.calculation@;
            let ghost before = g.intermediates(p, i as nat, cells, scalars);
            let ghost value = |s: ValueSource|
                source_value(
                    s,
                    data.rotations@,
                    self.constants@,
                    data.intermediates@,
                    fixed@,
                    advice@,
                    instance@,
                    challenges@,
                    scalars,
                );
            proof {
                assert(g.calculations[i as int] == c);
                assert forall|j: int| 0 <= j < sources_of(c).len() implies readable(
                    #[trigger] sources_of(c)[j],
                    data.rotations@,
                    self.constants@,
                    data.intermediates@,
                    fixed@,
                    advice@,
                    instance@,
                    challenges@,
                ) && value(sources_of(c)[j]) == g.source(
                    sources_of(c)[j],
                    before,
                    cells,
                    scalars,
                ) by {
                    let s = sources_of(c)[j];
                    assert(present(
                        g,
                        sources_of(g.calculations[i as int])[j],
                        i as nat,
                        fixed@,
                        advice@,
                        instance@,
                        challenges@,
                        idx,
                        rot_scale,
                        isize,
                    ));
                    if let ValueSource::Intermediate(k) = s {
                        assert(before[k as int] == data.intermediates@.take(
                            i as int,
                        )[k as int].val());
                    }
                }
                lemma_calculation_reads(
                    p,
                    c,
                    value,
                    |s: ValueSource| g.source(s, before, cells, scalars),
                );
            }
            let result = calc.calculation.evaluate(
                &data.rotations,
                &self.constants,
                &data.intermediates,
                fixed,
                advice,
                instance,
                challenges,
                beta,
                gamma,
                theta,
                y,
                previous_value,
            );
            let ghost held = data.intermediates@;
            data.intermediates.set(calc.target, result);
            proof {
                assert(data.intermediates@.take(i + 1) =~= held.take(i as int).push(result));
                assert(vals(held.take(i as int).push(result)) =~= vals(held.take(i as int)).push(
                    result.val(),
                ));
            }
            i += 1;
        }
        proof {
            assert(data.intermediates@.skip(g.calculations.len() as int) =~= old(
                data,
            ).intermediates@.skip(g.calculations.len() as int));
            assert(data.rotations@.skip(g.rotations.len() as int) =~= old(data).rotations@.skip(
                g.rotations.len() as int,
            ));
            lemma_intermediates_prefix(
                g,
                p,
                g.calculations.len(),
                g.calculations.len(),
                cells,
                scalars,
            );
        }
        // Return the result of the last calculation (if any)
        if self.calculations.len() > 0 {
            let last = self.calculations.len() - 1;
            assert(data.intermediates@.take(g.calculations.len() as int)[last as int]
                == data.intermediates@[last as int]);
            data.intermediates[self.calculations[last].target]
        } else {
            F::zero()
        }
    }
}

/// A calculation has the same value under readings that agree on its sources.
pub proof fn lemma_calculation_reads(
    p: int,
    c: CalculationModel,
    value: spec_fn(ValueSource) -> int,
    other: spec_fn(ValueSource) -> int,
)
    requires
        forall|i: int|
            0 <= i < sources_of(c).len() ==> value(#[trigger] sources_of(c)[i]) == other(
                sources_of(c)[i],
            ),
    ensures
        calculation_value(p, c, value) == calculation_value(p, c, other),
{
    let s = sources_of(c);
    match c {
        CalculationModel::Add(a, b) => {
            assert(s[0] == a && s[1] == b);
        },
        CalculationModel::Sub(a, b) => {
            assert(s[0] == a && s[1] == b);
        },
        CalculationModel::Mul(a, b) => {
            assert(s[0] == a && s[1] == b);
        },
        CalculationModel::Horner(start, parts, factor) => {
            assert(s[0] == start && s[1] == factor);
            assert forall|i: int| 0 <= i < parts.len() implies value(parts[i]) == other(
                parts[i],
            ) by {
                assert(s[i + 2] == parts[i]);
            }
            assert(Seq::new(parts.len(), |i: int| value(parts[i])) =~= Seq::new(
                parts.len(),
                |i: int| other(parts[i]),
            ));
        },
        CalculationModel::Square(a) => {
            assert(s[0] == a);
        },
        CalculationModel::Double(a) => {
            assert(s[0] == a);
        },
        CalculationModel::Negate(a) => {
            assert(s[0] == a);
        },
        CalculationModel::Store(a) => {
            assert(s[0] == a);
        },
    }
}

/// Whether the cell that a query refers to from row `idx` is there.
pub open spec fn cell_present<F, B>(
    columns: Seq<Polynomial<F, B>>,
    column: usize,
    rotation: Rotation,
    idx: usize,
    rot_scale: i32,
    size: i32,
) -> bool {
    &&& column < columns.len()
    &&& rotatable(idx, rotation.0, rot_scale, size)
    &&& rotated(idx, rotation.0, rot_scale, size) < columns[column as int]@.len()
}

/// Whether all that an expression refers to from row `idx` is there.
pub open spec fn row_present<F, B>(
    e: GpuExpression<F>,
    fixed: Seq<Polynomial<F, B>>,
    advice: Seq<Polynomial<F, B>>,
    instance: Seq<Polynomial<F, B>>,
    challenges: Seq<F>,
    idx: usize,
    rot_scale: i32,
    size: i32,
) -> bool
    decreases e,
{
    match e {
        GpuExpression::Constant(_) => true,
        GpuExpression::Selector(_) => false,
        GpuExpression::Fixed(q) => cell_present(
            fixed,
            q.column_index,
            q.rotation,
            idx,
            rot_scale,
            size,
        ),
        GpuExpression::Advice(q) => cell_present(
            advice,
            q.column_index,
            q.rotation,
            idx,
            rot_scale,
            size,
        ),
        GpuExpression::Instance(q) => cell_present(
            instance,
            q.column_index,
            q.rotation,
            idx,
            rot_scale,
            size,
        ),
        GpuExpression::Challenge(c) => c.index < challenges.len(),
        GpuExpression::Negated(a) => row_present(
            *a,
            fixed,
            advice,
            instance,
            challenges,
            idx,
            rot_scale,
            size,
        ),
        GpuExpression::Sum(a, b) => {
            &&& row_present(*a, fixed, advice, instance, challenges, idx, rot_scale, size)
            &&& row_present(*b, fixed, advice, instance, challenges, idx, rot_scale, size)
        },
        GpuExpression::Product(a, b) => {
            &&& row_present(*a, fixed, advice, instance, challenges, idx, rot_scale, size)
            &&& row_present(*b, fixed, advice, instance, challenges, idx, rot_scale, size)
        },
        GpuExpression::Scaled(a, _) => row_present(
            *a,
            fixed,
            advice,
            instance,
            challenges,
            idx,
            rot_scale,
            size,
        ),
    }
}

/// Evaluating an expression with the operations of the field, over cells that
/// are there, is possible and gives the value of the expression.
pub proof fn law_evaluation_gives_value<
    F: Field,
    B,
    C0: Fn(F) -> F,
    C1: Fn(GpuSelector) -> F,
    C2: Fn(GpuFixedQuery) -> F,
    C3: Fn(GpuAdviceQuery) -> F,
    C4: Fn(GpuInstanceQuery) -> F,
    C5: Fn(GpuChallenge) -> F,
    C6: Fn(F) -> F,
    C7: Fn(F, F) -> F,
    C8: Fn(F, F) -> F,
    C9: Fn(F, F) -> F,
>(
    e: GpuExpression<F>,
    constant: C0,
    selector_column: C1,
    fixed_column: C2,
    advice_column: C3,
    instance_column: C4,
    challenge: C5,
    negated: C6,
    sum: C7,
    product: C8,
    scaled: C9,
    fixed: Seq<Polynomial<F, B>>,
    advice: Seq<Polynomial<F, B>>,
    instance: Seq<Polynomial<F, B>>,
    challenges: Seq<F>,
    idx: usize,
    rot_scale: i32,
    size: i32,
)
    requires
        row_present(e, fixed, advice, instance, challenges, idx, rot_scale, size),
        forall|x: F| #[trigger] call_requires(constant, (x,)),
        forall|x: F, r: F| #[trigger] call_ensures(constant, (x,), r) ==> r.val() == x.val(),
        forall|q: GpuFixedQuery|
            cell_present(fixed, q.column_index, q.rotation, idx, rot_scale, size)
                ==> #[trigger] call_requires(fixed_column, (q,)),
        forall|q: GpuFixedQuery, r: F| #[trigger]
            call_ensures(fixed_column, (q,), r) ==> r.val()
                == fixed[q.column_index as int]@[rotated(
                idx,
                q.rotation.0,
                rot_scale,
                size,
            )].val(),
        forall|q: GpuAdviceQuery|
            cell_present(advice, q.column_index, q.rotation, idx, rot_scale, size)
                ==> #[trigger] call_requires(advice_column, (q,)),
        forall|q: GpuAdviceQuery, r: F| #[trigger]
            call_ensures(advice_column, (q,), r) ==> r.val()
                == advice[q.column_index as int]@[rotated(
                idx,
                q.rotation.0,
                rot_scale,
                size,
            )].val(),
        forall|q: GpuInstanceQuery|
            cell_present(instance, q.column_index, q.rotation, idx, rot_scale, size)
                ==> #[trigger] call_requires(instance_column, (q,)),
        forall|q: GpuInstanceQuery, r: F| #[trigger]
            call_ensures(instance_column, (q,), r) ==> r.val()
                == instance[q.column_index as int]@[rotated(
                idx,
                q.rotation.0,
                rot_scale,
                size,
            )].val(),
        forall|c: GpuChallenge|
            c.index < challenges.len() ==> #[trigger] call_requires(challenge, (c,)),
        forall|c: GpuChallenge, r: F| #[trigger]
            call_ensures(challenge, (c,), r) ==> r.val() == challenges[c.index as int].val(),
        forall|x: F| #[trigger] call_requires(negated, (x,)),
        forall|x: F, r: F| #[trigger]
            call_ensures(negated, (x,), r) ==> r.val() == fneg(F::modulus(), x.val()),
        forall|x: F, y: F| #[trigger] call_requires(sum, (x, y)),
        forall|x: F, y: F, r: F| #[trigger]
            call_ensures(sum, (x, y), r) ==> r.val() == fadd(F::modulus(), x.val(), y.val()),
        forall|x: F, y: F| #[trigger] call_requires(product, (x, y)),
        forall|x: F, y: F, r: F| #[trigger]
            call_ensures(product, (x, y), r) ==> r.val() == fmul(F::modulus(), x.val(), y.val()),
        forall|x: F, y: F| #[trigger] call_requires(scaled, (x, y)),
        forall|x: F, y: F, r: F| #[trigger]
            call_ensures(scaled, (x, y), r) ==> r.val() == fmul(F::modulus(), x.val(), y.val()),
    ensures
        evaluable(
            e,
            constant,
            selector_column,
            fixed_column,
            advice_column,
            instance_column,
            challenge,
            negated,
            sum,
            product,
            scaled,
        ),
        forall|r: F| #[trigger]
            evaluates(
                e,
                constant,
                selector_column,
                fixed_column,
                advice_column,
                instance_column,
                challenge,
                negated,
                sum,
                product,
                scaled,
                r,
            ) ==> r.val() == e.value(
                cells_at(fixed, advice, instance, challenges, idx, rot_scale, size),
            ),
    decreases e,
{
    let cells = cells_at(fixed, advice, instance, challenges, idx, rot_scale, size);
    match e {
        GpuExpression::Negated(a) => {
            law_evaluation_gives_value(*a, constant, selector_column, fixed_column,
                advice_column, instance_column, challenge, negated, sum, product, scaled, fixed,
                advice, instance, challenges, idx, rot_scale, size);
            assert forall|r: F| #[trigger] evaluates(e, constant, selector_column, fixed_column,
                advice_column, instance_column, challenge, negated, sum, product, scaled,
                r) implies r.val() == e.value(cells) by {
                let x = choose|x: F| evaluates(*a, constant, selector_column, fixed_column,
                    advice_column, instance_column, challenge, negated, sum, product, scaled,
                    x) && #[trigger] call_ensures(negated, (x,), r);
                assert(x.val() == a.value(cells));
            }
        },
        GpuExpression::Sum(a, b) => {
            law_evaluation_gives_value(*a, constant, selector_column, fixed_column,
                advice_column, instance_column, challenge, negated, sum, product, scaled, fixed,
                advice, instance, challenges, idx, rot_scale, size);
            law_evaluation_gives_value(*b, constant, selector_column, fixed_column,
                advice_column, instance_column, challenge, negated, sum, product, scaled, fixed,
                advice, instance, challenges, idx, rot_scale, size);
            assert forall|r: F| #[trigger] evaluates(e, constant, selector_column, fixed_column,
                advice_column, instance_column, challenge, negated, sum, product, scaled,
                r) implies r.val() == e.value(cells) by {
                let (x, y) = choose|x: F, y: F| evaluates(*a, constant, selector_column,
                    fixed_column, advice_column, instance_column, challenge, negated, sum,
                    product, scaled, x) && evaluates(*b, constant, selector_column, fixed_column,
                    advice_column, instance_column, challenge, negated, sum, product, scaled,
                    y) && #[trigger] call_ensures(sum, (x, y), r);
                assert(x.val() == a.value(cells));
                assert(y.val() == b.value(cells));
            }
        },
        GpuExpression::Product(a, b) => {
            law_evaluation_gives_value(*a, constant, selector_column, fixed_column,
                advice_column, instance_column, challenge, negated, sum, product, scaled, fixed,
                advice, instance, challenges, idx, rot_scale, size);
            law_evaluation_gives_value(*b, constant, selector_column, fixed_column,
                advice_column, instance_column, challenge, negated, sum, product, scaled, fixed,
                advice, instance, challenges, idx, rot_scale, size);
            assert forall|r: F| #[trigger] evaluates(e, constant, selector_column, fixed_column,
                advice_column, instance_column, challenge, negated, sum, product, scaled,
                r) implies r.val() == e.value(cells) by {
                let (x, y) = choose|x: F, y: F| evaluates(*a, constant, selector_column,
                    fixed_column, advice_column, instance_column, challenge, negated, sum,
                    product, scaled, x) && evaluates(*b, constant, selector_column, fixed_column,
                    advice_column, instance_column, challenge, negated, sum, product, scaled,
                    y) && #[trigger] call_ensures(product, (x, y), r);
                assert(x.val() == a.value(cells));
                assert(y.val() == b.value(cells));
            }
        },
        GpuExpression::Scaled(a, f) => {
            law_evaluation_gives_value(*a, constant, selector_column, fixed_column,
                advice_column, instance_column, challenge, negated, sum, product, scaled, fixed,
                advice, instance, challenges, idx, rot_scale, size);
            assert forall|r: F| #[trigger] evaluates(e, constant, selector_column, fixed_column,
                advice_column, instance_column, challenge, negated, sum, product, scaled,
                r) implies r.val() == e.value(cells) by {
                let x = choose|x: F| evaluates(*a, constant, selector_column, fixed_column,
                    advice_column, instance_column, challenge, negated, sum, product, scaled,
                    x) && #[trigger] call_ensures(scaled, (x, f), r);
                assert(x.val() == a.value(cells));
            }
        },
        _ => {},
    }
}

/// The value of an expression at row `idx`.
fn evaluate_row<F: Field, B: Basis>(
    expression: &GpuExpression<F>,
    idx: usize,
    rot_scale: i32,
    isize: i32,
    fixed: &[Polynomial<F, B>],
    advice: &[Polynomial<F, B>],
    instance: &[Polynomial<F, B>],
    challenges: &[F],
) -> (r: F)
    requires
        row_present(
            *expression,
            fixed@,
            advice@,
            instance@,
            challenges@,
            idx,
            rot_scale,
            isize,
        ),
    ensures
        r.val() == expression.value(
            cells_at(fixed@, advice@, instance@, challenges@, idx, rot_scale, isize),
        ),
{
    let constant = |scalar: F| -> (x: F)
        ensures
            x.val() == scalar.val(),
        { scalar };
    // Virtual selectors are removed during optimization, so none is met.
    let selector_column = |selector: GpuSelector| -> (x: F) { F::zero() };
    let fixed_column = |query: GpuFixedQuery| -> (x: F)
        requires
            cell_present(fixed@, query.column_index, query.rotation, idx, rot_scale, isize),
        ensures
            x.val() == fixed@[query.column_index as int]@[rotated(
                idx,
                query.rotation.0,
                rot_scale,
                isize,
            )].val(),
        {
            fixed[query.column_index].at(
                get_rotation_idx(idx, query.rotation.0, rot_scale, isize),
            )
        };
    let advice_column = |query: GpuAdviceQuery| -> (x: F)
        requires
            cell_present(advice@, query.column_index, query.rotation, idx, rot_scale, isize),
        ensures
            x.val() == advice@[query.column_index as int]@[rotated(
                idx,
                query.rotation.0,
                rot_scale,
                isize,
            )].val(),
        {
            advice[query.column_index].at(
                get_rotation_idx(idx, query.rotation.0, rot_scale, isize),
            )
        };
    let instance_column = |query: GpuInstanceQuery| -> (x: F)
        requires
            cell_present(instance@, query.column_index, query.rotation, idx, rot_scale, isize),
        ensures
            x.val() == instance@[query.column_index as int]@[rotated(
                idx,
                query.rotation.0,
                rot_scale,
                isize,
            )].val(),
        {
            instance[query.column_index].at(
                get_rotation_idx(idx, query.rotation.0, rot_scale, isize),
            )
        };
    let challenge = |challenge: GpuChallenge| -> (x: F)
        requires
            challenge.index < challenges@.len(),
        ensures
            x.val() == challenges@[challenge.index as int].val(),
        { challenges[challenge.index()] };
    let negated = |a: F| -> (x: F)
        ensures
            x.val() == fneg(F::modulus(), a.val()),
        { a.neg() };
    let sum = |a: F, b: F| -> (x: F)
        ensures
            x.val() == fadd(F::modulus(), a.val(), b.val()),
        { a.add(&b) };
    let product = |a: F, b: F| -> (x: F)
        ensures
            x.val() == fmul(F::modulus(), a.val(), b.val()),
        { a.mul(&b) };
    let scaled = |a: F, scalar: F| -> (x: F)
        ensures
            x.val() == fmul(F::modulus(), a.val(), scalar.val()),
        { a.mul(&scalar) };
    proof {
        law_evaluation_gives_value(*expression, constant, selector_column, fixed_column,
            advice_column, instance_column, challenge, negated, sum, product, scaled, fixed@,
            advice@, instance@, challenges@, idx, rot_scale, isize);
    }
    expression.evaluate(
        &constant,
        &selector_column,
        &fixed_column,
        &advice_column,
        &instance_column,
        &challenge,
        &negated,
        &sum,
        &product,
        &scaled,
    )
}

/// Simple evaluation of an expression
pub fn evaluate<F: Field, B: Basis>(
    expression: &GpuExpression<F>,
    size: usize,
    rot_scale: i32,
    fixed: &[Polynomial<F, B>],
    advice: &[Polynomial<F, B>],
    instance: &[Polynomial<F, B>],
    challenges: &[F],
) -> (r: Vec<F>)
    requires
        size <= i32::MAX,
        forall|idx: usize|
            idx < size ==> #[trigger] row_present(
                *expression,
                fixed@,
                advice@,
                instance@,
                challenges@,
                idx,
                rot_scale,
                size as i32,
            ),
    ensures
        r@.len() == size,
        forall|idx: usize|
            idx < size ==> (#[trigger] r@[idx as int]).val() == expression.value(
                cells_at(fixed@, advice@, instance@, challenges@, idx, rot_scale, size as i32),
            ),
{
    let isize: i32 = size as i32;
    let mut values: Vec<F> = Vec::new();
    let mut idx: usize = 0;
    while idx < size
        invariant
            idx <= size,
            isize == size as i32,
            values@.len() == idx,
            forall|idx: usize|
                idx < size ==> #[trigger] row_present(
                    *expression,
                    fixed@,
                    advice@,
                    instance@,
                    challenges@,
                    idx,
                    rot_scale,
                    size as i32,
                ),
            forall|j: usize|
                j < idx ==> (#[trigger] values@[j as int]).val() == expression.value(
                    cells_at(fixed@, advice@, instance@, challenges@, j, rot_scale, isize),
                ),
        decreases size - idx,
    {
        assert(row_present(
            *expression,
            fixed@,
            advice@,
            instance@,
            challenges@,
            idx,
            rot_scale,
            isize,
        ));
        let value = evaluate_row(
            expression,
            idx,
            rot_scale,
            isize,
            fixed,
            advice,
            instance,
            challenges,
        );
        values.push(value);
        idx += 1;
    }
    values
}

} // verus!
