//! What the calculations of a graph evaluate to.

use crate::field::{
    fadd, fmul, fneg, fsub, lemma_f_range, lemma_fmul_comm, lemma_fsub_is_add_neg, Field,
};
use crate::plonk::expression::{CellValues, GpuExpression};
use crate::plonk::graph::{
    all_selector_free, find, lemma_find, one_source, ordered, selector_free, two_source, with_found,
    zero_source, CalculationModel, GraphModel, ValueSource,
};
use crate::poly::Rotation;
use vstd::arithmetic::div_mod::lemma_small_mod;
use vstd::prelude::*;

verus! {

/// The scalars that a graph may refer to besides its constants.
pub struct RuntimeScalars {
    pub beta: int,
    pub gamma: int,
    pub theta: int,
    pub y: int,
    pub previous: int,
}

/// Horner's rule: `start`, then one multiplication by `factor` and one addition
/// for each value.
pub open spec fn horner(p: int, start: int, values: Seq<int>, factor: int) -> int
    decreases values.len(),
{
    if values.len() == 0 {
        start
    } else {
        fadd(p, fmul(p, horner(p, start, values.drop_last(), factor), factor), values.last())
    }
}

/// The value of a calculation, given the values of sources.
pub open spec fn calculation_value(
    p: int,
    c: CalculationModel,
    value: spec_fn(ValueSource) -> int,
) -> int {
    match c {
        CalculationModel::Add(a, b) => fadd(p, value(a), value(b)),
        CalculationModel::Sub(a, b) => fsub(p, value(a), value(b)),
        CalculationModel::Mul(a, b) => fmul(p, value(a), value(b)),
        CalculationModel::Square(a) => fmul(p, value(a), value(a)),
        CalculationModel::Double(a) => fadd(p, value(a), value(a)),
        CalculationModel::Negate(a) => fneg(p, value(a)),
        CalculationModel::Horner(start, parts, factor) => horner(
            p,
            value(start),
            Seq::new(parts.len(), |i: int| value(parts[i])),
            value(factor),
        ),
        CalculationModel::Store(a) => value(a),
    }
}

impl CellValues {
    /// Whether all cells hold canonical representatives.
    pub open spec fn in_range(self, p: int) -> bool {
        &&& forall|s| 0 <= #[trigger] (self.selector)(s) < p
        &&& forall|c, r| 0 <= #[trigger] (self.fixed)(c, r) < p
        &&& forall|c, r| 0 <= #[trigger] (self.advice)(c, r) < p
        &&& forall|c, r| 0 <= #[trigger] (self.instance)(c, r) < p
        &&& forall|c| 0 <= #[trigger] (self.challenge)(c) < p
    }
}

impl GraphModel {
    /// The value of a source, given the intermediate values so far.
    pub open spec fn source(
        self,
        s: ValueSource,
        intermediates: Seq<int>,
        cells: CellValues,
        scalars: RuntimeScalars,
    ) -> int {
        match s {
            ValueSource::Constant(i) => self.constants[i as int],
            ValueSource::Intermediate(i) => intermediates[i as int],
            ValueSource::Fixed(c, at) => (cells.fixed)(c, Rotation(self.rotations[at as int])),
            ValueSource::Advice(c, at) => (cells.advice)(c, Rotation(self.rotations[at as int])),
            ValueSource::Instance(c, at) => (cells.instance)(
                c,
                Rotation(self.rotations[at as int]),
            ),
            ValueSource::Challenge(i) => (cells.challenge)(i),
            ValueSource::Beta() => scalars.beta,
            ValueSource::Gamma() => scalars.gamma,
            ValueSource::Theta() => scalars.theta,
            ValueSource::Y() => scalars.y,
            ValueSource::PreviousValue() => scalars.previous,
        }
    }

    /// The value of a calculation, given the intermediate values so far.
    pub open spec fn calculation(
        self,
        p: int,
        c: CalculationModel,
        intermediates: Seq<int>,
        cells: CellValues,
        scalars: RuntimeScalars,
    ) -> int {
        calculation_value(
            p,
            c,
            |s: ValueSource| self.source(s, intermediates, cells, scalars),
        )
    }

    /// The first `n` intermediate values.
    pub open spec fn intermediates(
        self,
        p: int,
        n: nat,
        cells: CellValues,
        scalars: RuntimeScalars,
    ) -> Seq<int>
        decreases n,
    {
        if n == 0 {
            seq![]
        } else {
            let before = self.intermediates(p, (n - 1) as nat, cells, scalars);
            before.push(self.calculation(p, self.calculations[n - 1], before, cells, scalars))
        }
    }

    /// All intermediate values.
    pub open spec fn all_intermediates(
        self,
        p: int,
        cells: CellValues,
        scalars: RuntimeScalars,
    ) -> Seq<int> {
        self.intermediates(p, self.calculations.len(), cells, scalars)
    }

    /// The value of a source once the whole graph has been evaluated.
    pub open spec fn value_of(
        self,
        p: int,
        s: ValueSource,
        cells: CellValues,
        scalars: RuntimeScalars,
    ) -> int {
        self.source(s, self.all_intermediates(p, cells, scalars), cells, scalars)
    }

    /// The value of the graph: that of its last calculation, zero if it has none.
    pub open spec fn value(self, p: int, cells: CellValues, scalars: RuntimeScalars) -> int {
        if self.calculations.len() == 0 {
            0
        } else {
            self.all_intermediates(p, cells, scalars).last()
        }
    }

    /// Whether a source refers to what the graph has, and to none but the first
    /// `n` intermediates.
    pub open spec fn valid(self, s: ValueSource, n: nat) -> bool {
        match s {
            ValueSource::Constant(i) => i < self.constants.len(),
            ValueSource::Intermediate(i) => i < n,
            ValueSource::Fixed(_, at) => at < self.rotations.len(),
            ValueSource::Advice(_, at) => at < self.rotations.len(),
            ValueSource::Instance(_, at) => at < self.rotations.len(),
            _ => true,
        }
    }

    pub open spec fn all_valid(self, s: Seq<ValueSource>, n: nat) -> bool {
        forall|i: int| 0 <= i < s.len() ==> self.valid(#[trigger] s[i], n)
    }

    /// Whether all sources of a calculation are valid.
    pub open spec fn valid_calculation(self, c: CalculationModel, n: nat) -> bool {
        match c {
            CalculationModel::Add(a, b) => self.valid(a, n) && self.valid(b, n),
            CalculationModel::Sub(a, b) => self.valid(a, n) && self.valid(b, n),
            CalculationModel::Mul(a, b) => self.valid(a, n) && self.valid(b, n),
            CalculationModel::Square(a) => self.valid(a, n),
            CalculationModel::Double(a) => self.valid(a, n),
            CalculationModel::Negate(a) => self.valid(a, n),
            CalculationModel::Horner(start, parts, factor) => self.valid(start, n)
                && self.all_valid(parts, n) && self.valid(factor, n),
            CalculationModel::Store(a) => self.valid(a, n),
        }
    }

    /// Whether positions in the graph's lists can be written as machine integers.
    pub open spec fn fits(self) -> bool {
        &&& self.constants.len() <= usize::MAX
        &&& self.rotations.len() <= usize::MAX
        &&& self.calculations.len() <= usize::MAX
    }

    /// Whether zero, one and two stand where they are looked for, and each
    /// calculation only refers to earlier ones.
    pub open spec fn sound(self) -> bool {
        &&& self.fits()
        &&& self.constants.len() >= 3
        &&& self.constants[0] == 0
        &&& self.constants[1] == 1
        &&& self.constants[2] == 2
        &&& forall|i: int|
            0 <= i < self.calculations.len() ==> self.valid_calculation(
                #[trigger] self.calculations[i],
                i as nat,
            )
    }

    /// Whether the graph is the beginning of another.
    pub open spec fn extends_to(self, other: GraphModel) -> bool {
        &&& self.constants.is_prefix_of(other.constants)
        &&& self.rotations.is_prefix_of(other.rotations)
        &&& self.calculations.is_prefix_of(other.calculations)
    }
}

pub proof fn lemma_intermediates_prefix(
    g: GraphModel,
    p: int,
    m: nat,
    n: nat,
    cells: CellValues,
    scalars: RuntimeScalars,
)
    requires
        m <= n,
    ensures
        g.intermediates(p, n, cells, scalars).len() == n,
        g.intermediates(p, m, cells, scalars) == g.intermediates(p, n, cells, scalars).take(
            m as int,
        ),
    decreases n,
{
    if m < n {
        lemma_intermediates_prefix(g, p, m, (n - 1) as nat, cells, scalars);
        let before = g.intermediates(p, (n - 1) as nat, cells, scalars);
        assert(g.intermediates(p, n, cells, scalars).take(m as int) =~= before.take(m as int));
    } else {
        if n > 0 {
            lemma_intermediates_prefix(g, p, (n - 1) as nat, (n - 1) as nat, cells, scalars);
        }
        assert(g.intermediates(p, n, cells, scalars).take(m as int) =~= g.intermediates(
            p,
            n,
            cells,
            scalars,
        ));
    }
}

/// A valid calculation has the same value in a longer graph with more
/// intermediate values.
proof fn lemma_calculation_stable(
    g: GraphModel,
    h: GraphModel,
    p: int,
    c: CalculationModel,
    n: nat,
    before: Seq<int>,
    after: Seq<int>,
    cells: CellValues,
    scalars: RuntimeScalars,
)
    requires
        g.extends_to(h),
        g.valid_calculation(c, n),
        n <= before.len(),
        before.is_prefix_of(after),
    ensures
        h.valid_calculation(c, n),
        g.calculation(p, c, before, cells, scalars) == h.calculation(p, c, after, cells, scalars),
{
    if let CalculationModel::Horner(start, parts, factor) = c {
        assert forall|i: int| 0 <= i < parts.len() implies h.valid(#[trigger] parts[i], n) by {
            assert(g.valid(parts[i], n));
        }
        assert forall|i: int| 0 <= i < parts.len() implies g.source(
            parts[i],
            before,
            cells,
            scalars,
        ) == h.source(parts[i], after, cells, scalars) by {
            assert(g.valid(parts[i], n));
        }
        let one = |s: ValueSource| g.source(s, before, cells, scalars);
        let other = |s: ValueSource| h.source(s, after, cells, scalars);
        assert(Seq::new(parts.len(), |i: int| one(parts[i])) =~= Seq::new(
            parts.len(),
            |i: int| other(parts[i]),
        ));
    }
}

/// The intermediate values of a graph are the first ones of any graph that it
/// extends to.
pub proof fn lemma_intermediates_stable(
    g: GraphModel,
    h: GraphModel,
    p: int,
    n: nat,
    cells: CellValues,
    scalars: RuntimeScalars,
)
    requires
        g.sound(),
        g.extends_to(h),
        n <= g.calculations.len(),
    ensures
        g.intermediates(p, n, cells, scalars) == h.intermediates(p, n, cells, scalars),
    decreases n,
{
    if n > 0 {
        let m = (n - 1) as nat;
        lemma_intermediates_stable(g, h, p, m, cells, scalars);
        lemma_intermediates_prefix(g, p, m, m, cells, scalars);
        let before = g.intermediates(p, m, cells, scalars);
        lemma_calculation_stable(g, h, p, g.calculations[m as int], m, before, before, cells,
            scalars);
    }
}

/// A source of a graph has the same value in any graph that it extends to.
pub proof fn lemma_value_stable(
    g: GraphModel,
    h: GraphModel,
    p: int,
    s: ValueSource,
    cells: CellValues,
    scalars: RuntimeScalars,
)
    requires
        g.sound(),
        g.extends_to(h),
        g.valid(s, g.calculations.len()),
    ensures
        h.valid(s, h.calculations.len()),
        g.value_of(p, s, cells, scalars) == h.value_of(p, s, cells, scalars),
{
    let n = g.calculations.len();
    lemma_intermediates_stable(g, h, p, n, cells, scalars);
    lemma_intermediates_prefix(h, p, n, h.calculations.len(), cells, scalars);
    lemma_intermediates_prefix(g, p, n, n, cells, scalars);
}

/// Each intermediate is the value of its calculation.
pub proof fn lemma_intermediate_value(
    g: GraphModel,
    p: int,
    i: nat,
    cells: CellValues,
    scalars: RuntimeScalars,
)
    requires
        g.sound(),
        i < g.calculations.len(),
    ensures
        g.all_intermediates(p, cells, scalars).len() == g.calculations.len(),
        g.all_intermediates(p, cells, scalars)[i as int] == g.calculation(
            p,
            g.calculations[i as int],
            g.all_intermediates(p, cells, scalars),
            cells,
            scalars,
        ),
{
    let n = g.calculations.len();
    lemma_intermediates_prefix(g, p, i + 1, n, cells, scalars);
    lemma_intermediates_prefix(g, p, i, n, cells, scalars);
    let all = g.all_intermediates(p, cells, scalars);
    let before = g.intermediates(p, i, cells, scalars);
    assert(all[i as int] == g.intermediates(p, i + 1, cells, scalars)[i as int]);
    lemma_calculation_stable(g, g, p, g.calculations[i as int], i, before, all, cells, scalars);
}

/// Adding a calculation makes its value available and changes no other.
pub proof fn lemma_calculated(
    g: GraphModel,
    p: int,
    c: CalculationModel,
    cells: CellValues,
    scalars: RuntimeScalars,
)
    requires
        g.sound(),
        g.valid_calculation(c, g.calculations.len()),
        g.with_calculation(c).fits(),
    ensures
        g.with_calculation(c).sound(),
        g.extends_to(g.with_calculation(c)),
        g.with_calculation(c).valid(g.intermediate(c), g.with_calculation(c).calculations.len()),
        g.with_calculation(c).value_of(p, g.intermediate(c), cells, scalars) == g.calculation(
            p,
            c,
            g.all_intermediates(p, cells, scalars),
            cells,
            scalars,
        ),
{
    lemma_find(g.calculations, c);
    let h = g.with_calculation(c);
    let i = find(g.calculations, c);
    assert forall|j: int| 0 <= j < h.calculations.len() implies h.valid_calculation(
        #[trigger] h.calculations[j],
        j as nat,
    ) by {
        if j < g.calculations.len() {
            lemma_calculation_stable(
                g,
                h,
                p,
                g.calculations[j],
                j as nat,
                Seq::new(j as nat, |k: int| 0int),
                Seq::new(j as nat, |k: int| 0int),
                cells,
                scalars,
            );
        } else {
            let none = Seq::new(g.calculations.len(), |k: int| 0int);
            lemma_calculation_stable(g, h, p, c, g.calculations.len(), none, none, cells, scalars);
        }
    }
    lemma_intermediate_value(h, p, i, cells, scalars);
    let n = g.calculations.len();
    lemma_intermediates_stable(g, h, p, n, cells, scalars);
    lemma_intermediates_prefix(h, p, n, h.calculations.len(), cells, scalars);
    lemma_intermediates_prefix(g, p, n, n, cells, scalars);
    lemma_calculation_stable(
        g,
        h,
        p,
        c,
        n,
        g.all_intermediates(p, cells, scalars),
        h.all_intermediates(p, cells, scalars),
        cells,
        scalars,
    );
}

proof fn lemma_found_prefix<T>(s: Seq<T>, x: T)
    ensures
        s.is_prefix_of(with_found(s, x)),
        find(s, x) < with_found(s, x).len(),
        with_found(s, x)[find(s, x) as int] == x,
{
    lemma_find(s, x);
}

/// The graph of an expression begins with the graph that it was added to.
pub proof fn lemma_expression_extends<F: Field>(g: GraphModel, e: GpuExpression<F>)
    ensures
        g.extends_to(g.with_expression(e).0),
    decreases e,
{
    match e {
        GpuExpression::Negated(a) => {
            lemma_expression_extends(g, *a);
        },
        GpuExpression::Sum(a, b) => {
            let h = g.with_expression(*a).0;
            lemma_expression_extends(g, *a);
            if let GpuExpression::Negated(b) = *b {
                lemma_expression_extends(h, *b);
            } else {
                lemma_expression_extends(h, *b);
            }
        },
        GpuExpression::Product(a, b) => {
            lemma_expression_extends(g, *a);
            lemma_expression_extends(g.with_expression(*a).0, *b);
        },
        GpuExpression::Scaled(a, f) => {
            lemma_expression_extends(g, *a);
            lemma_expression_extends(g.with_constant(f.val()), *a);
        },
        _ => {},
    }
}

/// The value of an expression over canonical representatives is one.
pub proof fn lemma_expression_value_range<F: Field>(e: GpuExpression<F>, cells: CellValues)
    requires
        cells.in_range(F::modulus()),
    ensures
        0 <= e.value(cells) < F::modulus(),
    decreases e,
{
    let p = F::modulus();
    F::lemma_modulus();
    match e {
        GpuExpression::Constant(scalar) => {
            scalar.lemma_val_range();
        },
        GpuExpression::Negated(a) => {
            lemma_f_range(p, a.value(cells), 0);
        },
        GpuExpression::Sum(a, b) => {
            lemma_f_range(p, a.value(cells), b.value(cells));
        },
        GpuExpression::Product(a, b) => {
            lemma_f_range(p, a.value(cells), b.value(cells));
        },
        GpuExpression::Scaled(a, f) => {
            lemma_f_range(p, a.value(cells), f.val());
        },
        _ => {},
    }
}

proof fn lemma_with_constant(g: GraphModel, v: int)
    requires
        g.sound(),
        g.with_constant(v).fits(),
    ensures
        g.with_constant(v).sound(),
        g.extends_to(g.with_constant(v)),
        g.with_constant(v).valid(g.constant(v), g.with_constant(v).calculations.len()),
        forall|p: int, cells: CellValues, scalars: RuntimeScalars|
            #[trigger] g.with_constant(v).value_of(p, g.constant(v), cells, scalars) == v,
{
    lemma_found_prefix(g.constants, v);
    let h = g.with_constant(v);
    lemma_sound_with_more(g, h);
}

/// More constants and rotations leave a graph sound.
proof fn lemma_sound_with_more(g: GraphModel, h: GraphModel)
    requires
        g.sound(),
        g.extends_to(h),
        h.calculations == g.calculations,
        h.fits(),
    ensures
        h.sound(),
{
    assert(h.constants[0] == g.constants[0] && h.constants[1] == g.constants[1] && h.constants[2]
        == g.constants[2]);
    assert forall|j: int| 0 <= j < h.calculations.len() implies h.valid_calculation(
        #[trigger] h.calculations[j],
        j as nat,
    ) by {
        let c = g.calculations[j];
        assert(g.valid_calculation(c, j as nat));
        if let CalculationModel::Horner(start, parts, factor) = c {
            assert forall|i: int| 0 <= i < parts.len() implies h.valid(
                #[trigger] parts[i],
                j as nat,
            ) by {
                assert(g.valid(parts[i], j as nat));
            }
        }
    }
}

proof fn lemma_with_cell(
    g: GraphModel,
    p: int,
    rotation: Rotation,
    cell: spec_fn(usize) -> ValueSource,
    value: int,
    cells: CellValues,
    scalars: RuntimeScalars,
)
    requires
        g.sound(),
        g.with_cell(rotation, cell).0.fits(),
        ({
            let at = find(g.rotations, rotation.0) as usize;
            let h = g.with_rotation(rotation);
            &&& h.valid(cell(at), h.calculations.len())
            &&& h.source(
                cell(at),
                h.all_intermediates(p, cells, scalars),
                cells,
                scalars,
            ) == value
        }),
    ensures
        ({
            let (h, s) = g.with_cell(rotation, cell);
            &&& h.sound()
            &&& g.extends_to(h)
            &&& h.valid(s, h.calculations.len())
            &&& h.value_of(p, s, cells, scalars) == value
        }),
{
    lemma_found_prefix(g.rotations, rotation.0);
    let h = g.with_rotation(rotation);
    let at = find(g.rotations, rotation.0) as usize;
    lemma_sound_with_more(g, h);
    lemma_calculated(h, p, CalculationModel::Store(cell(at)), cells, scalars);
}

proof fn lemma_with_difference(
    g: GraphModel,
    p: int,
    a: ValueSource,
    b: ValueSource,
    cells: CellValues,
    scalars: RuntimeScalars,
)
    requires
        p > 2,
        g.sound(),
        g.valid(a, g.calculations.len()),
        g.valid(b, g.calculations.len()),
        0 <= g.value_of(p, a, cells, scalars) < p,
        0 <= g.value_of(p, b, cells, scalars) < p,
        g.with_difference(a, b).0.fits(),
    ensures
        ({
            let (h, s) = g.with_difference(a, b);
            &&& h.sound()
            &&& g.extends_to(h)
            &&& h.valid(s, h.calculations.len())
            &&& h.value_of(p, s, cells, scalars) == fsub(
                p,
                g.value_of(p, a, cells, scalars),
                g.value_of(p, b, cells, scalars),
            )
        }),
{
    if a == zero_source() {
        lemma_calculated(g, p, CalculationModel::Negate(b), cells, scalars);
    } else if b == zero_source() {
        lemma_small_mod(g.value_of(p, a, cells, scalars) as nat, p as nat);
    } else {
        lemma_calculated(g, p, CalculationModel::Sub(a, b), cells, scalars);
    }
}

proof fn lemma_with_sum(
    g: GraphModel,
    p: int,
    a: ValueSource,
    b: ValueSource,
    cells: CellValues,
    scalars: RuntimeScalars,
)
    requires
        p > 2,
        g.sound(),
        g.valid(a, g.calculations.len()),
        g.valid(b, g.calculations.len()),
        0 <= g.value_of(p, a, cells, scalars) < p,
        0 <= g.value_of(p, b, cells, scalars) < p,
        g.with_sum(a, b).0.fits(),
    ensures
        ({
            let (h, s) = g.with_sum(a, b);
            &&& h.sound()
            &&& g.extends_to(h)
            &&& h.valid(s, h.calculations.len())
            &&& h.value_of(p, s, cells, scalars) == fadd(
                p,
                g.value_of(p, a, cells, scalars),
                g.value_of(p, b, cells, scalars),
            )
        }),
{
    if a == zero_source() {
        lemma_small_mod(g.value_of(p, b, cells, scalars) as nat, p as nat);
    } else if b == zero_source() {
        lemma_small_mod(g.value_of(p, a, cells, scalars) as nat, p as nat);
    } else {
        let (x, y) = ordered(a, b);
        lemma_calculated(g, p, CalculationModel::Add(x, y), cells, scalars);
    }
}

proof fn lemma_with_product(
    g: GraphModel,
    p: int,
    a: ValueSource,
    b: ValueSource,
    cells: CellValues,
    scalars: RuntimeScalars,
)
    requires
        p > 2,
        g.sound(),
        g.valid(a, g.calculations.len()),
        g.valid(b, g.calculations.len()),
        0 <= g.value_of(p, a, cells, scalars) < p,
        0 <= g.value_of(p, b, cells, scalars) < p,
        g.with_product(a, b).0.fits(),
    ensures
        ({
            let (h, s) = g.with_product(a, b);
            &&& h.sound()
            &&& g.extends_to(h)
            &&& h.valid(s, h.calculations.len())
            &&& h.value_of(p, s, cells, scalars) == fmul(
                p,
                g.value_of(p, a, cells, scalars),
                g.value_of(p, b, cells, scalars),
            )
        }),
{
    let u = g.value_of(p, a, cells, scalars);
    let v = g.value_of(p, b, cells, scalars);
    lemma_small_mod(u as nat, p as nat);
    lemma_small_mod(v as nat, p as nat);
    lemma_small_mod(0, p as nat);
    assert(0 * v == 0 && u * 0 == 0 && 1 * v == v && u * 1 == u && 2 * v == v + v
        && u * 2 == u + u);
    if a == zero_source() || b == zero_source() {
    } else if a == one_source() {
    } else if b == one_source() {
    } else if a == two_source() {
        lemma_calculated(g, p, CalculationModel::Double(b), cells, scalars);
    } else if b == two_source() {
        lemma_calculated(g, p, CalculationModel::Double(a), cells, scalars);
    } else if a == b {
        lemma_calculated(g, p, CalculationModel::Square(a), cells, scalars);
    } else {
        let (x, y) = ordered(a, b);
        lemma_calculated(g, p, CalculationModel::Mul(x, y), cells, scalars);
        lemma_fmul_comm(p, u, v);
    }
}

/// The graph of an expression computes it: over any cells, the source that
/// adding the expression gives has the value of the expression, and what the
/// graph held before is still there.
pub proof fn law_graph_computes_expression<F: Field>(
    g: GraphModel,
    e: GpuExpression<F>,
    cells: CellValues,
    scalars: RuntimeScalars,
)
    requires
        g.sound(),
        selector_free(e),
        cells.in_range(F::modulus()),
        g.with_expression(e).0.fits(),
    ensures
        ({
            let (h, s) = g.with_expression(e);
            &&& h.sound()
            &&& g.extends_to(h)
            &&& h.valid(s, h.calculations.len())
            &&& h.value_of(F::modulus(), s, cells, scalars) == e.value(cells)
        }),
    decreases e,
{
    let p = F::modulus();
    F::lemma_modulus();
    lemma_expression_extends(g, e);
    let target = g.with_expression(e).0;
    match e {
        GpuExpression::Constant(scalar) => {
            lemma_with_constant(g, scalar.val());
            assert(g.with_constant(scalar.val()).value_of(
                p,
                g.constant(scalar.val()),
                cells,
                scalars,
            ) == scalar.val());
        },
        GpuExpression::Selector(_) => {},
        GpuExpression::Fixed(query) => {
            lemma_found_prefix(g.rotations, query.rotation.0);
            lemma_with_cell(
                g,
                p,
                query.rotation,
                |at: usize| ValueSource::Fixed(query.column_index, at),
                e.value(cells),
                cells,
                scalars,
            );
        },
        GpuExpression::Advice(query) => {
            lemma_found_prefix(g.rotations, query.rotation.0);
            lemma_with_cell(
                g,
                p,
                query.rotation,
                |at: usize| ValueSource::Advice(query.column_index, at),
                e.value(cells),
                cells,
                scalars,
            );
        },
        GpuExpression::Instance(query) => {
            lemma_found_prefix(g.rotations, query.rotation.0);
            lemma_with_cell(
                g,
                p,
                query.rotation,
                |at: usize| ValueSource::Instance(query.column_index, at),
                e.value(cells),
                cells,
                scalars,
            );
        },
        GpuExpression::Challenge(challenge) => {
            lemma_calculated(
                g,
                p,
                CalculationModel::Store(ValueSource::Challenge(challenge.index)),
                cells,
                scalars,
            );
        },
        GpuExpression::Negated(a) => {
            if let GpuExpression::Constant(scalar) = *a {
                let v = fneg(p, scalar.val());
                assert(a.value(cells) == scalar.val());
                lemma_with_constant(g, v);
                assert(g.with_constant(v).value_of(p, g.constant(v), cells, scalars) == v);
            } else {
                let (h, x) = g.with_expression(*a);
                lemma_expression_extends(g, *a);
                lemma_fits_below(h, target);
                law_graph_computes_expression(g, *a, cells, scalars);
                if x != zero_source() {
                    lemma_calculated(h, p, CalculationModel::Negate(x), cells, scalars);
                } else {
                    lemma_small_mod(0, p as nat);
                }
            }
        },
        GpuExpression::Sum(a, b) => {
            let (h, x) = g.with_expression(*a);
            lemma_expression_extends(g, *a);
            lemma_expression_value_range(*a, cells);
            if let GpuExpression::Negated(b_int) = *b {
                assert(selector_free(*b) == selector_free(*b_int));
                let (k, y) = h.with_expression(*b_int);
                lemma_expression_extends(h, *b_int);
                lemma_expression_value_range(*b_int, cells);
                lemma_fits_below(k, target);
                lemma_fits_below(h, target);
                law_graph_computes_expression(g, *a, cells, scalars);
                law_graph_computes_expression(h, *b_int, cells, scalars);
                lemma_value_stable(h, k, p, x, cells, scalars);
                lemma_with_difference(k, p, x, y, cells, scalars);
                assert(b.value(cells) == fneg(p, b_int.value(cells)));
                lemma_fsub_is_add_neg(p, a.value(cells), b_int.value(cells));
            } else {
                let (k, y) = h.with_expression(*b);
                lemma_expression_extends(h, *b);
                lemma_expression_value_range(*b, cells);
                lemma_fits_below(k, target);
                lemma_fits_below(h, target);
                law_graph_computes_expression(g, *a, cells, scalars);
                law_graph_computes_expression(h, *b, cells, scalars);
                lemma_value_stable(h, k, p, x, cells, scalars);
                lemma_with_sum(k, p, x, y, cells, scalars);
            }
        },
        GpuExpression::Product(a, b) => {
            let (h, x) = g.with_expression(*a);
            let (k, y) = h.with_expression(*b);
            lemma_expression_extends(g, *a);
            lemma_expression_extends(h, *b);
            lemma_expression_value_range(*a, cells);
            lemma_expression_value_range(*b, cells);
            lemma_fits_below(k, target);
            lemma_fits_below(h, target);
            law_graph_computes_expression(g, *a, cells, scalars);
            law_graph_computes_expression(h, *b, cells, scalars);
            lemma_value_stable(h, k, p, x, cells, scalars);
            lemma_with_product(k, p, x, y, cells, scalars);
        },
        GpuExpression::Scaled(a, f) => {
            lemma_expression_value_range(*a, cells);
            let v = a.value(cells);
            lemma_small_mod(0, p as nat);
            assert(v * 0 == 0 && v * 1 == v);
            if f.val() == 0 {
            } else if f.val() == 1 {
                lemma_small_mod(v as nat, p as nat);
                law_graph_computes_expression(g, *a, cells, scalars);
            } else {
                let k = g.with_constant(f.val());
                let c = g.constant(f.val());
                let (h, x) = k.with_expression(*a);
                lemma_expression_extends(k, *a);
                lemma_fits_below(h, target);
                lemma_fits_below(k, target);
                lemma_with_constant(g, f.val());
                assert(k.value_of(p, c, cells, scalars) == f.val());
                law_graph_computes_expression(k, *a, cells, scalars);
                lemma_value_stable(k, h, p, c, cells, scalars);
                lemma_calculated(h, p, CalculationModel::Mul(x, c), cells, scalars);
            }
        },
    }
}

proof fn lemma_fits_below(g: GraphModel, h: GraphModel)
    requires
        g.constants.len() <= h.constants.len(),
        g.rotations.len() <= h.rotations.len(),
        g.calculations.len() <= h.calculations.len(),
        h.fits(),
    ensures
        g.fits(),
{
}

/// The graph of a list of expressions computes each of them.
pub proof fn law_graph_computes_expressions<F: Field>(
    g: GraphModel,
    s: Seq<GpuExpression<F>>,
    cells: CellValues,
    scalars: RuntimeScalars,
)
    requires
        g.sound(),
        all_selector_free(s),
        cells.in_range(F::modulus()),
        g.with_expressions(s).0.fits(),
    ensures
        ({
            let (h, sources) = g.with_expressions(s);
            &&& h.sound()
            &&& g.extends_to(h)
            &&& sources.len() == s.len()
            &&& h.all_valid(sources, h.calculations.len())
            &&& forall|i: int|
                0 <= i < s.len() ==> h.value_of(
                    F::modulus(),
                    #[trigger] sources[i],
                    cells,
                    scalars,
                ) == s[i].value(cells)
        }),
    decreases s.len(),
{
    if s.len() > 0 {
        let p = F::modulus();
        let (h, sources) = g.with_expressions(s.drop_last());
        let (k, x) = h.with_expression(s.last());
        lemma_expression_extends(h, s.last());
        lemma_fits_below(h, k);
        assert(all_selector_free(s.drop_last())) by {
            assert forall|i: int| 0 <= i < s.len() - 1 implies selector_free(
                #[trigger] s.drop_last()[i],
            ) by {
                assert(selector_free(s[i]));
            }
        }
        law_graph_computes_expressions(g, s.drop_last(), cells, scalars);
        assert(selector_free(s[s.len() - 1]));
        law_graph_computes_expression(h, s.last(), cells, scalars);
        let all = sources.push(x);
        assert forall|i: int| 0 <= i < s.len() implies k.valid(
            #[trigger] all[i],
            k.calculations.len(),
        ) && k.value_of(p, all[i], cells, scalars) == s[i].value(cells) by {
            if i < s.len() - 1 {
                assert(h.valid(sources[i], h.calculations.len()));
                lemma_value_stable(h, k, p, sources[i], cells, scalars);
                assert(s.drop_last()[i] == s[i]);
            }
        }
    }
}

} // verus!
