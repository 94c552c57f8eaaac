//! Flattening graphs that refer to runtime scalars: the scalars become
//! constants, and Horner's rule is unrolled into products and sums.

use crate::field::Field;
use crate::plonk::encoding::{graph_encodable, packed_sources, rules_of, CalcRule};
use crate::plonk::evaluation::{lemma_calculation_reads, sources_of};
use crate::plonk::evaluator::{is_result, plain, plain_source};
use crate::plonk::expression::CellValues;
use crate::plonk::graph::{
    zero_source, Calculation, CalculationModel, GraphEvaluator, GraphModel, ValueSource,
};
use crate::plonk::graph_values::{
    horner, lemma_intermediates_prefix, lemma_intermediates_stable, lemma_value_stable,
    RuntimeScalars,
};
use crate::plonk::tape::{all_small, constants_in_range, law_tape_computes_graph, tape_value};
use vstd::prelude::*;

verus! {

/// A source in the flattened graph: runtime scalars are constants behind the
/// first `n`, in the order theta, beta, gamma, y, and intermediates have moved.
pub open spec fn rewritten(s: ValueSource, positions: Seq<usize>, n: nat) -> ValueSource {
    match s {
        ValueSource::Beta() => ValueSource::Constant((n + 1) as usize),
        ValueSource::Gamma() => ValueSource::Constant((n + 2) as usize),
        ValueSource::Theta() => ValueSource::Constant(n as usize),
        ValueSource::Y() => ValueSource::Constant((n + 3) as usize),
        ValueSource::Intermediate(j) => ValueSource::Intermediate(positions[j as int]),
        _ => s,
    }
}

/// Sources in the flattened graph.
pub open spec fn all_rewritten(s: Seq<ValueSource>, positions: Seq<usize>, n: nat) -> Seq<
    ValueSource,
> {
    Seq::new(s.len(), |i: int| rewritten(s[i], positions, n))
}

/// A calculation over sources in the flattened graph.
pub open spec fn calculation_rewritten(
    c: CalculationModel,
    positions: Seq<usize>,
    n: nat,
) -> CalculationModel {
    match c {
        CalculationModel::Add(a, b) => CalculationModel::Add(
            rewritten(a, positions, n),
            rewritten(b, positions, n),
        ),
        CalculationModel::Sub(a, b) => CalculationModel::Sub(
            rewritten(a, positions, n),
            rewritten(b, positions, n),
        ),
        CalculationModel::Mul(a, b) => CalculationModel::Mul(
            rewritten(a, positions, n),
            rewritten(b, positions, n),
        ),
        CalculationModel::Square(a) => CalculationModel::Square(rewritten(a, positions, n)),
        CalculationModel::Double(a) => CalculationModel::Double(rewritten(a, positions, n)),
        CalculationModel::Negate(a) => CalculationModel::Negate(rewritten(a, positions, n)),
        CalculationModel::Horner(start, parts, factor) => CalculationModel::Horner(
            rewritten(start, positions, n),
            all_rewritten(parts, positions, n),
            rewritten(factor, positions, n),
        ),
        CalculationModel::Store(a) => CalculationModel::Store(rewritten(a, positions, n)),
    }
}

/// The last intermediate of calculations.
pub open spec fn last_intermediate(s: Seq<CalculationModel>) -> ValueSource {
    ValueSource::Intermediate((s.len() - 1) as usize)
}

/// The calculations with `start * factor + part` unrolled over the parts, and
/// the source of the result.
pub open spec fn unrolled(
    calculations: Seq<CalculationModel>,
    start: ValueSource,
    parts: Seq<ValueSource>,
    factor: ValueSource,
) -> (Seq<CalculationModel>, ValueSource)
    decreases parts.len(),
{
    if parts.len() == 0 {
        (calculations, start)
    } else {
        let (before, acc) = unrolled(calculations, start, parts.drop_last(), factor);
        let product = before.push(CalculationModel::Mul(acc, factor));
        let sum = product.push(CalculationModel::Add(last_intermediate(product), parts.last()));
        (sum, last_intermediate(sum))
    }
}

/// Flattened calculations, and the position of each calculation's result among
/// them.
pub struct Flattened {
    pub calculations: Seq<CalculationModel>,
    pub positions: Seq<usize>,
}

impl Flattened {
    /// One calculation more.
    pub open spec fn with(self, c: CalculationModel, n: nat) -> Flattened {
        let calculations = match calculation_rewritten(c, self.positions, n) {
            CalculationModel::Horner(start, parts, factor) => if parts.len() == 0 {
                self.calculations.push(CalculationModel::Store(start))
            } else {
                unrolled(self.calculations, start, parts, factor).0
            },
            rewritten => self.calculations.push(rewritten),
        };
        Flattened {
            calculations,
            positions: self.positions.push((calculations.len() - 1) as usize),
        }
    }
}

/// The flattened form of calculations, in a graph of `n` constants.
pub open spec fn flattened(s: Seq<CalculationModel>, n: nat) -> Flattened
    decreases s.len(),
{
    if s.len() == 0 {
        Flattened { calculations: seq![], positions: seq![] }
    } else {
        flattened(s.drop_last(), n).with(s.last(), n)
    }
}

/// The flattened form of a whole graph's calculations: the last one is Horner's
/// rule, over the result alone where it was another calculation.
pub open spec fn terminated(s: Seq<CalculationModel>, n: nat) -> Seq<CalculationModel> {
    let f = flattened(s.drop_last(), n);
    match calculation_rewritten(s.last(), f.positions, n) {
        CalculationModel::Horner(start, parts, factor) => f.calculations.push(
            CalculationModel::Horner(start, parts, factor),
        ),
        rewritten => {
            let all = f.calculations.push(rewritten);
            all.push(
                CalculationModel::Horner(zero_source(), seq![last_intermediate(all)],
                    zero_source()),
            )
        },
    }
}

/// The graph whose runtime scalars have become constants.
pub open spec fn with_runtime_constants(g: GraphModel, scalars: RuntimeScalars) -> GraphModel {
    GraphModel {
        constants: g.constants + seq![scalars.theta, scalars.beta, scalars.gamma, scalars.y],
        rotations: g.rotations,
        calculations: terminated(g.calculations, g.constants.len()),
    }
}

/// Whether a calculation refers to the previous value nowhere.
pub open spec fn no_previous(c: CalculationModel) -> bool {
    forall|i: int|
        0 <= i < sources_of(c).len() ==> !((#[trigger] sources_of(c)[i]) is PreviousValue)
}

/// Whether a graph can be encoded for the device: it computes something, each
/// calculation only refers to earlier ones, and none of them or of the last
/// one's parts refers to the previous value. What the last one starts from and
/// is folded by is not encoded, if it is an application of Horner's rule.
pub open spec fn device_encodable(g: GraphModel) -> bool {
    &&& g.calculations.len() > 0
    &&& g.constants.len() + 4 <= usize::MAX
    &&& forall|i: int|
        0 <= i < g.calculations.len() ==> g.valid_calculation(
            #[trigger] g.calculations[i],
            i as nat,
        )
    &&& forall|i: int|
        0 <= i < g.calculations.len() - 1 ==> no_previous(#[trigger] g.calculations[i])
    &&& match g.calculations.last() {
        CalculationModel::Horner(_, parts, _) => forall|j: int|
            0 <= j < parts.len() ==> !((#[trigger] parts[j]) is PreviousValue),
        c => no_previous(c),
    }
}

/// Whether a graph computes the same when it is flattened: it computes something, each calculation
/// only refers to earlier ones, and none to the previous value.
pub open spec fn flattenable(g: GraphModel) -> bool {
    &&& g.calculations.len() > 0
    &&& g.constants.len() + 4 <= usize::MAX
    &&& forall|i: int|
        0 <= i < g.calculations.len() ==> g.valid_calculation(
            #[trigger] g.calculations[i],
            i as nat,
        ) && no_previous(g.calculations[i])
}

fn rewrite(s: &ValueSource, positions: &Vec<usize>, theta_idx: usize) -> (r: ValueSource)
    requires
        theta_idx + 3 <= usize::MAX,
        *s is Intermediate ==> s->Intermediate_0 < positions@.len(),
    ensures
        r == rewritten(*s, positions@, theta_idx as nat),
{
    match s {
        ValueSource::Beta() => ValueSource::Constant(theta_idx + 1),
        ValueSource::Gamma() => ValueSource::Constant(theta_idx + 2),
        ValueSource::Theta() => ValueSource::Constant(theta_idx),
        ValueSource::Y() => ValueSource::Constant(theta_idx + 3),
        ValueSource::Intermediate(j) => ValueSource::Intermediate(positions[*j]),
        other => *other,
    }
}

fn rewrite_all(
    parts: &Vec<ValueSource>,
    positions: &Vec<usize>,
    theta_idx: usize,
) -> (r: Vec<ValueSource>)
    requires
        theta_idx + 3 <= usize::MAX,
        forall|i: int|
            0 <= i < parts@.len() ==> ((#[trigger] parts@[i]) is Intermediate
                ==> parts@[i]->Intermediate_0 < positions@.len()),
    ensures
        r@ == all_rewritten(parts@, positions@, theta_idx as nat),
{
    let mut out: Vec<ValueSource> = Vec::new();
    let mut i: usize = 0;
    while i < parts.len()
        invariant
            i <= parts@.len(),
            theta_idx + 3 <= usize::MAX,
            forall|i: int|
                0 <= i < parts@.len() ==> ((#[trigger] parts@[i]) is Intermediate
                    ==> parts@[i]->Intermediate_0 < positions@.len()),
            out@ == all_rewritten(parts@.take(i as int), positions@, theta_idx as nat),
        decreases parts@.len() - i,
    {
        out.push(rewrite(&parts[i], positions, theta_idx));
        i += 1;
        assert(out@ =~= all_rewritten(parts@.take(i as int), positions@, theta_idx as nat));
    }
    assert(parts@.take(i as int) =~= parts@);
    out
}

fn rewrite_calculation(
    c: &Calculation,
    positions: &Vec<usize>,
    theta_idx: usize,
    g: Ghost<GraphModel>,
) -> (r: Calculation)
    requires
        theta_idx + 3 <= usize::MAX,
        g@.valid_calculation(c@, positions@.len()),
    ensures
        r@ == calculation_rewritten(c@, positions@, theta_idx as nat),
{
    match c {
        Calculation::Add(a, b) => Calculation::Add(
            rewrite(a, positions, theta_idx),
            rewrite(b, positions, theta_idx),
        ),
        Calculation::Sub(a, b) => Calculation::Sub(
            rewrite(a, positions, theta_idx),
            rewrite(b, positions, theta_idx),
        ),
        Calculation::Mul(a, b) => Calculation::Mul(
            rewrite(a, positions, theta_idx),
            rewrite(b, positions, theta_idx),
        ),
        Calculation::Square(v) => Calculation::Square(rewrite(v, positions, theta_idx)),
        Calculation::Double(v) => Calculation::Double(rewrite(v, positions, theta_idx)),
        Calculation::Negate(v) => Calculation::Negate(rewrite(v, positions, theta_idx)),
        Calculation::Store(v) => Calculation::Store(rewrite(v, positions, theta_idx)),
        Calculation::Horner(start, parts, factor) => {
            assert forall|i: int|
                0 <= i < parts@.len() && (
                #[trigger] parts@[i]) is Intermediate implies parts@[i]->Intermediate_0
                < positions@.len() by {
                assert(g@.valid(parts@[i], positions@.len()));
            }
            Calculation::Horner(
                rewrite(start, positions, theta_idx),
                rewrite_all(parts, positions, theta_idx),
                rewrite(factor, positions, theta_idx),
            )
        },
    }
}

/// The calculations of executable ones.
pub open spec fn models(s: Seq<Calculation>) -> Seq<CalculationModel> {
    s.map_values(|c: Calculation| c@)
}

fn push_calculation(calcs: &mut Vec<Calculation>, c: Calculation)
    ensures
        models(final(calcs)@) == models(old(calcs)@).push(c@),
        final(calcs)@.len() == old(calcs)@.len() + 1,
{
    calcs.push(c);
    assert(models(calcs@) =~= models(old(calcs)@).push(c@));
}

fn unroll(
    calcs: &mut Vec<Calculation>,
    start: ValueSource,
    parts: &Vec<ValueSource>,
    factor: ValueSource,
)
    ensures
        models(final(calcs)@) == unrolled(models(old(calcs)@), start, parts@, factor).0,
{
    let mut acc = start;
    let mut i: usize = 0;
    assert(parts@.take(0) =~= seq![]);
    while i < parts.len()
        invariant
            i <= parts@.len(),
            (models(calcs@), acc) == unrolled(
                models(old(calcs)@),
                start,
                parts@.take(i as int),
                factor,
            ),
        decreases parts@.len() - i,
    {
        assert(parts@.take(i + 1).drop_last() =~= parts@.take(i as int));
        push_calculation(calcs, Calculation::Mul(acc, factor));
        let mul_idx = calcs.len() - 1;
        push_calculation(calcs, Calculation::Add(ValueSource::Intermediate(mul_idx), parts[i]));
        acc = ValueSource::Intermediate(calcs.len() - 1);
        i += 1;
    }
    assert(parts@.take(i as int) =~= parts@);
}

fn encode_flat(calcs: &Vec<Calculation>, rotations: &Vec<i32>) -> (r: (Vec<CalcRule>, Vec<u64>))
    requires
        graph_encodable(models(calcs@), rotations@),
    ensures
        r.0@ == rules_of(models(calcs@).drop_last(), rotations@),
        r.1@ == packed_sources(models(calcs@).last()->Horner_1, rotations@),
{
    let n = calcs.len() - 1;
    let ghost s = models(calcs@);
    let mut intermediate_rules: Vec<CalcRule> = Vec::new();
    let mut i: usize = 0;
    while i < n
        invariant
            i <= n,
            n == calcs@.len() - 1,
            s == models(calcs@),
            graph_encodable(s, rotations@),
            intermediate_rules@ == rules_of(s.take(i as int), rotations@),
        decreases n - i,
    {
        assert(!(s[i as int] is Horner) && s[i as int].encodable(rotations@));
        intermediate_rules.push(calcs[i].encode(rotations));
        i += 1;
        assert(intermediate_rules@ =~= rules_of(s.take(i as int), rotations@));
    }
    assert(s.take(n as int) =~= s.drop_last());
    let value_part_rules = calcs[n].encode_vp(rotations);
    (intermediate_rules, value_part_rules)
}

/// Rewritten sources of valid ones can be packed.
proof fn lemma_rewritten_encodable(g: GraphModel, s: ValueSource, positions: Seq<usize>, m: nat)
    requires
        g.valid(s, m),
        !(s is PreviousValue),
    ensures
        rewritten(s, positions, g.constants.len()).encodable(g.rotations),
        plain_source(rewritten(s, positions, g.constants.len())),
{
}

proof fn lemma_calculation_rewritten(
    g: GraphModel,
    c: CalculationModel,
    positions: Seq<usize>,
    m: nat,
)
    requires
        g.valid_calculation(c, m),
        no_previous(c),
    ensures
        ({
            let d = calculation_rewritten(c, positions, g.constants.len());
            &&& sources_of(d) == all_rewritten(sources_of(c), positions, g.constants.len())
            &&& d.encodable(g.rotations)
            &&& (d is Horner || plain(d))
            &&& d is Horner == c is Horner
        }),
{
    let n = g.constants.len();
    let d = calculation_rewritten(c, positions, n);
    let s = sources_of(c);
    assert(sources_of(d) =~= all_rewritten(s, positions, n));
    assert forall|i: int| 0 <= i < s.len() implies g.valid(#[trigger] s[i], m) by {
        if let CalculationModel::Horner(start, parts, factor) = c {
            if i >= 2 {
                assert(s[i] == parts[i - 2]);
            }
        }
    }
    assert forall|i: int| 0 <= i < sources_of(d).len() implies (
    #[trigger] sources_of(d)[i]).encodable(g.rotations) && plain_source(sources_of(d)[i]) by {
        lemma_rewritten_encodable(g, s[i], positions, m);
    }
    match d {
        CalculationModel::Add(a, b) => {
            assert(sources_of(d)[0] == a && sources_of(d)[1] == b);
        },
        CalculationModel::Sub(a, b) => {
            assert(sources_of(d)[0] == a && sources_of(d)[1] == b);
        },
        CalculationModel::Mul(a, b) => {
            assert(sources_of(d)[0] == a && sources_of(d)[1] == b);
        },
        CalculationModel::Square(a) => {
            assert(sources_of(d)[0] == a);
        },
        CalculationModel::Double(a) => {
            assert(sources_of(d)[0] == a);
        },
        CalculationModel::Negate(a) => {
            assert(sources_of(d)[0] == a);
        },
        CalculationModel::Store(a) => {
            assert(sources_of(d)[0] == a);
        },
        _ => {},
    }
}

/// Whether calculations are plain and can be packed.
pub open spec fn all_packable(s: Seq<CalculationModel>, rotations: Seq<i32>) -> bool {
    forall|i: int|
        0 <= i < s.len() ==> plain(#[trigger] s[i]) && s[i].encodable(rotations)
}

proof fn lemma_unrolled_packable(
    calculations: Seq<CalculationModel>,
    start: ValueSource,
    parts: Seq<ValueSource>,
    factor: ValueSource,
    rotations: Seq<i32>,
)
    requires
        all_packable(calculations, rotations),
        plain_source(start) && start.encodable(rotations),
        plain_source(factor) && factor.encodable(rotations),
        forall|i: int|
            0 <= i < parts.len() ==> plain_source(#[trigger] parts[i]) && parts[i].encodable(
                rotations,
            ),
    ensures
        all_packable(unrolled(calculations, start, parts, factor).0, rotations),
        plain_source(unrolled(calculations, start, parts, factor).1),
        unrolled(calculations, start, parts, factor).1.encodable(rotations),
        unrolled(calculations, start, parts, factor).0.len() == calculations.len() + 2
            * parts.len(),
    decreases parts.len(),
{
    if parts.len() > 0 {
        lemma_unrolled_packable(calculations, start, parts.drop_last(), factor, rotations);
        let (before, acc) = unrolled(calculations, start, parts.drop_last(), factor);
        let c = CalculationModel::Mul(acc, factor);
        let product = before.push(c);
        let d = CalculationModel::Add(last_intermediate(product), parts.last());
        assert(sources_of(c) =~= seq![acc, factor]);
        assert(sources_of(d) =~= seq![last_intermediate(product), parts.last()]);
        assert(plain_source(parts[parts.len() - 1]));
        assert(plain(c) && c.encodable(rotations));
        assert(plain(d) && d.encodable(rotations));
    }
}

/// One more calculation keeps the flattened ones plain and packable.
proof fn lemma_with_packable(f: Flattened, g: GraphModel, c: CalculationModel)
    requires
        all_packable(f.calculations, g.rotations),
        g.valid_calculation(c, f.positions.len()),
        no_previous(c),
    ensures
        all_packable(f.with(c, g.constants.len()).calculations, g.rotations),
        f.with(c, g.constants.len()).positions.len() == f.positions.len() + 1,
        f.with(c, g.constants.len()).calculations.len() > f.calculations.len(),
{
    let n = g.constants.len();
    lemma_calculation_rewritten(g, c, f.positions, f.positions.len());
    let d = calculation_rewritten(c, f.positions, n);
    if let CalculationModel::Horner(start, parts, factor) = d {
        let s = sources_of(d);
        assert(s[0] == start && s[1] == factor);
        assert(start.encodable(g.rotations) && factor.encodable(g.rotations));
        let c0 = sources_of(c);
        assert(forall|i: int|
            0 <= i < s.len() ==> #[trigger] s[i] == rewritten(c0[i], f.positions, n));
        assert forall|i: int| 0 <= i < s.len() implies plain_source(#[trigger] s[i]) by {
            assert(s[i].encodable(g.rotations));
        }
        assert forall|i: int| 0 <= i < parts.len() implies plain_source(#[trigger] parts[i])
            && parts[i].encodable(g.rotations) by {
            assert(s[i + 2] == parts[i]);
        }
        if parts.len() == 0 {
            let e = CalculationModel::Store(start);
            assert(sources_of(e) =~= seq![start]);
            assert(plain(e) && e.encodable(g.rotations));
        } else {
            lemma_unrolled_packable(f.calculations, start, parts, factor, g.rotations);
        }
    }
}

/// The calculations of a flattened graph can be encoded.
pub proof fn lemma_flattened_packable(g: GraphModel, m: nat)
    requires
        device_encodable(g),
        m < g.calculations.len(),
    ensures
        ({
            let f = flattened(g.calculations.take(m as int), g.constants.len());
            &&& all_packable(f.calculations, g.rotations)
            &&& f.positions.len() == m
            &&& f.calculations.len() >= m
        }),
    decreases m,
{
    if m > 0 {
        let k = (m - 1) as nat;
        lemma_flattened_packable(g, k);
        let c = g.calculations[k as int];
        assert(g.valid_calculation(c, k) && no_previous(c));
        assert(g.calculations.take(m as int).drop_last() =~= g.calculations.take(k as int));
        lemma_with_packable(
            flattened(g.calculations.take(k as int), g.constants.len()),
            g,
            c,
        );
    }
}

/// A graph without references to the previous value can be encoded.
pub proof fn lemma_flattenable_encodable(g: GraphModel)
    requires
        flattenable(g),
    ensures
        device_encodable(g),
{
    let m = g.calculations.len() - 1;
    let c = g.calculations[m];
    assert(no_previous(c));
    if let CalculationModel::Horner(start, parts, factor) = c {
        assert forall|j: int| 0 <= j < parts.len() implies !((
        #[trigger] parts[j]) is PreviousValue) by {
            assert(sources_of(c)[j + 2] == parts[j]);
        }
    }
}

pub proof fn lemma_terminated_encodable(g: GraphModel)
    requires
        device_encodable(g),
    ensures
        graph_encodable(terminated(g.calculations, g.constants.len()), g.rotations),
        all_packable(terminated(g.calculations, g.constants.len()).drop_last(), g.rotations),
{
    let m = (g.calculations.len() - 1) as nat;
    let n = g.constants.len();
    lemma_flattened_packable(g, m);
    assert(g.calculations.take(m as int) =~= g.calculations.drop_last());
    let f = flattened(g.calculations.drop_last(), n);
    let c = g.calculations.last();
    assert(g.valid_calculation(g.calculations[m as int], m));
    let d = calculation_rewritten(c, f.positions, n);
    let t = terminated(g.calculations, n);
    if let CalculationModel::Horner(start, parts, factor) = c {
        assert(t.drop_last() =~= f.calculations);
        let all = all_rewritten(parts, f.positions, n);
        assert(d->Horner_1 == all);
        assert forall|i: int| 0 <= i < all.len() implies (#[trigger] all[i]).encodable(
            g.rotations,
        ) by {
            lemma_rewritten_encodable(g, parts[i], f.positions, m);
        }
    } else {
        lemma_calculation_rewritten(g, c, f.positions, m);
        assert(t.drop_last() =~= f.calculations.push(d));
    }
    assert forall|i: int| 0 <= i < t.len() - 1 implies !((#[trigger] t[i]) is Horner)
        && t[i].encodable(g.rotations) by {
        assert(t[i] == t.drop_last()[i]);
    }
}

impl<F: Field> GraphEvaluator<F> {
    /// Flatten this graph for the device kernels when the graph references
    /// `Beta`/`Gamma`/`Theta`/`Y` or contains internal `Horner` calculations.
    ///
    /// Returns `(extended_constants, intermediate_rules, value_part_rules)`:
    /// - `extended_constants` = `self.constants` with `[theta, beta,
    ///   gamma, y]` appended at fixed trailing slots. Any
    ///   `Beta`/`Gamma`/`Theta`/`Y` `ValueSource` in `self.calculations` is
    ///   rewritten to `Constant(slot)` pointing at the appended slot.
    /// - `intermediate_rules` = each internal calc packed as a
    ///   [`CalcRule`]. Internal `Horner(start, parts, factor)` calcs
    ///   are unrolled into a sequence of `Mul`/`Add` intermediates
    ///   `acc_{i+1} = acc_i * factor + parts[i]`; the unrolled
    ///   intermediates are renumbered and downstream references are
    ///   remapped to the new indices.
    /// - `value_part_rules` = the terminal calc's parts. If the
    ///   terminal is a `Horner`, its parts are serialised directly. For
    ///   any other terminal shape, a synthetic single-part
    ///   `Horner(Constant(0), [Intermediate(term)], Constant(0))` is
    ///   emitted; the kernel's value-part loop yields
    ///   `val = 0 * y + term = term`.
    pub fn encode_for_device_with_runtime_constants(
        &self,
        theta: F,
        beta: F,
        gamma: F,
        y: F,
    ) -> (r: (Vec<F>, Vec<CalcRule>, Vec<u64>))
        requires
            device_encodable(self@),
        ensures
            r.0@ == self.constants@ + seq![theta, beta, gamma, y],
            ({
                let t = terminated(self@.calculations, self@.constants.len());
                &&& r.1@ == rules_of(t.drop_last(), self@.rotations)
                &&& r.2@ == packed_sources(t.last()->Horner_1, self@.rotations)
            }),
    {
        let ghost g = self@;
        let theta_idx = self.constants.len();
        let mut constants: Vec<F> = Vec::new();
        let mut i: usize = 0;
        while i < self.constants.len()
            invariant
                i <= self.constants@.len(),
                constants@ == self.constants@.take(i as int),
            decreases self.constants@.len() - i,
        {
            constants.push(self.constants[i]);
            i += 1;
        }
        assert(self.constants@.take(i as int) =~= self.constants@);
        constants.push(theta);
        constants.push(beta);
        constants.push(gamma);
        constants.push(y);
        assert(constants@ =~= self.constants@ + seq![theta, beta, gamma, y]);

        let mut new_calcs: Vec<Calculation> = Vec::new();
        let mut remap: Vec<usize> = Vec::new();
        let last = self.calculations.len() - 1;
        let ghost n = g.constants.len();
        let mut i: usize = 0;
        assert(g.calculations.take(0) =~= seq![]);
        assert(models(new_calcs@) =~= seq![]);
        while i < last
            invariant
                i <= last,
                last == self.calculations@.len() - 1,
                g == self@,
                n == g.constants.len(),
                n == theta_idx,
                device_encodable(g),
                remap@.len() == i,
                flattened(g.calculations.take(i as int), n) == (Flattened {
                    calculations: models(new_calcs@),
                    positions: remap@,
                }),
            decreases last - i,
        {
            let info = &self.calculations[i];
            let ghost c = info.calculation@;
            let ghost f = flattened(g.calculations.take(i as int), n);
            proof {
                assert(g.calculations[i as int] == c);
                assert(g.valid_calculation(g.calculations[i as int], i as nat));
                assert(no_previous(g.calculations[i as int]));
                assert(g.calculations.take(i + 1).drop_last() =~= g.calculations.take(i as int));
                assert(g.calculations.take(i + 1).last() == c);
                lemma_flattened_packable(g, i as nat);
                lemma_with_packable(f, g, c);
            }
            let rewritten_calc = rewrite_calculation(
                &info.calculation,
                &remap,
                theta_idx,
                Ghost(g),
            );
            match rewritten_calc {
                Calculation::Horner(start, parts, factor) => {
                    if parts.len() == 0 {
                        push_calculation(&mut new_calcs, Calculation::Store(start));
                    } else {
                        unroll(&mut new_calcs, start, &parts, factor);
                    }
                },
                other => {
                    push_calculation(&mut new_calcs, other);
                },
            }
            remap.push(new_calcs.len() - 1);
            i += 1;
        }
        proof {
            assert(g.calculations.take(i as int) =~= g.calculations.drop_last());
            assert(g.calculations[last as int] == self.calculations@[last as int].calculation@);
            assert(g.valid_calculation(g.calculations[last as int], last as nat));
            lemma_terminated_encodable(g);
        }
        let terminal = rewrite_calculation(
            &self.calculations[last].calculation,
            &remap,
            theta_idx,
            Ghost(g),
        );
        match terminal {
            Calculation::Horner(start, parts, factor) => {
                push_calculation(&mut new_calcs, Calculation::Horner(start, parts, factor));
            },
            other => {
                push_calculation(&mut new_calcs, other);
                let term_idx = new_calcs.len() - 1;
                let mut parts: Vec<ValueSource> = Vec::new();
                parts.push(ValueSource::Intermediate(term_idx));
                assert(parts@ =~= seq![last_intermediate(models(new_calcs@))]);
                push_calculation(
                    &mut new_calcs,
                    Calculation::Horner(ValueSource::Constant(0), parts, ValueSource::Constant(0)),
                );
            },
        }
        assert(models(new_calcs@) == terminated(g.calculations, n));
        let (intermediate_rules, value_part_rules) = encode_flat(&new_calcs, &self.rotations);
        (constants, intermediate_rules, value_part_rules)
    }
}

/// The graph with one calculation more at its end.
pub open spec fn pushed(g: GraphModel, c: CalculationModel) -> GraphModel {
    GraphModel { calculations: g.calculations.push(c), ..g }
}

/// A valid calculation at the end of a graph has its value there.
proof fn lemma_pushed(
    g: GraphModel,
    c: CalculationModel,
    p: int,
    cells: CellValues,
    scalars: RuntimeScalars,
)
    requires
        g.sound(),
        g.valid_calculation(c, g.calculations.len()),
        g.calculations.len() < usize::MAX,
    ensures
        pushed(g, c).sound(),
        g.extends_to(pushed(g, c)),
        pushed(g, c).value_of(p, last_intermediate(pushed(g, c).calculations), cells, scalars)
            == g.calculation(p, c, g.all_intermediates(p, cells, scalars), cells, scalars),
{
    let h = pushed(g, c);
    let n = g.calculations.len();
    assert forall|j: int| 0 <= j < h.calculations.len() implies h.valid_calculation(
        #[trigger] h.calculations[j],
        j as nat,
    ) by {
        let d = h.calculations[j];
        assert(g.valid_calculation(d, j as nat)) by {
            if j < n {
                assert(d == g.calculations[j]);
            }
        }
        if let CalculationModel::Horner(start, parts, factor) = d {
            assert forall|i: int| 0 <= i < parts.len() implies h.valid(
                #[trigger] parts[i],
                j as nat,
            ) by {
                assert(g.valid(parts[i], j as nat));
            }
        }
    }
    lemma_intermediates_stable(g, h, p, n, cells, scalars);
    lemma_intermediates_prefix(h, p, n, (n + 1) as nat, cells, scalars);
    let before = g.all_intermediates(p, cells, scalars);
    let value = |s: ValueSource| g.source(s, before, cells, scalars);
    let other = |s: ValueSource| h.source(s, before, cells, scalars);
    assert forall|i: int| 0 <= i < sources_of(c).len() implies value(
        #[trigger] sources_of(c)[i],
    ) == other(sources_of(c)[i]) by {}
    lemma_calculation_reads(p, c, value, other);
}

/// Unrolling Horner's rule gives its value.
proof fn lemma_unrolled_value(
    g: GraphModel,
    start: ValueSource,
    parts: Seq<ValueSource>,
    factor: ValueSource,
    p: int,
    cells: CellValues,
    scalars: RuntimeScalars,
)
    requires
        g.sound(),
        g.valid(start, g.calculations.len()),
        g.valid(factor, g.calculations.len()),
        g.all_valid(parts, g.calculations.len()),
        unrolled(g.calculations, start, parts, factor).0.len() <= usize::MAX,
    ensures
        ({
            let (d, x) = unrolled(g.calculations, start, parts, factor);
            let h = GraphModel { calculations: d, ..g };
            &&& h.sound()
            &&& g.extends_to(h)
            &&& h.valid(x, d.len())
            &&& parts.len() > 0 ==> x == last_intermediate(d)
            &&& d.len() == g.calculations.len() + 2 * parts.len()
            &&& h.value_of(p, x, cells, scalars) == horner(
                p,
                g.value_of(p, start, cells, scalars),
                Seq::new(parts.len(), |i: int| g.value_of(p, parts[i], cells, scalars)),
                g.value_of(p, factor, cells, scalars),
            )
        }),
    decreases parts.len(),
{
    let values = Seq::new(parts.len(), |i: int| g.value_of(p, parts[i], cells, scalars));
    if parts.len() > 0 {
        let most = parts.drop_last();
        let (d, acc) = unrolled(g.calculations, start, most, factor);
        assert forall|i: int| 0 <= i < most.len() implies g.valid(
            #[trigger] most[i],
            g.calculations.len(),
        ) by {
            assert(most[i] == parts[i]);
        }
        lemma_unrolled_value(g, start, most, factor, p, cells, scalars);
        assert(values.drop_last() =~= Seq::new(
            most.len(),
            |i: int| g.value_of(p, most[i], cells, scalars),
        ));
        let h = GraphModel { calculations: d, ..g };
        let part = parts.last();
        assert(g.valid(parts[parts.len() - 1], g.calculations.len()));
        lemma_value_stable(g, h, p, factor, cells, scalars);
        lemma_value_stable(g, h, p, part, cells, scalars);
        let product = CalculationModel::Mul(acc, factor);
        let h1 = pushed(h, product);
        lemma_pushed(h, product, p, cells, scalars);
        lemma_value_stable(h, h1, p, part, cells, scalars);
        let sum = CalculationModel::Add(last_intermediate(h1.calculations), part);
        lemma_pushed(h1, sum, p, cells, scalars);
    }
}

/// The value of a source in the flattened graph is that of the source.
proof fn lemma_rewritten_value(
    g: GraphModel,
    h: GraphModel,
    s: ValueSource,
    positions: Seq<usize>,
    before: Seq<int>,
    after: Seq<int>,
    cells: CellValues,
    scalars: RuntimeScalars,
)
    requires
        g.constants.len() + 4 <= usize::MAX,
        h.constants == g.constants + seq![scalars.theta, scalars.beta, scalars.gamma, scalars.y],
        h.rotations == g.rotations,
        g.valid(s, positions.len()),
        !(s is PreviousValue),
        before.len() == positions.len(),
        forall|i: int|
            0 <= i < positions.len() ==> (#[trigger] positions[i]) < after.len()
                && after[positions[i] as int] == before[i],
    ensures
        h.valid(rewritten(s, positions, g.constants.len()), after.len()),
        h.source(rewritten(s, positions, g.constants.len()), after, cells, scalars) == g.source(
            s,
            before,
            cells,
            scalars,
        ),
{
    let n = g.constants.len() as int;
    assert(h.constants[n] == scalars.theta);
    assert(h.constants[n + 1] == scalars.beta);
    assert(h.constants[n + 2] == scalars.gamma);
    assert(h.constants[n + 3] == scalars.y);
    if let ValueSource::Intermediate(j) = s {
        assert(after[positions[j as int] as int] == before[j as int]);
    }
}

proof fn lemma_calculation_rewritten_value(
    g: GraphModel,
    h: GraphModel,
    c: CalculationModel,
    positions: Seq<usize>,
    p: int,
    before: Seq<int>,
    after: Seq<int>,
    cells: CellValues,
    scalars: RuntimeScalars,
)
    requires
        g.constants.len() + 4 <= usize::MAX,
        h.constants == g.constants + seq![scalars.theta, scalars.beta, scalars.gamma, scalars.y],
        h.rotations == g.rotations,
        g.valid_calculation(c, positions.len()),
        no_previous(c),
        before.len() == positions.len(),
        forall|i: int|
            0 <= i < positions.len() ==> (#[trigger] positions[i]) < after.len()
                && after[positions[i] as int] == before[i],
    ensures
        ({
            let d = calculation_rewritten(c, positions, g.constants.len());
            &&& h.valid_calculation(d, after.len())
            &&& h.calculation(p, d, after, cells, scalars) == g.calculation(
                p,
                c,
                before,
                cells,
                scalars,
            )
        }),
{
    let n = g.constants.len();
    let s = sources_of(c);
    assert forall|i: int| 0 <= i < s.len() implies h.valid(
        rewritten(#[trigger] s[i], positions, n),
        after.len(),
    ) && h.source(rewritten(s[i], positions, n), after, cells, scalars) == g.source(
        s[i],
        before,
        cells,
        scalars,
    ) by {
        assert(g.valid(s[i], positions.len())) by {
            if let CalculationModel::Horner(start, parts, factor) = c {
                if i >= 2 {
                    assert(s[i] == parts[i - 2]);
                }
            }
        }
        lemma_rewritten_value(g, h, s[i], positions, before, after, cells, scalars);
    }
    match c {
        CalculationModel::Add(a, b) => {
            assert(s[0] == a && s[1] == b);
        },
        CalculationModel::Sub(a, b) => {
            assert(s[0] == a && s[1] == b);
        },
        CalculationModel::Mul(a, b) => {
            assert(s[0] == a && s[1] == b);
        },
        CalculationModel::Square(a) => {
            assert(s[0] == a);
        },
        CalculationModel::Double(a) => {
            assert(s[0] == a);
        },
        CalculationModel::Negate(a) => {
            assert(s[0] == a);
        },
        CalculationModel::Store(a) => {
            assert(s[0] == a);
        },
        CalculationModel::Horner(start, parts, factor) => {
            assert(s[0] == start && s[1] == factor);
            let moved = all_rewritten(parts, positions, n);
            let value = |x: ValueSource| g.source(x, before, cells, scalars);
            let other = |x: ValueSource| h.source(x, after, cells, scalars);
            assert forall|i: int| 0 <= i < parts.len() implies other(moved[i]) == value(parts[i])
                && h.valid(moved[i], after.len()) by {
                assert(s[i + 2] == parts[i]);
            }
            assert(Seq::new(moved.len(), |i: int| other(moved[i])) =~= Seq::new(
                parts.len(),
                |i: int| value(parts[i]),
            ));
        },
    }
}

/// The graph of flattened calculations.
pub open spec fn flattened_graph(g: GraphModel, s: Seq<CalculationModel>,
    scalars: RuntimeScalars) ->
    GraphModel {
    GraphModel {
        constants: g.constants + seq![scalars.theta, scalars.beta, scalars.gamma, scalars.y],
        rotations: g.rotations,
        calculations: s,
    }
}

/// Whether the results of the first `m` calculations of a graph stand at their
/// positions among the flattened ones.
pub open spec fn represents(
    g: GraphModel,
    f: Flattened,
    m: nat,
    p: int,
    cells: CellValues,
    scalars: RuntimeScalars,
) -> bool {
    let h = flattened_graph(g, f.calculations, scalars);
    &&& h.sound()
    &&& f.positions.len() == m
    &&& forall|i: int|
        0 <= i < m ==> (#[trigger] f.positions[i]) < f.calculations.len() && h.all_intermediates(
            p,
            cells,
            scalars,
        )[f.positions[i] as int] == g.intermediates(p, m, cells, scalars)[i]
}

proof fn lemma_with_represents(
    g: GraphModel,
    f: Flattened,
    m: nat,
    p: int,
    cells: CellValues,
    scalars: RuntimeScalars,
)
    requires
        g.sound(),
        flattenable(g),
        m < g.calculations.len(),
        represents(g, f, m, p, cells, scalars),
        f.with(g.calculations[m as int], g.constants.len()).calculations.len() <= usize::MAX,
    ensures
        represents(
            g,
            f.with(g.calculations[m as int], g.constants.len()),
            m + 1,
            p,
            cells,
            scalars,
        ),
{
    let n = g.constants.len();
    let c = g.calculations[m as int];
    assert(g.valid_calculation(c, m) && no_previous(c));
    let d = calculation_rewritten(c, f.positions, n);
    let h = flattened_graph(g, f.calculations, scalars);
    let k = f.with(c, n);
    let h1 = flattened_graph(g, k.calculations, scalars);
    let before = g.intermediates(p, m, cells, scalars);
    let after = h.all_intermediates(p, cells, scalars);
    lemma_intermediates_prefix(g, p, m, m + 1, cells, scalars);
    lemma_intermediates_prefix(g, p, m, m, cells, scalars);
    lemma_intermediates_prefix(h, p, h.calculations.len(), h.calculations.len(), cells, scalars);
    lemma_calculation_rewritten_value(g, h, c, f.positions, p, before, after, cells, scalars);
    let v = g.calculation(p, c, before, cells, scalars);
    assert(g.intermediates(p, m + 1, cells, scalars)[m as int] == v);
    let x = last_intermediate(k.calculations);
    // The new result has the value of the calculation.
    assert(h1.sound() && h.extends_to(h1) && k.calculations.len() > 0 && h1.value_of(
        p,
        x,
        cells,
        scalars,
    ) == v) by {
        if let CalculationModel::Horner(start, parts, factor) = d {
            if parts.len() == 0 {
                lemma_pushed(h, CalculationModel::Store(start), p, cells, scalars);
                assert(h1 == pushed(h, CalculationModel::Store(start)));
                assert(h.source(start, after, cells, scalars) == v) by {
                    let value = |s: ValueSource| h.source(s, after, cells, scalars);
                    assert(Seq::new(parts.len(), |i: int| value(parts[i])).len() == 0);
                }
            } else {
                let q = unrolled(f.calculations, start, parts, factor);
                lemma_unrolled_value(h, start, parts, factor, p, cells, scalars);
                assert(h1 == (GraphModel { calculations: q.0, ..h }));
                let value = |s: ValueSource| h.source(s, after, cells, scalars);
                assert(Seq::new(parts.len(), |i: int| h.value_of(p, parts[i], cells, scalars))
                    =~= Seq::new(parts.len(), |i: int| value(parts[i])));
            }
        } else {
            lemma_pushed(h, d, p, cells, scalars);
            assert(h1 == pushed(h, d));
        }
    }
    lemma_intermediates_prefix(h1, p, h.calculations.len(), h1.calculations.len(), cells, scalars);
    lemma_intermediates_stable(h, h1, p, h.calculations.len(), cells, scalars);
    assert forall|i: int| 0 <= i < m + 1 implies (#[trigger] k.positions[i]) < k.calculations.len()
        && h1.all_intermediates(p, cells, scalars)[k.positions[i] as int] == g.intermediates(
        p,
        m + 1,
        cells,
        scalars,
    )[i] by {
        if i < m {
            assert(k.positions[i] == f.positions[i]);
            assert(after[f.positions[i] as int] == before[i]);
        }
    }
}

/// Flattening keeps all results.
proof fn lemma_flattened_represents(
    g: GraphModel,
    m: nat,
    p: int,
    cells: CellValues,
    scalars: RuntimeScalars,
)
    requires
        g.sound(),
        flattenable(g),
        m <= g.calculations.len(),
        flattened(g.calculations.take(m as int), g.constants.len()).calculations.len()
            <= usize::MAX,
    ensures
        represents(
            g,
            flattened(g.calculations.take(m as int), g.constants.len()),
            m,
            p,
            cells,
            scalars,
        ),
    decreases m,
{
    let n = g.constants.len();
    let f = flattened(g.calculations.take(m as int), n);
    if m == 0 {
        let h = flattened_graph(g, f.calculations, scalars);
        assert(h.constants[0] == g.constants[0] && h.constants[1] == g.constants[1]
            && h.constants[2] == g.constants[2]);
    } else {
        let k = (m - 1) as nat;
        let c = g.calculations[k as int];
        assert(g.calculations.take(m as int).drop_last() =~= g.calculations.take(k as int));
        lemma_flattenable_encodable(g);
        lemma_flattened_packable(g, k);
        assert(g.valid_calculation(c, k) && no_previous(c));
        lemma_with_packable(flattened(g.calculations.take(k as int), n), g, c);
        lemma_flattened_represents(g, k, p, cells, scalars);
        lemma_with_represents(
            g,
            flattened(g.calculations.take(k as int), n),
            k,
            p,
            cells,
            scalars,
        );
    }
}

impl RuntimeScalars {
    /// Whether all runtime scalars are canonical representatives.
    pub open spec fn in_range(self, p: int) -> bool {
        &&& 0 <= self.beta < p
        &&& 0 <= self.gamma < p
        &&& 0 <= self.theta < p
        &&& 0 <= self.y < p
        &&& 0 <= self.previous < p
    }
}

/// All intermediate values over canonical representatives are canonical.
proof fn lemma_results_in_range(
    g: GraphModel,
    p: int,
    n: nat,
    cells: CellValues,
    scalars: RuntimeScalars,
)
    requires
        p > 2,
        g.sound(),
        n <= g.calculations.len(),
        cells.in_range(p),
        constants_in_range(p, g),
        scalars.in_range(p),
    ensures
        g.intermediates(p, n, cells, scalars).len() == n,
        forall|i: int|
            0 <= i < n ==> 0 <= #[trigger] g.intermediates(p, n, cells, scalars)[i] < p,
    decreases n,
{
    if n > 0 {
        let m = (n - 1) as nat;
        lemma_results_in_range(g, p, m, cells, scalars);
        let before = g.intermediates(p, m, cells, scalars);
        let c = g.calculations[m as int];
        assert(g.valid_calculation(c, m));
        let v = g.calculation(p, c, before, cells, scalars);
        assert(0 <= v < p) by {
            if let CalculationModel::Store(s) = c {
                assert(g.valid(s, m));
            }
            if let CalculationModel::Horner(s, _, _) = c {
                assert(g.valid(s, m));
            }
        }
    }
}

/// Flattening a graph keeps its value: with the runtime scalars as constants,
/// the flattened graph has the value of the graph. Where the graph ends in
/// Horner's rule the flattened one does too, over the same start and factor;
/// else its last step adds the result to zero.
pub proof fn law_flattening_keeps_value(
    g: GraphModel,
    p: int,
    cells: CellValues,
    scalars: RuntimeScalars,
)
    requires
        p > 2,
        g.sound(),
        flattenable(g),
        with_runtime_constants(g, scalars).fits(),
        cells.in_range(p),
        constants_in_range(p, g),
        scalars.in_range(p),
    ensures
        with_runtime_constants(g, scalars).sound(),
        with_runtime_constants(g, scalars).value(p, cells, scalars) == g.value(p, cells, scalars),
{
    let n = g.constants.len();
    let m = (g.calculations.len() - 1) as nat;
    assert(g.calculations.take(m as int) =~= g.calculations.drop_last());
    let f = flattened(g.calculations.drop_last(), n);
    lemma_flattened_represents(g, m, p, cells, scalars);
    let h = flattened_graph(g, f.calculations, scalars);
    let t = with_runtime_constants(g, scalars);
    let c = g.calculations[m as int];
    assert(g.valid_calculation(c, m) && no_previous(c));
    let d = calculation_rewritten(c, f.positions, n);
    let before = g.intermediates(p, m, cells, scalars);
    let after = h.all_intermediates(p, cells, scalars);
    lemma_intermediates_prefix(g, p, m, m, cells, scalars);
    lemma_intermediates_prefix(g, p, m, m + 1, cells, scalars);
    lemma_intermediates_prefix(h, p, h.calculations.len(), h.calculations.len(), cells, scalars);
    lemma_calculation_rewritten_value(g, h, c, f.positions, p, before, after, cells, scalars);
    lemma_pushed(h, d, p, cells, scalars);
    let h1 = pushed(h, d);
    let v = g.value(p, cells, scalars);
    lemma_results_in_range(g, p, g.calculations.len(), cells, scalars);
    assert(h1.value_of(p, last_intermediate(h1.calculations), cells, scalars) == v);
    lemma_intermediates_prefix(h1, p, h1.calculations.len(), h1.calculations.len(), cells, scalars);
    if d is Horner {
        assert(t == h1);
    } else {
        let x = last_intermediate(h1.calculations);
        let e = CalculationModel::Horner(zero_source(), seq![x], zero_source());
        assert(t == pushed(h1, e));
        assert(h1.all_valid(seq![x], h1.calculations.len()));
        lemma_pushed(h1, e, p, cells, scalars);
        let all = h1.all_intermediates(p, cells, scalars);
        let value = |s: ValueSource| h1.source(s, all, cells, scalars);
        let values = Seq::new(1, |i: int| value(seq![x][i]));
        assert(values.drop_last() =~= seq![]);
        assert(values.last() == v);
        assert(horner(p, 0, values.drop_last(), 0) == 0);
        vstd::arithmetic::div_mod::lemma_small_mod(0, p as nat);
        vstd::arithmetic::div_mod::lemma_small_mod(v as nat, p as nat);
        assert(horner(p, 0, values, 0) == v);
        lemma_intermediates_prefix(t, p, t.calculations.len(), t.calculations.len(), cells,
            scalars);
    }
}

/// The device computes the value of a graph with runtime scalars from its
/// flattened encoding, as long as indices and rotations fit into the packed
/// form: folding the encoded parts into the value of the last step's start, by
/// the value of its factor, gives the value of the graph. Start and factor are
/// zero where the graph does not itself end in Horner's rule.
pub proof fn law_runtime_tape_computes_graph(
    g: GraphModel,
    p: int,
    cells: CellValues,
    scalars: RuntimeScalars,
)
    requires
        p > 2,
        g.sound(),
        flattenable(g),
        with_runtime_constants(g, scalars).fits(),
        cells.in_range(p),
        constants_in_range(p, g),
        scalars.in_range(p),
        all_small(
            with_runtime_constants(g, scalars),
            with_runtime_constants(g, scalars).calculations.len(),
        ),
        g.calculations.last() is Horner ==> forall|i: int|
            0 <= i < g.calculations.last()->Horner_1.len() ==> is_result(
                #[trigger] g.calculations.last()->Horner_1[i],
            ),
    ensures
        ({
            let t = with_runtime_constants(g, scalars);
            let last = t.calculations.last();
            &&& tape_value(
                p,
                rules_of(t.calculations.drop_last(), t.rotations),
                packed_sources(last->Horner_1, t.rotations),
                t.value_of(p, last->Horner_0, cells, scalars),
                t.value_of(p, last->Horner_2, cells, scalars),
                t.constants,
                cells,
            ) == g.value(p, cells, scalars)
            &&& !(g.calculations.last() is Horner) ==> {
                &&& t.value_of(p, last->Horner_0, cells, scalars) == 0
                &&& t.value_of(p, last->Horner_2, cells, scalars) == 0
            }
        }),
{
    let t = with_runtime_constants(g, scalars);
    law_flattening_keeps_value(g, p, cells, scalars);
    lemma_flattenable_encodable(g);
    lemma_terminated_encodable(g);
    let n = g.constants.len() as int;
    assert forall|i: int| 0 <= i < t.constants.len() implies 0 <= #[trigger] t.constants[i]
        < p by {
        if i < n {
            assert(t.constants[i] == g.constants[i]);
        }
    }
    assert forall|i: int| 0 <= i < t.calculations.len() - 1 implies plain(
        #[trigger] t.calculations[i],
    ) by {
        assert(t.calculations[i] == t.calculations.drop_last()[i]);
    }
    let parts = t.calculations.last()->Horner_1;
    let c = g.calculations.last();
    assert forall|i: int| 0 <= i < parts.len() implies is_result(#[trigger] parts[i]) by {
        if c is Horner {
            assert(is_result(c->Horner_1[i]));
        }
    }
    law_tape_computes_graph(t, p, cells, scalars);
}

} // verus!
