//! What the device computes from an encoded graph, row by row.

use crate::field::{fadd, fmul, fneg, lemma_f_range, lemma_fsub_is_add_neg};
use crate::plonk::encoding::{
    index_of, law_operation_round_trip, law_source_round_trip, operation, operation_of,
    packed_sources, rotation_of, rules_of, tag_of, CalcRule, Operation,
};
use crate::plonk::evaluation::sources_of;
use crate::plonk::evaluator::{is_result, plain, plain_source};
use crate::plonk::expression::CellValues;
use crate::plonk::graph::{CalculationModel, GraphModel, ValueSource};
use crate::plonk::graph_values::{
    calculation_value, horner, lemma_intermediates_prefix, RuntimeScalars,
};
use crate::poly::Rotation;
use vstd::arithmetic::div_mod::lemma_small_mod;
use vstd::prelude::*;

verus! {

/// The value that a packed source refers to; a dummy operand reads as zero.
pub open spec fn tape_source(
    rule: u64,
    constants: Seq<int>,
    intermediates: Seq<int>,
    cells: CellValues,
) -> int {
    let tag = tag_of(rule);
    let idx = index_of(rule);
    let at = Rotation(rotation_of(rule) as i32);
    if tag == 0 {
        (cells.fixed)(idx as usize, at)
    } else if tag == 1 {
        (cells.instance)(idx as usize, at)
    } else if tag == 2 {
        (cells.advice)(idx as usize, at)
    } else if tag == 3 {
        intermediates[idx as int]
    } else if tag == 4 {
        constants[idx as int]
    } else if tag == 5 {
        (cells.challenge)(idx as usize)
    } else if tag == 6 {
        0
    } else {
        arbitrary()
    }
}

/// What a combine code multiplies by; the device knows four codes.
pub open spec fn combine(p: int, code: u64) -> int {
    if code == 0 {
        0
    } else if code == 1 {
        1
    } else if code == 2 {
        fneg(p, 1)
    } else if code == 3 {
        2
    } else {
        arbitrary()
    }
}

/// The value of one operation: `(c1 a + c2 b) b` of degree two, else without
/// the last factor.
pub open spec fn operation_value(p: int, op: Operation, a: int, b: int) -> int {
    fmul(
        p,
        fadd(p, fmul(p, combine(p, op.c1), a), fmul(p, combine(p, op.c2), b)),
        if op.d == 0 {
            1
        } else if op.d == 1 {
            b
        } else {
            arbitrary()
        },
    )
}

/// The value of one rule.
pub open spec fn tape_rule(
    p: int,
    rule: CalcRule,
    constants: Seq<int>,
    intermediates: Seq<int>,
    cells: CellValues,
) -> int {
    let op = operation_of(rule.0);
    operation_value(
        p,
        op,
        tape_source(op.a, constants, intermediates, cells),
        tape_source(op.b, constants, intermediates, cells),
    )
}

/// The values of the first `n` rules, each of which may read the ones before.
pub open spec fn tape_intermediates(
    p: int,
    rules: Seq<CalcRule>,
    n: nat,
    constants: Seq<int>,
    cells: CellValues,
) -> Seq<int>
    decreases n,
{
    if n == 0 {
        seq![]
    } else {
        let before = tape_intermediates(p, rules, (n - 1) as nat, constants, cells);
        before.push(tape_rule(p, rules[n - 1], constants, before, cells))
    }
}

/// What the device computes for a row: the parts folded into `start` by `factor`.
pub open spec fn tape_value(
    p: int,
    rules: Seq<CalcRule>,
    parts: Seq<u64>,
    start: int,
    factor: int,
    constants: Seq<int>,
    cells: CellValues,
) -> int {
    let intermediates = tape_intermediates(p, rules, rules.len(), constants, cells);
    horner(
        p,
        start,
        Seq::new(parts.len(), |i: int| tape_source(parts[i], constants, intermediates, cells)),
        factor,
    )
}

/// Whether the index and the rotation of a source fit into the packed form.
pub open spec fn small(s: ValueSource, rotations: Seq<i32>) -> bool {
    &&& s.index() < 0x10_0000
    &&& -0x8000 < s.rotation(rotations) < 0x8000
}

/// Whether all sources of the first `n` calculations fit into the packed form.
pub open spec fn all_small(g: GraphModel, n: nat) -> bool {
    forall|i: int, j: int|
        0 <= i < n && 0 <= j < sources_of(g.calculations[i]).len() ==> small(
            #[trigger] sources_of(g.calculations[i])[j],
            g.rotations,
        )
}

/// Whether all constants are canonical representatives.
pub open spec fn constants_in_range(p: int, g: GraphModel) -> bool {
    forall|i: int| 0 <= i < g.constants.len() ==> 0 <= #[trigger] g.constants[i] < p
}

/// Reading a packed source is reading the source.
proof fn lemma_tape_source(
    g: GraphModel,
    s: ValueSource,
    intermediates: Seq<int>,
    cells: CellValues,
    scalars: RuntimeScalars,
)
    requires
        plain_source(s),
        small(s, g.rotations),
    ensures
        tape_source(s.packed(g.rotations), g.constants, intermediates, cells) == g.source(
            s,
            intermediates,
            cells,
            scalars,
        ),
{
    law_source_round_trip(s, g.rotations);
}

/// A plain calculation of canonical representatives is what its operation gives.
proof fn lemma_operation_value(
    p: int,
    c: CalculationModel,
    rotations: Seq<i32>,
    value: spec_fn(ValueSource) -> int,
    a: int,
    b: int,
)
    requires
        p > 2,
        plain(c),
        forall|s: ValueSource| 0 <= #[trigger] value(s) < p,
        match c {
            CalculationModel::Add(x, y) => a == value(x) && b == value(y),
            CalculationModel::Sub(x, y) => a == value(x) && b == value(y),
            CalculationModel::Mul(x, y) => a == value(x) && b == value(y),
            CalculationModel::Square(x) => a == value(x) && b == value(x),
            CalculationModel::Double(x) => a == value(x) && b == 0,
            CalculationModel::Negate(x) => a == value(x) && b == 0,
            CalculationModel::Store(x) => a == value(x) && b == 0,
            _ => true,
        },
    ensures
        operation_value(p, c.operation(rotations), a, b) == calculation_value(p, c, value),
{
    let op = c.operation(rotations);
    assert(0 <= a < p && 0 <= b < p);
    lemma_small_mod(a as nat, p as nat);
    lemma_small_mod(b as nat, p as nat);
    lemma_small_mod(0, p as nat);
    assert(1 * a == a && 1 * b == b && 0 * a == 0 && 0 * b == 0 && 2 * a == a + a);
    assert(fmul(p, 1, a) == a && fmul(p, 1, b) == b && fmul(p, 0, b) == 0);
    // Multiplying by minus one negates.
    assert(fmul(p, fneg(p, 1), a) == fneg(p, a) && fmul(p, fneg(p, 1), b) == fneg(p, b)) by {
        vstd::arithmetic::div_mod::lemma_mul_mod_noop_left(-1, a, p);
        vstd::arithmetic::div_mod::lemma_mul_mod_noop_left(-1, b, p);
        assert((-1) * a == -a && (-1) * b == -b);
    }
    let x = fmul(p, combine(p, op.c1), a);
    let y = fmul(p, combine(p, op.c2), b);
    let t = fadd(p, x, y);
    lemma_f_range(p, x, y);
    lemma_f_range(p, combine(p, op.c1), a);
    lemma_small_mod(t as nat, p as nat);
    assert(t * 1 == t);
    match c {
        CalculationModel::Add(_, _) => {},
        CalculationModel::Sub(_, _) => {
            lemma_fsub_is_add_neg(p, a, b);
        },
        CalculationModel::Mul(_, _) => {
            assert(t == a);
        },
        CalculationModel::Square(_) => {
            assert(t == a);
        },
        CalculationModel::Double(_) => {
            lemma_small_mod(x as nat, p as nat);
        },
        CalculationModel::Negate(_) => {
            lemma_small_mod(x as nat, p as nat);
        },
        CalculationModel::Store(_) => {
            lemma_small_mod(x as nat, p as nat);
        },
        _ => {},
    }
}

/// All intermediate values of plain calculations are canonical representatives.
proof fn lemma_intermediates_in_range(
    g: GraphModel,
    p: int,
    n: nat,
    cells: CellValues,
    scalars: RuntimeScalars,
)
    requires
        p > 2,
        g.sound(),
        n <= g.calculations.len(),
        cells.in_range(p),
        constants_in_range(p, g),
        forall|i: int| 0 <= i < n ==> plain(#[trigger] g.calculations[i]),
    ensures
        g.intermediates(p, n, cells, scalars).len() == n,
        forall|i: int|
            0 <= i < n ==> 0 <= #[trigger] g.intermediates(p, n, cells, scalars)[i] < p,
    decreases n,
{
    if n > 0 {
        let m = (n - 1) as nat;
        lemma_intermediates_in_range(g, p, m, cells, scalars);
        let before = g.intermediates(p, m, cells, scalars);
        let c = g.calculations[m as int];
        assert(plain(c));
        assert(g.valid_calculation(c, m));
        let v = g.calculation(p, c, before, cells, scalars);
        assert(0 <= v < p) by {
            if let CalculationModel::Store(s) = c {
                assert(g.valid(s, m));
            }
        }
    }
}

proof fn lemma_tape_intermediates(
    g: GraphModel,
    p: int,
    n: nat,
    cells: CellValues,
    scalars: RuntimeScalars,
    rules: Seq<CalcRule>,
)
    requires
        p > 2,
        g.sound(),
        n <= g.calculations.len(),
        n <= rules.len(),
        cells.in_range(p),
        constants_in_range(p, g),
        forall|i: int| 0 <= i < n ==> plain(#[trigger] g.calculations[i]),
        all_small(g, n),
        forall|i: int|
            0 <= i < n ==> #[trigger] rules[i] == g.calculations[i].rule(g.rotations),
    ensures
        tape_intermediates(p, rules, n, g.constants, cells) == g.intermediates(
            p,
            n,
            cells,
            scalars,
        ),
    decreases n,
{
    if n > 0 {
        let m = (n - 1) as nat;
        assert(all_small(g, m));
        lemma_tape_intermediates(g, p, m, cells, scalars, rules);
        lemma_intermediates_in_range(g, p, m, cells, scalars);
        let before = g.intermediates(p, m, cells, scalars);
        let c = g.calculations[m as int];
        assert(plain(c));
        assert(g.valid_calculation(c, m));
        assert(rules[m as int] == c.rule(g.rotations));
        let op = c.operation(g.rotations);
        let s = sources_of(c);
        // A reading that is canonical everywhere and agrees on the calculation's sources.
        let value = |x: ValueSource|
            if g.valid(x, m) && plain_source(x) {
                g.source(x, before, cells, scalars)
            } else {
                0
            };
        assert forall|x: ValueSource| 0 <= #[trigger] value(x) < p by {}
        assert forall|j: int| 0 <= j < s.len() implies small(s[j], g.rotations) && value(
            #[trigger] s[j],
        ) == g.source(s[j], before, cells, scalars) && plain_source(s[j]) by {
            assert(small(sources_of(g.calculations[m as int])[j], g.rotations));
        }
        crate::plonk::evaluation::lemma_calculation_reads(
            p,
            c,
            value,
            |x: ValueSource| g.source(x, before, cells, scalars),
        );
        assert(tag_of(6) == 6) by (bit_vector);
        assert(6u64 < 0x100_0000_0000);
        lemma_tape_source(g, s[0], before, cells, scalars);
        law_source_round_trip(s[0], g.rotations);
        if s.len() > 1 {
            lemma_tape_source(g, s[1], before, cells, scalars);
            law_source_round_trip(s[1], g.rotations);
        }
        law_operation_round_trip(op);
        let a = tape_source(op.a, g.constants, before, cells);
        let b = tape_source(op.b, g.constants, before, cells);
        lemma_operation_value(p, c, g.rotations, value, a, b);
    }
}

/// The device computes the value of the graph from its encoding: for a graph
/// that ends in Horner's rule over the results of plain calculations, and whose
/// indices and rotations fit into the packed form, folding into the value of
/// Horner's start by the value of its factor gives the value of the graph.
pub proof fn law_tape_computes_graph(
    g: GraphModel,
    p: int,
    cells: CellValues,
    scalars: RuntimeScalars,
)
    requires
        p > 2,
        g.sound(),
        cells.in_range(p),
        constants_in_range(p, g),
        g.calculations.len() > 0,
        forall|i: int| 0 <= i < g.calculations.len() - 1 ==> plain(#[trigger] g.calculations[i]),
        g.calculations.last() is Horner,
        forall|i: int|
            0 <= i < g.calculations.last()->Horner_1.len() ==> is_result(
                #[trigger] g.calculations.last()->Horner_1[i],
            ),
        all_small(g, g.calculations.len()),
    ensures
        tape_value(
            p,
            rules_of(g.calculations.drop_last(), g.rotations),
            packed_sources(g.calculations.last()->Horner_1, g.rotations),
            g.value_of(p, g.calculations.last()->Horner_0, cells, scalars),
            g.value_of(p, g.calculations.last()->Horner_2, cells, scalars),
            g.constants,
            cells,
        ) == g.value(p, cells, scalars),
{
    let n = (g.calculations.len() - 1) as nat;
    let c = g.calculations.last();
    let (start, parts, factor) = (c->Horner_0, c->Horner_1, c->Horner_2);
    let rules = rules_of(g.calculations.drop_last(), g.rotations);
    assert(all_small(g, n));
    lemma_tape_intermediates(g, p, n, cells, scalars, rules);
    let before = g.intermediates(p, n, cells, scalars);
    lemma_intermediates_prefix(g, p, n, g.calculations.len(), cells, scalars);
    let all = g.all_intermediates(p, cells, scalars);
    assert(g.valid_calculation(g.calculations[n as int], n));
    let s = sources_of(c);
    let packed = packed_sources(parts, g.rotations);
    let read = |x: ValueSource| g.source(x, before, cells, scalars);
    assert forall|i: int| 0 <= i < parts.len() implies tape_source(
        packed[i],
        g.constants,
        before,
        cells,
    ) == read(parts[i]) by {
        assert(s[i + 2] == parts[i]);
        assert(small(sources_of(g.calculations[n as int])[i + 2], g.rotations));
        assert(is_result(parts[i]));
        lemma_tape_source(g, parts[i], before, cells, scalars);
    }
    assert(Seq::new(parts.len(), |i: int| tape_source(packed[i], g.constants, before, cells))
        =~= Seq::new(parts.len(), |i: int| read(parts[i])));
    assert(packed.len() == parts.len());
    assert(g.source(start, before, cells, scalars) == g.source(start, all, cells, scalars));
    assert(g.source(factor, before, cells, scalars) == g.source(factor, all, cells, scalars));
}

} // verus!
