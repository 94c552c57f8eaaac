//! What replacing selectors and copying cells comes to.

use crate::field::Field;
use crate::plonk::circuit::{GpuColumn, GpuFixed, GpuSelector};
use crate::plonk::expression::{CellValues, GpuExpression};
use crate::plonk::permutation::keygen::Assembly;
use crate::plonk::selectors::{are_queries, new_queries};
use crate::plonk::witness::{padded, with_tail};
use crate::poly::Rotation;
use vstd::prelude::*;

verus! {

/// Replacing the selectors of an expression keeps its value, where each selector has the
/// value of what replaces it.
pub proof fn law_replacing_keeps_values<F: Field>(
    e: GpuExpression<F>,
    replacements: Seq<GpuExpression<F>>,
    cells: CellValues,
)
    ensures
        e.with_selectors_replaced(replacements).value(cells) == e.value(
            CellValues {
                selector: |s: GpuSelector| replacements[s.0 as int].value(cells),
                ..cells
            },
        ),
    decreases e,
{
    match e {
        GpuExpression::Negated(a) => {
            law_replacing_keeps_values(*a, replacements, cells);
        },
        GpuExpression::Sum(a, b) => {
            law_replacing_keeps_values(*a, replacements, cells);
            law_replacing_keeps_values(*b, replacements, cells);
        },
        GpuExpression::Product(a, b) => {
            law_replacing_keeps_values(*a, replacements, cells);
            law_replacing_keeps_values(*b, replacements, cells);
        },
        GpuExpression::Scaled(a, _) => {
            law_replacing_keeps_values(*a, replacements, cells);
        },
        _ => {},
    }
}

/// The columns that are put behind others to stand for selectors are read in their order,
/// each in its own row.
pub proof fn law_new_columns_are_read<F: Field>(
    s: Seq<GpuExpression<F>>,
    first: usize,
    count: nat,
    queries: Seq<(GpuColumn<GpuFixed>, Rotation)>,
    cells: CellValues,
    i: int,
)
    requires
        are_queries(s, first, count, queries),
        first + count <= usize::MAX,
        0 <= i < count,
    ensures
        s.len() == count,
        s[i].value(cells) == (cells.fixed)((first + i) as usize, Rotation(0)),
        s[i].spec_degree() == 1,
        new_queries(first, count).len() == count,
        new_queries(first, count)[i].0.index == first + i,
        new_queries(first, count)[i].1 == Rotation(0),
{
    let _ = s[i];
}

/// A copy exchanges what comes after its two cells in their cycles, and nothing else. The
/// cell that stands for the larger cycle stands for both, and of two cycles of one size
/// that of the first cell's.
pub proof fn law_copies_exchange(
    before: Assembly,
    after: Assembly,
    a: (usize, usize),
    b: (usize, usize),
    x: (usize, usize),
)
    requires
        after.merges(before, a, b),
        before.has_cell(before.rows(), a),
        before.has_cell(before.rows(), b),
        before.has_cell(before.rows(), x),
    ensures
        after.next(a) == before.next(b),
        after.next(b) == before.next(a),
        x != a && x != b ==> after.next(x) == before.next(x),
        after.columns@ == before.columns@,
        ({
            let (ra, rb) = (before.representative(a), before.representative(b));
            let first = before.sizes@[ra.0 as int]@[ra.1 as int];
            let second = before.sizes@[rb.0 as int]@[rb.1 as int];
            let r = before.representative(x);
            &&& r != ra && r != rb ==> after.representative(x) == r
            &&& r == ra || r == rb ==> after.representative(x) == (if first >= second {
                ra
            } else {
                rb
            })
            &&& x == ra && first >= second || x == rb && first < second
                ==> after.sizes@[x.0 as int]@[x.1 as int] == first + second
            &&& x != ra && x != rb ==> after.sizes@[x.0 as int]@[x.1 as int]
                == before.sizes@[x.0 as int]@[x.1 as int]
        }),
{
}

/// A column that is padded holds its values and then zeros, and one with a tail holds its
/// values up to where that begins.
pub proof fn law_filled_columns(values: Seq<int>, n: nat, start: int, tail: Seq<int>, i: int)
    requires
        0 <= start <= values.len(),
        0 <= i,
    ensures
        padded(values, n).len() == n,
        i < n && i < values.len() ==> padded(values, n)[i] == values[i],
        values.len() <= i < n ==> padded(values, n)[i] == 0,
        with_tail(values, start, tail).len() == start + tail.len(),
        i < start ==> with_tail(values, start, tail)[i] == values[i],
        i < tail.len() ==> with_tail(values, start, tail)[start + i] == tail[i],
{
}

} // verus!
