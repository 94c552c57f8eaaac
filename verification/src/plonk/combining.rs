//! Which selectors share a column: those that can, taken in their order.

use crate::field::Field;
use crate::plonk::compress_selectors::{
    can_join, combinations, conflict, depth, fits_beside, groups_from, grown, is_group, is_place,
    is_replacement, joined, lemma_groups, lemma_grown, lemma_singles, nobody, partitions, root_at,
    singles, switched_degree,
};
use crate::plonk::expression::{CellValues, GpuExpression};
use vstd::arithmetic::div_mod::{lemma_add_mod_noop, lemma_mul_mod_noop_right};
use vstd::prelude::*;

verus! {

/// Whether the first `n` of a group come before `t`, and the others behind it.
pub open spec fn splits(group: Seq<usize>, t: int, n: int) -> bool {
    &&& 0 <= n <= group.len()
    &&& forall|m: int| 0 <= m < n ==> #[trigger] group[m] < t
    &&& forall|m: int| n <= m < group.len() ==> #[trigger] group[m] > t
}

/// Whether something keeps `t` out of a group when its turn comes behind the first `n`: it
/// is active together with one of them, or one of them or `t` itself would get too large
/// a degree with one more beside it.
pub open spec fn kept_out(
    rows: Seq<Vec<bool>>,
    degrees: Seq<usize>,
    max_degree: int,
    group: Seq<usize>,
    t: int,
    n: int,
) -> bool {
    ||| exists|m: int| 0 <= m < n && conflict(rows, t, #[trigger] group[m] as int)
    ||| degrees[t] + n > max_degree
    ||| exists|m: int| 0 <= m < n && degrees[#[trigger] group[m] as int] + n > max_degree
}

proof fn lemma_depth(degrees: Seq<usize>, group: Seq<usize>)
    ensures
        depth(degrees, group) >= 0,
        depth(degrees, group) == 0 || exists|m: int|
            0 <= m < group.len() && degrees[#[trigger] group[m] as int] - 1 == depth(
                degrees,
                group,
            ),
        forall|m: int|
            0 <= m < group.len() ==> degrees[#[trigger] group[m] as int] - 1 <= depth(
                degrees,
                group,
            ),
    decreases group.len(),
{
    if group.len() > 0 {
        let most = group.drop_last();
        lemma_depth(degrees, most);
        assert forall|m: int| 0 <= m < group.len() implies degrees[#[trigger] group[m] as int] - 1
            <= depth(degrees, group) by {
            if m < most.len() {
                assert(most[m] == group[m]);
            }
        }
        let d = depth(degrees, group);
        if d != 0 {
            if d == degrees[group.last() as int] - 1 {
                assert(degrees[group[group.len() - 1] as int] - 1 == d);
            } else {
                let m = choose|m: int|
                    0 <= m < most.len() && degrees[#[trigger] most[m] as int] - 1 == depth(
                        degrees,
                        most,
                    );
                assert(degrees[group[m] as int] - 1 == d);
            }
        }
    }
}

/// A selector that a growing group leaves out.
proof fn lemma_left_out(
    rows: Seq<Vec<bool>>,
    degrees: Seq<usize>,
    added: Seq<bool>,
    group: Seq<usize>,
    j: int,
    max_degree: int,
    t: int,
) -> (n: int)
    requires
        0 <= j <= t < rows.len() <= usize::MAX,
        degrees.len() == rows.len(),
        added.len() == rows.len(),
        group.len() > 0,
        forall|k: int| 0 <= k < group.len() ==> #[trigger] group[k] < j,
        forall|k: int| 0 <= k < group.len() ==> degrees[#[trigger] group[k] as int] > 0,
        !added[t],
        degrees[t] > 0,
        !grown(rows, degrees, added, group, j, max_degree).contains(t as usize),
    ensures
        splits(grown(rows, degrees, added, group, j, max_degree), t, n),
        kept_out(
            rows,
            degrees,
            max_degree,
            grown(rows, degrees, added, group, j, max_degree),
            t,
            n,
        ),
    decreases rows.len() - j,
{
    let g = grown(rows, degrees, added, group, j, max_degree);
    assert forall|k: int| 0 <= k < group.len() implies #[trigger] group[k] < rows.len() by {}
    lemma_grown(rows, degrees, added, group, j, max_degree);
    if t == j {
        let n = group.len() as int;
        assert forall|m: int| 0 <= m < n implies #[trigger] g[m] == group[m] by {
            assert(g.take(n)[m] == group[m]);
        }
        if !added[j] && can_join(rows, degrees, group, j, max_degree) {
            let next = group.push(j as usize);
            lemma_grown(rows, degrees, added, next, j + 1, max_degree);
            assert(g.take(next.len() as int)[n] == next[n]);
            assert(g[n] == j);
            assert(g.contains(t as usize));
        }
        assert forall|m: int| n <= m < g.len() implies #[trigger] g[m] > t by {
            assert(g[m] >= j);
            if g[m] == t {
                assert(g.contains(t as usize));
            }
        }
        lemma_depth(degrees, group);
        if !fits_beside(rows, group, j) {
            let m = choose|m: int|
                0 <= m < group.len() && conflict(rows, j, #[trigger] group[m] as int);
            assert(conflict(rows, t, g[m] as int));
        } else if depth(degrees, group) + group.len() + 1 > max_degree {
            if depth(degrees, group) == 0 {
                assert(degrees[g[0] as int] > 0) by {
                    assert(group[0] < j);
                    assert(degrees[group[0] as int] > 0);
                }
                assert(degrees[g[0] as int] + n > max_degree);
            } else {
                let m = choose|m: int|
                    0 <= m < group.len() && degrees[#[trigger] group[m] as int] - 1 == depth(
                        degrees,
                        group,
                    );
                assert(degrees[g[m] as int] + n > max_degree);
            }
        }
        n
    } else {
        if !added[j] && can_join(rows, degrees, group, j, max_degree) {
            lemma_left_out(
                rows,
                degrees,
                added,
                group.push(j as usize),
                j + 1,
                max_degree,
                t,
            )
        } else {
            lemma_left_out(rows, degrees, added, group, j + 1, max_degree, t)
        }
    }
}

proof fn lemma_groups_in_turn(
    rows: Seq<Vec<bool>>,
    degrees: Seq<usize>,
    added: Seq<bool>,
    i: int,
    max_degree: int,
    k: int,
    l: int,
    m: int,
)
    requires
        0 <= i <= rows.len() <= usize::MAX,
        degrees.len() == rows.len(),
        added.len() == rows.len(),
        forall|j: int| 0 <= j < degrees.len() ==> #[trigger] degrees[j] <= max_degree,
        0 <= k < l < groups_from(rows, degrees, added, i, max_degree).len(),
        0 <= m < groups_from(rows, degrees, added, i, max_degree)[l].len(),
    ensures
        ({
            let groups = groups_from(rows, degrees, added, i, max_degree);
            let t = groups[l][m] as int;
            &&& groups[k].len() > 0
            &&& groups[k][0] < t
            &&& exists|n: int|
                splits(groups[k], t, n) && #[trigger] kept_out(
                    rows,
                    degrees,
                    max_degree,
                    groups[k],
                    t,
                    n,
                )
        }),
    decreases rows.len() - i,
{
    let groups = groups_from(rows, degrees, added, i, max_degree);
    lemma_groups(rows, degrees, added, i, max_degree);
    if added[i] || degrees[i] == 0 {
        lemma_groups_in_turn(rows, degrees, added, i + 1, max_degree, k, l, m);
    } else {
        let one = seq![i as usize];
        let g = grown(rows, degrees, added, one, i + 1, max_degree);
        let after = joined(added, g);
        let rest = groups_from(rows, degrees, after, i + 1, max_degree);
        lemma_grown(rows, degrees, added, one, i + 1, max_degree);
        assert(g.take(1)[0] == one[0]);
        assert(groups == seq![g] + rest);
        assert(groups[l] == rest[l - 1]);
        if k > 0 {
            assert(groups[k] == rest[k - 1]);
            lemma_groups_in_turn(rows, degrees, after, i + 1, max_degree, k - 1, l - 1, m);
        } else {
            let t = groups[l][m] as int;
            lemma_groups(rows, degrees, after, i + 1, max_degree);
            let later = |s: int| i + 1 <= s < rows.len() && degrees[s] > 0 && !after[s];
            assert(partitions(rest, later));
            assert(is_place(rest, t, l - 1, m));
            assert(later(t));
            assert(!g.contains(t as usize));
            let n = lemma_left_out(rows, degrees, added, one, i + 1, max_degree, t);
            assert(kept_out(rows, degrees, max_degree, g, t, n));
        }
    }
}

proof fn lemma_singles_in_order(degrees: Seq<usize>, n: nat, k: int, l: int)
    requires
        n <= degrees.len() <= usize::MAX,
        0 <= k < l < singles(degrees, n).len(),
    ensures
        singles(degrees, n)[k][0] < singles(degrees, n)[l][0],
    decreases n,
{
    let before = singles(degrees, (n - 1) as nat);
    if degrees[n - 1] == 0 {
        if l < before.len() {
            lemma_singles_in_order(degrees, (n - 1) as nat, k, l);
        } else {
            lemma_singles(degrees, (n - 1) as nat);
            let members = |s: int| 0 <= s < n - 1 && degrees[s] == 0;
            assert(before[k].len() == 1);
            assert(is_place(before, before[k][0] as int, k, 0));
            assert(members(before[k][0] as int));
        }
    } else {
        lemma_singles_in_order(degrees, (n - 1) as nat, k, l);
    }
}

/// Selectors that are not simple, or in no gate, come first, each with a column of its
/// own, in their order. The others follow: a column is begun by the first selector that has
/// none yet, and each selector behind it joins it unless something keeps it out, be it that
/// it is active together with one that has joined or that the degree would get too large;
/// those come in later columns.
pub proof fn law_combinations_in_turn(
    rows: Seq<Vec<bool>>,
    degrees: Seq<usize>,
    max_degree: int,
    k: int,
    l: int,
    m: int,
)
    requires
        rows.len() <= usize::MAX,
        degrees.len() == rows.len(),
        forall|j: int| 0 <= j < degrees.len() ==> #[trigger] degrees[j] <= max_degree,
        0 <= k < l < combinations(rows, degrees, max_degree).len(),
        0 <= m < combinations(rows, degrees, max_degree)[l].len(),
    ensures
        ({
            let groups = combinations(rows, degrees, max_degree);
            let s = groups[k][0] as int;
            let t = groups[l][m] as int;
            &&& degrees[t] == 0 ==> degrees[s] == 0
            &&& degrees[s] == 0 ==> groups[k].len() == 1
            &&& degrees[s] == 0 && degrees[t] == 0 ==> s < t
            &&& degrees[s] > 0 ==> s < t
            &&& degrees[s] > 0 ==> exists|n: int|
                splits(groups[k], t, n) && #[trigger] kept_out(
                    rows,
                    degrees,
                    max_degree,
                    groups[k],
                    t,
                    n,
                )
        }),
{
    let n = rows.len();
    let a = singles(degrees, n);
    let b = groups_from(rows, degrees, nobody(n), 0, max_degree);
    let groups = combinations(rows, degrees, max_degree);
    lemma_singles(degrees, n);
    lemma_groups(rows, degrees, nobody(n), 0, max_degree);
    let in_a = |s: int| 0 <= s < n && degrees[s] == 0;
    let in_b = |s: int| 0 <= s < rows.len() && degrees[s] > 0 && !nobody(n)[s];
    assert(partitions(a, in_a) && partitions(b, in_b));
    assert(groups == a + b);
    if l < a.len() {
        assert(groups[k] == a[k] && groups[l] == a[l]);
        assert(a[k].len() == 1 && a[l].len() == 1);
        assert(is_place(a, a[k][0] as int, k, 0) && is_place(a, a[l][m] as int, l, m));
        assert(in_a(a[k][0] as int) && in_a(a[l][m] as int));
        lemma_singles_in_order(degrees, n, k, l);
    } else {
        assert(groups[l] == b[l - a.len()]);
        assert(is_place(b, groups[l][m] as int, l - a.len(), m));
        assert(in_b(groups[l][m] as int));
        if k < a.len() {
            assert(groups[k] == a[k]);
            assert(a[k].len() == 1);
            assert(is_place(a, a[k][0] as int, k, 0));
            assert(in_a(a[k][0] as int));
        } else {
            assert(groups[k] == b[k - a.len()]);
            assert(is_group(rows, degrees, max_degree, b[k - a.len()]));
            lemma_groups_in_turn(
                rows,
                degrees,
                nobody(n),
                0,
                max_degree,
                k - a.len(),
                l - a.len(),
                m,
            );
            assert(is_place(b, groups[k][0] as int, k - a.len(), 0));
            assert(in_b(groups[k][0] as int));
        }
    }
}

/// The selectors of a column are numbered from one on, in their order: the column holds the
/// number of the one that is active, and zero where none is.
pub proof fn law_columns_hold_numbers(rows: Seq<Vec<bool>>, group: Seq<usize>, m: int, i: int)
    requires
        0 <= m <= group.len(),
        forall|k: int|
            0 <= k < group.len() ==> (rows[#[trigger] group[k] as int]@[i] <==> k + 1 == m),
    ensures
        root_at(rows, group, i) == m,
    decreases group.len(),
{
    if group.len() > 0 {
        let most = group.drop_last();
        assert forall|k: int| 0 <= k < most.len() implies (rows[#[trigger] most[k] as int]@[i]
            <==> k + 1 == m) by {
            assert(most[k] == group[k]);
        }
        assert(rows[group[group.len() - 1] as int]@[i] <==> group.len() == m);
        if group.len() != m {
            law_columns_hold_numbers(rows, most, m, i);
        }
    }
}

/// The degree that a simple selector has to be given: the largest of the polynomials that
/// it is the first simple selector of, and zero where there is none.
pub proof fn law_switched_degrees<F: Field>(polys: Seq<GpuExpression<F>>, selector: int)
    ensures
        forall|i: int|
            0 <= i < polys.len() && (#[trigger] polys[i]).simple_selectors().len() > 0
                && polys[i].simple_selectors()[0].0 == selector ==> polys[i].spec_degree()
                <= switched_degree(polys, selector),
        switched_degree(polys, selector) == 0 || exists|i: int|
            0 <= i < polys.len() && (#[trigger] polys[i]).simple_selectors().len() > 0
                && polys[i].simple_selectors()[0].0 == selector && polys[i].spec_degree()
                == switched_degree(polys, selector),
    decreases polys.len(),
{
    if polys.len() > 0 {
        let front = polys.drop_last();
        law_switched_degrees(front, selector);
        let d = switched_degree(polys, selector);
        assert forall|i: int|
            0 <= i < polys.len() && (#[trigger] polys[i]).simple_selectors().len() > 0
                && polys[i].simple_selectors()[0].0 == selector implies polys[i].spec_degree()
            <= d by {
            if i < front.len() {
                assert(front[i] == polys[i]);
            }
        }
        if d != 0 {
            if d == switched_degree(front, selector) {
                let i = choose|i: int|
                    0 <= i < front.len() && (#[trigger] front[i]).simple_selectors().len() > 0
                        && front[i].simple_selectors()[0].0 == selector && front[i].spec_degree()
                        == d;
                assert(polys[i] == front[i]);
            } else {
                assert(polys[polys.len() - 1].spec_degree() == d);
            }
        }
    }
}

/// The replacement of the selector that is numbered `root` is the query, times `j - query`
/// for each other number `j`, from the smallest to the largest.
pub proof fn law_replacement_values<F: Field>(
    e: GpuExpression<F>,
    query: GpuExpression<F>,
    root: nat,
    i: nat,
    cells: CellValues,
)
    requires
        is_replacement(e, query, root, i),
    ensures
        i == 0 ==> e == query,
        i > 0 && i == root ==> is_replacement(e, query, root, (i - 1) as nat),
        i > 0 && i != root ==> (e matches GpuExpression::Product(a, b) && is_replacement(
            *a,
            query,
            root,
            (i - 1) as nat,
        ) && b.value(cells) == (i - query.value(cells)) % F::modulus() && e.value(cells) == (
        a.value(cells) * (i - query.value(cells))) % F::modulus()),
{
    if i > 0 && i != root {
        let p = F::modulus();
        F::lemma_modulus();
        if let GpuExpression::Product(a, b) = e {
            let q = query.value(cells);
            if let GpuExpression::Sum(c, d) = *b {
                assert(c.value(cells) == i as int % p);
                assert(d.value(cells) == (-q) % p);
                assert(b.value(cells) == (c.value(cells) + d.value(cells)) % p);
            }
            lemma_add_mod_noop(i as int, -q, p);
            lemma_mul_mod_noop_right(a.value(cells), i - q, p);
        }
    }
}

} // verus!
