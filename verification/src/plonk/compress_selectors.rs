//! Combining selectors that are never active together into one fixed column.

use crate::field::{
    fadd, fmul, fneg, fsub, is_field, lemma_f_range, lemma_fsub_is_add_neg, lemma_mod_add_left,
    Field,
};
use crate::plonk::assigned::lemma_no_zero_divisors;
use crate::plonk::circuit::{GpuColumn, GpuFixed, GpuFixedQuery, GpuSelector};
use crate::plonk::constraint_system::{
    lemma_max_gate_degree, lemma_max_poly_degree, GpuConstraintSystem,
};
use crate::plonk::evaluator::gate_polys;
use crate::plonk::expression::{CellValues, GpuExpression};
use crate::plonk::queries::with_queries;
use crate::plonk::selectors::{
    all_selectors_below, are_queries, lemma_queries_grow, new_queries,
};
use crate::plonk::virtual_cells::fixed_column;
use crate::plonk::witness::all_there;
use crate::poly::Rotation;
use vstd::arithmetic::div_mod::{lemma_mod_add_multiples_vanish, lemma_small_mod};
use vstd::prelude::*;

verus! {

/// Whether two selectors are active in the same row.
pub open spec fn conflict(rows: Seq<Vec<bool>>, a: int, b: int) -> bool {
    exists|i: int|
        0 <= i < rows[a]@.len() && i < rows[b]@.len() && #[trigger] rows[a]@[i] && rows[b]@[i]
}

/// Whether a selector is active together with none of a group.
pub open spec fn fits_beside(rows: Seq<Vec<bool>>, group: Seq<usize>, j: int) -> bool {
    forall|k: int| 0 <= k < group.len() ==> !conflict(rows, j, #[trigger] group[k] as int)
}

/// The largest degree of a gate with a selector of the group, without the
/// selector itself.
pub open spec fn depth(degrees: Seq<usize>, group: Seq<usize>) -> int
    decreases group.len(),
{
    if group.len() == 0 {
        0
    } else {
        let d = depth(degrees, group.drop_last());
        let e = degrees[group.last() as int] - 1;
        if d >= e {
            d
        } else {
            e
        }
    }
}

/// Whether a selector can join a group: it is simple, is active together with
/// none of the group, and keeps the degree within bounds.
pub open spec fn can_join(
    rows: Seq<Vec<bool>>,
    degrees: Seq<usize>,
    group: Seq<usize>,
    j: int,
    max_degree: int,
) -> bool {
    &&& degrees[j] > 0
    &&& fits_beside(rows, group, j)
    &&& depth(degrees, group) + group.len() + 1 <= max_degree
    &&& degrees[j] - 1 + group.len() + 1 <= max_degree
}

/// A group, joined by those of the selectors from `j` on that can join it and
/// have not joined another, each in its turn.
pub open spec fn grown(
    rows: Seq<Vec<bool>>,
    degrees: Seq<usize>,
    added: Seq<bool>,
    group: Seq<usize>,
    j: int,
    max_degree: int,
) -> Seq<usize>
    decreases rows.len() - j,
{
    if j >= rows.len() {
        group
    } else if !added[j] && can_join(rows, degrees, group, j, max_degree) {
        grown(rows, degrees, added, group.push(j as usize), j + 1, max_degree)
    } else {
        grown(rows, degrees, added, group, j + 1, max_degree)
    }
}

/// Who has joined a group, once a group has formed.
pub open spec fn joined(added: Seq<bool>, group: Seq<usize>) -> Seq<bool> {
    Seq::new(added.len(), |i: int| added[i] || group.contains(i as usize))
}

/// The groups of the simple selectors from `i` on that have not joined one.
pub open spec fn groups_from(
    rows: Seq<Vec<bool>>,
    degrees: Seq<usize>,
    added: Seq<bool>,
    i: int,
    max_degree: int,
) -> Seq<Seq<usize>>
    decreases rows.len() - i,
{
    if i >= rows.len() {
        Seq::empty()
    } else if added[i] || degrees[i] == 0 {
        groups_from(rows, degrees, added, i + 1, max_degree)
    } else {
        let group = grown(rows, degrees, added, seq![i as usize], i + 1, max_degree);
        seq![group] + groups_from(rows, degrees, joined(added, group), i + 1, max_degree)
    }
}

/// The first `n` selectors that are not simple, or in no gate: each on its own.
pub open spec fn singles(degrees: Seq<usize>, n: nat) -> Seq<Seq<usize>>
    decreases n,
{
    if n == 0 {
        Seq::empty()
    } else if degrees[n - 1] == 0 {
        singles(degrees, (n - 1) as nat).push(seq![(n - 1) as usize])
    } else {
        singles(degrees, (n - 1) as nat)
    }
}

/// Who has joined a group at the start: nobody.
pub open spec fn nobody(n: nat) -> Seq<bool> {
    Seq::new(n, |i: int| false)
}

/// The combinations of selectors, one for each new fixed column.
pub open spec fn combinations(
    rows: Seq<Vec<bool>>,
    degrees: Seq<usize>,
    max_degree: int,
) -> Seq<Seq<usize>> {
    singles(degrees, rows.len()) + groups_from(rows, degrees, nobody(rows.len()), 0, max_degree)
}

fn conflicting(a: &Vec<bool>, b: &Vec<bool>) -> (r: bool)
    ensures
        r == exists|i: int| 0 <= i < a@.len() && i < b@.len() && #[trigger] a@[i] && b@[i],
{
    let mut i: usize = 0;
    while i < a.len() && i < b.len()
        invariant
            i <= a@.len(),
            i <= b@.len(),
            forall|j: int| 0 <= j < i ==> !(#[trigger] a@[j] && b@[j]),
        decreases a@.len() - i,
    {
        if a[i] && b[i] {
            assert(a@[i as int] && b@[i as int]);
            return true;
        }
        i += 1;
    }
    false
}

/// Tries to find other selectors that can join the `i`th.
fn grow(
    rows: &Vec<Vec<bool>>,
    degrees: &Vec<usize>,
    added: &Vec<bool>,
    i: usize,
    max_degree: usize,
) -> (r: Vec<usize>)
    requires
        degrees@.len() == rows@.len(),
        added@.len() == rows@.len(),
        i < rows@.len(),
        0 < degrees@[i as int] <= max_degree,
        forall|j: int| 0 <= j < degrees@.len() ==> #[trigger] degrees@[j] <= max_degree,
    ensures
        r@ == grown(rows@, degrees@, added@, seq![i], i + 1, max_degree as int),
{
    // This is used to keep track of the largest degree gate involved in the
    // combination so far. We subtract by one to omit the virtual selector
    // which will be substituted by the caller with the expression we give
    // them.
    let mut d: usize = degrees[i] - 1;
    let mut group: Vec<usize> = Vec::new();
    group.push(i);
    let ghost target = grown(rows@, degrees@, added@, seq![i], i + 1, max_degree as int);
    assert(group@ =~= seq![i]);
    assert(group@.drop_last() =~= Seq::empty());
    assert(depth(degrees@, group@.drop_last()) == 0);
    assert(rows.len() == rows@.len());
    let mut j: usize = i + 1;
    while j < rows.len()
        invariant
            j <= rows@.len(),
            degrees@.len() == rows@.len(),
            added@.len() == rows@.len(),
            forall|j: int| 0 <= j < degrees@.len() ==> #[trigger] degrees@[j] <= max_degree,
            0 < group@.len(),
            d == depth(degrees@, group@),
            d + group@.len() <= max_degree,
            forall|k: int| 0 <= k < group@.len() ==> #[trigger] group@[k] < rows@.len(),
            target == grown(rows@, degrees@, added@, group@, j as int, max_degree as int),
        decreases rows@.len() - j,
    {
        assert(degrees@[j as int] <= max_degree);
        // Is this selector excluded from co-existing in the same
        // combination with any of the other selectors so far?
        let mut joins = !added[j] && degrees[j] > 0;
        let mut k: usize = 0;
        while k < group.len()
            invariant
                k <= group@.len(),
                j < rows@.len(),
                forall|k: int| 0 <= k < group@.len() ==> #[trigger] group@[k] < rows@.len(),
                joins ==> forall|m: int|
                    0 <= m < k ==> !conflict(rows@, j as int, #[trigger] group@[m] as int),
                joins ==> !added@[j as int] && degrees@[j as int] > 0,
                !joins ==> added@[j as int] || degrees@[j as int] == 0 || exists|m: int|
                    0 <= m < group@.len() && conflict(rows@, j as int, #[trigger] group@[m] as int),
            decreases group@.len() - k,
        {
            if conflicting(&rows[j], &rows[group[k]]) {
                joins = false;
                assert(conflict(rows@, j as int, group@[k as int] as int));
            }
            k += 1;
        }
        if joins {
            // Can the new selector join the combination? We use the degree less
            // one to omit the influence of the virtual selector on the degree, as
            // it will be substituted.
            let e: usize = degrees[j] - 1;
            let new_d: usize = if d >= e {
                d
            } else {
                e
            };
            if new_d < max_degree && group.len() < max_degree - new_d {
                d = new_d;
                let ghost before = group@;
                group.push(j);
                assert(group@.drop_last() =~= before);
            }
        }
        j += 1;
    }
    group
}

/// The combinations of selectors, for gates of at most the given degree.
///
/// Selectors of degree zero are complex, or in no gate; each gets a column of its
/// own. The others are combined where they are never active together.
pub fn process(rows: &Vec<Vec<bool>>, degrees: &Vec<usize>,
    max_degree: usize) -> (r: Vec<Vec<usize>>)
    requires
        degrees@.len() == rows@.len(),
        forall|j: int| 0 <= j < degrees@.len() ==> #[trigger] degrees@[j] <= max_degree,
    ensures
        views(r@) == combinations(rows@, degrees@, max_degree as int),
{
    let n = rows.len();
    let mut out: Vec<Vec<usize>> = Vec::new();
    // All provided selectors of degree 0 are assumed to be either concrete
    // selectors or do not appear in a gate. Let's address these first.
    let mut i: usize = 0;
    assert(views(out@) =~= singles(degrees@, 0));
    while i < n
        invariant
            i <= n,
            n == degrees@.len(),
            views(out@) == singles(degrees@, i as nat),
        decreases n - i,
    {
        if degrees[i] == 0 {
            let ghost before = out@;
            let mut single: Vec<usize> = Vec::new();
            single.push(i);
            out.push(single);
            assert(single@ =~= seq![i]);
            assert(views(out@) =~= views(before).push(seq![i]));
        }
        i += 1;
    }
    let ghost first = views(out@);
    // All of the remaining selectors are simple. Let's try to combine them.
    let mut added: Vec<bool> = Vec::new();
    let mut i: usize = 0;
    while i < n
        invariant
            i <= n,
            added@ == nobody(i as nat),
        decreases n - i,
    {
        added.push(false);
        assert(added@ =~= nobody((i + 1) as nat));
        i += 1;
    }
    let ghost target = groups_from(rows@, degrees@, nobody(n as nat), 0, max_degree as int);
    let mut i: usize = 0;
    assert(first + target =~= views(out@) + target);
    while i < n
        invariant
            i <= n,
            n == rows@.len(),
            n == degrees@.len(),
            added@.len() == n,
            forall|j: int| 0 <= j < degrees@.len() ==> #[trigger] degrees@[j] <= max_degree,
            first + target == views(out@) + groups_from(
                rows@,
                degrees@,
                added@,
                i as int,
                max_degree as int,
            ),
        decreases n - i,
    {
        if !added[i] && degrees[i] > 0 {
            let ghost before = out@;
            let ghost added_before = added@;
            let group = grow(rows, degrees, &added, i, max_degree);
            let mut k: usize = 0;
            proof {
                lemma_grown(
                    rows@,
                    degrees@,
                    added@,
                    seq![i],
                    i + 1,
                    max_degree as int,
                );
            }
            while k < group.len()
                invariant
                    k <= group@.len(),
                    added@.len() == added_before.len(),
                    added_before.len() == n,
                    forall|m: int| 0 <= m < group@.len() ==> #[trigger] group@[m] < n,
                    forall|a: int|
                        0 <= a < added@.len() ==> #[trigger] added@[a] == (added_before[a]
                            || group@.take(k as int).contains(a as usize)),
                decreases group@.len() - k,
            {
                let ghost inner = added@;
                let at = group[k];
                added[at] = true;
                proof {
                    let done = group@.take(k as int);
                    let more = group@.take(k + 1);
                    assert forall|a: int| 0 <= a < added@.len() implies #[trigger] added@[a] == (
                    added_before[a] || more.contains(a as usize)) by {
                        assert(inner[a] == (added_before[a] || done.contains(a as usize)));
                        if done.contains(a as usize) {
                            let m = choose|m: int| 0 <= m < done.len() && done[m] == a as usize;
                            assert(more[m] == a as usize);
                        }
                        assert(more[k as int] == at);
                        if more.contains(a as usize) {
                            let m = choose|m: int| 0 <= m < more.len() && more[m] == a as usize;
                            if m < k {
                                assert(done[m] == a as usize);
                            }
                        }
                    }
                }
                k += 1;
            }
            proof {
                assert(group@.take(k as int) =~= group@);
                assert(added@ =~= joined(added_before, group@));
            }
            out.push(group);
            proof {
                assert(views(out@) =~= views(before).push(group@));
                let rest = groups_from(rows@, degrees@, added@, i + 1, max_degree as int);
                assert(views(before) + (seq![group@] + rest) =~= views(out@) + rest);
            }
        }
        i += 1;
    }
    assert(views(out@) + Seq::<Seq<usize>>::empty() =~= views(out@));
    out
}

/// The contents of lists.
pub open spec fn views<T>(s: Seq<Vec<T>>) -> Seq<Seq<T>> {
    Seq::new(s.len(), |i: int| s[i]@)
}

/// What a grown group is: those that it had, then others that ascend, have not
/// joined another group, and are not active together with any of the group.
pub proof fn lemma_grown(
    rows: Seq<Vec<bool>>,
    degrees: Seq<usize>,
    added: Seq<bool>,
    group: Seq<usize>,
    j: int,
    max_degree: int,
)
    requires
        0 <= j,
        rows.len() <= usize::MAX,
        degrees.len() == rows.len(),
        added.len() == rows.len(),
        forall|k: int| 0 <= k < group.len() ==> #[trigger] group[k] < rows.len(),
        forall|k: int| 0 <= k < group.len() ==> #[trigger] group[k] < j,
    ensures
        ({
            let g = grown(rows, degrees, added, group, j, max_degree);
            &&& g.len() >= group.len()
            &&& g.take(group.len() as int) == group
            &&& forall|k: int| 0 <= k < g.len() ==> #[trigger] g[k] < rows.len()
            &&& forall|k: int|
                group.len() <= k < g.len() ==> j <= #[trigger] g[k] && !added[g[k] as int]
                    && degrees[g[k] as int] > 0
            &&& forall|k: int, l: int|
                0 <= k < l < g.len() && group.len() <= l ==> #[trigger] g[k] < #[trigger] g[l]
                    && !conflict(rows, g[l] as int, g[k] as int)
            &&& depth(degrees, group) + group.len() <= max_degree ==> depth(degrees, g) + g.len()
                <= max_degree
        }),
    decreases rows.len() - j,
{
    let g = grown(rows, degrees, added, group, j, max_degree);
    if j >= rows.len() {
        assert(g.take(group.len() as int) =~= group);
    } else if !added[j] && can_join(rows, degrees, group, j, max_degree) {
        let next = group.push(j as usize);
        assert(next.drop_last() =~= group);
        lemma_grown(rows, degrees, added, next, j + 1, max_degree);
        assert(g.take(next.len() as int) == next);
        assert forall|k: int| 0 <= k < next.len() implies g[k] == #[trigger] next[k] by {
            assert(g.take(next.len() as int)[k] == next[k]);
        }
        assert(g.take(group.len() as int) =~= group);
        assert forall|k: int, l: int| 0 <= k < l < g.len() && group.len() <= l implies
            #[trigger] g[k] < #[trigger] g[l] && !conflict(rows, g[l] as int, g[k] as int) by {
            if l == group.len() {
                assert(g[l] == next[l]);
                assert(g[k] == next[k]);
                assert(next[k] == group[k]);
            }
        }
        assert forall|k: int| group.len() <= k < g.len() implies j <= #[trigger] g[k]
            && !added[g[k] as int] && degrees[g[k] as int] > 0 by {
            if k == group.len() {
                assert(g[k] == next[k]);
            }
        }
    } else {
        lemma_grown(rows, degrees, added, group, j + 1, max_degree);
    }
}

/// The position of a selector among combinations.
pub open spec fn is_place(groups: Seq<Seq<usize>>, s: int, k: int, m: int) -> bool {
    &&& 0 <= k < groups.len()
    &&& 0 <= m < groups[k].len()
    &&& groups[k][m] == s
}

/// Whether the groups hold just the selectors that `members` tells, each once.
pub open spec fn partitions(groups: Seq<Seq<usize>>, members: spec_fn(int) -> bool) -> bool {
    &&& forall|s: int|
        0 <= s <= usize::MAX && #[trigger] members(s) ==> exists|k: int, m: int|
            is_place(groups, s, k, m)
    &&& forall|s: int, k: int, m: int| #[trigger]
        is_place(groups, s, k, m) ==> members(s)
    &&& forall|s: int, k: int, m: int, k2: int, m2: int| #[trigger]
        is_place(groups, s, k, m) && #[trigger] is_place(groups, s, k2, m2) ==> k == k2 && m == m2
}

pub proof fn lemma_singles(degrees: Seq<usize>, n: nat)
    requires
        n <= degrees.len() <= usize::MAX,
    ensures
        partitions(singles(degrees, n), |s: int| 0 <= s < n && degrees[s] == 0),
        forall|k: int| 0 <= k < singles(degrees, n).len()
            ==> (#[trigger] singles(degrees, n)[k]).len() == 1,
    decreases n,
{
    let groups = singles(degrees, n);
    let members = |s: int| 0 <= s < n && degrees[s] == 0;
    if n > 0 {
        let before = singles(degrees, (n - 1) as nat);
        let earlier = |s: int| 0 <= s < n - 1 && degrees[s] == 0;
        lemma_singles(degrees, (n - 1) as nat);
        assert(partitions(before, earlier));
        if degrees[n - 1] == 0 {
            let last = seq![(n - 1) as usize];
            assert(groups == before.push(last));
            assert forall|s: int| 0 <= s <= usize::MAX && #[trigger] members(s) implies exists|
                k: int,
                m: int,
            | is_place(groups, s, k, m) by {
                if s == n - 1 {
                    assert(is_place(groups, s, before.len() as int, 0));
                } else {
                    assert(earlier(s));
                    let (k, m) = choose|k: int, m: int| is_place(before, s, k, m);
                    assert(is_place(groups, s, k, m));
                }
            }
            assert forall|s: int, k: int, m: int| #[trigger]
                is_place(groups, s, k, m) implies members(s) by {
                if k < before.len() {
                    assert(is_place(before, s, k, m));
                    assert(earlier(s));
                }
            }
            assert forall|s: int, k: int, m: int, k2: int, m2: int| #[trigger]
                is_place(groups, s, k, m) && #[trigger] is_place(groups, s, k2, m2) implies k == k2
                && m == m2 by {
                if k < before.len() {
                    assert(is_place(before, s, k, m));
                    assert(earlier(s));
                }
                if k2 < before.len() {
                    assert(is_place(before, s, k2, m2));
                    assert(earlier(s));
                }
            }
        } else {
            assert forall|s: int| 0 <= s <= usize::MAX && #[trigger] members(s) implies exists|
                k: int,
                m: int,
            | is_place(groups, s, k, m) by {
                assert(earlier(s));
            }
            assert forall|s: int, k: int, m: int| #[trigger]
                is_place(groups, s, k, m) implies members(s) by {
                assert(earlier(s));
            }
        }
    }
}

/// What each group of simple selectors is like.
pub open spec fn is_group(
    rows: Seq<Vec<bool>>,
    degrees: Seq<usize>,
    max_degree: int,
    g: Seq<usize>,
) -> bool {
    &&& g.len() > 0
    &&& forall|m: int| 0 <= m < g.len() ==> #[trigger] g[m] < rows.len()
    &&& forall|m: int, l: int|
        0 <= m < l < g.len() ==> #[trigger] g[m] < #[trigger] g[l] && !conflict(
            rows,
            g[l] as int,
            g[m] as int,
        )
    &&& depth(degrees, g) + g.len() <= max_degree
}

pub proof fn lemma_groups(
    rows: Seq<Vec<bool>>,
    degrees: Seq<usize>,
    added: Seq<bool>,
    i: int,
    max_degree: int,
)
    requires
        0 <= i <= rows.len() <= usize::MAX,
        degrees.len() == rows.len(),
        added.len() == rows.len(),
        forall|j: int| 0 <= j < degrees.len() ==> #[trigger] degrees[j] <= max_degree,
    ensures
        partitions(
            groups_from(rows, degrees, added, i, max_degree),
            |s: int| i <= s < rows.len() && degrees[s] > 0 && !added[s],
        ),
        forall|k: int|
            0 <= k < groups_from(rows, degrees, added, i, max_degree).len() ==> is_group(
                rows,
                degrees,
                max_degree,
                #[trigger] groups_from(rows, degrees, added, i, max_degree)[k],
            ),
    decreases rows.len() - i,
{
    let groups = groups_from(rows, degrees, added, i, max_degree);
    let members = |s: int| i <= s < rows.len() && degrees[s] > 0 && !added[s];
    if i < rows.len() {
        if added[i] || degrees[i] == 0 {
            lemma_groups(rows, degrees, added, i + 1, max_degree);
            let later = |s: int| i + 1 <= s < rows.len() && degrees[s] > 0 && !added[s];
            assert(partitions(groups, later));
            assert forall|s: int| 0 <= s <= usize::MAX && #[trigger] members(s) implies exists|
                k: int,
                m: int,
            | is_place(groups, s, k, m) by {
                assert(later(s));
            }
            assert forall|s: int, k: int, m: int| #[trigger]
                is_place(groups, s, k, m) implies members(s) by {
                assert(later(s));
            }
        } else {
            let one = seq![i as usize];
            let g = grown(rows, degrees, added, one, i + 1, max_degree);
            lemma_grown(rows, degrees, added, one, i + 1, max_degree);
            assert(g.take(1)[0] == one[0]);
            assert(g[0] == i);
            assert(depth(degrees, one.drop_last()) == 0);
            assert(degrees[i] <= max_degree);
            assert(is_group(rows, degrees, max_degree, g));
            let after = joined(added, g);
            let rest = groups_from(rows, degrees, after, i + 1, max_degree);
            let later = |s: int| i + 1 <= s < rows.len() && degrees[s] > 0 && !after[s];
            lemma_groups(rows, degrees, after, i + 1, max_degree);
            assert(partitions(rest, later));
            assert(groups == seq![g] + rest);
            assert forall|k: int| 0 <= k < groups.len() implies is_group(
                rows,
                degrees,
                max_degree,
                #[trigger] groups[k],
            ) by {
                if k > 0 {
                    assert(groups[k] == rest[k - 1]);
                }
            }
            assert forall|s: int| 0 <= s <= usize::MAX && #[trigger] members(s) implies exists|
                k: int,
                m: int,
            | is_place(groups, s, k, m) by {
                if g.contains(s as usize) {
                    let m = choose|m: int| 0 <= m < g.len() && g[m] == s as usize;
                    assert(is_place(groups, s, 0, m));
                } else {
                    assert(later(s));
                    let (k, m) = choose|k: int, m: int| is_place(rest, s, k, m);
                    assert(groups[k + 1] == rest[k]);
                    assert(is_place(groups, s, k + 1, m));
                }
            }
            assert forall|s: int, k: int, m: int| #[trigger]
                is_place(groups, s, k, m) implies members(s) by {
                if k == 0 {
                    assert(g[m] == s);
                } else {
                    assert(groups[k] == rest[k - 1]);
                    assert(is_place(rest, s, k - 1, m));
                    assert(later(s));
                }
            }
            assert forall|s: int, k: int, m: int, k2: int, m2: int| #[trigger]
                is_place(groups, s, k, m) && #[trigger] is_place(groups, s, k2, m2) implies k == k2
                && m == m2 by {
                if k > 0 {
                    assert(groups[k] == rest[k - 1]);
                    assert(is_place(rest, s, k - 1, m));
                    assert(later(s));
                    assert(!g.contains(s as usize));
                }
                if k2 > 0 {
                    assert(groups[k2] == rest[k2 - 1]);
                    assert(is_place(rest, s, k2 - 1, m2));
                    assert(later(s));
                    assert(!g.contains(s as usize));
                }
                if k == 0 {
                    assert(g[m] == s);
                    assert(g.contains(s as usize));
                    if k2 == 0 {
                        assert(g[m2] == s);
                        if m < m2 {
                            assert(g[m] < g[m2]);
                        }
                        if m2 < m {
                            assert(g[m2] < g[m]);
                        }
                    }
                }
                if k2 == 0 {
                    assert(g[m2] == s);
                    assert(g.contains(s as usize));
                }
            }
        }
    }
}

/// Every selector is in one combination, and there once.
pub proof fn law_combinations_partition(rows: Seq<Vec<bool>>, degrees: Seq<usize>, max_degree: int)
    requires
        rows.len() <= usize::MAX,
        degrees.len() == rows.len(),
        forall|j: int| 0 <= j < degrees.len() ==> #[trigger] degrees[j] <= max_degree,
    ensures
        partitions(combinations(rows, degrees, max_degree), |s: int| 0 <= s < rows.len()),
        forall|k: int|
            0 <= k < combinations(rows, degrees, max_degree).len() ==> (#[trigger] combinations(
                rows,
                degrees,
                max_degree,
            )[k]).len() > 0,
{
    let n = rows.len();
    let a = singles(degrees, n);
    let b = groups_from(rows, degrees, nobody(n), 0, max_degree);
    lemma_singles(degrees, n);
    lemma_groups(rows, degrees, nobody(n), 0, max_degree);
    let in_a = |s: int| 0 <= s < n && degrees[s] == 0;
    let in_b = |s: int| 0 <= s < rows.len() && degrees[s] > 0 && !nobody(n)[s];
    assert(partitions(a, in_a));
    assert(partitions(b, in_b));
    let groups = combinations(rows, degrees, max_degree);
    let members = |s: int| 0 <= s < rows.len();
    assert(groups == a + b);
    assert forall|k: int| 0 <= k < groups.len() implies (#[trigger] groups[k]).len() > 0 by {
        if k < a.len() {
            assert(a[k].len() == 1);
        } else {
            assert(is_group(rows, degrees, max_degree, b[k - a.len()]));
        }
    }
    assert forall|s: int| 0 <= s <= usize::MAX && #[trigger] members(s) implies exists|
        k: int,
        m: int,
    | is_place(groups, s, k, m) by {
        if degrees[s] == 0 {
            assert(in_a(s));
            let (k, m) = choose|k: int, m: int| is_place(a, s, k, m);
            assert(groups[k] == a[k]);
            assert(is_place(groups, s, k, m));
        } else {
            assert(in_b(s));
            let (k, m) = choose|k: int, m: int| is_place(b, s, k, m);
            assert(groups[a.len() + k] == b[k]);
            assert(is_place(groups, s, a.len() + k, m));
        }
    }
    assert forall|s: int, k: int, m: int| #[trigger] is_place(groups, s, k, m) implies members(
        s,
    ) by {
        if k < a.len() {
            assert(groups[k] == a[k]);
            assert(is_place(a, s, k, m));
            assert(in_a(s));
        } else {
            assert(groups[k] == b[k - a.len()]);
            assert(is_place(b, s, k - a.len(), m));
            assert(in_b(s));
        }
    }
    assert forall|s: int, k: int, m: int, k2: int, m2: int| #[trigger]
        is_place(groups, s, k, m) && #[trigger] is_place(groups, s, k2, m2) implies k == k2 && m
        == m2 by {
        if k < a.len() {
            assert(groups[k] == a[k]);
            assert(is_place(a, s, k, m));
            assert(in_a(s));
        } else {
            assert(groups[k] == b[k - a.len()]);
            assert(is_place(b, s, k - a.len(), m));
            assert(in_b(s));
        }
        if k2 < a.len() {
            assert(groups[k2] == a[k2]);
            assert(is_place(a, s, k2, m2));
            assert(in_a(s));
        } else {
            assert(groups[k2] == b[k2 - a.len()]);
            assert(is_place(b, s, k2 - a.len(), m2));
            assert(in_b(s));
        }
    }
}

/// Selectors of one combination are never active together, and substituting them
/// keeps the degree of gates with simple selectors within bounds.
pub proof fn law_combinations_are_compatible(
    rows: Seq<Vec<bool>>,
    degrees: Seq<usize>,
    max_degree: int,
    k: int,
    m: int,
    l: int,
)
    requires
        rows.len() <= usize::MAX,
        degrees.len() == rows.len(),
        forall|j: int| 0 <= j < degrees.len() ==> #[trigger] degrees[j] <= max_degree,
        0 <= k < combinations(rows, degrees, max_degree).len(),
        0 <= m < combinations(rows, degrees, max_degree)[k].len(),
        0 <= l < combinations(rows, degrees, max_degree)[k].len(),
    ensures
        ({
            let g = combinations(rows, degrees, max_degree)[k];
            let s = g[m] as int;
            &&& m != l ==> !conflict(rows, s, g[l] as int)
            &&& degrees[s] > 0 ==> degrees[s] - 1 + g.len() <= max_degree
        }),
{
    let n = rows.len();
    let a = singles(degrees, n);
    let b = groups_from(rows, degrees, nobody(n), 0, max_degree);
    lemma_singles(degrees, n);
    lemma_groups(rows, degrees, nobody(n), 0, max_degree);
    let groups = combinations(rows, degrees, max_degree);
    let g = groups[k];
    if k < a.len() {
        assert(g == a[k]);
        assert(a[k].len() == 1);
        let in_a = |s: int| 0 <= s < n && degrees[s] == 0;
        assert(partitions(a, in_a));
        assert(is_place(a, g[m] as int, k, m));
        assert(in_a(g[m] as int));
    } else {
        assert(g == b[k - a.len()]);
        assert(is_group(rows, degrees, max_degree, b[k - a.len()]));
        if m < l {
            lemma_conflict_symmetric(rows, g[l] as int, g[m] as int);
        }
        lemma_depth(degrees, g, m);
    }
}

proof fn lemma_conflict_symmetric(rows: Seq<Vec<bool>>, a: int, b: int)
    ensures
        conflict(rows, a, b) == conflict(rows, b, a),
{
    if conflict(rows, a, b) {
        let i = choose|i: int|
            0 <= i < rows[a]@.len() && i < rows[b]@.len() && #[trigger] rows[a]@[i] && rows[b]@[i];
        assert(rows[b]@[i] && rows[a]@[i]);
    }
    if conflict(rows, b, a) {
        let i = choose|i: int|
            0 <= i < rows[b]@.len() && i < rows[a]@.len() && #[trigger] rows[b]@[i] && rows[a]@[i];
        assert(rows[a]@[i] && rows[b]@[i]);
    }
}

proof fn lemma_depth(degrees: Seq<usize>, group: Seq<usize>, m: int)
    requires
        0 <= m < group.len(),
    ensures
        degrees[group[m] as int] - 1 <= depth(degrees, group),
    decreases group.len(),
{
    if m < group.len() - 1 {
        lemma_depth(degrees, group.drop_last(), m);
        assert(group.drop_last()[m] == group[m]);
    }
}

/// What a combination's column holds in a row: the number, from one on, of the
/// selector that is active there, or zero.
pub open spec fn root_at(rows: Seq<Vec<bool>>, group: Seq<usize>, i: int) -> nat
    decreases group.len(),
{
    if group.len() == 0 {
        0
    } else if rows[group.last() as int]@[i] {
        group.len()
    } else {
        root_at(rows, group.drop_last(), i)
    }
}

/// The column of a combination, over `n` rows.
pub fn combination_assignment<F: Field>(rows: &Vec<Vec<bool>>, group: &Vec<usize>, n: usize) -> (r:
    Vec<F>)
    requires
        forall|m: int| 0 <= m < group@.len() ==> #[trigger] group@[m] < rows@.len(),
        forall|s: int| 0 <= s < rows@.len() ==> (#[trigger] rows@[s])@.len() == n,
    ensures
        r@.len() == n,
        forall|i: int|
            0 <= i < n ==> (#[trigger] r@[i]).val() == root_at(rows@, group@, i) as int
                % F::modulus(),
{
    let ghost p = F::modulus();
    proof {
        F::lemma_modulus();
        lemma_small_mod(0, p as nat);
        lemma_small_mod(1, p as nat);
    }
    let mut out: Vec<F> = Vec::new();
    let mut i: usize = 0;
    while i < n
        invariant
            i <= n,
            out@.len() == i,
            forall|j: int| 0 <= j < i ==> (#[trigger] out@[j]).val() == 0,
        decreases n - i,
    {
        out.push(F::zero());
        i += 1;
    }
    let mut assigned_root = F::one();
    let mut m: usize = 0;
    while m < group.len()
        invariant
            p == F::modulus(),
            p > 1,
            m <= group@.len(),
            forall|m: int| 0 <= m < group@.len() ==> #[trigger] group@[m] < rows@.len(),
            forall|s: int| 0 <= s < rows@.len() ==> (#[trigger] rows@[s])@.len() == n,
            assigned_root.val() == (m + 1) % p,
            out@.len() == n,
            forall|j: int|
                0 <= j < n ==> (#[trigger] out@[j]).val() == root_at(
                    rows@,
                    group@.take(m as int),
                    j,
                ) as int % p,
        decreases group@.len() - m,
    {
        let ghost before = out@;
        let ghost done = group@.take(m as int);
        let ghost more = group@.take(m + 1);
        assert(more.drop_last() =~= done);
        assert(more.last() == group@[m as int]);
        let selector = group[m];
        assert(rows@[selector as int]@.len() == n);
        // Update the combination assignment
        let mut j: usize = 0;
        while j < n
            invariant
                p == F::modulus(),
                j <= n,
                selector < rows@.len(),
                rows@[selector as int]@.len() == n,
                assigned_root.val() == (m + 1) % p,
                more.len() == m + 1,
                more.last() == selector,
                more.drop_last() == done,
                out@.len() == n,
                before.len() == n,
                forall|l: int|
                    0 <= l < n ==> (#[trigger] before[l]).val() == root_at(rows@, done, l) as int
                        % p,
                forall|l: int|
                    0 <= l < j ==> (#[trigger] out@[l]).val() == root_at(rows@, more, l) as int
                        % p,
                forall|l: int| j <= l < n ==> #[trigger] out@[l] == before[l],
            decreases n - j,
        {
            assert(out@[j as int] == before[j as int]);
            // This will not overwrite another selector's activations because
            // selectors of a combination are disjoint.
            if rows[selector][j] {
                out[j] = assigned_root;
            }
            j += 1;
        }
        assigned_root = assigned_root.add(&F::one());
        proof {
            lemma_mod_add_left(p, m + 1, 1);
        }
        m += 1;
    }
    assert(group@.take(m as int) =~= group@);
    out
}

/// Whether an expression is `i - q`.
pub open spec fn is_difference<F: Field>(e: GpuExpression<F>, query: GpuExpression<F>,
    i: nat) -> bool {
    e matches GpuExpression::Sum(c, d) && (*c matches GpuExpression::Constant(x) && x.val() == i
        as int % F::modulus()) && *d == GpuExpression::Negated(Box::new(query))
}

/// Whether an expression is `q` times all `(j - q)` with `j` from one to `i`,
/// but for `j = root`.
pub open spec fn is_replacement<F: Field>(
    e: GpuExpression<F>,
    query: GpuExpression<F>,
    root: nat,
    i: nat,
) -> bool
    decreases i,
{
    if i == 0 {
        e == query
    } else if i == root {
        is_replacement(e, query, root, (i - 1) as nat)
    } else {
        e matches GpuExpression::Product(a, b) && is_replacement(
            *a,
            query,
            root,
            (i - 1) as nat,
        ) && is_difference(*b, query, i)
    }
}

/// The expression that a selector is substituted with:
/// `q * Prod[i = 1..=count, i != root](i - q)`, which is non-zero only on rows
/// where the column is `root`. In particular, rows that hold zero correspond to
/// all selectors being disabled.
pub fn replacement<F: Field>(query: &GpuExpression<F>, root: usize, count: usize) -> (r:
    GpuExpression<F>)
    requires
        !query.has_simple_selector(),
    ensures
        is_replacement(r, *query, root as nat, count as nat),
        !r.has_simple_selector(),
{
    let ghost p = F::modulus();
    proof {
        F::lemma_modulus();
        lemma_small_mod(1, p as nat);
    }
    let mut expression = query.clone();
    let mut constant = F::one();
    let mut i: usize = 0;
    while i < count
        invariant
            p == F::modulus(),
            p > 1,
            i <= count,
            !query.has_simple_selector(),
            constant.val() == (i + 1) % p,
            is_replacement(expression, *query, root as nat, i as nat),
            !expression.has_simple_selector(),
        decreases count - i,
    {
        if i + 1 != root {
            let difference = GpuExpression::Constant(constant) - query.clone();
            proof {
                let negated = GpuExpression::Negated(Box::new(*query));
                assert(negated.simple_selectors() == query.simple_selectors());
                assert(GpuExpression::Constant(constant).simple_selectors().len() == 0);
                assert(difference.simple_selectors().len() == 0);
            }
            expression = expression * difference;
        }
        constant = constant.add(&F::one());
        proof {
            lemma_mod_add_left(p, i + 1, 1);
        }
        i += 1;
    }
    expression
}

/// `q` times all `(j - q)` with `j` from one to `i`, but for `j = root`.
pub open spec fn replaced_value(p: int, q: int, root: nat, i: nat) -> int
    decreases i,
{
    if i == 0 {
        q
    } else if i == root {
        replaced_value(p, q, root, (i - 1) as nat)
    } else {
        fmul(
            p,
            replaced_value(p, q, root, (i - 1) as nat),
            fadd(p, i as int % p, fneg(p, q)),
        )
    }
}

proof fn lemma_replacement_value<F: Field>(
    e: GpuExpression<F>,
    query: GpuExpression<F>,
    root: nat,
    i: nat,
    cells: CellValues,
)
    requires
        is_replacement(e, query, root, i),
    ensures
        e.value(cells) == replaced_value(F::modulus(), query.value(cells), root, i),
    decreases i,
{
    if i > 0 {
        if i == root {
            lemma_replacement_value(e, query, root, (i - 1) as nat, cells);
        } else {
            if let GpuExpression::Product(a, b) = e {
                lemma_replacement_value(*a, query, root, (i - 1) as nat, cells);
                if let GpuExpression::Sum(c, d) = *b {
                    assert(d.value(cells) == fneg(F::modulus(), query.value(cells)));
                    assert(b.value(cells) == fadd(
                        F::modulus(),
                        c.value(cells),
                        d.value(cells),
                    ));
                }
            }
        }
    }
}

/// The value at `q` is zero unless `q` is the root.
proof fn lemma_replaced_value(p: int, q: nat, root: nat, i: nat)
    requires
        is_field(p),
        i < p,
        q < p,
        0 < root < p,
    ensures
        0 <= replaced_value(p, q as int, root, i) < p,
        q == root ==> replaced_value(p, q as int, root, i) != 0,
        q == 0 ==> replaced_value(p, q as int, root, i) == 0,
        0 < q <= i && q != root ==> replaced_value(p, q as int, root, i) == 0,
    decreases i,
{
    if i > 0 {
        let before = replaced_value(p, q as int, root, (i - 1) as nat);
        lemma_replaced_value(p, q, root, (i - 1) as nat);
        if i != root {
            let factor = fadd(p, i as int % p, fneg(p, q as int));
            lemma_small_mod(i, p as nat);
            lemma_fsub_is_add_neg(p, i as int, q as int);
            assert(factor == fsub(p, i as int, q as int));
            lemma_f_range(p, before, factor);
            lemma_f_range(p, i as int, q as int);
            if q == root {
                assert(factor != 0) by {
                    if i > q {
                        lemma_small_mod((i - q) as nat, p as nat);
                    } else {
                        lemma_mod_add_multiples_vanish(i - q, p);
                        lemma_small_mod((p + i - q) as nat, p as nat);
                    }
                }
                lemma_no_zero_divisors(p, before, factor);
            }
            lemma_small_mod(0, p as nat);
            assert(0 * factor == 0);
            assert(before * 0 == 0);
        }
    }
}

/// A selector's replacement is non-zero in the rows where the selector is
/// active, and zero in all others.
pub proof fn law_replacement_is_selector<F: Field>(
    rows: Seq<Vec<bool>>,
    group: Seq<usize>,
    m: int,
    row: int,
    e: GpuExpression<F>,
    query: GpuExpression<F>,
    cells: CellValues,
)
    requires
        group.len() < F::modulus(),
        0 <= m < group.len(),
        0 <= row,
        forall|k: int|
            0 <= k < group.len() ==> (#[trigger] group[k]) < rows.len() && row
                < rows[group[k] as int]@.len(),
        forall|k: int, l: int|
            0 <= k < group.len() && 0 <= l < group.len() && k != l ==> !conflict(
                rows,
                #[trigger] group[k] as int,
                #[trigger] group[l] as int,
            ),
        is_replacement(e, query, (m + 1) as nat, group.len()),
        query.value(cells) == root_at(rows, group, row) as int % F::modulus(),
    ensures
        e.value(cells) != 0 <==> rows[group[m] as int]@[row],
{
    let p = F::modulus();
    let q = root_at(rows, group, row);
    lemma_replacement_value(e, query, (m + 1) as nat, group.len(), cells);
    lemma_root_at(rows, group, row);
    lemma_small_mod(q, p as nat);
    F::lemma_field();
    lemma_replaced_value(p, q, (m + 1) as nat, group.len());
    if rows[group[m] as int]@[row] {
        if q != m + 1 {
            assert(q > 0);
            let s = group[m] as int;
            let t = group[q - 1] as int;
            assert(rows[s]@[row] && rows[t]@[row]);
            assert(conflict(rows, s, t));
        }
    }
}

/// Where the column holds the number of a selector, that selector is active; it
/// holds zero where none is.
pub proof fn lemma_root_at(rows: Seq<Vec<bool>>, group: Seq<usize>, i: int)
    ensures
        root_at(rows, group, i) <= group.len(),
        root_at(rows, group, i) > 0 ==> rows[group[root_at(rows, group, i) - 1] as int]@[i],
        root_at(rows, group, i) == 0 ==> forall|k: int|
            0 <= k < group.len() ==> !rows[#[trigger] group[k] as int]@[i],
    decreases group.len(),
{
    if group.len() > 0 && !rows[group.last() as int]@[i] {
        let before = group.drop_last();
        lemma_root_at(rows, before, i);
        if root_at(rows, group, i) == 0 {
            assert forall|k: int| 0 <= k < group.len() implies !rows[#[trigger] group[k] as int]@[i] by {
                if k < before.len() {
                    assert(before[k] == group[k]);
                }
            }
        }
    }
}

/// The degree of a replacement is the number of selectors of the combination,
/// where the query has degree one.
pub proof fn law_replacement_degree<F: Field>(
    e: GpuExpression<F>,
    query: GpuExpression<F>,
    root: nat,
    i: nat,
)
    requires
        is_replacement(e, query, root, i),
        query.spec_degree() == 1,
        root > 0,
    ensures
        e.spec_degree() == (if root <= i {
            i
        } else {
            i + 1
        }),
    decreases i,
{
    if i > 0 {
        if i == root {
            law_replacement_degree(e, query, root, (i - 1) as nat);
        } else {
            if let GpuExpression::Product(a, b) = e {
                law_replacement_degree(*a, query, root, (i - 1) as nat);
                if let GpuExpression::Sum(c, d) = *b {
                    assert(d.spec_degree() == 1);
                    assert(c.spec_degree() == 0);
                    assert(b.spec_degree() == 1);
                }
            }
        }
    }
}

/// The largest degree of the polynomials that are switched by a simple selector,
/// or zero where there are none.
pub open spec fn switched_degree<F: Field>(polys: Seq<GpuExpression<F>>, selector: int) -> nat
    decreases polys.len(),
{
    if polys.len() == 0 {
        0
    } else {
        let d = switched_degree(polys.drop_last(), selector);
        let e = polys.last();
        if e.has_simple_selector() && e.simple_selectors()[0].0 == selector && e.spec_degree() > d {
            e.spec_degree()
        } else {
            d
        }
    }
}

/// Whether each polynomial can be switched: it holds at most one simple selector.
pub open spec fn switchable<F: Field>(polys: Seq<GpuExpression<F>>) -> bool {
    forall|i: int| 0 <= i < polys.len() ==> (#[trigger] polys[i]).simple_selectors().len() <= 1
}

proof fn lemma_below_append(a: Seq<GpuSelector>, b: Seq<GpuSelector>, n: int)
    requires
        forall|i: int| 0 <= i < a.len() ==> (#[trigger] a[i]).0 < n,
        forall|i: int| 0 <= i < b.len() ==> (#[trigger] b[i]).0 < n,
    ensures
        forall|i: int| 0 <= i < (a + b).len() ==> (#[trigger] (a + b)[i]).0 < n,
{
    assert forall|i: int| 0 <= i < (a + b).len() implies (#[trigger] (a + b)[i]).0 < n by {
        if i < a.len() {
            assert((a + b)[i] == a[i]);
        } else {
            assert((a + b)[i] == b[i - a.len()]);
        }
    }
}

/// The simple selectors of an expression are among its selectors.
proof fn lemma_simple_below<F: Field>(e: GpuExpression<F>, n: int)
    requires
        e.selectors_below(n),
    ensures
        forall|i: int|
            0 <= i < e.simple_selectors().len() ==> (#[trigger] e.simple_selectors()[i]).0 < n,
    decreases e,
{
    match e {
        GpuExpression::Negated(a) => {
            lemma_simple_below(*a, n);
            assert(e.simple_selectors() == a.simple_selectors());
        },
        GpuExpression::Sum(a, b) => {
            lemma_simple_below(*a, n);
            lemma_simple_below(*b, n);
            lemma_below_append(a.simple_selectors(), b.simple_selectors(), n);
            assert(e.simple_selectors() == a.simple_selectors() + b.simple_selectors());
        },
        GpuExpression::Product(a, b) => {
            lemma_simple_below(*a, n);
            lemma_simple_below(*b, n);
            lemma_below_append(a.simple_selectors(), b.simple_selectors(), n);
            assert(e.simple_selectors() == a.simple_selectors() + b.simple_selectors());
        },
        GpuExpression::Scaled(a, _) => {
            lemma_simple_below(*a, n);
            assert(e.simple_selectors() == a.simple_selectors());
        },
        _ => {},
    }
}

/// Raises the degrees of selectors by those of the polynomials of a gate.
fn raise_degrees<F: Field>(
    degrees: &mut Vec<usize>,
    polys: &Vec<GpuExpression<F>>,
    before: Ghost<Seq<GpuExpression<F>>>,
)
    requires
        switchable(polys@),
        all_selectors_below(polys@, old(degrees)@.len() as int),
        forall|i: int|
            0 <= i < polys@.len() ==> (#[trigger] polys@[i]).spec_degree() <= usize::MAX,
        forall|s: int|
            0 <= s < old(degrees)@.len() ==> #[trigger] old(degrees)@[s] == switched_degree(
                before@,
                s,
            ),
    ensures
        final(degrees)@.len() == old(degrees)@.len(),
        forall|s: int|
            0 <= s < final(degrees)@.len() ==> #[trigger] final(degrees)@[s] == switched_degree(
                before@ + polys@,
                s,
            ),
{
    let ghost n = degrees@.len();
    let mut i: usize = 0;
    assert(before@ + polys@.take(0) =~= before@);
    while i < polys.len()
        invariant
            i <= polys@.len(),
            degrees@.len() == n,
            switchable(polys@),
            all_selectors_below(polys@, n as int),
            forall|i: int|
                0 <= i < polys@.len() ==> (#[trigger] polys@[i]).spec_degree() <= usize::MAX,
            forall|s: int|
                0 <= s < n ==> #[trigger] degrees@[s] == switched_degree(
                    before@ + polys@.take(i as int),
                    s,
                ),
        decreases polys@.len() - i,
    {
        let ghost earlier = degrees@;
        let ghost e = polys@[i as int];
        proof {
            assert(e.selectors_below(n as int));
            lemma_simple_below(e, n as int);
            assert(e.simple_selectors().len() <= 1);
        }
        match polys[i].extract_simple_selector() {
            Some(selector) => {
                let d = polys[i].degree();
                if d > degrees[selector.0] {
                    degrees[selector.0] = d;
                }
            },
            None => {},
        }
        proof {
            let s0 = before@ + polys@.take(i as int);
            let s1 = before@ + polys@.take(i + 1);
            assert(s1.drop_last() =~= s0);
            assert(s1.last() == e);
            assert forall|s: int| 0 <= s < n implies #[trigger] degrees@[s] == switched_degree(
                s1,
                s,
            ) by {
                assert(earlier[s] == switched_degree(s0, s));
            }
        }
        i += 1;
    }
    assert(polys@.take(i as int) =~= polys@);
}

/// Whether selectors are replaced by expressions over the columns of their
/// combinations.
pub open spec fn replaces_with<F: Field>(
    groups: Seq<Seq<usize>>,
    queries: Seq<GpuExpression<F>>,
    replacements: Seq<GpuExpression<F>>,
) -> bool {
    forall|s: int, k: int, m: int| #[trigger]
        is_place(groups, s, k, m) ==> is_replacement(
            replacements[s],
            queries[k],
            (m + 1) as nat,
            groups[k].len(),
        )
}

impl<F: Field> GpuConstraintSystem<F> {
    /// The combinations of the system's selectors.
    pub open spec fn selector_combinations(
        self,
        selectors: Seq<Vec<bool>>,
        max_degree: usize,
    ) -> Seq<Seq<usize>> {
        combinations(
            selectors,
            Seq::new(
                selectors.len(),
                |s: int| switched_degree(gate_polys(self.gates@), s) as usize,
            ),
            self.spec_degree(max_degree as nat) as int,
        )
    }

    /// Whether `new` is the system with its selectors replaced by expressions over
    /// one fixed column for each combination, and `polys` are those columns.
    pub open spec fn compresses(
        self,
        selectors: Seq<Vec<bool>>,
        max_degree: usize,
        new: Self,
        polys: Seq<Vec<F>>,
    ) -> bool {
        let groups = self.selector_combinations(selectors, max_degree);
        &&& new.wf()
        &&& new.num_fixed_columns == self.num_fixed_columns + groups.len()
        &&& new.fixed_queries@ == with_queries(
            self.fixed_queries@,
            new_queries(self.num_fixed_columns, groups.len()),
        )
        &&& new.selector_map@.len() == self.num_selectors
        &&& forall|s: int, k: int, m: int| #[trigger]
            is_place(groups, s, k, m) ==> new.selector_map@[s] == fixed_column(
                (self.num_fixed_columns + k) as usize,
            )
        &&& exists|queries: Seq<GpuExpression<F>>, replacements: Seq<GpuExpression<F>>|
            {
                &&& are_queries(
                    queries,
                    self.num_fixed_columns,
                    groups.len(),
                    new.fixed_queries@,
                )
                &&& #[trigger] replaces_with(groups, queries, replacements)
                &&& replacements.len() == self.num_selectors
                &&& new.replaces_selectors(
                    (Self {
                        num_fixed_columns: new.num_fixed_columns,
                        fixed_queries: new.fixed_queries,
                        selector_map: new.selector_map,
                        ..self
                    }),
                    replacements,
                )
            }
        &&& polys.len() == groups.len()
        &&& forall|k: int, i: int|
            0 <= k < groups.len() && 0 <= i < selectors[0]@.len() ==> (
            #[trigger] polys[k]@[i]).val() == root_at(selectors, groups[k], i) as int
                % F::modulus()
        &&& forall|k: int|
            0 <= k < groups.len() ==> (#[trigger] polys[k])@.len() == selectors[0]@.len()
    }

    /// Whether selectors, given by their rows, can be compressed.
    pub open spec fn compressible(self, selectors: Seq<Vec<bool>>, max_degree: usize) -> bool {
        &&& selectors.len() == self.num_selectors
        &&& self.selectors_ok(self.num_selectors as int)
        &&& forall|i: int|
            0 <= i < self.gates@.len() ==> switchable((#[trigger] self.gates@[i]).polys@)
        &&& self.constraint_degree() <= usize::MAX
        &&& self.spec_degree(max_degree as nat) <= usize::MAX
        &&& forall|i: int|
            0 <= i < self.lookups@.len() ==> (#[trigger] self.lookups@[i]).input_expressions@.len()
                == self.lookups@[i].table_expressions@.len()
        &&& forall|s: int|
            0 <= s < self.num_selectors ==> #[trigger] switched_degree(gate_polys(self.gates@), s)
                <= self.spec_degree(max_degree as nat)
        &&& forall|s: int, t: int|
            0 <= s < selectors.len() && 0 <= t < selectors.len() ==> (
            #[trigger] selectors[s])@.len() == (#[trigger] selectors[t])@.len()
        &&& self.num_fixed_columns + self.num_selectors <= usize::MAX
    }

    /// The maximal degree of every selector. We only consider the expressions in
    /// gates, as lookup arguments cannot support simple selectors. Selectors that
    /// are complex or do not appear in any gates will have degree zero.
    fn selector_degrees(&self, n: usize) -> (r: Vec<usize>)
        requires
            forall|i: int|
                0 <= i < self.gates@.len() ==> {
                    &&& switchable((#[trigger] self.gates@[i]).polys@)
                    &&& all_selectors_below(self.gates@[i].polys@, n as int)
                },
            self.constraint_degree() <= usize::MAX,
        ensures
            r@.len() == n,
            forall|s: int|
                0 <= s < n ==> #[trigger] r@[s] == switched_degree(gate_polys(self.gates@), s),
    {
        let mut degrees: Vec<usize> = Vec::new();
        let mut i: usize = 0;
        while i < n
            invariant
                i <= n,
                degrees@.len() == i,
                forall|s: int| 0 <= s < i ==> #[trigger] degrees@[s] == 0,
            decreases n - i,
        {
            degrees.push(0);
            i += 1;
        }
        let mut i: usize = 0;
        assert(self.gates@.take(0) =~= Seq::empty());
        while i < self.gates.len()
            invariant
                i <= self.gates@.len(),
                forall|i: int|
                    0 <= i < self.gates@.len() ==> {
                        &&& switchable((#[trigger] self.gates@[i]).polys@)
                        &&& all_selectors_below(self.gates@[i].polys@, n as int)
                    },
                self.constraint_degree() <= usize::MAX,
                degrees@.len() == n,
                forall|s: int|
                    0 <= s < n ==> #[trigger] degrees@[s] == switched_degree(
                        gate_polys(self.gates@.take(i as int)),
                        s,
                    ),
            decreases self.gates@.len() - i,
        {
            let ghost polys = self.gates@[i as int].polys@;
            proof {
                assert(switchable(self.gates@[i as int].polys@));
                lemma_max_gate_degree(self.gates@, i as int);
                assert forall|j: int| 0 <= j < polys.len() implies (
                #[trigger] polys[j]).spec_degree() <= usize::MAX by {
                    lemma_max_poly_degree(polys, j);
                }
                let more = self.gates@.take(i + 1);
                assert(more.drop_last() =~= self.gates@.take(i as int));
                assert(more.last() == self.gates@[i as int]);
            }
            raise_degrees(
                &mut degrees,
                &self.gates[i].polys,
                Ghost(gate_polys(self.gates@.take(i as int))),
            );
            i += 1;
        }
        assert(self.gates@.take(i as int) =~= self.gates@);
        degrees
    }

    /// This will compress selectors together depending on their provided
    /// assignments. This constraint system will then be modified to add new
    /// fixed columns (representing the actual selectors) and will return the
    /// polynomials for those columns. Finally, an internal map is updated to
    /// find which fixed column corresponds with a given selector.
    ///
    /// The degree of the system, at most `max_degree`, does not grow.
    pub fn compress_selectors(self, selectors: &Vec<Vec<bool>>, max_degree: usize) -> (r: (
        Self,
        Vec<Vec<F>>,
    ))
        requires
            self.wf(),
            self.compressible(selectors@, max_degree),
        ensures
            self.compresses(selectors@, max_degree, r.0, r.1@),
    {
        let ghost start = self;
        let count = selectors.len();
        let degrees = self.selector_degrees(count);
        let max = self.degree(max_degree);
        let groups = process(selectors, &degrees, max);
        let ghost combos = self.selector_combinations(selectors@, max_degree);
        proof {
            assert(selectors.len() == selectors@.len());
            assert(degrees@ =~= Seq::new(
                selectors@.len(),
                |s: int| switched_degree(gate_polys(self.gates@), s) as usize,
            ));
            assert(views(groups@) == combos);
            law_combinations_partition(selectors@, degrees@, max as int);
            lemma_few_combinations(combos, selectors@.len());
        }
        let n: usize = if count > 0 {
            selectors[0].len()
        } else {
            0
        };
        let ghost members = |s: int| 0 <= s < selectors@.len();
        assert(partitions(combos, members));
        let mut cs = self;
        let mut polys: Vec<Vec<F>> = Vec::new();
        let ghost mut queries: Seq<GpuExpression<F>> = Seq::empty();
        let mut replacements: Vec<Option<GpuExpression<F>>> = Vec::new();
        let mut selector_map: Vec<Option<GpuColumn<GpuFixed>>> = Vec::new();
        let mut i: usize = 0;
        while i < count
            invariant
                i <= count,
                replacements@.len() == i,
                selector_map@.len() == i,
            decreases count - i,
        {
            replacements.push(None);
            selector_map.push(None);
            i += 1;
        }
        assert(new_queries(start.num_fixed_columns, 0) =~= Seq::empty());
        let mut k: usize = 0;
        while k < groups.len()
            invariant
                k <= groups@.len(),
                count == selectors@.len(),
                start.num_selectors == count,
                start.num_fixed_columns + start.num_selectors <= usize::MAX,
                views(groups@) == combos,
                combos.len() <= count,
                partitions(combos, members),
                members == (|s: int| 0 <= s < selectors@.len()),
                count > 0 ==> n == selectors@[0]@.len(),
                forall|s: int| 0 <= s < selectors@.len() ==> (#[trigger] selectors@[s])@.len() == n,
                cs.wf(),
                cs.num_fixed_columns == start.num_fixed_columns + k,
                cs.fixed_queries@ == with_queries(
                    start.fixed_queries@,
                    new_queries(start.num_fixed_columns, k as nat),
                ),
                cs == (Self {
                    num_fixed_columns: cs.num_fixed_columns,
                    fixed_queries: cs.fixed_queries,
                    ..start
                }),
                are_queries(queries, start.num_fixed_columns, k as nat, cs.fixed_queries@),
                polys@.len() == k,
                forall|j: int| 0 <= j < k ==> (#[trigger] polys@[j])@.len() == n,
                forall|j: int, i: int|
                    0 <= j < k && 0 <= i < n ==> (#[trigger] polys@[j]@[i]).val() == root_at(
                        selectors@,
                        combos[j],
                        i,
                    ) as int % F::modulus(),
                replacements@.len() == count,
                selector_map@.len() == count,
                forall|s: int, j: int, m: int| #[trigger]
                    is_place(combos, s, j, m) && j < k ==> {
                        &&& replacements@[s] matches Some(e) && is_replacement(
                            e,
                            queries[j],
                            (m + 1) as nat,
                            combos[j].len(),
                        ) && !e.has_simple_selector()
                        &&& selector_map@[s] == Some(
                            fixed_column((start.num_fixed_columns + j) as usize),
                        )
                    },
            decreases groups@.len() - k,
        {
            let ghost cs0 = cs;
            let ghost queries0 = queries;
            let group = &groups[k];
            assert(views(groups@)[k as int] == groups@[k as int]@);
            assert(group@ == combos[k as int]);
            proof {
                assert forall|m: int| 0 <= m < group@.len() implies #[trigger] group@[m]
                    < selectors@.len() by {
                    assert(is_place(combos, group@[m] as int, k as int, m));
                    assert(members(group@[m] as int));
                }
            }
            let column = cs.fixed_column();
            let rotation = Rotation::cur();
            let index: usize = cs.query_fixed_index(column, rotation);
            let query = GpuExpression::Fixed(
                GpuFixedQuery { index: Some(index), column_index: column.index, rotation },
            );
            proof {
                let qs = new_queries(start.num_fixed_columns, (k + 1) as nat);
                assert(qs.drop_last() =~= new_queries(start.num_fixed_columns, k as nat));
                assert(qs.last() == (column, rotation));
                lemma_queries_grow(
                    queries0,
                    start.num_fixed_columns,
                    k as nat,
                    cs0.fixed_queries@,
                    (column, rotation),
                );
                queries = queries0.push(query);
                assert(!query.has_simple_selector());
            }
            let ghost polys0 = polys@;
            polys.push(combination_assignment(selectors, group, n));
            proof {
                assert forall|j: int, i: int| 0 <= j < k + 1 && 0 <= i < n implies (
                #[trigger] polys@[j]@[i]).val() == root_at(selectors@, combos[j], i) as int
                    % F::modulus() by {
                    if j < k {
                        assert(polys@[j] == polys0[j]);
                        let _ = polys0[j]@[i];
                    }
                }
            }
            let size = group.len();
            let mut m: usize = 0;
            while m < size
                invariant
                    m <= size,
                    size == group@.len(),
                    k < combos.len(),
                    combos.len() <= count,
                    count == selectors@.len(),
                    group@ == combos[k as int],
                    start.num_fixed_columns + count <= usize::MAX,
                    column == fixed_column((start.num_fixed_columns + k) as usize),
                    queries == queries0.push(query),
                    queries0.len() == k,
                    !query.has_simple_selector(),
                    partitions(combos, members),
                    members == (|s: int| 0 <= s < selectors@.len()),
                    forall|m: int|
                        0 <= m < group@.len() ==> #[trigger] group@[m] < selectors@.len(),
                    replacements@.len() == count,
                    selector_map@.len() == count,
                    forall|s: int, j: int, l: int| #[trigger]
                        is_place(combos, s, j, l) && (j < k || j == k && l < m) ==> {
                            &&& replacements@[s] matches Some(e) && is_replacement(
                                e,
                                queries[j],
                                (l + 1) as nat,
                                combos[j].len(),
                            ) && !e.has_simple_selector()
                            &&& selector_map@[s] == Some(
                                fixed_column((start.num_fixed_columns + j) as usize),
                            )
                        },
                decreases size - m,
            {
                let selector = group[m];
                let expression = replacement(&query, m + 1, size);
                replacements[selector] = Some(expression);
                selector_map[selector] = Some(column);
                proof {
                    assert(is_place(combos, selector as int, k as int, m as int));
                    assert forall|s: int, j: int, l: int| #[trigger]
                        is_place(combos, s, j, l) && (j < k || j == k && l < m + 1) implies {
                        &&& replacements@[s] matches Some(e) && is_replacement(
                            e,
                            queries[j],
                            (l + 1) as nat,
                            combos[j].len(),
                        ) && !e.has_simple_selector()
                        &&& selector_map@[s] == Some(
                            fixed_column((start.num_fixed_columns + j) as usize),
                        )
                    } by {
                        assert(members(s));
                        if s == selector {
                            assert(j == k && l == m);
                        } else {
                            assert(!(j == k && l == m));
                        }
                    }
                }
                m += 1;
            }
            proof {
                assert forall|s: int, j: int, m: int| #[trigger]
                    is_place(combos, s, j, m) && j < k + 1 implies {
                    &&& replacements@[s] matches Some(e) && is_replacement(
                        e,
                        queries[j],
                        (m + 1) as nat,
                        combos[j].len(),
                    ) && !e.has_simple_selector()
                    &&& selector_map@[s] == Some(
                        fixed_column((start.num_fixed_columns + j) as usize),
                    )
                } by {}
            }
            k += 1;
        }
        proof {
            assert forall|s: int| 0 <= s < replacements@.len() implies (
            #[trigger] replacements@[s]) is Some && selector_map@[s] is Some by {
                assert(members(s));
                let (j, m) = choose|j: int, m: int| is_place(combos, s, j, m);
                assert(is_place(combos, s, j, m));
            }
            assert forall|s: int| 0 <= s < selector_map@.len() implies (
            #[trigger] selector_map@[s]) is Some by {
                let _ = replacements@[s];
            }
        }
        let all_replacements = all_there(replacements);
        cs.selector_map = all_there(selector_map);
        proof {
            let rs = all_replacements@;
            assert forall|s: int| 0 <= s < rs.len() implies !(
            #[trigger] rs[s]).has_simple_selector() by {
                assert(members(s));
                let (j, m) = choose|j: int, m: int| is_place(combos, s, j, m);
                assert(is_place(combos, s, j, m));
                assert(Some(rs[s]) == replacements@[s]);
            }
            assert forall|s: int, k: int, m: int| #[trigger]
                is_place(combos, s, k, m) implies is_replacement(
                rs[s],
                queries[k],
                (m + 1) as nat,
                combos[k].len(),
            ) by {
                assert(members(s));
                assert(Some(rs[s]) == replacements@[s]);
            }
            assert(replaces_with(combos, queries, rs));
            assert forall|s: int, k: int, m: int| #[trigger] is_place(combos, s, k, m) implies
                cs.selector_map@[s] == fixed_column((start.num_fixed_columns + k) as usize) by {
                assert(members(s));
                assert(Some(cs.selector_map@[s]) == selector_map@[s]);
            }
        }
        cs.replace_selectors_with_fixed(&all_replacements);
        (cs, polys)
    }
}

/// There are no more combinations than selectors.
proof fn lemma_few_combinations(groups: Seq<Seq<usize>>, n: nat)
    requires
        partitions(groups, |s: int| 0 <= s < n),
        forall|k: int| 0 <= k < groups.len() ==> (#[trigger] groups[k]).len() > 0,
    ensures
        groups.len() <= n,
{
    let members = |s: int| 0 <= s < n;
    assert(partitions(groups, members));
    let firsts = Seq::new(groups.len(), |k: int| groups[k][0] as int);
    assert forall|i: int, j: int|
        0 <= i < j < firsts.len() implies #[trigger] firsts[i] != #[trigger] firsts[j] by {
        assert(groups[i].len() > 0 && groups[j].len() > 0);
        assert(is_place(groups, firsts[i], i, 0));
        assert(is_place(groups, firsts[j], j, 0));
    }
    assert(firsts.no_duplicates());
    firsts.unique_seq_to_set();
    let all = vstd::set_lib::set_int_range(0, n as int);
    vstd::set_lib::lemma_int_range(0, n as int);
    assert forall|x: int| firsts.to_set().contains(x) implies all.contains(x) by {
        let i = choose|i: int| 0 <= i < firsts.len() && firsts[i] == x;
        assert(groups[i].len() > 0);
        assert(is_place(groups, firsts[i], i, 0));
        assert(members(firsts[i]));
    }
    vstd::set_lib::lemma_len_subset(firsts.to_set(), all);
}

} // verus!
