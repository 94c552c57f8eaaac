//! The order in which points, polynomials and sets of a multi-opening appear.

use crate::field::Field;
use crate::poly::point_sets::{
    all_points, all_polys, find_set, law_members_are_opened, law_points_of, lemma_all_polys,
    points_of, same_points, sets_of, with_new, OpeningQuery,
};
use vstd::prelude::*;

verus! {

/// Whether a query is the first of its polynomial.
pub open spec fn opened_first<F: Field>(q: Seq<OpeningQuery<F>>, poly: usize, i: int) -> bool {
    &&& 0 <= i < q.len()
    &&& q[i].poly == poly
    &&& forall|j: int| 0 <= j < i ==> (#[trigger] q[j]).poly != poly
}

/// Whether a query is the first at its point.
pub open spec fn seen_first<F: Field>(q: Seq<OpeningQuery<F>>, point: int, i: int) -> bool {
    &&& 0 <= i < q.len()
    &&& q[i].point.val() == point
    &&& forall|j: int| 0 <= j < i ==> (#[trigger] q[j]).point.val() != point
}

/// Whether a query is the first of a polynomial at its point.
pub open spec fn opened_first_at<F: Field>(
    q: Seq<OpeningQuery<F>>,
    poly: usize,
    point: int,
    i: int,
) -> bool {
    &&& 0 <= i < q.len()
    &&& q[i].poly == poly
    &&& q[i].point.val() == point
    &&& forall|j: int|
        0 <= j < i ==> !((#[trigger] q[j]).poly == poly && q[j].point.val() == point)
}

proof fn lemma_listed<T>(s: Seq<T>, x: T)
    ensures
        s.contains(x) ==> with_new(s, x) == s,
        !s.contains(x) ==> with_new(s, x).len() == s.len() + 1,
        forall|k: int| 0 <= k < s.len() ==> #[trigger] with_new(s, x)[k] == s[k],
{
}

/// Polynomials are numbered in the order in which they are first opened.
pub proof fn law_polynomials_in_order<F: Field>(
    q: Seq<OpeningQuery<F>>,
    a: int,
    b: int,
    i: int,
    j: int,
)
    requires
        0 <= a < b < all_polys(q).len(),
        opened_first(q, all_polys(q)[a], i),
        opened_first(q, all_polys(q)[b], j),
    ensures
        i < j,
    decreases q.len(),
{
    let rest = q.drop_last();
    let before = all_polys(rest);
    let last = q.last();
    lemma_listed(before, last.poly);
    lemma_all_polys(rest, all_polys(q)[a]);
    lemma_all_polys(rest, all_polys(q)[b]);
    if b < before.len() {
        assert(before.contains(before[a]) && before.contains(before[b]));
        lemma_first_is_early(q, before[a], i);
        lemma_first_is_early(q, before[b], j);
        law_polynomials_in_order(rest, a, b, i, j);
    } else {
        assert(before.contains(before[a]));
        lemma_first_is_early(q, before[a], i);
        assert(all_polys(q)[b] == last.poly);
        assert(!before.contains(last.poly));
        if j < rest.len() {
            assert(rest[j].poly == last.poly);
        }
    }
}

/// The first query of a polynomial that was opened before the last query.
proof fn lemma_first_is_early<F: Field>(q: Seq<OpeningQuery<F>>, poly: usize, i: int)
    requires
        q.len() > 0,
        opened_first(q, poly, i),
        exists|k: int| 0 <= k < q.drop_last().len() && (#[trigger] q.drop_last()[k]).poly == poly,
    ensures
        i < q.len() - 1,
        opened_first(q.drop_last(), poly, i),
{
    let rest = q.drop_last();
    let k = choose|k: int| 0 <= k < rest.len() && (#[trigger] rest[k]).poly == poly;
    assert(q[k] == rest[k]);
    assert(i <= k);
    assert forall|j: int| 0 <= j < i implies (#[trigger] rest[j]).poly != poly by {
        assert(q[j].poly != poly);
    }
}

proof fn lemma_point_seen<F: Field>(q: Seq<OpeningQuery<F>>, point: int)
    ensures
        all_points(q).contains(point) <==> exists|i: int|
            0 <= i < q.len() && (#[trigger] q[i]).point.val() == point,
    decreases q.len(),
{
    if q.len() > 0 {
        let rest = q.drop_last();
        lemma_point_seen(rest, point);
        let s = all_points(rest);
        let x = q.last().point.val();
        let all = with_new(s, x);
        lemma_listed(s, x);
        if s.contains(point) {
            let i = choose|i: int| 0 <= i < s.len() && s[i] == point;
            assert(all[i] == point);
            let k = choose|k: int| 0 <= k < rest.len() && (#[trigger] rest[k]).point.val()
                == point;
            assert(q[k] == rest[k]);
        }
        if x == point {
            if !s.contains(x) {
                assert(all[s.len() as int] == x);
            }
            assert(q[q.len() - 1] == q.last());
        }
        if all.contains(point) && !s.contains(point) {
            let i = choose|i: int| 0 <= i < all.len() && all[i] == point;
            if i < s.len() {
                assert(s[i] == point);
            }
        }
        if exists|i: int| 0 <= i < q.len() && (#[trigger] q[i]).point.val() == point {
            let i = choose|i: int| 0 <= i < q.len() && (#[trigger] q[i]).point.val() == point;
            if i < rest.len() {
                assert(rest[i] == q[i]);
            }
        }
    }
}

/// All points are listed in the order in which they are first opened at.
pub proof fn law_points_in_order<F: Field>(
    q: Seq<OpeningQuery<F>>,
    a: int,
    b: int,
    i: int,
    j: int,
)
    requires
        0 <= a < b < all_points(q).len(),
        seen_first(q, all_points(q)[a], i),
        seen_first(q, all_points(q)[b], j),
    ensures
        i < j,
    decreases q.len(),
{
    let rest = q.drop_last();
    let before = all_points(rest);
    let x = q.last().point.val();
    let (pa, pb) = (all_points(q)[a], all_points(q)[b]);
    lemma_listed(before, x);
    lemma_point_seen(rest, pa);
    lemma_point_seen(rest, pb);
    assert(before[a] == pa);
    assert(before.contains(pa));
    let k = choose|k: int| 0 <= k < rest.len() && (#[trigger] rest[k]).point.val() == pa;
    assert(q[k] == rest[k]);
    assert(i <= k);
    assert forall|m: int| 0 <= m < i implies (#[trigger] rest[m]).point.val() != pa by {
        assert(q[m].point.val() != pa);
    }
    if b < before.len() {
        assert(before[b] == pb);
        assert(before.contains(pb));
        let l = choose|l: int| 0 <= l < rest.len() && (#[trigger] rest[l]).point.val() == pb;
        assert(q[l] == rest[l]);
        assert(j <= l);
        assert forall|m: int| 0 <= m < j implies (#[trigger] rest[m]).point.val() != pb by {
            assert(q[m].point.val() != pb);
        }
        law_points_in_order(rest, a, b, i, j);
    } else {
        assert(pb == x);
        assert(!before.contains(x));
        if j < rest.len() {
            assert(rest[j].point.val() == x);
        }
    }
}

proof fn lemma_point_of_seen<F: Field>(q: Seq<OpeningQuery<F>>, poly: usize, point: int)
    ensures
        points_of(q, poly).contains(point) <==> exists|i: int|
            0 <= i < q.len() && (#[trigger] q[i]).poly == poly && q[i].point.val() == point,
{
    law_points_of(q, poly, point);
}

/// The points of a polynomial are listed in the order in which it is opened at them.
pub proof fn law_own_points_in_order<F: Field>(
    q: Seq<OpeningQuery<F>>,
    poly: usize,
    a: int,
    b: int,
    i: int,
    j: int,
)
    requires
        0 <= a < b < points_of(q, poly).len(),
        opened_first_at(q, poly, points_of(q, poly)[a], i),
        opened_first_at(q, poly, points_of(q, poly)[b], j),
    ensures
        i < j,
    decreases q.len(),
{
    let rest = q.drop_last();
    let before = points_of(rest, poly);
    let x = q.last().point.val();
    let (pa, pb) = (points_of(q, poly)[a], points_of(q, poly)[b]);
    lemma_listed(before, x);
    lemma_point_of_seen(rest, poly, pa);
    lemma_point_of_seen(rest, poly, pb);
    assert(before[a] == pa);
    assert(before.contains(pa));
    let k = choose|k: int|
        0 <= k < rest.len() && (#[trigger] rest[k]).poly == poly && rest[k].point.val() == pa;
    assert(q[k] == rest[k]);
    assert(i <= k);
    assert forall|m: int| 0 <= m < i implies !((#[trigger] rest[m]).poly == poly
        && rest[m].point.val() == pa) by {
        assert(q[m] == rest[m]);
    }
    if b < before.len() {
        assert(before[b] == pb);
        assert(before.contains(pb));
        let l = choose|l: int|
            0 <= l < rest.len() && (#[trigger] rest[l]).poly == poly && rest[l].point.val() == pb;
        assert(q[l] == rest[l]);
        assert(j <= l);
        assert forall|m: int| 0 <= m < j implies !((#[trigger] rest[m]).poly == poly
            && rest[m].point.val() == pb) by {
            assert(q[m] == rest[m]);
        }
        law_own_points_in_order(rest, poly, a, b, i, j);
    } else {
        assert(pb == x);
        assert(!before.contains(x));
        if j < rest.len() {
            assert(rest[j].poly == poly && rest[j].point.val() == x);
        }
    }
}

proof fn lemma_found(sets: Seq<(Seq<int>, Seq<usize>)>, points: Seq<int>, k: int)
    requires
        0 <= k <= sets.len(),
    ensures
        k <= find_set(sets, points, k) <= sets.len(),
        find_set(sets, points, k) < sets.len() ==> same_points(
            sets[find_set(sets, points, k)].0,
            points,
        ),
        forall|m: int|
            k <= m < find_set(sets, points, k) ==> !same_points((#[trigger] sets[m]).0, points),
    decreases sets.len() - k,
{
    if k < sets.len() && !same_points(sets[k].0, points) {
        lemma_found(sets, points, k + 1);
    }
}

/// Polynomials that are opened at the same points share a set: a set has the points of its
/// first polynomial, in their order, and no two sets have the same points. Its polynomials
/// come in the order in which all are numbered, and so do the sets, by their first ones.
pub proof fn law_sets_in_order<F: Field>(
    q: Seq<OpeningQuery<F>>,
    polys: Seq<usize>,
    k: int,
    l: int,
    a: int,
    b: int,
    i: int,
    j: int,
)
    requires
        polys.no_duplicates(),
        0 <= k < sets_of(q, polys).len(),
    ensures
        sets_of(q, polys)[k].1.len() > 0,
        sets_of(q, polys)[k].0 == points_of(q, sets_of(q, polys)[k].1[0]),
        k < l < sets_of(q, polys).len() ==> !same_points(
            sets_of(q, polys)[k].0,
            sets_of(q, polys)[l].0,
        ),
        0 <= a < b < sets_of(q, polys)[k].1.len() && 0 <= i < polys.len() && 0 <= j < polys.len()
            && polys[i] == sets_of(q, polys)[k].1[a] && polys[j] == sets_of(q, polys)[k].1[b]
            ==> i < j,
        k < l < sets_of(q, polys).len() && 0 <= i < polys.len() && 0 <= j < polys.len() && polys[i]
            == sets_of(q, polys)[k].1[0] && polys[j] == sets_of(q, polys)[l].1[0] ==> i < j,
    decreases polys.len(),
{
    let front = polys.drop_last();
    let last = polys.last();
    let n = front.len() as int;
    let before = sets_of(q, front);
    let points = points_of(q, last);
    let sets = sets_of(q, polys);
    lemma_found(before, points, 0);
    let at = find_set(before, points, 0);
    assert(polys[n] == last);
    assert forall|x: int| 0 <= x < polys.len() && polys[x] == last implies x == n by {}
    assert forall|x: int| 0 <= x < n implies #[trigger] polys[x] == front[x] by {}
    if k < before.len() {
        // What the set was before.
        let b1 = if b < before[k].1.len() {
            b
        } else {
            0
        };
        if l < before.len() {
            law_sets_in_order(q, front, k, l, a, b1, i, j);
        } else {
            law_sets_in_order(q, front, k, k, a, b1, i, j);
        }
        lemma_members(q, front, k, 0);
        if 0 <= a < before[k].1.len() {
            lemma_members(q, front, k, a);
        }
        if l < before.len() && k < l {
            law_sets_in_order(q, front, l, l, 0, 0, i, j);
            lemma_members(q, front, l, 0);
        }
    }
}

/// The members of sets are among the polynomials.
proof fn lemma_members<F: Field>(q: Seq<OpeningQuery<F>>, polys: Seq<usize>, k: int, m: int)
    requires
        0 <= k < sets_of(q, polys).len(),
        0 <= m < sets_of(q, polys)[k].1.len(),
    ensures
        exists|i: int| 0 <= i < polys.len() && polys[i] == sets_of(q, polys)[k].1[m],
{
    law_members_are_opened(q, polys, k, m);
}

} // verus!
