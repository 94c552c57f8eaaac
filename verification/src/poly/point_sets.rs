//! Grouping openings: polynomials that are opened at the same points share a set.

use crate::field::{vals, Field};
use vstd::prelude::*;

verus! {

/// The opening of a polynomial, named by a number, at a point.
#[derive(Clone, Copy, Debug)]
pub struct OpeningQuery<F: Field> {
    pub poly: usize,
    pub point: F,
    pub eval: F,
}

/// A polynomial of a set, with its values at the points of the set.
#[derive(Debug)]
pub struct SetMember<F: Field> {
    pub poly: usize,
    pub evals: Vec<F>,
}

/// Polynomials that are opened at the same points.
#[derive(Debug)]
pub struct PointSet<F: Field> {
    pub points: Vec<F>,
    pub members: Vec<SetMember<F>>,
}

/// All sets, with all points.
#[derive(Debug)]
pub struct IntermediateSets<F: Field> {
    pub rotation_sets: Vec<PointSet<F>>,
    pub super_point_set: Vec<F>,
}

/// A list with an item behind it, unless it is there already.
pub open spec fn with_new<T>(s: Seq<T>, x: T) -> Seq<T> {
    if s.contains(x) {
        s
    } else {
        s.push(x)
    }
}

/// All points, in the order in which they first appear.
pub open spec fn all_points<F: Field>(q: Seq<OpeningQuery<F>>) -> Seq<int>
    decreases q.len(),
{
    if q.len() == 0 {
        Seq::empty()
    } else {
        with_new(all_points(q.drop_last()), q.last().point.val())
    }
}

/// The points of a polynomial, in the order in which they first appear.
pub open spec fn points_of<F: Field>(q: Seq<OpeningQuery<F>>, poly: usize) -> Seq<int>
    decreases q.len(),
{
    if q.len() == 0 {
        Seq::empty()
    } else if q.last().poly == poly {
        with_new(points_of(q.drop_last(), poly), q.last().point.val())
    } else {
        points_of(q.drop_last(), poly)
    }
}

/// All polynomials, in the order in which they first appear.
pub open spec fn all_polys<F: Field>(q: Seq<OpeningQuery<F>>) -> Seq<usize>
    decreases q.len(),
{
    if q.len() == 0 {
        Seq::empty()
    } else {
        with_new(all_polys(q.drop_last()), q.last().poly)
    }
}

/// The value of the first query of a polynomial at a point.
pub open spec fn eval_of<F: Field>(q: Seq<OpeningQuery<F>>, poly: usize, point: int) -> int
    decreases q.len(),
{
    if q.len() == 0 {
        0
    } else if q[0].poly == poly && q[0].point.val() == point {
        q[0].eval.val()
    } else {
        eval_of(q.drop_first(), poly, point)
    }
}

/// Whether two lists hold the same points.
pub open spec fn same_points(a: Seq<int>, b: Seq<int>) -> bool {
    &&& forall|i: int| 0 <= i < a.len() ==> b.contains(#[trigger] a[i])
    &&& forall|i: int| 0 <= i < b.len() ==> a.contains(#[trigger] b[i])
}

/// The position of the first set with the given points, or the number of sets.
pub open spec fn find_set(sets: Seq<(Seq<int>, Seq<usize>)>, points: Seq<int>, k: int) -> int
    decreases sets.len() - k,
{
    if k >= sets.len() {
        sets.len() as int
    } else if same_points(sets[k].0, points) {
        k
    } else {
        find_set(sets, points, k + 1)
    }
}

/// A polynomial joins the set with its points, or makes a new one.
pub open spec fn joined_by(
    sets: Seq<(Seq<int>, Seq<usize>)>,
    points: Seq<int>,
    poly: usize,
) -> Seq<(Seq<int>, Seq<usize>)> {
    let k = find_set(sets, points, 0);
    if k < sets.len() {
        sets.update(k, (sets[k].0, sets[k].1.push(poly)))
    } else {
        sets.push((points, seq![poly]))
    }
}

/// The sets that polynomials make, one after another.
pub open spec fn sets_of<F: Field>(q: Seq<OpeningQuery<F>>, polys: Seq<usize>) -> Seq<
    (Seq<int>, Seq<usize>),
>
    decreases polys.len(),
{
    if polys.len() == 0 {
        Seq::empty()
    } else {
        joined_by(sets_of(q, polys.drop_last()), points_of(q, polys.last()), polys.last())
    }
}

/// Whether a list of field elements holds a point.
fn holds<F: Field>(points: &Vec<F>, point: &F) -> (r: bool)
    ensures
        r == vals(points@).contains(point.val()),
{
    let mut i: usize = 0;
    while i < points.len()
        invariant
            i <= points@.len(),
            forall|j: int| 0 <= j < i ==> vals(points@)[j] != point.val(),
        decreases points@.len() - i,
    {
        if points[i].equals(point) {
            assert(vals(points@)[i as int] == point.val());
            return true;
        }
        i += 1;
    }
    false
}

fn push_new<F: Field>(points: &mut Vec<F>, point: F)
    ensures
        vals(final(points)@) == with_new(vals(old(points)@), point.val()),
{
    if !holds(points, &point) {
        let ghost before = points@;
        points.push(point);
        assert(vals(points@) =~= vals(before).push(point.val()));
    }
}

/// The points of a polynomial.
fn collect_points<F: Field>(queries: &Vec<OpeningQuery<F>>, poly: usize) -> (r: Vec<F>)
    ensures
        vals(r@) == points_of(queries@, poly),
{
    let mut points: Vec<F> = Vec::new();
    let mut i: usize = 0;
    assert(queries@.take(0) =~= Seq::empty());
    assert(vals(points@) =~= Seq::<int>::empty());
    while i < queries.len()
        invariant
            i <= queries@.len(),
            vals(points@) == points_of(queries@.take(i as int), poly),
        decreases queries@.len() - i,
    {
        assert(queries@.take(i + 1).drop_last() =~= queries@.take(i as int));
        if queries[i].poly == poly {
            push_new(&mut points, queries[i].point);
        }
        i += 1;
    }
    assert(queries@.take(i as int) =~= queries@);
    points
}

fn same_point_set<F: Field>(a: &Vec<F>, b: &Vec<F>) -> (r: bool)
    ensures
        r == same_points(vals(a@), vals(b@)),
{
    let mut i: usize = 0;
    while i < a.len()
        invariant
            i <= a@.len(),
            forall|j: int| 0 <= j < i ==> vals(b@).contains(#[trigger] vals(a@)[j]),
        decreases a@.len() - i,
    {
        if !holds(b, &a[i]) {
            assert(!vals(b@).contains(vals(a@)[i as int]));
            return false;
        }
        i += 1;
    }
    let mut i: usize = 0;
    while i < b.len()
        invariant
            i <= b@.len(),
            forall|j: int| 0 <= j < a@.len() ==> vals(b@).contains(#[trigger] vals(a@)[j]),
            forall|j: int| 0 <= j < i ==> vals(a@).contains(#[trigger] vals(b@)[j]),
        decreases b@.len() - i,
    {
        if !holds(a, &b[i]) {
            assert(!vals(a@).contains(vals(b@)[i as int]));
            return false;
        }
        i += 1;
    }
    true
}

/// Find evaluation of a commitment at a rotation
fn first_eval<F: Field>(queries: &Vec<OpeningQuery<F>>, poly: usize, point: &F) -> (r: F)
    ensures
        r.val() == eval_of(queries@, poly, point.val()),
{
    let mut i: usize = 0;
    assert(queries@.skip(0) =~= queries@);
    while i < queries.len()
        invariant
            i <= queries@.len(),
            eval_of(queries@, poly, point.val()) == eval_of(
                queries@.skip(i as int),
                poly,
                point.val(),
            ),
        decreases queries@.len() - i,
    {
        assert(queries@.skip(i as int)[0] == queries@[i as int]);
        assert(queries@.skip(i as int).drop_first() =~= queries@.skip(i + 1));
        if queries[i].poly == poly && queries[i].point.equals(point) {
            return queries[i].eval;
        }
        i += 1;
    }
    F::zero()
}

impl<F: Field> PointSet<F> {
    /// The points and the polynomials of the set.
    pub open spec fn model(self) -> (Seq<int>, Seq<usize>) {
        (
            vals(self.points@),
            Seq::new(self.members@.len(), |i: int| self.members@[i].poly),
        )
    }

    /// Whether the members hold their values at the points of the set.
    pub open spec fn holds_evals(self, q: Seq<OpeningQuery<F>>) -> bool {
        forall|i: int|
            0 <= i < self.members@.len() ==> vals((#[trigger] self.members@[i]).evals@) == Seq::new(
                self.points@.len(),
                |j: int| eval_of(q, self.members@[i].poly, self.points@[j].val()),
            )
    }
}

/// The models of sets.
pub open spec fn models<F: Field>(s: Seq<PointSet<F>>) -> Seq<(Seq<int>, Seq<usize>)> {
    Seq::new(s.len(), |k: int| s[k].model())
}

fn member<F: Field>(queries: &Vec<OpeningQuery<F>>, poly: usize, points: &Vec<F>) -> (r: SetMember<
    F,
>)
    ensures
        r.poly == poly,
        vals(r.evals@) == Seq::new(
            points@.len(),
            |j: int| eval_of(queries@, poly, points@[j].val()),
        ),
{
    let ghost expected = Seq::new(
        points@.len(),
        |j: int| eval_of(queries@, poly, points@[j].val()),
    );
    let mut evals: Vec<F> = Vec::new();
    let mut i: usize = 0;
    while i < points.len()
        invariant
            i <= points@.len(),
            expected == Seq::new(
                points@.len(),
                |j: int| eval_of(queries@, poly, points@[j].val()),
            ),
            evals@.len() == i,
            forall|j: int| 0 <= j < i ==> (#[trigger] evals@[j]).val() == expected[j],
        decreases points@.len() - i,
    {
        evals.push(first_eval(queries, poly, &points[i]));
        i += 1;
    }
    assert(vals(evals@) =~= expected);
    SetMember { poly, evals }
}

/// Groups the queries of a multi-opening: all points, and the sets of polynomials
/// that are opened at the same points, each in the order in which it first
/// appears, with the values of each polynomial at the points of its set.
pub fn construct_intermediate_sets<F: Field>(queries: &Vec<OpeningQuery<F>>) -> (r:
    IntermediateSets<F>)
    ensures
        vals(r.super_point_set@) == all_points(queries@),
        models(r.rotation_sets@) == sets_of(queries@, all_polys(queries@)),
        forall|k: int|
            0 <= k < r.rotation_sets@.len() ==> (#[trigger] r.rotation_sets@[k]).holds_evals(
                queries@,
            ),
{
    let mut super_point_set: Vec<F> = Vec::new();
    let mut polys: Vec<usize> = Vec::new();
    let mut i: usize = 0;
    assert(queries@.take(0) =~= Seq::empty());
    assert(vals(super_point_set@) =~= Seq::<int>::empty());
    while i < queries.len()
        invariant
            i <= queries@.len(),
            vals(super_point_set@) == all_points(queries@.take(i as int)),
            polys@ == all_polys(queries@.take(i as int)),
        decreases queries@.len() - i,
    {
        assert(queries@.take(i + 1).drop_last() =~= queries@.take(i as int));
        push_new(&mut super_point_set, queries[i].point);
        let poly = queries[i].poly;
        let mut seen = false;
        let mut j: usize = 0;
        while j < polys.len()
            invariant
                j <= polys@.len(),
                seen == polys@.take(j as int).contains(poly),
            decreases polys@.len() - j,
        {
            let ghost done = polys@.take(j as int);
            let ghost more = polys@.take(j + 1);
            proof {
                if done.contains(poly) {
                    let m = choose|m: int| 0 <= m < done.len() && done[m] == poly;
                    assert(more[m] == poly);
                }
                assert(more[j as int] == polys@[j as int]);
                if more.contains(poly) {
                    let m = choose|m: int| 0 <= m < more.len() && more[m] == poly;
                    if m < j {
                        assert(done[m] == poly);
                    }
                }
            }
            if polys[j] == poly {
                seen = true;
            }
            j += 1;
        }
        assert(polys@.take(j as int) =~= polys@);
        if !seen {
            polys.push(poly);
        }
        i += 1;
    }
    assert(queries@.take(i as int) =~= queries@);

    let mut rotation_sets: Vec<PointSet<F>> = Vec::new();
    let mut i: usize = 0;
    assert(polys@.take(0) =~= Seq::empty());
    assert(models(rotation_sets@) =~= Seq::empty());
    while i < polys.len()
        invariant
            i <= polys@.len(),
            models(rotation_sets@) == sets_of(queries@, polys@.take(i as int)),
            forall|k: int|
                0 <= k < rotation_sets@.len() ==> (#[trigger] rotation_sets@[k]).holds_evals(
                    queries@,
                ),
        decreases polys@.len() - i,
    {
        let poly = polys[i];
        let points = collect_points(queries, poly);
        let ghost before = rotation_sets@;
        proof {
            assert(polys@.take(i + 1).drop_last() =~= polys@.take(i as int));
        }
        let mut k: usize = 0;
        while k < rotation_sets.len() && !same_point_set(&rotation_sets[k].points, &points)
            invariant
                k <= rotation_sets@.len(),
                rotation_sets@ == before,
                find_set(models(before), vals(points@), 0) == find_set(
                    models(before),
                    vals(points@),
                    k as int,
                ),
            decreases rotation_sets@.len() - k,
        {
            assert(models(before)[k as int].0 == vals(rotation_sets@[k as int].points@));
            k += 1;
        }
        if k < rotation_sets.len() {
            assert(models(before)[k as int].0 == vals(before[k as int].points@));
            let ghost old_set = before[k as int];
            let new_member = member(queries, poly, &rotation_sets[k].points);
            rotation_sets[k].members.push(new_member);
            proof {
                let new_set = rotation_sets@[k as int];
                assert(new_set.model().1 =~= old_set.model().1.push(poly));
                assert(models(rotation_sets@) =~= joined_by(models(before), vals(points@), poly));
                assert forall|m: int| 0 <= m < rotation_sets@.len() implies (
                #[trigger] rotation_sets@[m]).holds_evals(queries@) by {
                    assert(before[m].holds_evals(queries@));
                    if m == k {
                        assert forall|l: int| 0 <= l < new_set.members@.len() implies vals(
                            (#[trigger] new_set.members@[l]).evals@,
                        ) == Seq::new(
                            new_set.points@.len(),
                            |j: int|
                                eval_of(
                                    queries@,
                                    new_set.members@[l].poly,
                                    new_set.points@[j].val(),
                                ),
                        ) by {
                            if l < old_set.members@.len() {
                                assert(new_set.members@[l] == old_set.members@[l]);
                            }
                        }
                    }
                }
            }
        } else {
            let new_member = member(queries, poly, &points);
            let mut members: Vec<SetMember<F>> = Vec::new();
            members.push(new_member);
            rotation_sets.push(PointSet { points, members });
            proof {
                let new_set = rotation_sets@.last();
                assert(new_set.model().1 =~= seq![poly]);
                assert(models(rotation_sets@) =~= joined_by(models(before), vals(points@), poly));
                assert forall|m: int| 0 <= m < rotation_sets@.len() implies (
                #[trigger] rotation_sets@[m]).holds_evals(queries@) by {
                    if m < before.len() {
                        assert(before[m].holds_evals(queries@));
                    }
                }
            }
        }
        i += 1;
    }
    assert(polys@.take(i as int) =~= polys@);
    IntermediateSets { rotation_sets, super_point_set }
}

proof fn lemma_with_new<T>(s: Seq<T>, x: T, y: T)
    ensures
        with_new(s, x).contains(y) <==> s.contains(y) || x == y,
        s.no_duplicates() ==> with_new(s, x).no_duplicates(),
{
    let t = s.push(x);
    if s.contains(y) {
        let i = choose|i: int| 0 <= i < s.len() && s[i] == y;
        assert(t[i] == y);
    }
    assert(t[s.len() as int] == x);
    if t.contains(y) {
        let i = choose|i: int| 0 <= i < t.len() && t[i] == y;
        if i < s.len() {
            assert(s[i] == y);
        }
    }
    if s.no_duplicates() && !s.contains(x) {
        assert forall|i: int, j: int| 0 <= i < t.len() && 0 <= j < t.len() && i != j implies t[i]
            != t[j] by {
            if i < s.len() {
                assert(s[i] == t[i]);
            }
            if j < s.len() {
                assert(s[j] == t[j]);
            }
        }
    }
}

/// The points of a polynomial are those at which it is opened, each once, and
/// they are among all points.
pub proof fn law_points_of<F: Field>(q: Seq<OpeningQuery<F>>, poly: usize, point: int)
    ensures
        points_of(q, poly).contains(point) <==> exists|i: int|
            0 <= i < q.len() && (#[trigger] q[i]).poly == poly && q[i].point.val() == point,
        points_of(q, poly).no_duplicates(),
        points_of(q, poly).contains(point) ==> all_points(q).contains(point),
        all_points(q).no_duplicates(),
    decreases q.len(),
{
    if q.len() > 0 {
        let rest = q.drop_last();
        let last = q.last();
        law_points_of(rest, poly, point);
        lemma_with_new(points_of(rest, poly), last.point.val(), point);
        lemma_with_new(all_points(rest), last.point.val(), point);
        if exists|i: int|
            0 <= i < rest.len() && (#[trigger] rest[i]).poly == poly && rest[i].point.val()
                == point {
            let i = choose|i: int|
                0 <= i < rest.len() && (#[trigger] rest[i]).poly == poly && rest[i].point.val()
                    == point;
            assert(q[i] == rest[i]);
        }
        if exists|i: int|
            0 <= i < q.len() && (#[trigger] q[i]).poly == poly && q[i].point.val() == point {
            let i = choose|i: int|
                0 <= i < q.len() && (#[trigger] q[i]).poly == poly && q[i].point.val() == point;
            if i < rest.len() {
                assert(rest[i] == q[i]);
            }
        }
        if last.poly == poly && last.point.val() == point {
            assert(q[q.len() - 1] == last);
        }
    }
}

proof fn lemma_find_set(sets: Seq<(Seq<int>, Seq<usize>)>, points: Seq<int>, k: int)
    requires
        0 <= k <= sets.len(),
    ensures
        k <= find_set(sets, points, k) <= sets.len(),
        find_set(sets, points, k) < sets.len() ==> same_points(
            sets[find_set(sets, points, k)].0,
            points,
        ),
    decreases sets.len() - k,
{
    if k < sets.len() && !same_points(sets[k].0, points) {
        lemma_find_set(sets, points, k + 1);
    }
}

/// The points of every set differ from each other, and are among all points.
pub proof fn law_set_points<F: Field>(q: Seq<OpeningQuery<F>>, polys: Seq<usize>, k: int, i: int)
    requires
        0 <= k < sets_of(q, polys).len(),
        0 <= i < sets_of(q, polys)[k].0.len(),
    ensures
        sets_of(q, polys)[k].0.no_duplicates(),
        all_points(q).contains(sets_of(q, polys)[k].0[i]),
    decreases polys.len(),
{
    let before = sets_of(q, polys.drop_last());
    let points = points_of(q, polys.last());
    lemma_find_set(before, points, 0);
    if k < before.len() {
        law_set_points(q, polys.drop_last(), k, i);
    } else {
        law_points_of(q, polys.last(), points[i]);
        assert(points.contains(points[i]));
    }
}

/// Whether a polynomial is in a set whose points are those at which it is opened.
pub open spec fn in_its_set<F: Field>(
    q: Seq<OpeningQuery<F>>,
    sets: Seq<(Seq<int>, Seq<usize>)>,
    poly: usize,
    k: int,
    m: int,
) -> bool {
    &&& 0 <= k < sets.len()
    &&& 0 <= m < sets[k].1.len()
    &&& sets[k].1[m] == poly
    &&& same_points(sets[k].0, points_of(q, poly))
}

/// Every polynomial is in a set whose points are those at which it is opened.
pub proof fn law_polys_are_in_sets<F: Field>(q: Seq<OpeningQuery<F>>, polys: Seq<usize>, i: int)
    requires
        0 <= i < polys.len(),
    ensures
        exists|k: int, m: int| in_its_set(q, sets_of(q, polys), polys[i], k, m),
    decreases polys.len(),
{
    let rest = polys.drop_last();
    let before = sets_of(q, rest);
    let sets = sets_of(q, polys);
    let points = points_of(q, polys.last());
    lemma_find_set(before, points, 0);
    let at = find_set(before, points, 0);
    if i < rest.len() {
        law_polys_are_in_sets(q, rest, i);
        let (k, m) = choose|k: int, m: int| in_its_set(q, before, rest[i], k, m);
        assert(in_its_set(q, sets, polys[i], k, m));
    } else if at < before.len() {
        let m = before[at].1.len() as int;
        assert(in_its_set(q, sets, polys[i], at, m));
    } else {
        assert(in_its_set(q, sets, polys[i], before.len() as int, 0));
    }
}

/// The polynomials of a set are those that are opened at its points, and there is
/// one.
pub proof fn law_members_are_opened<F: Field>(
    q: Seq<OpeningQuery<F>>,
    polys: Seq<usize>,
    k: int,
    m: int,
)
    requires
        0 <= k < sets_of(q, polys).len(),
        0 <= m < sets_of(q, polys)[k].1.len(),
    ensures
        polys.contains(sets_of(q, polys)[k].1[m]),
        same_points(sets_of(q, polys)[k].0, points_of(q, sets_of(q, polys)[k].1[m])),
    decreases polys.len(),
{
    let rest = polys.drop_last();
    let before = sets_of(q, rest);
    let sets = sets_of(q, polys);
    let points = points_of(q, polys.last());
    lemma_find_set(before, points, 0);
    assert(polys[polys.len() - 1] == polys.last());
    if k < before.len() && m < before[k].1.len() {
        law_members_are_opened(q, rest, k, m);
        let j = choose|j: int| 0 <= j < rest.len() && rest[j] == before[k].1[m];
        assert(polys[j] == rest[j]);
        assert(sets[k].1[m] == before[k].1[m]);
        assert(sets[k].0 == before[k].0);
    } else {
        assert(sets[k].1[m] == polys.last());
        if k == before.len() {
            assert(sets[k].0 == points);
            assert(forall|i: int| 0 <= i < points.len() ==> points.contains(#[trigger] points[i]));
        }
    }
}

/// No set is without a polynomial.
pub proof fn law_sets_have_members<F: Field>(q: Seq<OpeningQuery<F>>, polys: Seq<usize>, k: int)
    requires
        0 <= k < sets_of(q, polys).len(),
    ensures
        sets_of(q, polys)[k].1.len() > 0,
    decreases polys.len(),
{
    let before = sets_of(q, polys.drop_last());
    lemma_find_set(before, points_of(q, polys.last()), 0);
    if k < before.len() {
        law_sets_have_members(q, polys.drop_last(), k);
    }
}

/// All polynomials are those of a query.
pub proof fn lemma_all_polys<F: Field>(q: Seq<OpeningQuery<F>>, poly: usize)
    ensures
        all_polys(q).contains(poly) <==> exists|i: int|
            0 <= i < q.len() && (#[trigger] q[i]).poly == poly,
    decreases q.len(),
{
    if q.len() > 0 {
        let rest = q.drop_last();
        lemma_all_polys(rest, poly);
        lemma_with_new(all_polys(rest), q.last().poly, poly);
        if exists|i: int| 0 <= i < rest.len() && (#[trigger] rest[i]).poly == poly {
            let i = choose|i: int| 0 <= i < rest.len() && (#[trigger] rest[i]).poly == poly;
            assert(q[i] == rest[i]);
        }
        if exists|i: int| 0 <= i < q.len() && (#[trigger] q[i]).poly == poly {
            let i = choose|i: int| 0 <= i < q.len() && (#[trigger] q[i]).poly == poly;
            if i < rest.len() {
                assert(rest[i] == q[i]);
            }
        }
        assert(q[q.len() - 1] == q.last());
    }
}

/// The value of a polynomial at a point is that of a query.
pub proof fn lemma_eval_of<F: Field>(q: Seq<OpeningQuery<F>>, poly: usize, point: int)
    requires
        exists|i: int|
            0 <= i < q.len() && (#[trigger] q[i]).poly == poly && q[i].point.val() == point,
    ensures
        exists|i: int|
            0 <= i < q.len() && (#[trigger] q[i]).poly == poly && q[i].point.val() == point
                && q[i].eval.val() == eval_of(q, poly, point),
    decreases q.len(),
{
    if !(q[0].poly == poly && q[0].point.val() == point) {
        let rest = q.drop_first();
        let i = choose|i: int|
            0 <= i < q.len() && (#[trigger] q[i]).poly == poly && q[i].point.val() == point;
        assert(rest[i - 1] == q[i]);
        lemma_eval_of(rest, poly, point);
        let j = choose|j: int|
            0 <= j < rest.len() && (#[trigger] rest[j]).poly == poly && rest[j].point.val()
                == point && rest[j].eval.val() == eval_of(rest, poly, point);
        assert(q[j + 1] == rest[j]);
    }
}

} // verus!
