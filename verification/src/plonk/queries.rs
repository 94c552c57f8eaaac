//! Lists of distinct queries, kept in the order in which they were made.

use crate::plonk::circuit::{GpuColumn, GpuColumnType};
use crate::poly::Rotation;
use vstd::prelude::*;

verus! {

/// The list with `x` in it: unchanged if it holds `x`, else with `x` at its end.
pub open spec fn with_query<A>(s: Seq<A>, x: A) -> Seq<A> {
    if s.contains(x) {
        s
    } else {
        s.push(x)
    }
}

/// The list with all of `t` in it, added one after the other.
pub open spec fn with_queries<A>(s: Seq<A>, t: Seq<A>) -> Seq<A>
    decreases t.len(),
{
    if t.len() == 0 {
        s
    } else {
        with_query(with_queries(s, t.drop_last()), t.last())
    }
}

/// Whether `i` is where `x` first stands in the list.
pub open spec fn is_position<A>(s: Seq<A>, x: A, i: int) -> bool {
    &&& 0 <= i < s.len()
    &&& s[i] == x
    &&& forall|j: int| 0 <= j < i ==> s[j] != x
}

/// The position of `x` in the list.
pub open spec fn position<A>(s: Seq<A>, x: A) -> int {
    choose|i: int| is_position(s, x, i)
}

/// Adding the queries of two lists is adding one list after the other.
pub proof fn lemma_with_queries_append<A>(s: Seq<A>, t: Seq<A>, u: Seq<A>)
    ensures
        with_queries(s, t + u) == with_queries(with_queries(s, t), u),
    decreases u.len(),
{
    if u.len() == 0 {
        assert(t + u =~= t);
    } else {
        assert((t + u).drop_last() =~= t + u.drop_last());
        assert((t + u).last() == u.last());
        lemma_with_queries_append(s, t, u.drop_last());
    }
}

/// A query keeps its position when others are added.
pub proof fn law_positions_stable<A>(s: Seq<A>, t: Seq<A>, x: A, i: int)
    requires
        is_position(s, x, i),
    ensures
        is_position(with_queries(s, t), x, i),
        with_queries(s, t).len() >= s.len(),
    decreases t.len(),
{
    if t.len() > 0 {
        law_positions_stable(s, t.drop_last(), x, i);
    }
}

/// A list of distinct queries stays one, and adding what it holds changes
/// nothing.
pub proof fn law_queries_distinct<A>(s: Seq<A>, t: Seq<A>)
    requires
        s.no_duplicates(),
    ensures
        with_queries(s, t).no_duplicates(),
        (forall|x: A| t.contains(x) ==> s.contains(x)) ==> with_queries(s, t) == s,
    decreases t.len(),
{
    if t.len() > 0 {
        law_queries_distinct(s, t.drop_last());
        if forall|x: A| t.contains(x) ==> s.contains(x) {
            assert forall|x: A| t.drop_last().contains(x) implies s.contains(x) by {
                let i = choose|i: int| 0 <= i < t.drop_last().len() && t.drop_last()[i] == x;
                assert(t[i] == x);
            }
            assert(t[t.len() - 1] == t.last());
        }
    }
}

/// The number of queries of a column.
pub open spec fn queries_of<C: GpuColumnType>(
    s: Seq<(GpuColumn<C>, Rotation)>,
    index: usize,
) -> nat
    decreases s.len(),
{
    if s.len() == 0 {
        0
    } else {
        queries_of(s.drop_last(), index) + if s.last().0.index == index {
            1nat
        } else {
            0nat
        }
    }
}

pub proof fn lemma_queries_of_bound<C: GpuColumnType>(
    s: Seq<(GpuColumn<C>, Rotation)>,
    index: usize,
)
    ensures
        queries_of(s, index) <= s.len(),
    decreases s.len(),
{
    if s.len() > 0 {
        lemma_queries_of_bound(s.drop_last(), index);
    }
}

pub proof fn lemma_queries_of_push<C: GpuColumnType>(
    s: Seq<(GpuColumn<C>, Rotation)>,
    x: (GpuColumn<C>, Rotation),
    index: usize,
)
    ensures
        queries_of(s.push(x), index) == queries_of(s, index) + if x.0.index == index {
            1nat
        } else {
            0nat
        },
{
    assert(s.push(x).drop_last() =~= s);
}

/// The position of a query in a list, if it is there.
pub fn find_query<C: GpuColumnType>(
    queries: &Vec<(GpuColumn<C>, Rotation)>,
    column: GpuColumn<C>,
    at: Rotation,
) -> (r: Option<usize>)
    ensures
        r matches Some(i) ==> is_position(queries@, (column, at), i as int),
        r is None <==> !queries@.contains((column, at)),
{
    let mut i: usize = 0;
    while i < queries.len()
        invariant
            i <= queries@.len(),
            forall|j: int| 0 <= j < i ==> queries@[j] != (column, at),
        decreases queries@.len() - i,
    {
        if queries[i].0.same(&column) && queries[i].1 == at {
            assert(queries@[i as int] == (column, at));
            return Some(i);
        }
        i += 1;
    }
    None
}

/// Adds a query to a list, unless it is there already; returns its position.
pub fn find_or_push_query<C: GpuColumnType>(
    queries: &mut Vec<(GpuColumn<C>, Rotation)>,
    column: GpuColumn<C>,
    at: Rotation,
) -> (r: usize)
    ensures
        final(queries)@ == with_query(old(queries)@, (column, at)),
        is_position(final(queries)@, (column, at), r as int),
{
    match find_query(queries, column, at) {
        Some(i) => i,
        None => {
            let index: usize = queries.len();
            queries.push((column, at));
            index
        },
    }
}

/// A list of queries holds what it held and what was added, and nothing else.
pub proof fn lemma_queries_contain<A>(s: Seq<A>, t: Seq<A>, x: A)
    ensures
        with_queries(s, t).contains(x) ==> s.contains(x) || t.contains(x),
    decreases t.len(),
{
    if t.len() > 0 {
        let rest = t.drop_last();
        lemma_queries_contain(s, rest, x);
        if rest.contains(x) {
            let i = choose|i: int| 0 <= i < rest.len() && rest[i] == x;
            assert(t[i] == x);
        }
        assert(t[t.len() - 1] == t.last());
        let all = with_queries(s, rest);
        if with_queries(s, t).contains(x) && !all.contains(x) {
            let added = all.push(t.last());
            let i = choose|i: int| 0 <= i < added.len() && added[i] == x;
            if i < all.len() {
                assert(all[i] == x);
            }
        }
    }
}

} // verus!
