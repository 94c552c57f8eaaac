//! Permuting the inputs and the table of a lookup so that equal inputs are
//! adjacent and the first of them stands beside its value in the table.

use crate::field::{vals, Field};
use crate::poly::arithmetic::poly_zero;
use crate::poly::transforms::copied;
use vstd::prelude::*;
use vstd::seq_lib::*;

verus! {

/// Whether the values ascend.
pub open spec fn ascending(s: Seq<int>) -> bool {
    forall|i: int, j: int| 0 <= i <= j < s.len() ==> #[trigger] s[i] <= #[trigger] s[j]
}

/// Whether the value at a position is the same as the one before.
pub open spec fn repeats(s: Seq<int>, i: int) -> bool {
    i > 0 && s[i] == s[i - 1]
}

/// The values that do not repeat the one before.
pub open spec fn heads(s: Seq<int>) -> Seq<int>
    decreases s.len(),
{
    if s.len() == 0 {
        seq![]
    } else if repeats(s, s.len() - 1) {
        heads(s.drop_last())
    } else {
        heads(s.drop_last()).push(s.last())
    }
}

/// Whether equal values are adjacent.
pub open spec fn grouped(s: Seq<int>) -> bool {
    forall|i: int, j: int, k: int|
        0 <= i < j < k < s.len() && #[trigger] s[i] == #[trigger] s[k] ==> #[trigger] s[j] == s[i]
}

/// What is asked of permuted inputs `a` and a permuted table `t`: equal inputs
/// are adjacent, and the first of them stands beside its value in the table.
pub open spec fn well_permuted(a: Seq<int>, t: Seq<int>) -> bool {
    &&& a.len() == t.len()
    &&& grouped(a)
    &&& forall|i: int| 0 <= i < a.len() && !repeats(a, i) ==> #[trigger] t[i] == a[i]
}

proof fn lemma_heads_len(s: Seq<int>)
    ensures
        heads(s).len() <= s.len(),
    decreases s.len(),
{
    if s.len() > 0 {
        lemma_heads_len(s.drop_last());
    }
}

/// Adding one value to a sequence adds it to the multiset.
proof fn lemma_multiset_push(s: Seq<int>, x: int)
    ensures
        s.push(x).to_multiset() == s.to_multiset().insert(x),
{
    s.to_multiset_ensures();
}

/// The values of the table that remain when one of each input value has been
/// taken out, in ascending order. Both arguments ascend.
fn leftovers<F: Field>(input: &Vec<F>, table: &Vec<F>) -> (r: Vec<F>)
    requires
        input@.len() == table@.len(),
        ascending(vals(input@)),
        ascending(vals(table@)),
        forall|i: int| 0 <= i < input@.len() ==> vals(table@).contains(#[trigger] vals(input@)[i]),
    ensures
        ascending(vals(r@)),
        vals(table@).to_multiset() == heads(vals(input@)).to_multiset().add(
            vals(r@).to_multiset(),
        ),
        r@.len() + heads(vals(input@)).len() == table@.len(),
{
    let ghost a = vals(input@);
    let ghost t = vals(table@);
    let n = table.len();
    let mut out: Vec<F> = Vec::new();
    let mut at: usize = 0;
    let mut j: usize = 0;
    proof {
        assert(a.take(0) =~= seq![]);
        assert(t.take(0) =~= seq![]);
        assert(vals(out@) =~= seq![]);
        assert(t.take(0).to_multiset() =~= heads(a.take(0)).to_multiset().add(
            vals(out@).to_multiset(),
        )) by {
            Seq::<int>::empty().to_multiset_ensures();
            assert(heads(a.take(0)) =~= Seq::<int>::empty());
            assert(t.take(0) =~= Seq::<int>::empty());
            assert(vals(out@) =~= Seq::<int>::empty());
        }
        assert forall|k: int| 0 <= k < n implies t.skip(0).contains(#[trigger] a[k]) by {
            assert(t.skip(0) =~= t);
        }
    }
    while j < n
        invariant
            j <= n,
            at <= n,
            n == a.len(),
            n == t.len(),
            a == vals(input@),
            t == vals(table@),
            ascending(a),
            ascending(t),
            at < n ==> !repeats(a, at as int),
            forall|k: int| at <= k < n ==> t.skip(j as int).contains(#[trigger] a[k]),
            t.take(j as int).to_multiset() == heads(a.take(at as int)).to_multiset().add(
                vals(out@).to_multiset(),
            ),
            out@.len() + heads(a.take(at as int)).len() == j,
            ascending(vals(out@)),
            forall|k: int| 0 <= k < out@.len() && j < n ==> #[trigger] vals(out@)[k] <= t[j as int],
        decreases n - j,
    {
        let ghost rest = t.skip(j as int);
        let ghost next = t.skip(j + 1);
        let ghost v = t[j as int];
        proof {
            assert(t.take(j + 1) =~= t.take(j as int).push(v));
            lemma_multiset_push(t.take(j as int), v);
        }
        if at < n && table[j].equals(&input[at]) {
            let ghost first = at;
            let ghost before = heads(a.take(at as int));
            proof {
                assert(a.take(at + 1).drop_last() =~= a.take(at as int));
                assert(a.take(at + 1).last() == v);
                if at > 0 {
                    assert(a.take(at + 1)[at - 1] == a[at - 1]);
                }
                assert(heads(a.take(at + 1)) == before.push(v));
                lemma_multiset_push(before, v);
            }
            at += 1;
            // Skip the inputs that repeat it.
            while at < n && input[at].equals(&input[at - 1])
                invariant
                    first < at <= n,
                    n == a.len(),
                    n == input@.len(),
                    a == vals(input@),
                    heads(a.take(at as int)) == before.push(v),
                    a[at - 1] == v,
                decreases n - at,
            {
                proof {
                    assert(a.take(at + 1).drop_last() =~= a.take(at as int));
                    assert(a.take(at + 1)[at as int] == a[at as int]);
                    assert(a.take(at + 1)[at - 1] == a[at - 1]);
                }
                at += 1;
            }
            proof {
                assert forall|k: int| at <= k < n implies next.contains(#[trigger] a[k]) by {
                    // Inputs behind the run are larger.
                    assert(a[at as int] <= a[k]);
                    assert(a[at - 1] <= a[at as int]);
                    assert(rest.contains(a[k]));
                    let q = choose|q: int| 0 <= q < rest.len() && rest[q] == a[k];
                    assert(q != 0);
                    assert(next[q - 1] == a[k]);
                }
                assert(t.take(j + 1).to_multiset() =~= heads(a.take(at as int)).to_multiset().add(
                    vals(out@).to_multiset(),
                ));
                if j + 1 < n {
                    assert forall|k: int| 0 <= k < out@.len() implies #[trigger] vals(out@)[k]
                        <= t[j + 1] by {
                        assert(vals(out@)[k] <= t[j as int]);
                        assert(t[j as int] <= t[j + 1]);
                    }
                }
            }
        } else {
            let ghost held = out@;
            out.push(table[j]);
            proof {
                assert(vals(out@) =~= vals(held).push(v));
                lemma_multiset_push(vals(held), v);
                assert(t.take(j + 1).to_multiset() =~= heads(a.take(at as int)).to_multiset().add(
                    vals(out@).to_multiset(),
                ));
                assert forall|k: int| at <= k < n implies next.contains(#[trigger] a[k]) by {
                    assert(rest.contains(a[k]));
                    let q = choose|q: int| 0 <= q < rest.len() && rest[q] == a[k];
                    if q == 0 {
                        // Then the input at `at` is smaller, and so is missing.
                        assert(rest.contains(a[at as int]));
                        let z = choose|z: int| 0 <= z < rest.len() && rest[z] == a[at as int];
                        assert(t[j + z] == a[at as int]);
                        assert(t[j as int] <= t[j + z]);
                        assert(a[at as int] <= a[k]);
                    }
                    assert(next[q - 1] == a[k]);
                }
                if j + 1 < n {
                    assert forall|k: int| 0 <= k < out@.len() implies #[trigger] vals(out@)[k]
                        <= t[j + 1] by {
                        assert(t[j as int] <= t[j + 1]);
                        if k < held.len() {
                            assert(vals(held)[k] <= t[j as int]);
                        }
                    }
                }
                assert(ascending(vals(out@))) by {
                    assert forall|x: int, y: int| 0 <= x <= y < out@.len() implies #[trigger] vals(
                        out@,
                    )[x] <= #[trigger] vals(out@)[y] by {
                        if y < held.len() {
                            assert(vals(held)[x] <= vals(held)[y]);
                        } else if x < held.len() {
                            assert(vals(held)[x] <= t[j as int]);
                        }
                    }
                }
            }
        }
        j += 1;
    }
    proof {
        if at < n {
            assert(t.skip(n as int).contains(a[at as int]));
            assert(false);
        }
        assert(a.take(at as int) =~= a);
        assert(t.take(j as int) =~= t);
    }
    out
}

/// A sequence with zeros behind it, up to `n` values.
fn pad<F: Field>(values: &mut Vec<F>, n: usize)
    requires
        old(values)@.len() <= n,
    ensures
        vals(final(values)@) == vals(old(values)@) + poly_zero((n - old(values)@.len()) as nat),
{
    let ghost given = vals(old(values)@);
    assert(given + poly_zero(0) =~= given);
    while values.len() < n
        invariant
            given.len() <= values@.len() <= n,
            vals(values@) == given + poly_zero((values@.len() - given.len()) as nat),
        decreases n - values@.len(),
    {
        let ghost before = values@;
        values.push(F::zero());
        proof {
            let m = (values@.len() - given.len()) as nat;
            assert(vals(values@) =~= vals(before).push(0));
            assert(poly_zero(m) =~= poly_zero((m - 1) as nat).push(0));
            assert(given + poly_zero(m) =~= (given + poly_zero((m - 1) as nat)).push(0));
        }
    }
}

/// The first `n` values.
fn first_values<F: Field>(values: &Vec<F>, n: usize) -> (r: Vec<F>)
    requires
        n <= values@.len(),
    ensures
        r@ == values@.take(n as int),
{
    let mut out: Vec<F> = Vec::new();
    let mut i: usize = 0;
    while i < n
        invariant
            i <= n,
            n <= values@.len(),
            out@ == values@.take(i as int),
        decreases n - i,
    {
        out.push(values[i]);
        i += 1;
        assert(out@ =~= values@.take(i as int));
    }
    out
}

/// Whether every one of the first `rows` inputs is among the first `rows`
/// values of the table.
pub open spec fn all_in_table(input: Seq<int>, table: Seq<int>, rows: nat) -> bool {
    forall|i: int|
        0 <= i < rows ==> table.take(rows as int).contains(#[trigger] input[i])
}

proof fn lemma_ascending_grouped(s: Seq<int>)
    requires
        ascending(s),
    ensures
        grouped(s),
{
    assert forall|i: int, j: int, k: int|
        0 <= i < j < k < s.len() && #[trigger] s[i] == #[trigger] s[k] implies #[trigger] s[j]
        == s[i] by {
        assert(s[i] <= s[j] && s[j] <= s[k]);
    }
}

/// The inputs in ascending order, and the table with each first input beside
/// its value and the other values of the table, in descending order, beside
/// the inputs that repeat; zeros from `usable_rows` on.
///
/// Every input must be in the table.
pub fn permute_expression_pair_seq<F: Field>(
    params_n: usize,
    input_expression: &Vec<F>,
    table_expression: &Vec<F>,
    usable_rows: usize,
) -> (r: (Vec<F>, Vec<F>))
    requires
        usable_rows <= params_n,
        usable_rows <= input_expression@.len(),
        usable_rows <= table_expression@.len(),
        all_in_table(vals(input_expression@), vals(table_expression@), usable_rows as nat),
    ensures
        ({
            let rows = usable_rows as int;
            let a = vals(r.0@).take(rows);
            let t = vals(r.1@).take(rows);
            let zeros = poly_zero((params_n - usable_rows) as nat);
            &&& vals(r.0@) == a + zeros
            &&& vals(r.1@) == t + zeros
            &&& ascending(a)
            &&& a.to_multiset() == vals(input_expression@).take(rows).to_multiset()
            &&& t.to_multiset() == vals(table_expression@).take(rows).to_multiset()
            &&& well_permuted(a, t)
            &&& forall|i: int, j: int|
                0 <= i < j < rows && repeats(a, i) && repeats(a, j) ==> #[trigger] t[i]
                    >= #[trigger] t[j]
        }),
{
    let ghost rows = usable_rows as int;
    let ghost given = vals(input_expression@).take(rows);
    let ghost held = vals(table_expression@).take(rows);
    // Sort input lookup expression values
    let mut input: Vec<F> = first_values(input_expression, usable_rows);
    assert(vals(input@) =~= given);
    let ghost input0 = input@;
    F::par_sort(&mut input);
    let mut table: Vec<F> = first_values(table_expression, usable_rows);
    assert(vals(table@) =~= held);
    let ghost table0 = table@;
    F::par_sort(&mut table);
    let ghost a = vals(input@);
    proof {
        assert(Seq::new(input@.len(), |i: int| input@[i].val()) =~= a);
        assert(Seq::new(input0.len(), |i: int| input0[i].val()) =~= given);
        assert(Seq::new(table@.len(), |i: int| table@[i].val()) =~= vals(table@));
        assert(Seq::new(table0.len(), |i: int| table0[i].val()) =~= held);
        assert(ascending(a)) by {
            assert forall|i: int, j: int| 0 <= i <= j < a.len() implies #[trigger] a[i]
                <= #[trigger] a[j] by {
                assert(input@[i].val() <= input@[j].val());
            }
        }
        assert(ascending(vals(table@))) by {
            assert forall|i: int, j: int| 0 <= i <= j < table@.len() implies #[trigger] vals(
                table@,
            )[i] <= #[trigger] vals(table@)[j] by {
                assert(table@[i].val() <= table@[j].val());
            }
        }
        assert forall|i: int| 0 <= i < input@.len() implies vals(table@).contains(
            #[trigger] a[i],
        ) by {
            lemma_same_members(a, given, a[i]);
            let k = choose|k: int| 0 <= k < given.len() && given[k] == a[i];
            assert(vals(input_expression@)[k] == a[i]);
            assert(held.contains(a[i]));
            lemma_same_members(held, vals(table@), a[i]);
        }
    }
    let mut leftover = leftovers(&input, &table);
    let ghost spare = vals(leftover@);
    let ghost total = leftover@.len();
    // Populate permuted table: repeated rows take leftover table elements.
    let mut permuted_table: Vec<F> = Vec::new();
    let mut i: usize = 0;
    proof {
        assert(a.take(0) =~= seq![]);
        assert(spare.skip(total as int) =~= Seq::<int>::empty());
        assert(vals(permuted_table@) =~= Seq::<int>::empty());
        Seq::<int>::empty().to_multiset_ensures();
        assert(vals(permuted_table@).to_multiset() =~= heads(a.take(0)).to_multiset().add(
            spare.skip(total as int).to_multiset(),
        ));
        assert(spare.take(total as int) =~= spare);
    }
    while i < usable_rows
        invariant
            i <= usable_rows,
            usable_rows == rows,
            a == vals(input@),
            a.len() == rows,
            ascending(spare),
            spare.len() == total,
            total + heads(a).len() == rows,
            leftover@.len() <= total,
            vals(leftover@) == spare.take(leftover@.len() as int),
            leftover@.len() == total - (i - heads(a.take(i as int)).len()),
            permuted_table@.len() == i,
            vals(permuted_table@).to_multiset() == heads(a.take(i as int)).to_multiset().add(
                spare.skip(leftover@.len() as int).to_multiset(),
            ),
            forall|k: int|
                0 <= k < i && !repeats(a, k) ==> #[trigger] vals(permuted_table@)[k] == a[k],
            forall|k: int|
                0 <= k < i && repeats(a, k) && leftover@.len() > 0 ==> spare[leftover@.len() - 1]
                    <= #[trigger] vals(permuted_table@)[k],
            forall|k: int, m: int|
                0 <= k < m < i && repeats(a, k) && repeats(a, m) ==> #[trigger] vals(
                    permuted_table@,
                )[k] >= #[trigger] vals(permuted_table@)[m],
        decreases usable_rows - i,
    {
        let ghost before = vals(permuted_table@);
        let ghost here = a.take(i + 1);
        proof {
            assert(here.drop_last() =~= a.take(i as int));
            assert(here.last() == a[i as int]);
            if i > 0 {
                assert(here[i - 1] == a[i - 1]);
            }
            assert(repeats(here, i as int) == repeats(a, i as int));
            lemma_heads_suffix(a, (i + 1) as nat);
        }
        if i > 0 && input[i].equals(&input[i - 1]) {
            let ghost left = leftover@.len();
            proof {
                // There are as many leftovers as repeated rows.
                assert(heads(a).len() <= heads(here).len() + (rows - (i + 1)));
                assert(left > 0);
            }
            let value = leftover.pop().unwrap();
            let ghost v = spare[left - 1];
            assert(value.val() == v) by {
                assert(spare.take(left as int)[left - 1] == v);
            }
            permuted_table.push(value);
            proof {
                assert(vals(leftover@) =~= spare.take(left - 1));
                assert(vals(permuted_table@) =~= before.push(v));
                lemma_multiset_push(before, v);
                let more = spare.skip(left - 1);
                let less = spare.skip(left as int);
                assert(more =~= seq![v] + less);
                lemma_multiset_prepend(v, less);
                assert(vals(permuted_table@).to_multiset() =~= heads(here).to_multiset().add(
                    more.to_multiset(),
                ));
                if leftover@.len() > 0 {
                    assert(spare[left - 2] <= spare[left - 1]);
                }
            }
        } else {
            permuted_table.push(input[i]);
            proof {
                let v = a[i as int];
                assert(vals(permuted_table@) =~= before.push(v));
                lemma_multiset_push(before, v);
                lemma_multiset_push(heads(a.take(i as int)), v);
                assert(vals(permuted_table@).to_multiset() =~= heads(here).to_multiset().add(
                    spare.skip(leftover@.len() as int).to_multiset(),
                ));
            }
        }
        i += 1;
    }
    let ghost t = vals(permuted_table@);
    proof {
        assert(a.take(i as int) =~= a);
        assert(leftover@.len() == 0);
        assert(spare.skip(0) =~= spare);
        assert(t.to_multiset() == vals(table@).to_multiset());
        lemma_ascending_grouped(a);
    }
    pad(&mut input, params_n);
    pad(&mut permuted_table, params_n);
    proof {
        assert(vals(input@).take(rows) =~= a);
        assert(vals(permuted_table@).take(rows) =~= t);
    }
    (input, permuted_table)
}

/// Sequences with the same multiset have the same members.
proof fn lemma_same_members(s: Seq<int>, t: Seq<int>, x: int)
    requires
        s.to_multiset() == t.to_multiset(),
        s.contains(x),
    ensures
        t.contains(x),
{
    s.to_multiset_ensures();
    t.to_multiset_ensures();
    assert(s.to_multiset().count(x) > 0);
}

proof fn lemma_multiset_prepend(x: int, s: Seq<int>)
    ensures
        (seq![x] + s).to_multiset() == s.to_multiset().insert(x),
{
    vstd::seq_lib::lemma_multiset_commutative(seq![x], s);
    seq![x].to_multiset_ensures();
    assert(seq![x] =~= Seq::<int>::empty().push(x));
    lemma_multiset_push(Seq::<int>::empty(), x);
    Seq::<int>::empty().to_multiset_ensures();
    assert((seq![x] + s).to_multiset() =~= s.to_multiset().insert(x));
}

/// Each further value is a head or a repetition.
proof fn lemma_heads_suffix(s: Seq<int>, i: nat)
    requires
        i <= s.len(),
    ensures
        heads(s).len() <= heads(s.take(i as int)).len() + (s.len() - i),
        heads(s).len() >= heads(s.take(i as int)).len(),
    decreases s.len(),
{
    if i == s.len() {
        assert(s.take(i as int) =~= s);
    } else {
        lemma_heads_suffix(s.drop_last(), i);
        assert(s.drop_last().take(i as int) =~= s.take(i as int));
    }
}

/// The heads of grouped values differ, and are the values that occur.
proof fn lemma_heads_members(s: Seq<int>)
    requires
        grouped(s),
    ensures
        heads(s).no_duplicates(),
        forall|x: int| #[trigger] heads(s).contains(x) <==> s.contains(x),
    decreases s.len(),
{
    if s.len() > 0 {
        let m = s.drop_last();
        let x = s.last();
        let n = s.len() - 1;
        assert(grouped(m)) by {
            assert forall|i: int, j: int, k: int|
                0 <= i < j < k < m.len() && #[trigger] m[i] == #[trigger] m[k] implies
                #[trigger] m[j] == m[i] by {
                assert(s[i] == s[k] && s[j] == s[i]);
            }
        }
        lemma_heads_members(m);
        let h = heads(m);
        if repeats(s, n) {
            assert(m[n - 1] == x);
            assert(m.contains(x));
        } else {
            // The last value does not occur before: else all between would equal it.
            assert(!m.contains(x)) by {
                if m.contains(x) {
                    let i = choose|i: int| 0 <= i < m.len() && m[i] == x;
                    if i < n - 1 {
                        assert(s[i] == s[n] && s[n - 1] == s[i]);
                    }
                }
            }
            assert(heads(s) == h.push(x));
            assert(!h.contains(x));
            assert forall|i: int, j: int| 0 <= i < h.len() + 1 && 0 <= j < h.len() + 1 && i
                != j implies h.push(x)[i] != h.push(x)[j] by {
                if i < h.len() && j < h.len() {
                    assert(h[i] != h[j]);
                } else if i < h.len() {
                    assert(h.contains(h[i]));
                } else {
                    assert(h.contains(h[j]));
                }
            }
            assert(h.push(x).no_duplicates());
            assert(forall|y: int| h.push(x).contains(y) <==> h.contains(y) || y == x) by {
                assert forall|y: int| h.push(x).contains(y) <==> h.contains(y) || y == x by {
                    if h.contains(y) {
                        let k = choose|k: int| 0 <= k < h.len() && h[k] == y;
                        assert(h.push(x)[k] == y);
                    }
                    if y == x {
                        assert(h.push(x)[h.len() as int] == y);
                    }
                    if h.push(x).contains(y) {
                        let k = choose|k: int| 0 <= k < h.len() + 1 && h.push(x)[k] == y;
                        if k < h.len() {
                            assert(h[k] == y);
                        }
                    }
                }
            }
        }
        assert forall|y: int| #[trigger] heads(s).contains(y) <==> s.contains(y) by {
            assert(h.contains(y) <==> m.contains(y));
            if s.contains(y) {
                let k = choose|k: int| 0 <= k < s.len() && s[k] == y;
                if k < n {
                    assert(m[k] == y);
                    assert(m.contains(y));
                }
            }
            if m.contains(y) {
                let k = choose|k: int| 0 <= k < m.len() && m[k] == y;
                assert(s[k] == y);
            }
            if y == x {
                assert(s[n] == y);
            }
        }
    }
}

/// Duplicate-free sequences with the same members have the same multiset.
proof fn lemma_same_set_same_multiset(s: Seq<int>, t: Seq<int>)
    requires
        s.no_duplicates(),
        t.no_duplicates(),
        forall|x: int| #[trigger] s.contains(x) <==> t.contains(x),
    ensures
        s.to_multiset() == t.to_multiset(),
{
    s.to_multiset_ensures();
    t.to_multiset_ensures();
    assert forall|x: int| #[trigger] s.to_multiset().count(x) == t.to_multiset().count(x) by {
        s.lemma_multiset_has_no_duplicates();
        t.lemma_multiset_has_no_duplicates();
        assert(s.contains(x) <==> s.to_multiset().count(x) > 0);
        assert(t.contains(x) <==> t.to_multiset().count(x) > 0);
        if s.contains(x) {
            assert(s.to_multiset().contains(x));
            assert(t.to_multiset().contains(x));
        }
    }
    assert(s.to_multiset() =~= t.to_multiset());
}

/// The table for inputs whose equal values are already adjacent, in whatever
/// order the groups come: each first input stands beside its value, and the
/// other values of the table, in ascending order, beside the inputs that
/// repeat; zeros from `usable_rows` on.
pub fn permute_grouped<F: Field>(
    params_n: usize,
    grouped_input: &Vec<F>,
    table_expression: &Vec<F>,
    usable_rows: usize,
) -> (r: (Vec<F>, Vec<F>))
    requires
        usable_rows <= params_n,
        usable_rows == grouped_input@.len(),
        usable_rows <= table_expression@.len(),
        grouped(vals(grouped_input@)),
        all_in_table(vals(grouped_input@), vals(table_expression@), usable_rows as nat),
    ensures
        ({
            let rows = usable_rows as int;
            let a = vals(grouped_input@);
            let t = vals(r.1@).take(rows);
            let zeros = poly_zero((params_n - usable_rows) as nat);
            &&& vals(r.0@) == a + zeros
            &&& vals(r.1@) == t + zeros
            &&& t.to_multiset() == vals(table_expression@).take(rows).to_multiset()
            &&& well_permuted(a, t)
            &&& forall|i: int, j: int|
                0 <= i < j < rows && repeats(a, i) && repeats(a, j) ==> #[trigger] t[i]
                    <= #[trigger] t[j]
        }),
{
    let ghost rows = usable_rows as int;
    let ghost a = vals(grouped_input@);
    let ghost held = vals(table_expression@).take(rows);
    let mut input: Vec<F> = copied(grouped_input);
    let mut sorted: Vec<F> = copied(grouped_input);
    let ghost sorted0 = sorted@;
    F::par_sort(&mut sorted);
    let mut table: Vec<F> = first_values(table_expression, usable_rows);
    let ghost table0 = table@;
    F::par_sort(&mut table);
    let ghost b = vals(sorted@);
    proof {
        assert(Seq::new(sorted@.len(), |i: int| sorted@[i].val()) =~= b);
        assert(Seq::new(sorted0.len(), |i: int| sorted0[i].val()) =~= a);
        assert(Seq::new(table@.len(), |i: int| table@[i].val()) =~= vals(table@));
        assert(Seq::new(table0.len(), |i: int| table0[i].val()) =~= held);
        assert(ascending(b)) by {
            assert forall|i: int, j: int| 0 <= i <= j < b.len() implies #[trigger] b[i]
                <= #[trigger] b[j] by {
                assert(sorted@[i].val() <= sorted@[j].val());
            }
        }
        assert(ascending(vals(table@))) by {
            assert forall|i: int, j: int| 0 <= i <= j < table@.len() implies #[trigger] vals(
                table@,
            )[i] <= #[trigger] vals(table@)[j] by {
                assert(table@[i].val() <= table@[j].val());
            }
        }
        assert forall|i: int| 0 <= i < b.len() implies vals(table@).contains(#[trigger] b[i]) by {
            lemma_same_members(b, a, b[i]);
            let k = choose|k: int| 0 <= k < a.len() && a[k] == b[i];
            assert(held.contains(a[k]));
            lemma_same_members(held, vals(table@), b[i]);
        }
        // The heads are the same values.
        lemma_ascending_grouped(b);
        lemma_heads_members(a);
        lemma_heads_members(b);
        assert forall|x: int| #[trigger] heads(a).contains(x) <==> heads(b).contains(x) by {
            if a.contains(x) {
                lemma_same_members(a, b, x);
            }
            if b.contains(x) {
                lemma_same_members(b, a, x);
            }
        }
        lemma_same_set_same_multiset(heads(a), heads(b));
        heads(a).to_multiset_ensures();
        heads(b).to_multiset_ensures();
        assert(heads(a).len() == heads(b).len());
    }
    let leftover = leftovers(&sorted, &table);
    let ghost spare = vals(leftover@);
    let mut permuted_table: Vec<F> = Vec::new();
    let mut used: usize = 0;
    let mut i: usize = 0;
    proof {
        assert(a.take(0) =~= seq![]);
        assert(spare.take(0) =~= Seq::<int>::empty());
        assert(vals(permuted_table@) =~= Seq::<int>::empty());
        Seq::<int>::empty().to_multiset_ensures();
        assert(vals(permuted_table@).to_multiset() =~= heads(a.take(0)).to_multiset().add(
            spare.take(0).to_multiset(),
        ));
    }
    while i < usable_rows
        invariant
            i <= usable_rows,
            usable_rows == rows,
            a == vals(grouped_input@),
            a.len() == rows,
            spare == vals(leftover@),
            ascending(spare),
            spare.len() + heads(a).len() == rows,
            used <= spare.len(),
            used == i - heads(a.take(i as int)).len(),
            permuted_table@.len() == i,
            vals(permuted_table@).to_multiset() == heads(a.take(i as int)).to_multiset().add(
                spare.take(used as int).to_multiset(),
            ),
            forall|k: int|
                0 <= k < i && !repeats(a, k) ==> #[trigger] vals(permuted_table@)[k] == a[k],
            forall|k: int|
                0 <= k < i && repeats(a, k) && used < spare.len() ==> #[trigger] vals(
                    permuted_table@,
                )[k] <= spare[used as int],
            forall|k: int, m: int|
                0 <= k < m < i && repeats(a, k) && repeats(a, m) ==> #[trigger] vals(
                    permuted_table@,
                )[k] <= #[trigger] vals(permuted_table@)[m],
        decreases usable_rows - i,
    {
        let ghost before = vals(permuted_table@);
        let ghost here = a.take(i + 1);
        proof {
            assert(here.drop_last() =~= a.take(i as int));
            assert(here.last() == a[i as int]);
            if i > 0 {
                assert(here[i - 1] == a[i - 1]);
            }
            assert(repeats(here, i as int) == repeats(a, i as int));
            lemma_heads_suffix(a, (i + 1) as nat);
        }
        if i > 0 && grouped_input[i].equals(&grouped_input[i - 1]) {
            proof {
                assert(heads(a).len() <= heads(here).len() + (rows - (i + 1)));
                assert(used < spare.len());
            }
            let value = leftover[used];
            permuted_table.push(value);
            proof {
                let v = spare[used as int];
                assert(vals(permuted_table@) =~= before.push(v));
                lemma_multiset_push(before, v);
                assert(spare.take(used + 1) =~= spare.take(used as int).push(v));
                lemma_multiset_push(spare.take(used as int), v);
                assert(vals(permuted_table@).to_multiset() =~= heads(here).to_multiset().add(
                    spare.take(used + 1).to_multiset(),
                ));
                if used + 1 < spare.len() {
                    assert(spare[used as int] <= spare[used + 1]);
                }
            }
            used += 1;
        } else {
            permuted_table.push(grouped_input[i]);
            proof {
                let v = a[i as int];
                assert(vals(permuted_table@) =~= before.push(v));
                lemma_multiset_push(before, v);
                lemma_multiset_push(heads(a.take(i as int)), v);
                assert(vals(permuted_table@).to_multiset() =~= heads(here).to_multiset().add(
                    spare.take(used as int).to_multiset(),
                ));
            }
        }
        i += 1;
    }
    let ghost t = vals(permuted_table@);
    proof {
        assert(a.take(i as int) =~= a);
        assert(used == spare.len());
        assert(spare.take(used as int) =~= spare);
        assert(t.to_multiset() =~= vals(table@).to_multiset());
    }
    pad(&mut input, params_n);
    pad(&mut permuted_table, params_n);
    proof {
        assert(vals(permuted_table@).take(rows) =~= t);
    }
    (input, permuted_table)
}

/// The inputs grouped by value, and the table permuted to match, as
/// [`permute_grouped`] does it.
///
/// Every input must be in the table.
pub fn permute_expression_pair_par<F: Field>(
    params_n: usize,
    input_expression: &Vec<F>,
    table_expression: &Vec<F>,
    usable_rows: usize,
) -> (r: (Vec<F>, Vec<F>))
    requires
        usable_rows <= params_n,
        usable_rows <= input_expression@.len(),
        usable_rows <= table_expression@.len(),
        all_in_table(vals(input_expression@), vals(table_expression@), usable_rows as nat),
    ensures
        ({
            let rows = usable_rows as int;
            let a = vals(r.0@).take(rows);
            let t = vals(r.1@).take(rows);
            let zeros = poly_zero((params_n - usable_rows) as nat);
            &&& vals(r.0@) == a + zeros
            &&& vals(r.1@) == t + zeros
            &&& a.to_multiset() == vals(input_expression@).take(rows).to_multiset()
            &&& t.to_multiset() == vals(table_expression@).take(rows).to_multiset()
            &&& well_permuted(a, t)
            &&& forall|i: int, j: int|
                0 <= i < j < rows && repeats(a, i) && repeats(a, j) ==> #[trigger] t[i]
                    <= #[trigger] t[j]
        }),
{
    let ghost rows = usable_rows as int;
    let ghost given = vals(input_expression@).take(rows);
    let mut input: Vec<F> = first_values(input_expression, usable_rows);
    let ghost input0 = input@;
    F::par_sort(&mut input);
    let ghost a = vals(input@);
    proof {
        assert(Seq::new(input@.len(), |i: int| input@[i].val()) =~= a);
        assert(Seq::new(input0.len(), |i: int| input0[i].val()) =~= given);
        assert(ascending(a)) by {
            assert forall|i: int, j: int| 0 <= i <= j < a.len() implies #[trigger] a[i]
                <= #[trigger] a[j] by {
                assert(input@[i].val() <= input@[j].val());
            }
        }
        lemma_ascending_grouped(a);
        assert forall|i: int| 0 <= i < rows implies vals(table_expression@).take(rows).contains(
            #[trigger] a[i],
        ) by {
            lemma_same_members(a, given, a[i]);
            let k = choose|k: int| 0 <= k < given.len() && given[k] == a[i];
            assert(vals(input_expression@)[k] == a[i]);
        }
    }
    let r = permute_grouped(params_n, &input, table_expression, usable_rows);
    proof {
        assert(vals(r.0@).take(rows) =~= a);
    }
    r
}

/// A sorted copy of the first values.
fn sorted_values<F: Field>(values: &Vec<F>, rows: usize) -> (r: Vec<F>)
    requires
        rows <= values@.len(),
    ensures
        r@.len() == rows,
        ascending(vals(r@)),
        vals(r@).to_multiset() == vals(values@).take(rows as int).to_multiset(),
{
    let mut out: Vec<F> = first_values(values, rows);
    let ghost before = out@;
    F::par_sort(&mut out);
    proof {
        assert(vals(before) =~= vals(values@).take(rows as int));
        assert(Seq::new(before.len(), |i: int| before[i].val()) =~= vals(before));
        assert(Seq::new(out@.len(), |i: int| out@[i].val()) =~= vals(out@));
        assert forall|i: int, j: int| 0 <= i <= j < out@.len() implies #[trigger] vals(out@)[i]
            <= #[trigger] vals(out@)[j] by {
            assert(out@[i].val() <= out@[j].val());
        }
    }
    out
}

/// Whether every one of the first inputs is among the first values of the table.
pub fn inputs_in_table<F: Field>(input: &Vec<F>, table: &Vec<F>, usable_rows: usize) -> (r: bool)
    requires
        usable_rows <= input@.len(),
        usable_rows <= table@.len(),
    ensures
        r == all_in_table(vals(input@), vals(table@), usable_rows as nat),
{
    let a = sorted_values(input, usable_rows);
    let t = sorted_values(table, usable_rows);
    let ghost given = vals(input@).take(usable_rows as int);
    let ghost held = vals(table@).take(usable_rows as int);
    let ghost (av, tv) = (vals(a@), vals(t@));
    let mut i: usize = 0;
    let mut j: usize = 0;
    while i < usable_rows
        invariant
            i <= usable_rows,
            j <= usable_rows,
            a@.len() == usable_rows,
            t@.len() == usable_rows,
            usable_rows <= input@.len(),
            usable_rows <= table@.len(),
            av == vals(a@),
            tv == vals(t@),
            ascending(av),
            ascending(tv),
            given == vals(input@).take(usable_rows as int),
            held == vals(table@).take(usable_rows as int),
            av.to_multiset() == given.to_multiset(),
            tv.to_multiset() == held.to_multiset(),
            forall|k: int| 0 <= k < i ==> tv.contains(#[trigger] av[k]),
            forall|l: int|
                i < usable_rows && 0 <= l < j && #[trigger] tv[l] == av[i as int] ==> j
                    < usable_rows && tv[j as int] == av[i as int],
        decreases usable_rows - i,
    {
        let ghost first = j;
        while j < usable_rows && !t[j].equals(&a[i])
            invariant
                first <= j <= usable_rows,
                i < usable_rows,
                a@.len() == usable_rows,
                t@.len() == usable_rows,
                av == vals(a@),
                tv == vals(t@),
                forall|l: int| first <= l < j ==> #[trigger] tv[l] != av[i as int],
            decreases usable_rows - j,
        {
            j += 1;
        }
        if j == usable_rows {
            proof {
                assert(!tv.contains(av[i as int])) by {
                    if tv.contains(av[i as int]) {
                        let l = choose|l: int| 0 <= l < tv.len() && tv[l] == av[i as int];
                        if l < first {
                            assert(tv[first as int] == av[i as int]);
                        }
                    }
                }
                if held.contains(av[i as int]) {
                    lemma_same_members(held, tv, av[i as int]);
                }
                assert(av.contains(av[i as int]));
                lemma_same_members(av, given, av[i as int]);
                let k = choose|k: int| 0 <= k < given.len() && given[k] == av[i as int];
                assert(vals(input@)[k] == av[i as int]);
                assert(!held.contains(vals(input@)[k]));
            }
            return false;
        }
        proof {
            assert(tv[j as int] == av[i as int]);
            assert(tv.contains(av[i as int]));
            assert forall|l: int|
                i + 1 < usable_rows && 0 <= l < j && #[trigger] tv[l]
                    == av[i + 1] implies tv[j as int]
                == av[i + 1] by {
                assert(tv[l] <= tv[j as int]);
                assert(av[i as int] <= av[i + 1]);
            }
        }
        i += 1;
    }
    proof {
        assert forall|k: int| 0 <= k < usable_rows implies held.contains(
            #[trigger] vals(input@)[k],
        ) by {
            let v = vals(input@)[k];
            assert(given[k] == v);
            assert(given.contains(v));
            lemma_same_members(given, av, v);
            let m = choose|m: int| 0 <= m < av.len() && av[m] == v;
            assert(tv.contains(av[m]));
            lemma_same_members(tv, held, v);
        }
    }
    true
}

} // verus!
