//! Products of sequences of field elements.

use crate::field::{
    finv, fmul, has_inverse, is_inverse, lemma_f_range, lemma_fmul_assoc, lemma_fmul_comm,
    lemma_units,
};
use crate::plonk::permutation::prover::running;
use vstd::arithmetic::div_mod::lemma_small_mod;
use vstd::prelude::*;

verus! {

/// The product of values.
pub open spec fn fprod(p: int, s: Seq<int>) -> int
    decreases s.len(),
{
    if s.len() == 0 {
        1
    } else {
        fmul(p, fprod(p, s.drop_last()), s.last())
    }
}

pub proof fn lemma_fprod_range(p: int, s: Seq<int>)
    requires
        p > 1,
    ensures
        0 <= fprod(p, s) < p,
{
}

/// Taking one factor out.
proof fn lemma_fprod_remove(p: int, s: Seq<int>, i: int)
    requires
        p > 1,
        0 <= i < s.len(),
    ensures
        fprod(p, s) == fmul(p, fprod(p, s.remove(i)), s[i]),
    decreases s.len(),
{
    if i < s.len() - 1 {
        let m = s.drop_last();
        lemma_fprod_remove(p, m, i);
        assert(s.remove(i).drop_last() =~= m.remove(i));
        assert(s.remove(i).last() == s.last());
        let (x, a, b) = (fprod(p, m.remove(i)), s[i], s.last());
        lemma_fmul_assoc(p, x, a, b);
        lemma_fmul_assoc(p, x, b, a);
        lemma_fmul_comm(p, a, b);
    } else {
        assert(s.remove(i) =~= s.drop_last());
    }
}

/// The order of the factors does not matter.
pub proof fn lemma_fprod_permuted(p: int, s: Seq<int>, t: Seq<int>)
    requires
        p > 1,
        s.to_multiset() == t.to_multiset(),
    ensures
        fprod(p, s) == fprod(p, t),
    decreases s.len(),
{
    s.to_multiset_ensures();
    t.to_multiset_ensures();
    assert(s.len() == t.len());
    if s.len() > 0 {
        let x = t.last();
        assert(t[t.len() - 1] == x);
        assert(t.contains(x));
        assert(t.to_multiset().count(x) > 0);
        assert(s.contains(x));
        let i = choose|i: int| 0 <= i < s.len() && s[i] == x;
        let (a, b) = (s.remove(i), t.drop_last());
        assert(b =~= t.remove(t.len() - 1));
        assert(a.to_multiset() =~= s.to_multiset().remove(x));
        assert(b.to_multiset() =~= t.to_multiset().remove(x));
        lemma_fprod_permuted(p, a, b);
        lemma_fprod_remove(p, s, i);
    }
}

/// A running product is the product of its factors.
pub proof fn lemma_running_is_fprod(p: int, factors: Seq<int>, i: nat)
    requires
        i <= factors.len(),
    ensures
        running(p, factors, 1, i) == fprod(p, factors.take(i as int)),
    decreases i,
{
    if i > 0 {
        lemma_running_is_fprod(p, factors, (i - 1) as nat);
        assert(factors.take(i as int).drop_last() =~= factors.take(i - 1));
    }
}

/// The product of quotients `b_i^(-1) a_i`, times the product of the `b_i`, is the
/// product of the `a_i`.
pub proof fn lemma_fprod_quotients(p: int, q: Seq<int>, a: Seq<int>, b: Seq<int>)
    requires
        p > 1,
        q.len() == a.len(),
        q.len() == b.len(),
        forall|i: int| 0 <= i < a.len() ==> 0 <= #[trigger] a[i] < p,
        forall|i: int| 0 <= i < b.len() ==> has_inverse(p, #[trigger] b[i]),
        forall|i: int| 0 <= i < q.len() ==> #[trigger] q[i] == fmul(p, finv(p, b[i]), a[i]),
    ensures
        fmul(p, fprod(p, q), fprod(p, b)) == fprod(p, a),
    decreases q.len(),
{
    lemma_small_mod(1, p as nat);
    if q.len() == 0 {
        assert(fmul(p, 1, 1) == 1);
    } else {
        let n = q.len() - 1;
        let (q1, a1, b1) = (q.drop_last(), a.drop_last(), b.drop_last());
        assert forall|i: int| 0 <= i < a1.len() implies 0 <= #[trigger] a1[i] < p by {
            assert(0 <= a[i] < p);
        }
        assert forall|i: int| 0 <= i < b1.len() implies has_inverse(p, #[trigger] b1[i]) by {
            assert(has_inverse(p, b[i]));
        }
        assert forall|i: int| 0 <= i < q1.len() implies #[trigger] q1[i] == fmul(
            p,
            finv(p, b1[i]),
            a1[i],
        ) by {
            assert(q[i] == fmul(p, finv(p, b[i]), a[i]));
        }
        lemma_fprod_quotients(p, q1, a1, b1);
        let (x, y) = (fprod(p, q1), fprod(p, b1));
        let (u, v, w) = (q[n], b[n], a[n]);
        assert(has_inverse(p, b[n]) && 0 <= a[n] < p && q[n] == fmul(p, finv(p, b[n]), a[n]));
        let inv = finv(p, v);
        assert(is_inverse(p, v, inv));
        // u v = (inv w) v = w
        assert(fmul(p, u, v) == w) by {
            lemma_fmul_comm(p, u, v);
            lemma_fmul_assoc(p, v, inv, w);
            lemma_fmul_comm(p, 1, w);
            lemma_units(p, w);
        }
        // (x u) (y v) = (x y) (u v)
        lemma_fmul_assoc(p, x, u, fmul(p, y, v));
        lemma_fmul_assoc(p, u, y, v);
        lemma_fmul_comm(p, u, y);
        lemma_fmul_assoc(p, y, u, v);
        lemma_fmul_assoc(p, x, y, fmul(p, u, v));
    }
}

/// A product of invertible factors has an inverse.
pub proof fn lemma_fprod_invertible(p: int, s: Seq<int>)
    requires
        p > 1,
        forall|i: int| 0 <= i < s.len() ==> has_inverse(p, #[trigger] s[i]),
    ensures
        has_inverse(p, fprod(p, s)),
    decreases s.len(),
{
    lemma_small_mod(1, p as nat);
    assert(fmul(p, 1, 1) == 1);
    assert(is_inverse(p, 1, 1));
    if s.len() > 0 {
        let m = s.drop_last();
        assert forall|i: int| 0 <= i < m.len() implies has_inverse(p, #[trigger] m[i]) by {
            assert(has_inverse(p, s[i]));
        }
        lemma_fprod_invertible(p, m);
        let (x, y) = (fprod(p, m), s.last());
        assert(has_inverse(p, s[s.len() - 1]));
        let (a, b) = (finv(p, x), finv(p, y));
        assert(is_inverse(p, x, a) && is_inverse(p, y, b));
        // (x y) (b a) = x (y b) a = 1
        let c = fmul(p, b, a);
        lemma_fmul_assoc(p, x, y, c);
        lemma_fmul_assoc(p, y, b, a);
        lemma_fmul_comm(p, 1, a);
        lemma_units(p, a);
        lemma_f_range(p, b, a);
        assert(is_inverse(p, fmul(p, x, y), c));
    }
}

/// A product of quotients is one where numerators and denominators have the same
/// product.
pub proof fn lemma_quotients_close(p: int, q: Seq<int>, a: Seq<int>, b: Seq<int>)
    requires
        p > 1,
        q.len() == a.len(),
        q.len() == b.len(),
        forall|i: int| 0 <= i < a.len() ==> 0 <= #[trigger] a[i] < p,
        forall|i: int| 0 <= i < b.len() ==> has_inverse(p, #[trigger] b[i]),
        forall|i: int| 0 <= i < q.len() ==> #[trigger] q[i] == fmul(p, finv(p, b[i]), a[i]),
        fprod(p, a) == fprod(p, b),
    ensures
        fprod(p, q) == 1,
{
    lemma_fprod_quotients(p, q, a, b);
    lemma_fprod_invertible(p, b);
    let (x, y) = (fprod(p, q), fprod(p, b));
    let inv = finv(p, y);
    assert(is_inverse(p, y, inv));
    // x = (x y) inv = y inv = 1
    lemma_fmul_assoc(p, x, y, inv);
    lemma_fprod_range(p, q);
    lemma_units(p, x);
}

/// The product of products.
pub proof fn lemma_fprod_pairs(p: int, a: Seq<int>, b: Seq<int>, c: Seq<int>)
    requires
        p > 1,
        a.len() == b.len(),
        a.len() == c.len(),
        forall|i: int| 0 <= i < a.len() ==> #[trigger] c[i] == fmul(p, a[i], b[i]),
    ensures
        fprod(p, c) == fmul(p, fprod(p, a), fprod(p, b)),
    decreases a.len(),
{
    lemma_small_mod(1, p as nat);
    if a.len() == 0 {
        assert(fmul(p, 1, 1) == 1);
    } else {
        let n = a.len() - 1;
        let (a1, b1, c1) = (a.drop_last(), b.drop_last(), c.drop_last());
        assert forall|i: int| 0 <= i < a1.len() implies #[trigger] c1[i] == fmul(
            p,
            a1[i],
            b1[i],
        ) by {
            assert(c[i] == fmul(p, a[i], b[i]));
        }
        lemma_fprod_pairs(p, a1, b1, c1);
        let (x, y, u, v) = (fprod(p, a1), fprod(p, b1), a[n], b[n]);
        assert(c[n] == fmul(p, a[n], b[n]));
        lemma_fmul_assoc(p, x, u, fmul(p, y, v));
        lemma_fmul_assoc(p, u, y, v);
        lemma_fmul_comm(p, u, y);
        lemma_fmul_assoc(p, y, u, v);
        lemma_fmul_assoc(p, x, y, fmul(p, u, v));
    }
}

/// Factors that are picked from others, each once, have the same product.
pub proof fn lemma_fprod_reindexed(p: int, a: Seq<int>, b: Seq<int>, pick: Seq<int>)
    requires
        p > 1,
        a.len() == b.len(),
        pick.len() == b.len(),
        forall|t: int| 0 <= t < b.len() ==> 0 <= #[trigger] pick[t] < a.len(),
        forall|t: int, r: int|
            0 <= t < r < pick.len() ==> #[trigger] pick[t] != #[trigger] pick[r],
        forall|t: int| 0 <= t < b.len() ==> #[trigger] b[t] == a[pick[t]],
    ensures
        fprod(p, b) == fprod(p, a),
    decreases a.len(),
{
    if a.len() > 0 {
        let n = a.len() - 1;
        let last = pick[n];
        let rest = a.remove(last);
        let more = b.drop_last();
        let picks = Seq::new(
            n as nat,
            |t: int|
                if pick[t] < last {
                    pick[t]
                } else {
                    pick[t] - 1
                },
        );
        assert forall|t: int| 0 <= t < more.len() implies 0 <= #[trigger] picks[t] < rest.len()
            && more[t] == rest[picks[t]] by {
            assert(pick[t] != pick[n]);
            assert(b[t] == a[pick[t]]);
        }
        assert forall|t: int| 0 <= t < more.len() implies #[trigger] more[t] == rest[picks[t]] by {
            let _ = picks[t];
        }
        assert forall|t: int, r: int| 0 <= t < r < picks.len() implies #[trigger] picks[t]
            != #[trigger] picks[r] by {
            assert(pick[t] != pick[r]);
            assert(pick[t] != pick[n]);
            assert(pick[r] != pick[n]);
        }
        lemma_fprod_reindexed(p, rest, more, picks);
        lemma_fprod_remove(p, a, last);
        assert(b.last() == a[last]) by {
            assert(b[n] == a[pick[n]]);
        }
    }
}

/// The product of two lists of factors, one after the other.
pub proof fn lemma_fprod_append(p: int, a: Seq<int>, b: Seq<int>)
    requires
        p > 1,
    ensures
        fprod(p, a + b) == fmul(p, fprod(p, a), fprod(p, b)),
    decreases b.len(),
{
    if b.len() == 0 {
        assert(a + b =~= a);
        lemma_fprod_range(p, a);
        lemma_units(p, fprod(p, a));
    } else {
        lemma_fprod_append(p, a, b.drop_last());
        assert((a + b).drop_last() =~= a + b.drop_last());
        assert((a + b).last() == b.last());
        lemma_fmul_assoc(p, fprod(p, a), fprod(p, b.drop_last()), b.last());
    }
}

} // verus!
