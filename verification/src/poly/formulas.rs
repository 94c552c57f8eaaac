//! What polynomials, folds and openings are, in ordinary arithmetic.

use crate::field::{
    fadd, fmul, fneg, fpow, fsub, is_inverse, lemma_f_range, lemma_finv_is, lemma_fmul_assoc,
    lemma_fmul_comm, lemma_mod_add_left, lemma_mod_add_right, lemma_mod_mul_left,
    lemma_mod_mul_right, lemma_units,
};
use crate::plonk::graph::{find, lemma_find};
use crate::plonk::vanishing::{concatenated, lemma_poly_eval_append, piece};
use crate::poly::arithmetic::{
    law_division, lemma_poly_eval_range, lemma_poly_eval_scale, lemma_poly_eval_sum, poly_eval,
    poly_scale, poly_sub, quotient, vanishing,
};
use crate::poly::opening_order::{
    gwc_order, shplonk_order, OpeningChallenge, OpeningPoint, OpeningStep,
};
use crate::poly::shplonk::{
    differences, folded, folded_values, h_x, lemma_folded_eval, lemma_folded_len, linearisation,
    without, witness, SetModel,
};
use vstd::arithmetic::div_mod::lemma_small_mod;
use vstd::arithmetic::power::pow;
use vstd::prelude::*;

verus! {

/// Powers are powers, reduced by the modulus.
pub proof fn law_powers(p: int, a: int, n: nat)
    requires
        p > 1,
    ensures
        fpow(p, a, n) == pow(a, n) % p,
    decreases n,
{
    reveal(pow);
    if n > 0 {
        let k = (n - 1) as nat;
        law_powers(p, a, k);
        lemma_mod_mul_left(p, pow(a, k), a);
        assert(pow(a, n) == a * pow(a, k));
        assert(a * pow(a, k) == pow(a, k) * a) by (nonlinear_arith);
    }
}

/// A polynomial has its coefficients from the lowest to the highest: one more
/// coefficient adds that times the power of the point that its position says.
pub proof fn law_coefficients_by_position(p: int, a: Seq<int>, c: int, x: int)
    requires
        p > 1,
    ensures
        poly_eval(p, Seq::empty(), x) == 0,
        poly_eval(p, a.push(c), x) == (poly_eval(p, a, x) + c * pow(x, a.len())) % p,
{
    let last = seq![c];
    assert(a.push(c) =~= a + last);
    lemma_poly_eval_append(p, a, last, x);
    assert(last.drop_first() =~= Seq::empty());
    assert(poly_eval(p, last.drop_first(), x) == 0);
    assert(x * 0 == 0);
    lemma_small_mod(0, p as nat);
    assert(poly_eval(p, last, x) == c % p);
    law_powers(p, x, a.len());
    let e = pow(x, a.len());
    lemma_mod_mul_left(p, e, c % p);
    lemma_mod_mul_right(p, e, c);
    assert(e * c == c * e) by (nonlinear_arith);
    lemma_mod_add_right(p, poly_eval(p, a, x), c * e);
}

/// The polynomial that vanishes at roots is the product of the differences.
pub proof fn law_vanishing_by_roots(p: int, roots: Seq<int>, root: int, x: int)
    requires
        p > 1,
    ensures
        vanishing(p, Seq::empty(), x) == 1,
        vanishing(p, roots.push(root), x) == (vanishing(p, roots, x) * (x - root)) % p,
{
    lemma_small_mod(1, p as nat);
    assert(roots.push(root).drop_last() =~= roots);
    lemma_mod_mul_right(p, vanishing(p, roots, x), x - root);
}

proof fn lemma_folded_values_range(p: int, values: Seq<int>, y: int)
    requires
        p > 1,
    ensures
        0 <= folded_values(p, values, y) < p,
{
    if values.len() > 0 {
        lemma_f_range(
            p,
            folded_values(p, values.drop_last(), y),
            fmul(p, values.last(), fpow(p, y, (values.len() - 1) as nat)),
        );
    }
}

/// The first of folded values counts once, and each of the others once more times the
/// challenge than it would without the first.
pub proof fn law_folded_values(p: int, first: int, rest: Seq<int>, y: int)
    requires
        p > 1,
    ensures
        folded_values(p, Seq::empty(), y) == 0,
        folded_values(p, seq![first] + rest, y) == (first + y * folded_values(p, rest, y)) % p,
    decreases rest.len(),
{
    let all = seq![first] + rest;
    lemma_small_mod(1, p as nat);
    if rest.len() == 0 {
        assert(all.drop_last() =~= Seq::empty());
        assert(all.last() == first);
        assert(folded_values(p, rest, y) == 0);
        assert(fpow(p, y, 0) == 1);
        assert(first * 1 == first && y * 0 == 0);
        lemma_mod_add_right(p, 0, first);
    } else {
        let front = rest.drop_last();
        let last = rest.last();
        let k = front.len();
        law_folded_values(p, first, front, y);
        assert(all.drop_last() =~= seq![first] + front);
        assert(all.last() == last);
        let f = folded_values(p, front, y);
        let w = fpow(p, y, k);
        assert(fpow(p, y, k + 1) == fmul(p, w, y));
        // (first + y f) + last (w y) = first + y (f + last w)
        lemma_mod_add_left(p, first + y * f, fmul(p, last, fpow(p, y, k + 1)));
        lemma_mod_mul_right(p, last, w * y);
        lemma_mod_add_right(p, first + y * f, last * (w * y));
        lemma_mod_mul_right(p, last, w);
        let g = fadd(p, f, fmul(p, last, w));
        lemma_mod_add_right(p, f, last * w);
        lemma_mod_mul_right(p, y, f + last * w);
        lemma_mod_add_right(p, first, y * (f + last * w));
        lemma_mod_add_right(p, first, y * g);
        assert(first + y * f + last * (w * y) == first + y * (f + last * w)) by (nonlinear_arith);
    }
}

/// A fold of polynomials has the folded value at every point: the first counts once, the
/// second times the challenge, and so on.
pub proof fn law_folded_polynomials(
    p: int,
    n: nat,
    first: Seq<int>,
    rest: Seq<Seq<int>>,
    y: int,
    x: int,
)
    requires
        p > 1,
        first.len() <= n,
        forall|i: int| 0 <= i < rest.len() ==> (#[trigger] rest[i]).len() <= n,
    ensures
        poly_eval(p, folded(p, n, Seq::empty(), y), x) == 0,
        folded(p, n, seq![first] + rest, y).len() == n,
        poly_eval(p, folded(p, n, seq![first] + rest, y), x) == (poly_eval(p, first, x) + y
            * poly_eval(p, folded(p, n, rest, y), x)) % p,
{
    let all = seq![first] + rest;
    let none = Seq::<Seq<int>>::empty();
    lemma_folded_eval(p, n, none, y, x);
    assert(Seq::new(none.len(), |i: int| poly_eval(p, none[i], x)) =~= Seq::<int>::empty());
    assert forall|i: int| 0 <= i < all.len() implies (#[trigger] all[i]).len() <= n by {
        if i > 0 {
            assert(all[i] == rest[i - 1]);
        }
    }
    lemma_folded_eval(p, n, all, y, x);
    lemma_folded_eval(p, n, rest, y, x);
    lemma_folded_len(p, n, all, y);
    let values = Seq::new(rest.len(), |i: int| poly_eval(p, rest[i], x));
    law_folded_values(p, poly_eval(p, first, x), values, y);
    assert(Seq::new(all.len(), |i: int| poly_eval(p, all[i], x)) =~= seq![poly_eval(p, first, x)]
        + values);
}

/// The points of a set, taken out of all points.
pub proof fn law_other_points(all: Seq<int>, points: Seq<int>, x: int)
    requires
        all.no_duplicates(),
    ensures
        differences(all, points).contains(x) <==> all.contains(x) && !points.contains(x),
        differences(all, points).no_duplicates(),
    decreases points.len(),
{
    if points.len() > 0 {
        let most = points.drop_last();
        let b = points.last();
        law_other_points(all, most, x);
        let before = differences(all, most);
        lemma_find(before, b);
        let after = without(before, b);
        let at = find(before, b) as int;
        if points.contains(x) && !most.contains(x) {
            let i = choose|i: int| 0 <= i < points.len() && points[i] == x;
            if i < most.len() {
                assert(most[i] == x);
            }
            assert(x == b);
        }
        if most.contains(x) {
            let i = choose|i: int| 0 <= i < most.len() && most[i] == x;
            assert(points[i] == x);
        }
        assert(points[points.len() - 1] == b);
        if after.contains(x) {
            let i = choose|i: int| 0 <= i < after.len() && after[i] == x;
            if at < before.len() {
                let j = if i < at {
                    i
                } else {
                    i + 1
                };
                assert(before[j] == x);
                assert(x != b);
            } else {
                assert(before[i] == x);
                assert(x != b);
            }
            assert(before.contains(x));
        }
        if before.contains(x) && x != b {
            let i = choose|i: int| 0 <= i < before.len() && before[i] == x;
            if at < before.len() {
                let j = if i < at {
                    i
                } else {
                    i - 1
                };
                assert(after[j] == x);
            } else {
                assert(after[i] == x);
            }
        }
    }
}

/// What the quotients of all sets are folded into: the first counts once, the second
/// times `v`, and so on.
pub proof fn law_opening_quotient(p: int, n: nat, sets: Seq<SetModel>, y: int, v: int, x: int)
    requires
        p > 1,
        forall|j: int| 0 <= j < sets.len() ==> (#[trigger] sets[j]).q_x(p, n, y).len() <= n,
    ensures
        poly_eval(p, h_x(p, n, sets, y, v), x) == folded_values(
            p,
            Seq::new(sets.len(), |j: int| poly_eval(p, sets[j].q_x(p, n, y), x)),
            v,
        ),
{
    let qs = Seq::new(sets.len(), |j: int| sets[j].q_x(p, n, y));
    assert forall|j: int| 0 <= j < qs.len() implies (#[trigger] qs[j]).len() <= n by {
        let _ = sets[j];
    }
    lemma_folded_eval(p, n, qs, v, x);
    assert(Seq::new(qs.len(), |j: int| poly_eval(p, qs[j], x)) =~= Seq::new(
        sets.len(),
        |j: int| poly_eval(p, sets[j].q_x(p, n, y), x),
    ));
}

/// The value of a set's part of the linearisation: its polynomials at a point less its
/// low-degree equivalents at `u`, each folded by `y`, times the value at `u` of the
/// polynomial that vanishes at the points that are not the set's.
pub open spec fn set_part(
    p: int,
    set: SetModel,
    all_points: Seq<int>,
    y: int,
    u: int,
    x: int,
) -> int {
    ((folded_values(p, Seq::new(set.polys.len(), |i: int| poly_eval(p, set.polys[i], x)), y)
        - folded_values(p, Seq::new(set.lows.len(), |i: int| poly_eval(p, set.lows[i], u)), y))
        * vanishing(p, differences(all_points, set.points), u)) % p
}

proof fn lemma_set_part(
    p: int,
    n: nat,
    set: SetModel,
    all_points: Seq<int>,
    y: int,
    u: int,
    x: int,
)
    requires
        p > 1,
        n > 0,
        forall|i: int| 0 <= i < set.polys.len() ==> (#[trigger] set.polys[i]).len() <= n,
    ensures
        set.l_x(p, n, all_points, y, u).len() == n,
        poly_eval(p, set.l_x(p, n, all_points, y, u), x) == set_part(
            p,
            set,
            all_points,
            y,
            u,
            x,
        ),
{
    let p_x = set.p_x(p, n, y);
    let ru = set.r_u(p, y, u);
    let constant = seq![ru];
    let z = set.z_u(p, all_points, u);
    lemma_folded_len(p, n, set.polys, y);
    lemma_folded_eval(p, n, set.polys, y, x);
    lemma_folded_values_range(
        p,
        Seq::new(set.lows.len(), |i: int| poly_eval(p, set.lows[i], u)),
        y,
    );
    assert(poly_eval(p, constant, x) == ru) by {
        assert(constant.drop_first() =~= Seq::empty());
        assert(poly_eval(p, constant.drop_first(), x) == 0);
        assert(x * 0 == 0);
        lemma_small_mod(0, p as nat);
        lemma_small_mod(ru as nat, p as nat);
    }
    lemma_poly_eval_sum(p, p_x, constant, x);
    lemma_poly_eval_scale(p, poly_sub(p, p_x, constant), z, x);
    lemma_mod_mul_left(p, poly_eval(p, p_x, x) - ru, z);
}

/// The linearisation of an opening: the parts of all sets, the first once, the second
/// times `v` and so on, less the quotient times the value at `u` of the polynomial that
/// vanishes at all points.
pub proof fn law_linearisation_value(
    p: int,
    n: nat,
    sets: Seq<SetModel>,
    all_points: Seq<int>,
    h: Seq<int>,
    y: int,
    v: int,
    u: int,
    x: int,
)
    requires
        p > 1,
        n > 0,
        h.len() <= n,
        forall|j: int, i: int|
            0 <= j < sets.len() && 0 <= i < sets[j].polys.len() ==> (
            #[trigger] sets[j].polys[i]).len() <= n,
    ensures
        poly_eval(p, linearisation(p, n, sets, all_points, h, y, v, u), x) == (folded_values(
            p,
            Seq::new(sets.len(), |j: int| set_part(p, sets[j], all_points, y, u, x)),
            v,
        ) - vanishing(p, all_points, u) * poly_eval(p, h, x)) % p,
{
    let ls = Seq::new(sets.len(), |j: int| sets[j].l_x(p, n, all_points, y, u));
    assert forall|j: int| 0 <= j < ls.len() implies (#[trigger] ls[j]).len() <= n && poly_eval(
        p,
        ls[j],
        x,
    ) == set_part(p, sets[j], all_points, y, u, x) by {
        assert forall|i: int| 0 <= i < sets[j].polys.len() implies (
        #[trigger] sets[j].polys[i]).len() <= n by {}
        lemma_set_part(p, n, sets[j], all_points, y, u, x);
    }
    lemma_folded_eval(p, n, ls, v, x);
    assert(Seq::new(ls.len(), |j: int| poly_eval(p, ls[j], x)) =~= Seq::new(
        sets.len(),
        |j: int| set_part(p, sets[j], all_points, y, u, x),
    ));
    let first = folded(p, n, ls, v);
    lemma_folded_len(p, n, ls, v);
    let z = vanishing(p, all_points, u);
    let hx = poly_eval(p, h, x);
    lemma_poly_eval_sum(p, first, poly_scale(p, h, fneg(p, z)), x);
    lemma_poly_eval_scale(p, h, fneg(p, z), x);
    lemma_mod_mul_right(p, hx, -z);
    lemma_mod_add_right(p, poly_eval(p, first, x), hx * (-z));
    assert(hx * (-z) == -(z * hx)) by (nonlinear_arith);
}

/// What the last commitment of an opening is to: times `X - u` and times the value at `u`
/// of the polynomial that vanishes at the points that are not the first set's, it is the
/// linearisation, less its value at `u`.
pub proof fn law_opening_witness(
    p: int,
    n: nat,
    sets: Seq<SetModel>,
    all_points: Seq<int>,
    h: Seq<int>,
    y: int,
    v: int,
    u: int,
    x: int,
    inverse: int,
)
    requires
        p > 1,
        sets.len() > 0,
        is_inverse(p, vanishing(p, differences(all_points, sets[0].points), u), inverse),
    ensures
        ({
            let w = poly_eval(p, witness(p, n, sets, all_points, h, y, v, u), x);
            let l = linearisation(p, n, sets, all_points, h, y, v, u);
            let z = vanishing(p, differences(all_points, sets[0].points), u);
            (w * z * (x - u)) % p == (poly_eval(p, l, x) - poly_eval(p, l, u)) % p
        }),
{
    let l = linearisation(p, n, sets, all_points, h, y, v, u);
    let z = vanishing(p, differences(all_points, sets[0].points), u);
    let q = quotient(p, l, u);
    let qx = poly_eval(p, q, x);
    let w = poly_eval(p, witness(p, n, sets, all_points, h, y, v, u), x);
    lemma_finv_is(p, z, inverse);
    lemma_poly_eval_scale(p, q, inverse, x);
    assert(w == fmul(p, qx, inverse));
    lemma_poly_eval_range(p, q, x);
    // w z = q (inverse z) = q
    lemma_fmul_assoc(p, qx, inverse, z);
    lemma_fmul_comm(p, inverse, z);
    lemma_units(p, qx);
    assert(fmul(p, w, z) == qx);
    law_division(p, l, u, x);
    let (lx, lu) = (poly_eval(p, l, x), poly_eval(p, l, u));
    // (w z) (x - u) = q (x - u)
    lemma_mod_mul_left(p, w * z, x - u);
    assert((w * z * (x - u)) % p == (qx * (x - u)) % p);
    lemma_mod_mul_left(p, x - u, qx);
    assert((x - u) * qx == qx * (x - u)) by (nonlinear_arith);
    let t = fmul(p, fsub(p, x, u), qx);
    assert(t == (qx * (x - u)) % p);
    assert(lx == (t + lu) % p);
    lemma_mod_add_left(p, t + lu, -lu);
    assert(t + lu + (-lu) == t);
    lemma_f_range(p, fsub(p, x, u), qx);
    lemma_small_mod(t as nat, p as nat);
    assert((lx - lu) % p == t);
}

/// The order of an opening. In SHPLONK `y` and `v` are squeezed, the quotient is written,
/// `u` is squeezed, and the witness is written; in GWC `v` is squeezed, and the witnesses
/// are written, one point after another.
pub proof fn law_opening_steps(num_points: nat, i: int)
    requires
        num_points <= usize::MAX,
    ensures
        shplonk_order().len() == 5,
        shplonk_order()[0] == OpeningStep::Squeeze(OpeningChallenge::Y),
        shplonk_order()[1] == OpeningStep::Squeeze(OpeningChallenge::V),
        shplonk_order()[2] == OpeningStep::WritePoint(OpeningPoint::Quotient),
        shplonk_order()[3] == OpeningStep::Squeeze(OpeningChallenge::U),
        shplonk_order()[4] == OpeningStep::WritePoint(OpeningPoint::Witness(0)),
        gwc_order(num_points).len() == 1 + num_points,
        gwc_order(num_points)[0] == OpeningStep::Squeeze(OpeningChallenge::V),
        0 <= i < num_points ==> gwc_order(num_points)[1 + i] == OpeningStep::WritePoint(
            OpeningPoint::Witness(i as usize),
        ),
{
}

/// A piece holds as many coefficients as there are rows, and the pieces lie one after
/// another.
pub proof fn law_pieces_by_position<T>(s: Seq<T>, n: nat, i: int, k: int)
    requires
        0 <= i,
        (i + 1) * n <= s.len(),
        0 <= k < n,
    ensures
        piece(s, n, i).len() == n,
        piece(s, n, i)[k] == s[i * n + k],
{
    assert((i + 1) * n == i * n + n) by (nonlinear_arith);
    assert(i * n >= 0) by (nonlinear_arith)
        requires
            i >= 0,
            n >= 0,
    ;
}

/// Pieces behind each other.
pub proof fn law_concatenation(first: Seq<int>, rest: Seq<Seq<int>>)
    ensures
        concatenated(Seq::empty()) == Seq::<int>::empty(),
        concatenated(seq![first] + rest) == first + concatenated(rest),
{
    assert((seq![first] + rest).drop_first() =~= rest);
}

} // verus!
