//! Multi-point openings in the SHPLONK variant: the polynomials that are
//! committed to, given the challenges.

use crate::field::{
    fadd, finv, fmul, fneg, fpow, fsub, is_field, lemma_f_range, lemma_finv_is, lemma_fmul_assoc,
    lemma_fmul_comm, lemma_fmul_distrib, lemma_fmul_neg, lemma_fsub_is_add_neg, vals, Field,
};
use crate::plonk::assigned::lemma_no_zero_divisors;
use crate::plonk::graph::{find, lemma_find, lemma_find_is};
use crate::poly::arithmetic::{
    canonical, kate_division, law_division, lemma_poly_eval_padded, lemma_poly_eval_range,
    lemma_poly_eval_scale, lemma_poly_eval_sum, lemma_poly_eval_zero, multiply_add, poly_add,
    poly_eval, poly_scale, poly_sub, poly_zero, powers, quotient, scale, subtract_short, vanishing,
    zeros,
};
use crate::poly::{Coeff, Polynomial};
use vstd::arithmetic::div_mod::lemma_small_mod;
use vstd::prelude::*;

verus! {

/// A polynomial that is opened, with its values at the points of its set.
#[derive(Debug)]
pub struct Commitment<F: Field> {
    pub poly: Polynomial<F, Coeff>,
    pub evals: Vec<F>,
}

/// The polynomials that are opened at the same points.
#[derive(Debug)]
pub struct RotationSet<F: Field> {
    pub commitments: Vec<Commitment<F>>,
    pub points: Vec<F>,
}

/// A polynomial with the polynomial of low degree that agrees with it on the
/// points of its set.
#[derive(Debug)]
pub struct CommitmentExtension<F: Field> {
    pub commitment: Commitment<F>,
    pub low_degree_equivalent: Polynomial<F, Coeff>,
}

/// A rotation set with the low-degree equivalents of its polynomials.
#[derive(Debug)]
pub struct RotationSetExtension<F: Field> {
    pub commitments: Vec<CommitmentExtension<F>>,
    pub points: Vec<F>,
}

/// Whether no value occurs twice.
pub open spec fn distinct(s: Seq<int>) -> bool {
    forall|i: int, j: int| 0 <= i < j < s.len() ==> #[trigger] s[i] != #[trigger] s[j]
}

/// Whether a polynomial has the given values at the given points.
pub open spec fn interpolates(p: int, coeffs: Seq<int>, points: Seq<int>, evals: Seq<int>) -> bool {
    &&& coeffs.len() == points.len()
    &&& forall|i: int|
        0 <= i < points.len() ==> poly_eval(p, coeffs, #[trigger] points[i]) == evals[i]
}

impl<F: Field> Commitment<F> {
    /// Finds the polynomial of low degree with the same values at the points.
    pub fn extend(self, points: &Vec<F>) -> (r: CommitmentExtension<F>)
        requires
            points@.len() == self.evals@.len(),
            distinct(vals(points@)),
        ensures
            r.commitment == self,
            interpolates(
                F::modulus(),
                vals(r.low_degree_equivalent@),
                vals(points@),
                vals(self.evals@),
            ),
    {
        proof {
            assert forall|i: int, j: int| 0 <= i < j < points@.len() implies (
            #[trigger] points@[i]).val() != (#[trigger] points@[j]).val() by {
                assert(vals(points@)[i] != vals(points@)[j]);
            }
        }
        let poly = F::lagrange_interpolate(points, &self.evals);
        proof {
            let coeffs = vals(poly@);
            assert forall|i: int| 0 <= i < points@.len() implies poly_eval(
                F::modulus(),
                coeffs,
                #[trigger] vals(points@)[i],
            ) == vals(self.evals@)[i] by {
                let _ = points@[i];
            }
        }
        CommitmentExtension { commitment: self, low_degree_equivalent: Polynomial::new(poly) }
    }
}

impl<F: Field> RotationSet<F> {
    /// Whether all polynomials of the set have a value at each of its points,
    /// and the points differ.
    pub open spec fn wf(self) -> bool {
        &&& distinct(vals(self.points@))
        &&& forall|i: int|
            0 <= i < self.commitments@.len() ==> (#[trigger] self.commitments@[i]).evals@.len()
                == self.points@.len()
    }

    /// Finds the low-degree equivalents of all polynomials of the set.
    pub fn extend(self) -> (r: RotationSetExtension<F>)
        requires
            self.wf(),
        ensures
            r.points == self.points,
            r.commitments@.len() == self.commitments@.len(),
            forall|i: int|
                0 <= i < r.commitments@.len() ==> {
                    &&& (#[trigger] r.commitments@[i]).commitment == self.commitments@[i]
                    &&& interpolates(
                        F::modulus(),
                        vals(r.commitments@[i].low_degree_equivalent@),
                        vals(self.points@),
                        vals(self.commitments@[i].evals@),
                    )
                },
    {
        let RotationSet { commitments, points } = self;
        let mut rest = commitments;
        let mut reversed: Vec<CommitmentExtension<F>> = Vec::new();
        let ghost all = rest@;
        let n = rest.len();
        while rest.len() > 0
            invariant
                distinct(vals(points@)),
                n == all.len(),
                rest@.len() <= n,
                rest@ == all.take(rest@.len() as int),
                reversed@.len() == n - rest@.len(),
                forall|i: int|
                    0 <= i < n ==> (#[trigger] all[i]).evals@.len() == points@.len(),
                forall|i: int|
                    0 <= i < reversed@.len() ==> {
                        &&& (#[trigger] reversed@[i]).commitment == all[n - 1 - i]
                        &&& interpolates(
                            F::modulus(),
                            vals(reversed@[i].low_degree_equivalent@),
                            vals(points@),
                            vals(all[n - 1 - i].evals@),
                        )
                    },
            decreases rest@.len(),
        {
            let ghost last = rest@.len() - 1;
            let commitment = rest.pop().unwrap();
            assert(commitment == all[last]);
            reversed.push(commitment.extend(&points));
            assert(rest@ =~= all.take(rest@.len() as int));
        }
        let mut extended: Vec<CommitmentExtension<F>> = Vec::new();
        while reversed.len() > 0
            invariant
                n == all.len(),
                reversed@.len() + extended@.len() == n,
                forall|i: int|
                    0 <= i < extended@.len() ==> {
                        &&& (#[trigger] extended@[i]).commitment == all[i]
                        &&& interpolates(
                            F::modulus(),
                            vals(extended@[i].low_degree_equivalent@),
                            vals(points@),
                            vals(all[i].evals@),
                        )
                    },
                forall|i: int|
                    0 <= i < reversed@.len() ==> {
                        &&& (#[trigger] reversed@[i]).commitment == all[n - 1 - i]
                        &&& interpolates(
                            F::modulus(),
                            vals(reversed@[i].low_degree_equivalent@),
                            vals(points@),
                            vals(all[n - 1 - i].evals@),
                        )
                    },
            decreases reversed@.len(),
        {
            let ghost k = reversed@.len() - 1;
            assert(reversed@[k].commitment == all[n - 1 - k]);
            let extension = reversed.pop().unwrap();
            extended.push(extension);
        }
        RotationSetExtension { commitments: extended, points }
    }
}

/// The sum of polynomials, each times a power of `y`, in `n` coefficients.
pub open spec fn folded(p: int, n: nat, polys: Seq<Seq<int>>, y: int) -> Seq<int>
    decreases polys.len(),
{
    if polys.len() == 0 {
        poly_zero(n)
    } else {
        poly_add(
            p,
            folded(p, n, polys.drop_last(), y),
            poly_scale(p, polys.last(), fpow(p, y, (polys.len() - 1) as nat)),
        )
    }
}

/// The sum of values, each times a power of `y`.
pub open spec fn folded_values(p: int, values: Seq<int>, y: int) -> int
    decreases values.len(),
{
    if values.len() == 0 {
        0
    } else {
        fadd(
            p,
            folded_values(p, values.drop_last(), y),
            fmul(p, values.last(), fpow(p, y, (values.len() - 1) as nat)),
        )
    }
}

/// The quotient of a polynomial by `X - b` for all points `b`, one after another.
pub open spec fn quotients(p: int, a: Seq<int>, points: Seq<int>) -> Seq<int>
    decreases points.len(),
{
    if points.len() == 0 {
        a
    } else {
        quotient(p, quotients(p, a, points.drop_last()), points.last())
    }
}

/// The sequence without the first occurrence of `x`.
pub open spec fn without(s: Seq<int>, x: int) -> Seq<int> {
    if find(s, x) < s.len() {
        s.remove(find(s, x) as int)
    } else {
        s
    }
}

/// The points of `s` that are not among `points`.
pub open spec fn differences(s: Seq<int>, points: Seq<int>) -> Seq<int>
    decreases points.len(),
{
    if points.len() == 0 {
        s
    } else {
        without(differences(s, points.drop_last()), points.last())
    }
}

/// What a rotation set holds: its points, its polynomials and their low-degree
/// equivalents.
pub struct SetModel {
    pub points: Seq<int>,
    pub polys: Seq<Seq<int>>,
    pub lows: Seq<Seq<int>>,
}

impl<F: Field> View for RotationSetExtension<F> {
    type V = SetModel;

    open spec fn view(&self) -> SetModel {
        SetModel {
            points: vals(self.points@),
            polys: Seq::new(
                self.commitments@.len(),
                |i: int| vals(self.commitments@[i].commitment.poly@),
            ),
            lows: Seq::new(
                self.commitments@.len(),
                |i: int| vals(self.commitments@[i].low_degree_equivalent@),
            ),
        }
    }
}

impl SetModel {
    /// `P(X)`: the polynomials folded by `y`.
    pub open spec fn p_x(self, p: int, n: nat, y: int) -> Seq<int> {
        folded(p, n, self.polys, y)
    }

    /// `R(X)`: the low-degree equivalents folded by `y`.
    pub open spec fn r_x(self, p: int, y: int) -> Seq<int> {
        folded(p, self.points.len(), self.lows, y)
    }

    /// `(P(X) - R(X)) / Z(X)`, in `n` coefficients, where `Z` vanishes on the
    /// points.
    pub open spec fn q_x(self, p: int, n: nat, y: int) -> Seq<int> {
        quotients(p, poly_sub(p, self.p_x(p, n, y), self.r_x(p, y)), self.points) + poly_zero(
            self.points.len(),
        )
    }

    /// The value of the low-degree equivalents at `u`, folded by `y`.
    pub open spec fn r_u(self, p: int, y: int, u: int) -> int {
        folded_values(p, Seq::new(self.lows.len(), |i: int| poly_eval(p, self.lows[i], u)), y)
    }

    /// The value at `u` of the polynomial that vanishes on the other points.
    pub open spec fn z_u(self, p: int, all_points: Seq<int>, u: int) -> int {
        vanishing(p, differences(all_points, self.points), u)
    }

    /// `(P(X) - R(u)) Z(u)`.
    pub open spec fn l_x(self, p: int, n: nat, all_points: Seq<int>, y: int, u: int) -> Seq<int> {
        poly_scale(
            p,
            poly_sub(p, self.p_x(p, n, y), seq![self.r_u(p, y, u)]),
            self.z_u(p, all_points, u),
        )
    }

    /// Whether the set can be folded in `n` coefficients: it has a polynomial,
    /// none is longer than `n`, and there are no more points than coefficients.
    pub open spec fn fits(self, n: nat) -> bool {
        &&& self.polys.len() > 0
        &&& self.lows.len() == self.polys.len()
        &&& self.points.len() <= n
        &&& forall|i: int| 0 <= i < self.polys.len() ==> (#[trigger] self.polys[i]).len() <= n
        &&& forall|i: int|
            0 <= i < self.lows.len() ==> (#[trigger] self.lows[i]).len() == self.points.len()
    }
}

/// The quotients of all sets, folded by `v`.
pub open spec fn h_x(p: int, n: nat, sets: Seq<SetModel>, y: int, v: int) -> Seq<int> {
    folded(p, n, Seq::new(sets.len(), |j: int| sets[j].q_x(p, n, y)), v)
}

/// The linearisation at `u`: the sets' parts folded by `v`, less `h` times the
/// value at `u` of the polynomial that vanishes on all points.
pub open spec fn linearisation(
    p: int,
    n: nat,
    sets: Seq<SetModel>,
    all_points: Seq<int>,
    h: Seq<int>,
    y: int,
    v: int,
    u: int,
) -> Seq<int> {
    poly_add(
        p,
        folded(p, n, Seq::new(sets.len(), |j: int| sets[j].l_x(p, n, all_points, y, u)), v),
        poly_scale(p, h, fneg(p, vanishing(p, all_points, u))),
    )
}

/// The witness of the opening: the linearisation over `X - u`, normalised by
/// the first set's `Z(u)`.
pub open spec fn witness(
    p: int,
    n: nat,
    sets: Seq<SetModel>,
    all_points: Seq<int>,
    h: Seq<int>,
    y: int,
    v: int,
    u: int,
) -> Seq<int> {
    poly_scale(
        p,
        quotient(p, linearisation(p, n, sets, all_points, h, y, v, u), u),
        finv(p, sets[0].z_u(p, all_points, u)),
    )
}

/// The sets of executable ones.
pub open spec fn set_models<F: Field>(s: Seq<RotationSetExtension<F>>) -> Seq<SetModel> {
    Seq::new(s.len(), |i: int| s[i]@)
}

pub proof fn lemma_folded_len(p: int, n: nat, polys: Seq<Seq<int>>, y: int)
    ensures
        folded(p, n, polys, y).len() == n,
    decreases polys.len(),
{
    if polys.len() > 0 {
        lemma_folded_len(p, n, polys.drop_last(), y);
    }
}

pub proof fn lemma_quotients_len(p: int, a: Seq<int>, points: Seq<int>)
    requires
        p > 1,
        points.len() <= a.len(),
    ensures
        quotients(p, a, points).len() == a.len() - points.len(),
    decreases points.len(),
{
    if points.len() > 0 {
        lemma_quotients_len(p, a, points.drop_last());
        law_division(p, quotients(p, a, points.drop_last()), points.last(), 0);
    }
}

impl<F: Field> RotationSetExtension<F> {
    fn fold_polys(&self, y_powers: &Vec<F>, n: usize, y: Ghost<int>) -> (r: Vec<F>)
        requires
            self@.fits(n as nat),
            y_powers@.len() >= self.commitments@.len(),
            forall|i: int|
                0 <= i < y_powers@.len() ==> (#[trigger] y_powers@[i]).val() == fpow(
                    F::modulus(),
                    y@,
                    i as nat,
                ),
        ensures
            vals(r@) == self@.p_x(F::modulus(), n as nat, y@),
            r@.len() == n,
    {
        let mut acc: Vec<F> = zeros(n);
        let ghost polys = self@.polys;
        let mut i: usize = 0;
        assert(polys.take(0) =~= seq![]);
        assert(vals(acc@).len() == n);
        while i < self.commitments.len()
            invariant
                i <= self.commitments@.len(),
                polys == self@.polys,
                self@.fits(n as nat),
                y_powers@.len() >= self.commitments@.len(),
                acc@.len() == n,
                forall|i: int|
                    0 <= i < y_powers@.len() ==> (#[trigger] y_powers@[i]).val() == fpow(
                        F::modulus(),
                        y@,
                        i as nat,
                    ),
                vals(acc@) == folded(F::modulus(), n as nat, polys.take(i as int), y@),
            decreases self.commitments@.len() - i,
        {
            assert(polys.take(i + 1).drop_last() =~= polys.take(i as int));
            assert(polys[i as int].len() <= n);
            multiply_add(&mut acc, self.commitments[i].commitment.poly.values(), &y_powers[i]);
            assert(vals(acc@).len() == n);
            i += 1;
        }
        assert(polys.take(i as int) =~= polys);
        acc
    }

    fn fold_lows(&self, y_powers: &Vec<F>, y: Ghost<int>) -> (r: Vec<F>)
        requires
            self@.lows.len() == self.commitments@.len(),
            forall|i: int|
                0 <= i < self@.lows.len() ==> (#[trigger] self@.lows[i]).len()
                    == self.points@.len(),
            y_powers@.len() >= self.commitments@.len(),
            forall|i: int|
                0 <= i < y_powers@.len() ==> (#[trigger] y_powers@[i]).val() == fpow(
                    F::modulus(),
                    y@,
                    i as nat,
                ),
        ensures
            vals(r@) == self@.r_x(F::modulus(), y@),
            r@.len() == self.points@.len(),
    {
        let n = self.points.len();
        let mut acc: Vec<F> = zeros(n);
        let ghost lows = self@.lows;
        let mut i: usize = 0;
        assert(lows.take(0) =~= seq![]);
        assert(vals(acc@).len() == n);
        while i < self.commitments.len()
            invariant
                i <= self.commitments@.len(),
                lows == self@.lows,
                n == self.points@.len(),
                forall|i: int|
                    0 <= i < self@.lows.len() ==> (#[trigger] self@.lows[i]).len()
                        == self.points@.len(),
                y_powers@.len() >= self.commitments@.len(),
                acc@.len() == n,
                forall|i: int|
                    0 <= i < y_powers@.len() ==> (#[trigger] y_powers@[i]).val() == fpow(
                        F::modulus(),
                        y@,
                        i as nat,
                    ),
                vals(acc@) == folded(F::modulus(), n as nat, lows.take(i as int), y@),
            decreases self.commitments@.len() - i,
        {
            assert(lows.take(i + 1).drop_last() =~= lows.take(i as int));
            assert(lows[i as int].len() == n);
            multiply_add(
                &mut acc,
                self.commitments[i].low_degree_equivalent.values(),
                &y_powers[i],
            );
            assert(vals(acc@).len() == n);
            i += 1;
        }
        assert(lows.take(i as int) =~= lows);
        acc
    }

    /// The set's quotient `(P(X) - R(X)) / Z(X)` and its `P(X)`.
    pub fn quotient_contribution(&self, y: F, n: usize) -> (r: (Vec<F>, Vec<F>))
        requires
            self@.fits(n as nat),
        ensures
            vals(r.0@) == self@.q_x(F::modulus(), n as nat, y.val()),
            r.0@.len() == n,
            vals(r.1@) == self@.p_x(F::modulus(), n as nat, y.val()),
            r.1@.len() == n,
    {
        let ghost p = F::modulus();
        proof {
            F::lemma_modulus();
        }
        let y_powers = powers(y, self.commitments.len());
        let p_x = self.fold_polys(&y_powers, n, Ghost(y.val()));
        let r_x = self.fold_lows(&y_powers, Ghost(y.val()));
        let mut q: Vec<F> = subtract_short(&p_x, &r_x);
        let ghost n_x = vals(q@);
        let ghost points = vals(self.points@);
        let mut i: usize = 0;
        assert(points.take(0) =~= seq![]);
        assert(n_x.len() == n);
        while i < self.points.len()
            invariant
                i <= self.points@.len(),
                self.points@.len() <= n,
                p == F::modulus(),
                p > 1,
                n_x.len() == n,
                points == vals(self.points@),
                vals(q@) == quotients(p, n_x, points.take(i as int)),
                q@.len() == n - i,
            decreases self.points@.len() - i,
        {
            proof {
                assert(points.take(i + 1).drop_last() =~= points.take(i as int));
                law_division(p, vals(q@), points[i as int], 0);
            }
            q = kate_division(&q, self.points[i]);
            assert(vals(q@).len() == n - i - 1);
            i += 1;
        }
        assert(points.take(i as int) =~= points);
        let ghost short = vals(q@);
        let mut k: usize = 0;
        assert(short + poly_zero(0) =~= short);
        while k < self.points.len()
            invariant
                k <= self.points@.len(),
                vals(q@) == short + poly_zero(k as nat),
                q@.len() == n - self.points@.len() + k,
            decreases self.points@.len() - k,
        {
            let ghost before = q@;
            q.push(F::zero());
            k += 1;
            proof {
                assert(vals(q@) =~= vals(before).push(0));
                assert(poly_zero(k as nat) =~= poly_zero((k - 1) as nat).push(0));
                assert(short + poly_zero(k as nat) =~= (short + poly_zero((k - 1) as nat)).push(0));
            }
        }
        (q, p_x)
    }

    /// The value of the low-degree equivalents at `u`, folded by `y`.
    fn fold_values(&self, y: F, u: F) -> (r: F)
        ensures
            r.val() == self@.r_u(F::modulus(), y.val(), u.val()),
    {
        let ghost p = F::modulus();
        let y_powers = powers(y, self.commitments.len());
        let ghost values = Seq::new(
            self@.lows.len(),
            |i: int| poly_eval(p, self@.lows[i], u.val()),
        );
        let mut acc = F::zero();
        let mut i: usize = 0;
        assert(values.take(0) =~= seq![]);
        while i < self.commitments.len()
            invariant
                i <= self.commitments@.len(),
                p == F::modulus(),
                y_powers@.len() == self.commitments@.len(),
                forall|i: int|
                    0 <= i < y_powers@.len() ==> (#[trigger] y_powers@[i]).val() == fpow(
                        p,
                        y.val(),
                        i as nat,
                    ),
                values == Seq::new(
                    self@.lows.len(),
                    |i: int| poly_eval(p, self@.lows[i], u.val()),
                ),
                acc.val() == folded_values(p, values.take(i as int), y.val()),
            decreases self.commitments@.len() - i,
        {
            let low = self.commitments[i].low_degree_equivalent.values();
            let value = F::eval_polynomial(low, u);
            proof {
                assert(Seq::new(low@.len(), |i: int| low@[i].val()) =~= self@.lows[i as int]);
                assert(values.take(i + 1).drop_last() =~= values.take(i as int));
            }
            acc = acc.add(&value.mul(&y_powers[i]));
            i += 1;
        }
        assert(values.take(i as int) =~= values);
        acc
    }

    /// The set's part of the linearisation, and its `Z(u)`. Takes the set's `P(X)`.
    pub fn linearisation_contribution(
        &self,
        p_x: Vec<F>,
        super_point_set: &Vec<F>,
        y: F,
        u: F,
    ) -> (r: (Vec<F>, F))
        requires
            p_x@.len() > 0,
            vals(p_x@) == self@.p_x(F::modulus(), p_x@.len(), y.val()),
        ensures
            vals(r.0@) == self@.l_x(
                F::modulus(),
                p_x@.len(),
                vals(super_point_set@),
                y.val(),
                u.val(),
            ),
            r.0@.len() == p_x@.len(),
            r.1.val() == self@.z_u(F::modulus(), vals(super_point_set@), u.val()),
    {
        let diffs = point_differences(super_point_set, &self.points);
        let z_i = F::evaluate_vanishing_polynomial(&diffs, u);
        assert(Seq::new(diffs@.len(), |i: int| diffs@[i].val()) =~= vals(diffs@));
        let r_i = self.fold_values(y, u);
        let mut constant: Vec<F> = Vec::new();
        constant.push(r_i);
        assert(vals(constant@) =~= seq![r_i.val()]);
        let mut l_x = subtract_short(&p_x, &constant);
        assert(vals(l_x@).len() == p_x@.len());
        scale(&mut l_x, &z_i);
        assert(vals(l_x@).len() == p_x@.len());
        (l_x, z_i)
    }
}

fn point_differences<F: Field>(all: &Vec<F>, points: &Vec<F>) -> (r: Vec<F>)
    ensures
        vals(r@) == differences(vals(all@), vals(points@)),
{
    let mut diffs: Vec<F> = Vec::new();
    let mut i: usize = 0;
    while i < all.len()
        invariant
            i <= all@.len(),
            diffs@ == all@.take(i as int),
        decreases all@.len() - i,
    {
        diffs.push(all[i]);
        i += 1;
    }
    assert(all@.take(i as int) =~= all@);
    let ghost removed = vals(points@);
    assert(removed.take(0) =~= seq![]);
    let mut k: usize = 0;
    while k < points.len()
        invariant
            k <= points@.len(),
            removed == vals(points@),
            vals(diffs@) == differences(vals(all@), removed.take(k as int)),
        decreases points@.len() - k,
    {
        let ghost current = vals(diffs@);
        let ghost x = removed[k as int];
        assert(removed.take(k + 1).drop_last() =~= removed.take(k as int));
        let mut at: usize = 0;
        while at < diffs.len() && !diffs[at].equals(&points[k])
            invariant
                k < points@.len(),
                at <= diffs@.len(),
                x == points@[k as int].val(),
                current == vals(diffs@),
                forall|j: int| 0 <= j < at ==> current[j] != x,
            decreases diffs@.len() - at,
        {
            at += 1;
        }
        proof {
            lemma_find_is(current, x, at as int);
        }
        if at < diffs.len() {
            diffs.remove(at);
            assert(vals(diffs@) =~= current.remove(at as int));
        }
        k += 1;
    }
    assert(removed.take(k as int) =~= removed);
    diffs
}

fn fold_all<F: Field>(polys: &Vec<Vec<F>>, v: F, n: usize) -> (r: Vec<F>)
    requires
        forall|i: int| 0 <= i < polys@.len() ==> (#[trigger] polys@[i])@.len() == n,
    ensures
        vals(r@) == folded(
            F::modulus(),
            n as nat,
            Seq::new(polys@.len(), |i: int| vals(polys@[i]@)),
            v.val(),
        ),
        r@.len() == n,
{
    let v_powers = powers(v, polys.len());
    let ghost all = Seq::new(polys@.len(), |i: int| vals(polys@[i]@));
    let mut acc: Vec<F> = zeros(n);
    let mut i: usize = 0;
    assert(all.take(0) =~= seq![]);
    assert(vals(acc@).len() == n);
    while i < polys.len()
        invariant
            i <= polys@.len(),
            all == Seq::new(polys@.len(), |i: int| vals(polys@[i]@)),
            forall|i: int| 0 <= i < polys@.len() ==> (#[trigger] polys@[i])@.len() == n,
            v_powers@.len() == polys@.len(),
            forall|i: int|
                0 <= i < v_powers@.len() ==> (#[trigger] v_powers@[i]).val() == fpow(
                    F::modulus(),
                    v.val(),
                    i as nat,
                ),
            acc@.len() == n,
            vals(acc@) == folded(F::modulus(), n as nat, all.take(i as int), v.val()),
        decreases polys@.len() - i,
    {
        assert(all.take(i + 1).drop_last() =~= all.take(i as int));
        multiply_add(&mut acc, &polys[i], &v_powers[i]);
        assert(vals(acc@).len() == n);
        i += 1;
    }
    assert(all.take(i as int) =~= all);
    acc
}

/// The polynomial `h(X)` that is committed to first, and each set's `P(X)`.
pub fn quotient_polynomial<F: Field>(
    rotation_sets: &Vec<RotationSetExtension<F>>,
    y: F,
    v: F,
    n: usize,
) -> (r: (Vec<F>, Vec<Vec<F>>))
    requires
        forall|j: int|
            0 <= j < rotation_sets@.len() ==> (#[trigger] rotation_sets@[j])@.fits(n as nat),
    ensures
        vals(r.0@) == h_x(
            F::modulus(),
            n as nat,
            set_models(rotation_sets@),
            y.val(),
            v.val(),
        ),
        r.0@.len() == n,
        r.1@.len() == rotation_sets@.len(),
        forall|j: int|
            0 <= j < rotation_sets@.len() ==> {
                &&& (#[trigger] r.1@[j])@.len() == n
                &&& vals(r.1@[j]@) == rotation_sets@[j]@.p_x(F::modulus(), n as nat, y.val())
            },
{
    let ghost p = F::modulus();
    let mut quotient_polynomials: Vec<Vec<F>> = Vec::new();
    let mut p_xs: Vec<Vec<F>> = Vec::new();
    let mut j: usize = 0;
    while j < rotation_sets.len()
        invariant
            j <= rotation_sets@.len(),
            p == F::modulus(),
            forall|j: int|
                0 <= j < rotation_sets@.len() ==> (#[trigger] rotation_sets@[j])@.fits(n as nat),
            quotient_polynomials@.len() == j,
            p_xs@.len() == j,
            forall|i: int|
                0 <= i < j ==> {
                    &&& (#[trigger] quotient_polynomials@[i])@.len() == n
                    &&& vals(quotient_polynomials@[i]@) == rotation_sets@[i]@.q_x(
                        p,
                        n as nat,
                        y.val(),
                    )
                },
            forall|i: int|
                0 <= i < j ==> {
                    &&& (#[trigger] p_xs@[i])@.len() == n
                    &&& vals(p_xs@[i]@) == rotation_sets@[i]@.p_x(p, n as nat, y.val())
                },
        decreases rotation_sets@.len() - j,
    {
        assert(rotation_sets@[j as int]@.fits(n as nat));
        let (q, p_x) = rotation_sets[j].quotient_contribution(y, n);
        quotient_polynomials.push(q);
        p_xs.push(p_x);
        j += 1;
    }
    let h = fold_all(&quotient_polynomials, v, n);
    proof {
        let sets = set_models(rotation_sets@);
        let a = Seq::new(quotient_polynomials@.len(), |i: int| vals(quotient_polynomials@[i]@));
        let b = Seq::new(sets.len(), |j: int| sets[j].q_x(p, n as nat, y.val()));
        assert forall|i: int| 0 <= i < a.len() implies a[i] == b[i] by {
            let _ = quotient_polynomials@[i];
        }
        assert(a =~= b);
    }
    (h, p_xs)
}

/// The polynomial that is committed to last: the witness that the linearisation
/// vanishes at `u`. Takes `h(X)` and each set's `P(X)`.
pub fn witness_polynomial<F: Field>(
    rotation_sets: &Vec<RotationSetExtension<F>>,
    super_point_set: &Vec<F>,
    h: &Vec<F>,
    p_xs: Vec<Vec<F>>,
    y: F,
    v: F,
    u: F,
    n: usize,
) -> (r: Vec<F>)
    requires
        n > 0,
        rotation_sets@.len() > 0,
        h@.len() == n,
        p_xs@.len() == rotation_sets@.len(),
        forall|j: int|
            0 <= j < rotation_sets@.len() ==> {
                &&& (#[trigger] p_xs@[j])@.len() == n
                &&& vals(p_xs@[j]@) == rotation_sets@[j]@.p_x(F::modulus(), n as nat, y.val())
            },
        rotation_sets@[0]@.z_u(F::modulus(), vals(super_point_set@), u.val()) != 0,
    ensures
        vals(r@) == witness(
            F::modulus(),
            n as nat,
            set_models(rotation_sets@),
            vals(super_point_set@),
            vals(h@),
            y.val(),
            v.val(),
            u.val(),
        ),
{
    let ghost p = F::modulus();
    let ghost all = vals(super_point_set@);
    let ghost given = p_xs@;
    let mut rest = p_xs;
    let mut parts: Vec<Vec<F>> = Vec::new();
    let mut z_0 = F::one();
    let mut j: usize = 0;
    while j < rotation_sets.len()
        invariant
            j <= rotation_sets@.len(),
            p == F::modulus(),
            n > 0,
            all == vals(super_point_set@),
            given.len() == rotation_sets@.len(),
            rest@ == given.skip(j as int),
            forall|j: int|
                0 <= j < rotation_sets@.len() ==> {
                    &&& (#[trigger] given[j])@.len() == n
                    &&& vals(given[j]@) == rotation_sets@[j]@.p_x(F::modulus(), n as nat, y.val())
                },
            parts@.len() == j,
            forall|i: int|
                0 <= i < j ==> {
                    &&& (#[trigger] parts@[i])@.len() == n
                    &&& vals(parts@[i]@) == rotation_sets@[i]@.l_x(
                        p,
                        n as nat,
                        all,
                        y.val(),
                        u.val(),
                    )
                },
            j > 0 ==> z_0.val() == rotation_sets@[0]@.z_u(p, all, u.val()),
        decreases rotation_sets@.len() - j,
    {
        let p_x = rest.remove(0);
        assert(p_x == given[j as int]);
        assert(rest@ =~= given.skip(j + 1));
        let (l_x, z_i) = rotation_sets[j].linearisation_contribution(p_x, super_point_set, y, u);
        if j == 0 {
            z_0 = z_i;
        }
        parts.push(l_x);
        j += 1;
    }
    let mut l_x = fold_all(&parts, v, n);
    let zt_eval = F::evaluate_vanishing_polynomial(super_point_set, u);
    proof {
        assert(Seq::new(super_point_set@.len(), |i: int| super_point_set@[i].val()) =~= all);
    }
    multiply_add(&mut l_x, h, &zt_eval.neg());
    proof {
        let sets = set_models(rotation_sets@);
        let a = Seq::new(parts@.len(), |i: int| vals(parts@[i]@));
        let b = Seq::new(sets.len(), |j: int| sets[j].l_x(p, n as nat, all, y.val(), u.val()));
        assert forall|i: int| 0 <= i < a.len() implies a[i] == b[i] by {
            let _ = parts@[i];
        }
        assert(a =~= b);
        assert(vals(l_x@) == linearisation(
            p,
            n as nat,
            sets,
            all,
            vals(h@),
            y.val(),
            v.val(),
            u.val(),
        ));
        assert(vals(l_x@).len() == n);
    }
    let mut h_final = kate_division(&l_x, u);
    let inverse = z_0.invert().unwrap();
    proof {
        F::lemma_modulus();
        z_0.lemma_val_range();
        lemma_finv_is(p, z_0.val(), inverse.val());
    }
    scale(&mut h_final, &inverse);
    h_final
}

/// The value of folded polynomials is the folded values.
pub proof fn lemma_folded_eval(p: int, n: nat, polys: Seq<Seq<int>>, y: int, x: int)
    requires
        p > 0,
        forall|i: int| 0 <= i < polys.len() ==> (#[trigger] polys[i]).len() <= n,
    ensures
        poly_eval(p, folded(p, n, polys, y), x) == folded_values(
            p,
            Seq::new(polys.len(), |i: int| poly_eval(p, polys[i], x)),
            y,
        ),
    decreases polys.len(),
{
    let values = Seq::new(polys.len(), |i: int| poly_eval(p, polys[i], x));
    if polys.len() == 0 {
        lemma_poly_eval_zero(p, n, x);
    } else {
        let most = polys.drop_last();
        let e = fpow(p, y, (polys.len() - 1) as nat);
        assert forall|i: int| 0 <= i < most.len() implies (#[trigger] most[i]).len() <= n by {
            assert(polys[i].len() <= n);
        }
        lemma_folded_eval(p, n, most, y, x);
        lemma_folded_len(p, n, most, y);
        assert(polys[polys.len() - 1].len() <= n);
        lemma_poly_eval_sum(p, folded(p, n, most, y), poly_scale(p, polys.last(), e), x);
        lemma_poly_eval_scale(p, polys.last(), e, x);
        assert(values.drop_last() =~= Seq::new(most.len(), |i: int| poly_eval(p, most[i], x)));
    }
}

/// Folding multiples of values gives the multiple of the folded values.
proof fn lemma_folded_values_multiple(p: int, values: Seq<int>, c: int, y: int)
    requires
        p > 0,
    ensures
        folded_values(p, Seq::new(values.len(), |i: int| fmul(p, c, values[i])), y) == fmul(
            p,
            c,
            folded_values(p, values, y),
        ),
    decreases values.len(),
{
    let multiples = Seq::new(values.len(), |i: int| fmul(p, c, values[i]));
    if values.len() == 0 {
        lemma_small_mod(0, p as nat);
        assert(c * 0 == 0);
    } else {
        let most = values.drop_last();
        let e = fpow(p, y, (values.len() - 1) as nat);
        lemma_folded_values_multiple(p, most, c, y);
        assert(multiples.drop_last() =~= Seq::new(most.len(), |i: int| fmul(p, c, most[i])));
        let f = folded_values(p, most, y);
        lemma_fmul_assoc(p, c, values.last(), e);
        lemma_fmul_distrib(p, c, f, fmul(p, values.last(), e));
    }
}

/// Distinct points in a field: none but the given ones is a root.
proof fn lemma_vanishing_nonzero(p: int, points: Seq<int>, x: int)
    requires
        is_field(p),
        canonical(p, points),
        0 <= x < p,
        forall|i: int| 0 <= i < points.len() ==> #[trigger] points[i] != x,
    ensures
        0 < vanishing(p, points, x) < p,
    decreases points.len(),
{
    lemma_small_mod(1, p as nat);
    if points.len() > 0 {
        let most = points.drop_last();
        let b = points.last();
        assert(canonical(p, most)) by {
            assert forall|i: int| 0 <= i < most.len() implies 0 <= #[trigger] most[i] < p by {
                assert(0 <= points[i] < p);
            }
        }
        assert forall|i: int| 0 <= i < most.len() implies #[trigger] most[i] != x by {
            assert(points[i] != x);
        }
        lemma_vanishing_nonzero(p, most, x);
        assert(0 <= points[points.len() - 1] < p && points[points.len() - 1] != x);
        let d = fsub(p, x, b);
        assert(d != 0) by {
            if x > b {
                lemma_small_mod((x - b) as nat, p as nat);
            } else {
                lemma_small_mod((x - b + p) as nat, p as nat);
                vstd::arithmetic::div_mod::lemma_mod_add_multiples_vanish(x - b, p);
            }
        }
        lemma_f_range(p, x, b);
        lemma_no_zero_divisors(p, vanishing(p, most, x), d);
        lemma_f_range(p, vanishing(p, most, x), d);
    }
}

/// A polynomial that vanishes at distinct points of a field is the product of
/// its quotient and the polynomial that vanishes there.
pub proof fn law_quotients_exact(p: int, a: Seq<int>, points: Seq<int>, x: int)
    requires
        is_field(p),
        canonical(p, points),
        distinct(points),
        forall|i: int| 0 <= i < points.len() ==> poly_eval(p, a, #[trigger] points[i]) == 0,
    ensures
        poly_eval(p, a, x) == fmul(
            p,
            vanishing(p, points, x),
            poly_eval(p, quotients(p, a, points), x),
        ),
    decreases points.len(),
{
    if points.len() == 0 {
        let v = poly_eval(p, a, x);
        lemma_poly_eval_range(p, a, x);
        lemma_small_mod(1, p as nat);
        lemma_small_mod(v as nat, p as nat);
        assert(1 * v == v);
    } else {
        let most = points.drop_last();
        let b = points.last();
        let q = quotients(p, a, most);
        assert(canonical(p, most)) by {
            assert forall|i: int| 0 <= i < most.len() implies 0 <= #[trigger] most[i] < p by {
                assert(0 <= points[i] < p);
            }
        }
        assert(distinct(most)) by {
            assert forall|i: int, j: int| 0 <= i < j < most.len() implies #[trigger] most[i]
                != #[trigger] most[j] by {
                assert(points[i] != points[j]);
            }
        }
        assert forall|i: int| 0 <= i < most.len() implies poly_eval(p, a, #[trigger] most[i])
            == 0 by {
            assert(poly_eval(p, a, points[i]) == 0);
        }
        law_quotients_exact(p, a, most, x);
        law_quotients_exact(p, a, most, b);
        // The quotient so far vanishes at `b`.
        let vb = vanishing(p, most, b);
        let qb = poly_eval(p, q, b);
        assert(0 <= points[points.len() - 1] < p);
        assert(poly_eval(p, a, points[points.len() - 1]) == 0);
        assert forall|i: int| 0 <= i < most.len() implies #[trigger] most[i] != b by {
            assert(points[i] != points[points.len() - 1]);
        }
        lemma_vanishing_nonzero(p, most, b);
        lemma_poly_eval_range(p, q, b);
        if qb != 0 {
            lemma_no_zero_divisors(p, vb, qb);
        }
        law_division(p, q, b, x);
        let d = fsub(p, x, b);
        let w = poly_eval(p, quotient(p, q, b), x);
        lemma_f_range(p, d, w);
        lemma_small_mod(fmul(p, d, w) as nat, p as nat);
        assert(poly_eval(p, q, x) == fmul(p, d, w));
        lemma_fmul_assoc(p, vanishing(p, most, x), d, w);
    }
}

/// The polynomial that vanishes on all points is the product of the one that
/// vanishes on some and the one that vanishes on the others.
proof fn lemma_vanishing_split(p: int, all: Seq<int>, points: Seq<int>, x: int)
    requires
        p > 1,
        distinct(points),
        forall|i: int| 0 <= i < points.len() ==> all.contains(#[trigger] points[i]),
    ensures
        vanishing(p, all, x) == fmul(
            p,
            vanishing(p, differences(all, points), x),
            vanishing(p, points, x),
        ),
        forall|z: int|
            all.contains(z) && !points.contains(z) ==> #[trigger] differences(
                all,
                points,
            ).contains(z),
    decreases points.len(),
{
    if points.len() == 0 {
        let v = vanishing(p, all, x);
        lemma_vanishing_range(p, all, x);
        lemma_small_mod(1, p as nat);
        lemma_small_mod(v as nat, p as nat);
        assert(v * 1 == v);
    } else {
        let most = points.drop_last();
        let b = points.last();
        assert(distinct(most)) by {
            assert forall|i: int, j: int| 0 <= i < j < most.len() implies #[trigger] most[i]
                != #[trigger] most[j] by {
                assert(points[i] != points[j]);
            }
        }
        assert forall|i: int| 0 <= i < most.len() implies all.contains(#[trigger] most[i]) by {
            assert(all.contains(points[i]));
        }
        lemma_vanishing_split(p, all, most, x);
        let rest = differences(all, most);
        assert(all.contains(points[points.len() - 1]));
        assert(!most.contains(b)) by {
            if most.contains(b) {
                let i = choose|i: int| 0 <= i < most.len() && most[i] == b;
                assert(points[i] != points[points.len() - 1]);
            }
        }
        assert(rest.contains(b));
        lemma_find(rest, b);
        let at = find(rest, b) as int;
        assert(at < rest.len()) by {
            let i = choose|i: int| 0 <= i < rest.len() && rest[i] == b;
            assert(rest[i] == b);
        }
        lemma_vanishing_remove(p, rest, at, x);
        let left = differences(all, points);
        assert(left == rest.remove(at));
        let d = fsub(p, x, b);
        // V(all) = V(rest) V(most) = (V(left) d) V(most) = V(left) (V(most) d)
        lemma_fmul_assoc(p, vanishing(p, left, x), d, vanishing(p, most, x));
        lemma_fmul_comm(p, d, vanishing(p, most, x));
        assert forall|z: int| all.contains(z) && !points.contains(z) implies #[trigger] differences(
            all,
            points,
        ).contains(z) by {
            assert(!most.contains(z)) by {
                if most.contains(z) {
                    let i = choose|i: int| 0 <= i < most.len() && most[i] == z;
                    assert(points[i] == z);
                }
            }
            assert(rest.contains(z));
            assert(points[points.len() - 1] == b);
            let i = choose|i: int| 0 <= i < rest.len() && rest[i] == z;
            assert(i != at);
            if i < at {
                assert(left[i] == z);
            } else {
                assert(left[i - 1] == z);
            }
        }
    }
}

proof fn lemma_vanishing_range(p: int, roots: Seq<int>, x: int)
    requires
        p > 0,
    ensures
        0 <= vanishing(p, roots, x) < p,
{
}

proof fn lemma_vanishing_remove(p: int, roots: Seq<int>, at: int, x: int)
    requires
        p > 1,
        0 <= at < roots.len(),
    ensures
        vanishing(p, roots, x) == fmul(
            p,
            vanishing(p, roots.remove(at), x),
            fsub(p, x, roots[at]),
        ),
    decreases roots.len(),
{
    let n = roots.len() - 1;
    if at == n {
        assert(roots.remove(at) =~= roots.drop_last());
    } else {
        let most = roots.drop_last();
        lemma_vanishing_remove(p, most, at, x);
        assert(roots.remove(at).drop_last() =~= most.remove(at));
        assert(roots.remove(at).last() == roots.last());
        let (v, d, e) = (
            vanishing(p, most.remove(at), x),
            fsub(p, x, roots[at]),
            fsub(p, x, roots.last()),
        );
        lemma_fmul_assoc(p, v, d, e);
        lemma_fmul_assoc(p, v, e, d);
        lemma_fmul_comm(p, d, e);
    }
}

impl SetModel {
    /// Whether the set is what is opened truthfully: its points differ and are
    /// among all points, and the low-degree equivalents agree with the
    /// polynomials there.
    pub open spec fn truthful(self, p: int, all_points: Seq<int>) -> bool {
        &&& canonical(p, self.points)
        &&& distinct(self.points)
        &&& forall|i: int|
            0 <= i < self.points.len() ==> all_points.contains(#[trigger] self.points[i])
        &&& forall|i: int, j: int|
            0 <= i < self.polys.len() && 0 <= j < self.points.len() ==> poly_eval(
                p,
                #[trigger] self.polys[i],
                #[trigger] self.points[j],
            ) == poly_eval(p, self.lows[i], self.points[j])
    }
}

/// For a truthful set, its part of the linearisation has the value at `u` of
/// the polynomial that vanishes on all points, times its quotient's value.
proof fn lemma_set_value(
    p: int,
    n: nat,
    set: SetModel,
    all_points: Seq<int>,
    y: int,
    u: int,
)
    requires
        is_field(p),
        n > 0,
        set.fits(n),
        set.truthful(p, all_points),
    ensures
        poly_eval(p, set.l_x(p, n, all_points, y, u), u) == fmul(
            p,
            vanishing(p, all_points, u),
            poly_eval(p, set.q_x(p, n, y), u),
        ),
{
    let p_x = set.p_x(p, n, y);
    let r_x = set.r_x(p, y);
    let n_x = poly_sub(p, p_x, r_x);
    lemma_folded_len(p, n, set.polys, y);
    lemma_folded_len(p, set.points.len(), set.lows, y);
    // The difference vanishes at the points.
    assert forall|j: int| 0 <= j < set.points.len() implies poly_eval(
        p,
        n_x,
        #[trigger] set.points[j],
    ) == 0 by {
        let b = set.points[j];
        lemma_poly_eval_sum(p, p_x, r_x, b);
        lemma_folded_eval(p, n, set.polys, y, b);
        lemma_folded_eval(p, set.points.len(), set.lows, y, b);
        assert forall|i: int| 0 <= i < set.polys.len() implies poly_eval(p, set.polys[i], b)
            == poly_eval(p, set.lows[i], b) by {
            assert(poly_eval(p, set.polys[i], set.points[j]) == poly_eval(
                p,
                set.lows[i],
                set.points[j],
            ));
        }
        assert(Seq::new(set.polys.len(), |i: int| poly_eval(p, set.polys[i], b)) =~= Seq::new(
            set.lows.len(),
            |i: int| poly_eval(p, set.lows[i], b),
        ));
        lemma_small_mod(0, p as nat);
    }
    law_quotients_exact(p, n_x, set.points, u);
    let q = quotients(p, n_x, set.points);
    lemma_poly_eval_padded(p, q, set.points.len(), u);
    let qu = poly_eval(p, set.q_x(p, n, y), u);
    lemma_poly_eval_sum(p, p_x, r_x, u);
    // R(u) is the folded value of the low-degree equivalents.
    lemma_folded_eval(p, set.points.len(), set.lows, y, u);
    let ru = set.r_u(p, y, u);
    assert(poly_eval(p, r_x, u) == ru);
    let constant = seq![ru];
    assert(poly_eval(p, constant, u) == ru) by {
        assert(constant.drop_first() =~= seq![]);
        assert(constant[0] == ru && constant.len() == 1);
        assert(poly_eval(p, constant.drop_first(), u) == 0);
        lemma_poly_eval_range(p, r_x, u);
        lemma_small_mod(ru as nat, p as nat);
        lemma_small_mod(0, p as nat);
        assert(u * 0 == 0);
    }
    lemma_poly_eval_sum(p, p_x, constant, u);
    let z = set.z_u(p, all_points, u);
    lemma_poly_eval_scale(p, poly_sub(p, p_x, constant), z, u);
    let vu = vanishing(p, set.points, u);
    // (P(u) - R(u)) z = (vu qu) z = (z vu) qu
    lemma_vanishing_split(p, all_points, set.points, u);
    lemma_fmul_comm(p, fmul(p, vu, qu), z);
    lemma_fmul_assoc(p, z, vu, qu);
}

/// The linearisation vanishes at `u`: whatever the challenges, for sets that
/// are opened truthfully, the polynomial that is divided by `X - u` has the
/// root `u`.
pub proof fn law_linearisation_vanishes(
    p: int,
    n: nat,
    sets: Seq<SetModel>,
    all_points: Seq<int>,
    y: int,
    v: int,
    u: int,
)
    requires
        is_field(p),
        n > 0,
        forall|j: int|
            0 <= j < sets.len() ==> (#[trigger] sets[j]).fits(n) && sets[j].truthful(
                p,
                all_points,
            ),
    ensures
        poly_eval(
            p,
            linearisation(p, n, sets, all_points, h_x(p, n, sets, y, v), y, v, u),
            u,
        ) == 0,
{
    let h = h_x(p, n, sets, y, v);
    let qs = Seq::new(sets.len(), |j: int| sets[j].q_x(p, n, y));
    let ls = Seq::new(sets.len(), |j: int| sets[j].l_x(p, n, all_points, y, u));
    let zt = vanishing(p, all_points, u);
    assert forall|j: int| 0 <= j < sets.len() implies (#[trigger] qs[j]).len() == n && ls[j].len()
        == n && poly_eval(p, ls[j], u) == fmul(p, zt, poly_eval(p, qs[j], u)) by {
        let set = sets[j];
        assert(set.fits(n) && set.truthful(p, all_points));
        lemma_set_value(p, n, set, all_points, y, u);
        lemma_folded_len(p, n, set.polys, y);
        lemma_folded_len(p, set.points.len(), set.lows, y);
        lemma_quotients_len(p, poly_sub(p, set.p_x(p, n, y), set.r_x(p, y)), set.points);
    }
    lemma_folded_eval(p, n, qs, v, u);
    assert forall|j: int| 0 <= j < ls.len() implies (#[trigger] ls[j]).len() <= n by {
        assert(qs[j].len() == n);
    }
    lemma_folded_eval(p, n, ls, v, u);
    let values = Seq::new(qs.len(), |j: int| poly_eval(p, qs[j], u));
    lemma_folded_values_multiple(p, values, zt, v);
    assert(Seq::new(ls.len(), |j: int| poly_eval(p, ls[j], u)) =~= Seq::new(
        values.len(),
        |j: int| fmul(p, zt, values[j]),
    )) by {
        assert forall|j: int| 0 <= j < ls.len() implies poly_eval(p, ls[j], u) == fmul(
            p,
            zt,
            values[j],
        ) by {
            assert(qs[j].len() == n);
        }
    }
    let hu = poly_eval(p, h, u);
    let first = folded(p, n, ls, v);
    lemma_folded_len(p, n, ls, v);
    lemma_folded_len(p, n, qs, v);
    lemma_poly_eval_sum(p, first, poly_scale(p, h, fneg(p, zt)), u);
    lemma_poly_eval_scale(p, h, fneg(p, zt), u);
    // zt hu - zt hu = 0
    lemma_fmul_comm(p, hu, fneg(p, zt));
    lemma_fmul_comm(p, zt, hu);
    lemma_fmul_neg(p, hu, zt);
    let t = fmul(p, zt, hu);
    lemma_f_range(p, zt, hu);
    lemma_fsub_is_add_neg(p, t, t);
    lemma_small_mod(0, p as nat);
    assert(fsub(p, t, t) == 0);
}

/// A multi-opening proof up to the challenge `u`.
#[derive(Debug)]
pub struct OpeningQuotient<F: Field> {
    pub rotation_sets: Vec<RotationSetExtension<F>>,
    /// The polynomial whose commitment is written before `u` is squeezed.
    pub h: Vec<F>,
    /// The folded polynomials of the sets.
    pub p_xs: Vec<Vec<F>>,
}

/// Concrete KZG prover with SHPLONK variant
#[derive(Debug)]
pub struct ProverSHPLONK {
    /// The number of coefficients of a polynomial.
    pub n: usize,
}

/// Whether an extension is that of a set.
pub open spec fn extends_set<F: Field>(e: RotationSetExtension<F>, set: RotationSet<F>) -> bool {
    &&& e.points == set.points
    &&& e.commitments@.len() == set.commitments@.len()
    &&& forall|i: int|
        0 <= i < e.commitments@.len() ==> {
            &&& (#[trigger] e.commitments@[i]).commitment == set.commitments@[i]
            &&& interpolates(
                F::modulus(),
                vals(e.commitments@[i].low_degree_equivalent@),
                vals(set.points@),
                vals(set.commitments@[i].evals@),
            )
        }
}

impl<F: Field> RotationSet<F> {
    /// Whether the set can be opened in `n` coefficients.
    pub open spec fn openable(self, n: nat) -> bool {
        &&& self.wf()
        &&& self.commitments@.len() > 0
        &&& self.points@.len() <= n
        &&& forall|i: int|
            0 <= i < self.commitments@.len() ==> (#[trigger] self.commitments@[i]).poly@.len() <= n
    }
}

impl ProverSHPLONK {
    /// Given the size of polynomials creates new prover instance
    pub fn new(n: usize) -> (r: Self)
        ensures
            r.n == n,
    {
        ProverSHPLONK { n }
    }

    /// Whether the verifier queries instance polynomials.
    pub fn query_instance() -> (r: bool)
        ensures
            r == false,
    {
        false
    }

    /// A multi-opening proof up to the challenge `u`: the sets with their
    /// low-degree equivalents, and the quotients of all sets, folded by `v`.
    pub fn create_proof<F: Field>(&self, y: F, v: F, rotation_sets: Vec<RotationSet<F>>) -> (r:
        OpeningQuotient<F>)
        requires
            forall|j: int|
                0 <= j < rotation_sets@.len() ==> (#[trigger] rotation_sets@[j]).openable(
                    self.n as nat,
                ),
        ensures
            r.rotation_sets@.len() == rotation_sets@.len(),
            forall|j: int|
                0 <= j < rotation_sets@.len() ==> extends_set(
                    #[trigger] r.rotation_sets@[j],
                    rotation_sets@[j],
                ),
            r.h@.len() == self.n,
            vals(r.h@) == h_x(
                F::modulus(),
                self.n as nat,
                set_models(r.rotation_sets@),
                y.val(),
                v.val(),
            ),
            r.p_xs@.len() == rotation_sets@.len(),
            forall|j: int|
                0 <= j < rotation_sets@.len() ==> {
                    &&& (#[trigger] r.p_xs@[j])@.len() == self.n
                    &&& vals(r.p_xs@[j]@) == r.rotation_sets@[j]@.p_x(
                        F::modulus(),
                        self.n as nat,
                        y.val(),
                    )
                },
    {
        let ghost all = rotation_sets@;
        let mut rest = rotation_sets;
        let mut extended: Vec<RotationSetExtension<F>> = Vec::new();
        while rest.len() > 0
            invariant
                extended@.len() + rest@.len() == all.len(),
                rest@ == all.skip(extended@.len() as int),
                forall|j: int|
                    0 <= j < all.len() ==> (#[trigger] all[j]).openable(self.n as nat),
                forall|j: int|
                    0 <= j < extended@.len() ==> extends_set(#[trigger] extended@[j], all[j]),
            decreases rest@.len(),
        {
            let ghost at = extended@.len() as int;
            let set = rest.remove(0);
            assert(set == all[at]);
            assert(all[at].openable(self.n as nat));
            extended.push(set.extend());
            assert(rest@ =~= all.skip(extended@.len() as int));
        }
        proof {
            assert forall|j: int| 0 <= j < extended@.len() implies (#[trigger] extended@[j])@.fits(
                self.n as nat,
            ) by {
                let e = extended@[j];
                let model = e@;
                assert(all[j].openable(self.n as nat));
                assert(extends_set(e, all[j]));
                assert forall|i: int| 0 <= i < model.polys.len() implies (
                #[trigger] model.polys[i]).len() <= self.n by {
                    assert(e.commitments@[i].commitment == all[j].commitments@[i]);
                }
                assert forall|i: int| 0 <= i < model.lows.len() implies (
                #[trigger] model.lows[i]).len() == model.points.len() by {
                    let _ = e.commitments@[i];
                }
            }
        }
        let (h, p_xs) = quotient_polynomial(&extended, y, v, self.n);
        OpeningQuotient { rotation_sets: extended, h, p_xs }
    }
}

/// A set whose values are those of its polynomials at its points is opened
/// truthfully.
pub proof fn law_true_values_are_truthful<F: Field>(
    set: RotationSet<F>,
    e: RotationSetExtension<F>,
    all_points: Seq<int>,
)
    requires
        set.wf(),
        extends_set(e, set),
        forall|i: int|
            0 <= i < set.points@.len() ==> all_points.contains(
                #[trigger] vals(set.points@)[i],
            ),
        forall|i: int, j: int|
            0 <= i < set.commitments@.len() && 0 <= j < set.points@.len() ==> (
            #[trigger] set.commitments@[i].evals@[j]).val() == poly_eval(
                F::modulus(),
                vals(set.commitments@[i].poly@),
                set.points@[j].val(),
            ),
    ensures
        e@.truthful(F::modulus(), all_points),
{
    let p = F::modulus();
    let model = e@;
    assert forall|i: int| 0 <= i < model.points.len() implies 0 <= #[trigger] model.points[i]
        < p by {
        F::lemma_modulus();
        set.points@[i].lemma_val_range();
    }
    assert forall|i: int| 0 <= i < model.points.len() implies all_points.contains(
        #[trigger] model.points[i],
    ) by {
        let _ = vals(set.points@)[i];
    }
    assert forall|i: int, j: int|
        0 <= i < model.polys.len() && 0 <= j < model.points.len() implies poly_eval(
        p,
        #[trigger] model.polys[i],
        #[trigger] model.points[j],
    ) == poly_eval(p, model.lows[i], model.points[j]) by {
        let c = e.commitments@[i];
        assert(c.commitment == set.commitments@[i]);
        assert(set.commitments@[i].evals@.len() == set.points@.len());
        assert(poly_eval(p, vals(c.low_degree_equivalent@), vals(set.points@)[j]) == vals(
            set.commitments@[i].evals@,
        )[j]);
        let _ = set.commitments@[i].evals@[j];
    }
}

} // verus!
