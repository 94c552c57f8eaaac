//! The vanishing argument: the quotient polynomial in pieces, and the blinding
//! polynomial.

use crate::field::{
    fadd, fmul, fpow, lemma_fadd_assoc, lemma_fadd_comm, lemma_fmul_assoc, lemma_fmul_comm,
    lemma_fmul_distrib, lemma_units, vals, Field,
};
use crate::plonk::graph_values::horner;
use crate::poly::arithmetic::{
    lemma_poly_eval_range, lemma_poly_eval_scale, lemma_poly_eval_sum, lemma_poly_eval_zero,
    multiply_add, poly_add, poly_eval, poly_scale, poly_zero, scale, zeros,
};
use crate::poly::domain::EvaluationDomain;
use crate::poly::{ExtendedLagrangeCoeff, Polynomial};
use vstd::arithmetic::div_mod::lemma_small_mod;
use vstd::prelude::*;

verus! {

/// The polynomial that stands for a random one, as nothing is hidden: the
/// constant one.
pub fn random_poly<F: Field>(n: usize) -> (r: Vec<F>)
    requires
        n > 0,
    ensures
        vals(r@) == seq![1int] + poly_zero((n - 1) as nat),
{
    let mut out: Vec<F> = zeros(n);
    let ghost before = out@;
    assert(vals(before).len() == n);
    out.set(0, F::one());
    assert forall|i: int| 1 <= i < n implies vals(out@)[i] == 0 by {
        assert(vals(before)[i] == 0);
    }
    assert(vals(out@) =~= seq![1int] + poly_zero((n - 1) as nat));
    out
}

/// The value of the blinding polynomial is one at every point.
pub proof fn law_random_eval(p: int, n: nat, x: int)
    requires
        p > 1,
    ensures
        poly_eval(p, seq![1int] + poly_zero(n), x) == 1,
{
    let a = seq![1int] + poly_zero(n);
    assert(a.drop_first() =~= poly_zero(n));
    lemma_poly_eval_zero(p, n, x);
    assert(x * 0 == 0);
    lemma_small_mod(0, p as nat);
    lemma_small_mod(1, p as nat);
}

/// The `i`th piece of `n` values.
pub open spec fn piece<T>(s: Seq<T>, n: nat, i: int) -> Seq<T> {
    s.subrange(i * n, (i + 1) * n)
}

/// Splits values into pieces of `n`, dropping what is left over.
pub fn chunks_exact<F: Field>(values: &Vec<F>, n: usize) -> (r: Vec<Vec<F>>)
    requires
        n > 0,
    ensures
        r@.len() == values@.len() / (n as nat),
        forall|i: int| 0 <= i < r@.len() ==> (#[trigger] r@[i])@ == piece(values@, n as nat, i),
{
    let mut out: Vec<Vec<F>> = Vec::new();
    let count: usize = values.len() / n;
    proof {
        assert(values.len() == values@.len());
        vstd::arithmetic::div_mod::lemma_fundamental_div_mod(values@.len() as int, n as int);
        assert(count * n <= values@.len()) by (nonlinear_arith)
            requires
                count == values@.len() / (n as nat),
                n > 0,
                values@.len() == n * (values@.len() / (n as nat)) + values@.len() % (n as nat),
        ;
    }
    let mut i: usize = 0;
    while i < count
        invariant
            i <= count,
            n > 0,
            count * n <= values@.len(),
            values@.len() <= usize::MAX,
            out@.len() == i,
            forall|k: int|
                0 <= k < i ==> (#[trigger] out@[k])@ == piece(values@, n as nat, k),
        decreases count - i,
    {
        proof {
            assert((i + 1) * n <= values@.len()) by (nonlinear_arith)
                requires
                    i < count,
                    count * n <= values@.len(),
            ;
            assert((i + 1) * n == i * n + n) by (nonlinear_arith);
        }
        let start: usize = i * n;
        let mut part: Vec<F> = Vec::new();
        let mut j: usize = 0;
        while j < n
            invariant
                j <= n,
                start + n <= values@.len(),
                values@.len() <= usize::MAX,
                part@ == values@.subrange(start as int, start + j),
            decreases n - j,
        {
            part.push(values[start + j]);
            j += 1;
            assert(part@ =~= values@.subrange(start as int, start + j));
        }
        out.push(part);
        i += 1;
    }
    out
}

/// Pieces folded by `xn`, the first one outermost.
pub open spec fn folded_pieces(p: int, n: nat, pieces: Seq<Seq<int>>, xn: int) -> Seq<int>
    decreases pieces.len(),
{
    if pieces.len() == 0 {
        poly_zero(n)
    } else {
        poly_add(
            p,
            poly_scale(p, folded_pieces(p, n, pieces.drop_first(), xn), xn),
            poly_scale(p, pieces[0], 1),
        )
    }
}

/// Folds the pieces of the quotient polynomial by `xn`.
pub fn fold_pieces<F: Field>(pieces: &Vec<Vec<F>>, xn: F, n: usize) -> (r: Vec<F>)
    requires
        forall|i: int| 0 <= i < pieces@.len() ==> (#[trigger] pieces@[i])@.len() == n,
    ensures
        vals(r@) == folded_pieces(
            F::modulus(),
            n as nat,
            Seq::new(pieces@.len(), |i: int| vals(pieces@[i]@)),
            xn.val(),
        ),
        r@.len() == n,
{
    let ghost p = F::modulus();
    let ghost all = Seq::new(pieces@.len(), |i: int| vals(pieces@[i]@));
    let mut acc: Vec<F> = zeros(n);
    let mut i = pieces.len();
    proof {
        assert(all.skip(all.len() as int) =~= seq![]);
        assert(vals(acc@).len() == n);
    }
    while i > 0
        invariant
            i <= pieces@.len(),
            p == F::modulus(),
            all == Seq::new(pieces@.len(), |i: int| vals(pieces@[i]@)),
            forall|i: int| 0 <= i < pieces@.len() ==> (#[trigger] pieces@[i])@.len() == n,
            acc@.len() == n,
            vals(acc@) == folded_pieces(p, n as nat, all.skip(i as int), xn.val()),
        decreases i,
    {
        i -= 1;
        assert(all.skip(i as int).drop_first() =~= all.skip(i + 1));
        assert(pieces@[i as int]@.len() == n);
        scale(&mut acc, &xn);
        assert(vals(acc@).len() == n);
        multiply_add(&mut acc, &pieces[i], &F::one());
        assert(vals(acc@).len() == n);
    }
    assert(all.skip(0) =~= all);
    acc
}

/// The blinding factors of the pieces, folded by `xn`.
pub fn fold_blinds<F: Field>(blinds: &Vec<F>, xn: F) -> (r: F)
    ensures
        r.val() == horner(F::modulus(), 0, vals(blinds@).reverse(), xn.val()),
{
    let ghost p = F::modulus();
    let ghost reversed = vals(blinds@).reverse();
    let mut acc = F::zero();
    let mut i = blinds.len();
    assert(reversed.take(0) =~= seq![]);
    while i > 0
        invariant
            i <= blinds@.len(),
            p == F::modulus(),
            reversed == vals(blinds@).reverse(),
            acc.val() == horner(p, 0, reversed.take(blinds@.len() - i), xn.val()),
        decreases i,
    {
        i -= 1;
        acc = acc.mul(&xn).add(&blinds[i]);
        proof {
            let k = blinds@.len() - i;
            assert(reversed.take(k).drop_last() =~= reversed.take(k - 1));
            assert(reversed.take(k).last() == blinds@[i as int].val());
        }
    }
    assert(reversed.take(blinds@.len() as int) =~= reversed);
    acc
}

/// The polynomial that pieces are the pieces of.
pub open spec fn concatenated(pieces: Seq<Seq<int>>) -> Seq<int>
    decreases pieces.len(),
{
    if pieces.len() == 0 {
        seq![]
    } else {
        pieces[0] + concatenated(pieces.drop_first())
    }
}

/// The value of two polynomials behind each other.
pub proof fn lemma_poly_eval_append(p: int, a: Seq<int>, b: Seq<int>, x: int)
    requires
        p > 1,
    ensures
        poly_eval(p, a + b, x) == fadd(
            p,
            poly_eval(p, a, x),
            fmul(p, fpow(p, x, a.len()), poly_eval(p, b, x)),
        ),
    decreases a.len(),
{
    let v = poly_eval(p, b, x);
    lemma_poly_eval_range(p, b, x);
    if a.len() == 0 {
        assert(a + b =~= b);
        lemma_small_mod(1, p as nat);
        lemma_small_mod(v as nat, p as nat);
        lemma_units(p, v);
        lemma_fmul_comm(p, 1, v);
    } else {
        let a1 = a.drop_first();
        lemma_poly_eval_append(p, a1, b, x);
        assert((a + b).drop_first() =~= a1 + b);
        let (u, e) = (poly_eval(p, a1, x), fpow(p, x, a1.len()));
        // a0 + x (u + e v) = (a0 + x u) + (e x) v
        lemma_fmul_distrib(p, x, u, fmul(p, e, v));
        lemma_fmul_assoc(p, x, e, v);
        lemma_fmul_comm(p, x, e);
        lemma_fadd_assoc(p, a[0], fmul(p, x, u), fmul(p, fmul(p, e, x), v));
        assert(fpow(p, x, a.len()) == fmul(p, e, x));
    }
}

/// Folding the pieces by the `n`th power of a point gives a polynomial with the
/// value of the whole polynomial there.
pub proof fn law_folded_pieces(p: int, n: nat, pieces: Seq<Seq<int>>, x: int)
    requires
        p > 1,
        forall|i: int| 0 <= i < pieces.len() ==> (#[trigger] pieces[i]).len() == n,
    ensures
        folded_pieces(p, n, pieces, fpow(p, x, n)).len() == n,
        poly_eval(p, folded_pieces(p, n, pieces, fpow(p, x, n)), x) == poly_eval(
            p,
            concatenated(pieces),
            x,
        ),
    decreases pieces.len(),
{
    let xn = fpow(p, x, n);
    if pieces.len() == 0 {
        lemma_poly_eval_zero(p, n, x);
    } else {
        let rest = pieces.drop_first();
        assert forall|i: int| 0 <= i < rest.len() implies (#[trigger] rest[i]).len() == n by {
            assert(pieces[i + 1].len() == n);
        }
        law_folded_pieces(p, n, rest, x);
        let inner = folded_pieces(p, n, rest, xn);
        let first = pieces[0];
        assert(pieces[0].len() == n);
        lemma_poly_eval_sum(p, poly_scale(p, inner, xn), poly_scale(p, first, 1), x);
        lemma_poly_eval_scale(p, inner, xn, x);
        lemma_poly_eval_scale(p, first, 1, x);
        lemma_poly_eval_append(p, first, concatenated(rest), x);
        let (f, v) = (poly_eval(p, first, x), poly_eval(p, inner, x));
        lemma_poly_eval_range(p, first, x);
        lemma_units(p, f);
        lemma_fmul_comm(p, v, xn);
        lemma_fadd_comm(p, fmul(p, xn, v), f);
    }
}

/// The quotient polynomial in pieces of `n` coefficients, from the values of
/// its multiple by the vanishing polynomial on the extended domain.
pub fn quotient_pieces<F: Field>(
    domain: &EvaluationDomain<F>,
    h_values: &Polynomial<F, ExtendedLagrangeCoeff>,
) -> (r: Vec<Vec<F>>)
    requires
        domain.wf(),
        h_values@.len() == domain.extended_size(),
    ensures
        ({
            let divided = Seq::new(
                h_values@.len(),
                |i: int|
                    fmul(
                        F::modulus(),
                        h_values@[i].val(),
                        domain.t_evaluations@[i % (domain.t_evaluations@.len() as int)].val(),
                    ),
            );
            let coefficients = domain.coset_coefficients(divided).take(
                (domain.n * domain.quotient_poly_degree) as int,
            );
            &&& r@.len() == domain.quotient_poly_degree
            &&& forall|i: int|
                0 <= i < r@.len() ==> vals((#[trigger] r@[i])@) == piece(
                    coefficients,
                    domain.size(),
                    i,
                )
        }),
{
    let divided = domain.divide_by_vanishing_poly(h_values);
    let ghost quotients = Seq::new(
        h_values@.len(),
        |i: int|
            fmul(
                F::modulus(),
                h_values@[i].val(),
                domain.t_evaluations@[i % (domain.t_evaluations@.len() as int)].val(),
            ),
    );
    assert(vals(divided@) =~= quotients);
    let coeffs = domain.extended_to_coeff(divided);
    let n = domain.rows();
    proof {
        domain.lemma_domain();
        vstd::arithmetic::power2::lemma_pow2_pos(domain.k as nat);
        assert(vals(coeffs@).len() == domain.n * domain.quotient_poly_degree);
        vstd::arithmetic::div_mod::lemma_div_multiples_vanish(
            domain.quotient_poly_degree as int,
            n as int,
        );
        assert(domain.n * domain.quotient_poly_degree == n * domain.quotient_poly_degree);
    }
    let r = chunks_exact(coeffs.values(), n);
    proof {
        let all = vals(coeffs@);
        let q = domain.quotient_poly_degree as int;
        assert(r@.len() == q);
        assert forall|i: int| 0 <= i < r@.len() implies vals((#[trigger] r@[i])@) == piece(
            all,
            domain.size(),
            i,
        ) by {
            assert(0 <= i * n && (i + 1) * n <= n * q) by (nonlinear_arith)
                requires
                    0 <= i < q,
                    n > 0,
            ;
            assert(i * n <= (i + 1) * n) by (nonlinear_arith)
                requires
                    n > 0,
            ;
            assert(vals(r@[i]@) =~= piece(all, domain.size(), i));
        }
    }
    r
}

} // verus!
