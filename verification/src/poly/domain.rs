//! Evaluation domains: the powers of a root of unity, and an extended domain
//! that is large enough for quotient polynomials.

use crate::field::{
    finv, fmul, fneg, fpow, fsub, has_inverse, is_inverse, lemma_f_range, lemma_fmul_assoc,
    lemma_fmul_comm, lemma_fpow_add, lemma_fpow_mul, lemma_fpow_range, lemma_units, Field,
};
use crate::poly::fft::is_primitive;
use crate::poly::roots::{lemma_inverse_powers, lemma_root_order};
use vstd::arithmetic::div_mod::lemma_small_mod;
use vstd::arithmetic::power2::{
    lemma2_to64, lemma_pow2_adds, lemma_pow2_pos, lemma_pow2_unfold, pow2,
};
use vstd::prelude::*;

verus! {

/// This structure contains precomputed constants and other details needed for
/// performing operations on an evaluation domain of size $2^k$ and an extended
/// domain of size $2^{k} * j$ with $j \neq 0$.
#[derive(Debug)]
pub struct EvaluationDomain<F: Field> {
    pub n: u64,
    pub k: u32,
    pub extended_k: u32,
    pub omega: F,
    pub omega_inv: F,
    pub extended_omega: F,
    pub extended_omega_inv: F,
    pub g_coset: F,
    pub g_coset_inv: F,
    pub quotient_poly_degree: u64,
    pub ifft_divisor: F,
    pub extended_ifft_divisor: F,
    pub t_evaluations: Vec<F>,
    pub barycentric_weight: F,
}

/// The power of the field's root of unity that has the order `2^e`.
pub open spec fn root_of_order<F: Field>(e: nat) -> int {
    fpow(F::modulus(), F::root_of_unity_val(), pow2((F::two_adicity() - e) as nat))
}

/// The inverses of the values of `X^n - 1` on the coset of the extended domain,
/// where `step` is the `n`th power of the extended domain's root.
pub open spec fn t_evaluation<F: Field>(n: nat, step: int, i: nat) -> int {
    let p = F::modulus();
    finv(p, fsub(p, fmul(p, fpow(p, F::zeta_val(), n), fpow(p, step, i)), 1))
}

impl<F: Field> EvaluationDomain<F> {
    /// The size of the domain.
    pub open spec fn size(self) -> nat {
        pow2(self.k as nat)
    }

    /// The size of the extended domain.
    pub open spec fn extended_size(self) -> nat {
        pow2(self.extended_k as nat)
    }

    /// The number of parts of the extended domain.
    pub open spec fn parts(self) -> nat {
        pow2((self.extended_k - self.k) as nat)
    }

    /// What the precomputed constants are.
    pub open spec fn wf(self) -> bool {
        let p = F::modulus();
        &&& self.k <= self.extended_k <= F::two_adicity()
        &&& self.extended_size() <= usize::MAX
        &&& self.n == self.size()
        &&& self.n * self.quotient_poly_degree <= self.extended_size()
        &&& self.extended_k > self.k ==> self.n * self.quotient_poly_degree > pow2(
            (self.extended_k - 1) as nat,
        )
        &&& self.omega.val() == root_of_order::<F>(self.k as nat)
        &&& self.extended_omega.val() == root_of_order::<F>(self.extended_k as nat)
        &&& is_inverse(p, self.omega.val(), self.omega_inv.val())
        &&& is_inverse(p, self.extended_omega.val(), self.extended_omega_inv.val())
        &&& self.g_coset.val() == F::zeta_val()
        &&& self.g_coset_inv.val() == fmul(p, F::zeta_val(), F::zeta_val())
        &&& is_inverse(p, self.size() as int % p, self.ifft_divisor.val())
        &&& is_inverse(p, self.extended_size() as int % p, self.extended_ifft_divisor.val())
        &&& is_inverse(p, self.size() as int % p, self.barycentric_weight.val())
        &&& self.t_evaluations@.len() == self.parts()
        &&& forall|i: int|
            0 <= i < self.t_evaluations@.len() ==> (#[trigger] self.t_evaluations@[i]).val()
                == t_evaluation::<F>(
                self.size(),
                fpow(p, self.extended_omega.val(), self.size()),
                i as nat,
            )
    }
}

/// Minus one, as a canonical representative.
pub proof fn lemma_minus_one(p: int)
    requires
        p > 2,
    ensures
        fneg(p, 1) == p - 1,
{
    lemma_small_mod((p - 1) as nat, p as nat);
    vstd::arithmetic::div_mod::lemma_mod_add_multiples_vanish(-1, p);
}

/// The root of order `2^e` is primitive, and its powers are the roots of lower
/// orders.
pub proof fn lemma_root_of_order<F: Field>(e: nat)
    requires
        e <= F::two_adicity(),
    ensures
        is_primitive(F::modulus(), root_of_order::<F>(e), e),
        fpow(F::modulus(), root_of_order::<F>(e), pow2(e)) == 1,
        forall|d: nat|
            d <= e ==> fpow(F::modulus(), root_of_order::<F>(e), #[trigger] pow2(d))
                == root_of_order::<F>((e - d) as nat),
{
    let p = F::modulus();
    let s = F::two_adicity();
    let g = F::root_of_unity_val();
    F::lemma_modulus();
    F::lemma_constants();
    lemma_minus_one(p);
    assert forall|d: nat| d <= e implies fpow(p, root_of_order::<F>(e), #[trigger] pow2(d))
        == root_of_order::<F>((e - d) as nat) by {
        lemma_pow2_adds((s - e) as nat, d);
        lemma_fpow_mul(p, g, pow2((s - e) as nat), pow2(d));
        assert((s - e) as nat + d == (s - (e - d)) as nat);
    }
    lemma_pow2_adds((s - e) as nat, e);
    lemma_fpow_mul(p, g, pow2((s - e) as nat), pow2(e));
    if e > 0 {
        lemma_pow2_adds((s - e) as nat, (e - 1) as nat);
        lemma_fpow_mul(p, g, pow2((s - e) as nat), pow2((e - 1) as nat));
    }
}

/// The root of order `2^e` has its power one below the order as inverse.
pub proof fn lemma_root_has_inverse<F: Field>(e: nat)
    requires
        e <= F::two_adicity(),
    ensures
        has_inverse(F::modulus(), root_of_order::<F>(e)),
{
    let p = F::modulus();
    let w = root_of_order::<F>(e);
    F::lemma_modulus();
    lemma_root_of_order::<F>(e);
    lemma_pow2_pos(e);
    let m = (pow2(e) - 1) as nat;
    let b = fpow(p, w, m);
    assert(fpow(p, w, pow2(e)) == fmul(p, b, w));
    lemma_fmul_comm(p, b, w);
    lemma_fpow_range(p, w, m);
    assert(is_inverse(p, w, b));
}

/// Powers of two have inverses modulo an odd number.
pub proof fn lemma_pow2_has_inverse(p: int, e: nat)
    requires
        p > 2,
        p % 2 == 1,
    ensures
        has_inverse(p, pow2(e) as int % p),
    decreases e,
{
    lemma2_to64();
    if e == 0 {
        lemma_small_mod(1, p as nat);
        assert(fmul(p, 1, 1) == 1);
        assert(is_inverse(p, 1, 1));
    } else {
        let d = (e - 1) as nat;
        lemma_pow2_has_inverse(p, d);
        let x = pow2(d) as int % p;
        let b = choose|b: int| is_inverse(p, x, b);
        let h = (p + 1) / 2;
        lemma_pow2_unfold(e);
        // (2 x) (h b) = (2 h) (x b) = 1
        assert(fmul(p, 2, h) == 1) by {
            assert(2 * h == p + 1);
            vstd::arithmetic::div_mod::lemma_mod_add_multiples_vanish(1, p);
            lemma_small_mod(1, p as nat);
        }
        assert(pow2(e) as int % p == fmul(p, 2, x)) by {
            crate::field::lemma_mod_mul_right(p, 2, pow2(d) as int);
        }
        let y = fmul(p, h, b);
        lemma_fmul_assoc(p, 2, x, y);
        lemma_fmul_assoc(p, x, h, b);
        lemma_fmul_comm(p, x, h);
        lemma_fmul_assoc(p, h, x, b);
        lemma_small_mod(h as nat, p as nat);
        lemma_units(p, h);
        assert(fmul(p, pow2(e) as int % p, y) == 1);
        lemma_f_range(p, h, b);
        assert(is_inverse(p, pow2(e) as int % p, y));
    }
}

fn shifted(k: u32) -> (r: u64)
    requires
        k < 64,
    ensures
        r == pow2(k as nat),
{
    proof {
        vstd::bits::lemma_u64_pow2_no_overflow(k as nat);
        vstd::bits::lemma_u64_shl_is_mul(1, k as u64);
    }
    1u64 << (k as u64)
}

/// Squares `times` times.
fn squared<F: Field>(x: F, times: u32) -> (r: F)
    ensures
        r.val() == fpow(F::modulus(), x.val(), pow2(times as nat)),
{
    let ghost p = F::modulus();
    let mut r = x;
    let mut i: u32 = 0;
    proof {
        F::lemma_modulus();
        lemma2_to64();
        x.lemma_val_range();
        lemma_small_mod(1, p as nat);
        lemma_small_mod(x.val() as nat, p as nat);
        reveal_with_fuel(fpow, 2);
        assert(1 * x.val() == x.val());
    }
    while i < times
        invariant
            i <= times,
            p == F::modulus(),
            p > 1,
            r.val() == fpow(p, x.val(), pow2(i as nat)),
        decreases times - i,
    {
        proof {
            lemma_pow2_unfold((i + 1) as nat);
            lemma_fpow_add(p, x.val(), pow2(i as nat), pow2(i as nat));
        }
        r = r.square();
        i += 1;
    }
    r
}

impl<F: Field> EvaluationDomain<F> {
    /// The values `zeta^n step^i` for all powers of `step`, which repeat after
    /// `2^d` values.
    fn coset_powers(orig: F, step: F, d: Ghost<nat>, inverse: Ghost<int>) -> (r: Vec<F>)
        requires
            is_primitive(F::modulus(), step.val(), d@),
            fpow(F::modulus(), step.val(), pow2(d@)) == 1,
            fmul(F::modulus(), orig.val(), inverse@) == 1,
        ensures
            r@.len() == pow2(d@),
            forall|i: int|
                0 <= i < r@.len() ==> (#[trigger] r@[i]).val() == fmul(
                    F::modulus(),
                    orig.val(),
                    fpow(F::modulus(), step.val(), i as nat),
                ),
    {
        let ghost p = F::modulus();
        let ghost m = pow2(d@);
        let mut out: Vec<F> = Vec::new();
        let mut cur = orig;
        proof {
            F::lemma_modulus();
            lemma_pow2_pos(d@);
            orig.lemma_val_range();
            lemma_units(p, orig.val());
            lemma_small_mod(1, p as nat);
        }
        loop
            invariant_except_break
                out@.len() < m,
            invariant
                p == F::modulus(),
                p > 2,
                m == pow2(d@),
                is_primitive(p, step.val(), d@),
                fpow(p, step.val(), m) == 1,
                fmul(p, orig.val(), inverse@) == 1,
                cur.val() == fmul(p, orig.val(), fpow(p, step.val(), out@.len())),
                forall|i: int|
                    0 <= i < out@.len() ==> (#[trigger] out@[i]).val() == fmul(
                        p,
                        orig.val(),
                        fpow(p, step.val(), i as nat),
                    ),
            ensures
                out@.len() == m,
            decreases m - out@.len(),
        {
            let ghost i = out@.len();
            out.push(cur);
            proof {
                lemma_fmul_assoc(p, orig.val(), fpow(p, step.val(), i), step.val());
            }
            cur = cur.mul(&step);
            assert(cur.val() == fmul(p, orig.val(), fpow(p, step.val(), i + 1)));
            proof {
                let e = fpow(p, step.val(), i + 1);
                let o = orig.val();
                orig.lemma_val_range();
                lemma_fpow_range(p, step.val(), i + 1);
                lemma_units(p, o);
                lemma_units(p, e);
                if i + 1 < m {
                    lemma_root_order(p, step.val(), d@, i + 1);
                    // The powers of `step` differ from one until then, so do
                    // the multiples of `orig` from `orig`.
                    if fmul(p, o, e) == o {
                        lemma_fmul_comm(p, o, e);
                        lemma_fmul_assoc(p, e, o, inverse@);
                    }
                }
            }
            if cur.equals(&orig) {
                break;
            }
        }
        out
    }

    /// This constructs a new evaluation domain object based on the provided
    /// values $j, k$.
    pub fn new(j: u32, k: u32) -> (r: Self)
        requires
            j >= 1,
            k <= F::two_adicity(),
            pow2(k as nat) <= usize::MAX,
            pow2(k as nat) * (j - 1) <= pow2(F::two_adicity()),
            2 * (pow2(k as nat) * (j - 1)) <= usize::MAX + 1,
        ensures
            r.wf(),
            r.k == k,
            r.quotient_poly_degree == j - 1,
    {
        let ghost p = F::modulus();
        proof {
            F::lemma_modulus();
            F::lemma_constants();
        }
        let s = F::s();
        // quotient_poly_degree * params.n - 1 is the degree of the quotient polynomial
        let quotient_poly_degree: u64 = (j - 1) as u64;

        // n = 2^k
        let n = shifted(k);

        // We need to work within an extended domain, not params.k but params.k + i
        // for some integer i such that 2^(params.k + i) is sufficiently large to
        // describe the quotient polynomial.
        let mut extended_k = k;
        proof {
            vstd::bits::lemma_u64_pow2_no_overflow(F::two_adicity());
        }
        assert(n * quotient_poly_degree <= u64::MAX);
        let bound: u64 = n * quotient_poly_degree;
        let mut extended_n = n;
        while extended_n < bound
            invariant
                k <= extended_k <= s,
                s == F::two_adicity(),
                s < 64,
                extended_n == pow2(extended_k as nat),
                bound == pow2(k as nat) * (j - 1),
                bound <= pow2(s as nat),
                2 * bound <= usize::MAX + 1,
                pow2(k as nat) <= usize::MAX,
                extended_n <= usize::MAX,
                extended_k > k ==> bound > pow2((extended_k - 1) as nat),
            decreases s - extended_k,
        {
            proof {
                if extended_k as nat == s {
                    assert(false);
                }
                lemma_pow2_unfold((extended_k + 1) as nat);
                assert(pow2((extended_k + 1) as nat) == 2 * extended_n);
                if bound % 2 == 0 {
                } else {
                    assert(2 * extended_n < 2 * bound);
                }
                assert(2 * extended_n <= 2 * bound - 2);
                assert(2 * extended_n <= usize::MAX);
            }
            extended_k += 1;
            extended_n = shifted(extended_k);
        }

        // Get extended_omega, the 2^{extended_k}'th root of unity
        // The loop computes extended_omega = omega^{2 ^ (S - extended_k)}
        // Notice that extended_omega ^ {2 ^ extended_k} = omega ^ {2^S} = 1.
        let extended_omega = squared(F::root_of_unity(), s - extended_k);

        // Get omega, the 2^{k}'th root of unity (i.e. n'th root of unity)
        // The loop computes omega = extended_omega ^ {2 ^ (extended_k - k)}
        //           = (omega^{2 ^ (S - extended_k)})  ^ {2 ^ (extended_k - k)}
        //           = omega ^ {2 ^ (S - k)}.
        // Notice that omega ^ {2^k} = omega ^ {2^S} = 1.
        let omega = squared(extended_omega, extended_k - k);
        let ghost d = (extended_k - k) as nat;
        proof {
            lemma_root_of_order::<F>(extended_k as nat);
            lemma_root_of_order::<F>(k as nat);
            lemma_root_of_order::<F>(d);
            assert(omega.val() == root_of_order::<F>((extended_k - d) as nat));
        }

        // We use zeta here because we know it generates a coset, and it's available
        // already.
        // The coset evaluation domain is:
        // zeta {1, extended_omega, extended_omega^2, ..., extended_omega^{(2^extended_k) - 1}}
        let g_coset = F::zeta();
        let g_coset_inv = g_coset.square();

        // Compute the evaluations of t(X) = X^n - 1 in the coset evaluation domain.
        // We don't have to compute all of them, because it will repeat.
        let orig = g_coset.pow_vartime(n);
        let step = extended_omega.pow_vartime(n);
        proof {
            lemma_fmul_comm(
                p,
                fmul(p, F::zeta_val(), F::zeta_val()),
                F::zeta_val(),
            );
            lemma_inverse_powers(p, F::zeta_val(), g_coset_inv.val(), n as nat);
            assert(step.val() == root_of_order::<F>(d)) by {
                assert(fpow(p, root_of_order::<F>(extended_k as nat), pow2(k as nat))
                    == root_of_order::<F>((extended_k - k) as nat));
            }
        }
        let powers = Self::coset_powers(
            orig,
            step,
            Ghost(d),
            Ghost(fpow(p, g_coset_inv.val(), n as nat)),
        );

        // Subtract 1 from each to give us t_evaluations[i] = t(zeta * extended_omega^i)
        let mut inverses: Vec<F> = Vec::new();
        let parts = powers.len();
        let mut i: usize = 0;
        while i < parts
            invariant
                i <= parts,
                parts == powers@.len(),
                inverses@.len() == i,
                forall|j: int|
                    0 <= j < i ==> (#[trigger] inverses@[j]).val() == fsub(
                        F::modulus(),
                        powers@[j].val(),
                        1,
                    ),
            decreases parts - i,
        {
            inverses.push(powers[i].sub(&F::one()));
            i += 1;
        }

        // The barycentric weight of 1 over the evaluation domain
        // 1 / \prod_{i != 0} (1 - omega^i)
        inverses.push(F::from_u64(n));
        inverses.push(F::from_u64(extended_n));
        inverses.push(F::from_u64(n));
        inverses.push(omega);
        inverses.push(extended_omega);
        let ghost before = inverses@;

        // Compute batch inversion
        F::batch_invert(&mut inverses);
        assert(inverses.len() == inverses@.len());
        let ifft_divisor = inverses[parts];
        let extended_ifft_divisor = inverses[parts + 1];
        let barycentric_weight = inverses[parts + 2];
        let omega_inv = inverses[parts + 3];
        let extended_omega_inv = inverses[parts + 4];
        let ghost after = inverses@;
        inverses.truncate(parts);
        proof {
            lemma_pow2_has_inverse(p, k as nat);
            lemma_pow2_has_inverse(p, extended_k as nat);
            lemma_root_has_inverse::<F>(k as nat);
            lemma_root_has_inverse::<F>(extended_k as nat);
            assert(before[parts as int].val() == n as int % p);
            assert(before[parts + 1].val() == extended_n as int % p);
            assert(before[parts + 2].val() == n as int % p);
            assert forall|i: int| 0 <= i < parts implies (#[trigger] inverses@[i]).val()
                == t_evaluation::<F>(n as nat, step.val(), i as nat) by {
                assert(after[i].val() == finv(p, before[i].val()));
                assert(before[i].val() == fsub(p, powers@[i].val(), 1));
            }
        }
        EvaluationDomain {
            n,
            k,
            extended_k,
            omega,
            omega_inv,
            extended_omega,
            extended_omega_inv,
            g_coset,
            g_coset_inv,
            quotient_poly_degree,
            ifft_divisor,
            extended_ifft_divisor,
            t_evaluations: inverses,
            barycentric_weight,
        }
    }
}

} // verus!
