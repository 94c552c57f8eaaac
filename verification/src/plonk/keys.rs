//! The columns and polynomials that verifying and proving keys are made of.

use crate::field::{vals, Field};
use crate::plonk::compress_selectors::{singles, switched_degree};
use crate::plonk::constraint_system::GpuConstraintSystem;
use crate::plonk::evaluator::gate_polys;
use crate::plonk::keygen::{first_row, last_usable, row_polys, usable, Assembly};
use crate::plonk::permutation::keygen::{label, permutation_lagrange_polys};
use crate::plonk::selectors::is_indicator;
use crate::plonk::witness::coefficients_of;
use crate::poly::domain::EvaluationDomain;
use crate::poly::{Coeff, LagrangeCoeff, Polynomial};
use vstd::prelude::*;

verus! {

/// What a verifying key commits to, with the constraint system that it is for.
#[derive(Debug)]
pub struct VerifyingKeyParts<F: Field> {
    /// The constraint system, without selectors.
    pub cs: GpuConstraintSystem<F>,
    /// The fixed columns: those of the circuit, then those of the selectors.
    pub fixed: Vec<Polynomial<F, LagrangeCoeff>>,
    /// Where the permutation leads, for each of its columns.
    pub permutations: Vec<Polynomial<F, LagrangeCoeff>>,
    /// The rows of the selectors, where they have been compressed.
    pub selectors: Vec<Vec<bool>>,
    pub compress_selectors: bool,
}

/// What a proving key holds besides the verifying key.
#[derive(Debug)]
pub struct ProvingKeyParts<F: Field> {
    pub vk: VerifyingKeyParts<F>,
    pub l0: Polynomial<F, Coeff>,
    pub l_last: Polynomial<F, Coeff>,
    pub l_active_row: Polynomial<F, Coeff>,
    pub fixed_polys: Vec<Polynomial<F, Coeff>>,
    pub permutation_polys: Vec<Polynomial<F, Coeff>>,
}

/// Whether the columns that replace selectors lie behind the circuit's own.
pub open spec fn appended<F: Field>(
    fixed: Seq<Polynomial<F, LagrangeCoeff>>,
    own: nat,
    polys: Seq<Vec<F>>,
) -> bool {
    &&& fixed.len() == own + polys.len()
    &&& forall|k: int| 0 <= k < polys.len() ==> (#[trigger] fixed[own + k])@ == polys[k]@
}

/// Whether an assembly is one of a circuit with `n` rows.
pub open spec fn assembled<F: Field>(
    meta: GpuConstraintSystem<F>,
    assembly: Assembly<F>,
    n: nat,
) -> bool {
    &&& meta.wf()
    &&& assembly.wf(n)
    &&& assembly.fixed@.len() == meta.num_fixed_columns
    &&& assembly.selectors@.len() == meta.num_selectors
    &&& assembly.permutation.columns@ == meta.permutation.columns@
}

/// Whether the selectors of a circuit can be replaced.
pub open spec fn replaceable<F: Field>(
    meta: GpuConstraintSystem<F>,
    assembly: Assembly<F>,
    compress_selectors: bool,
    max_degree: usize,
) -> bool {
    if compress_selectors {
        meta.compressible(assembly.selectors@, max_degree)
    } else {
        &&& meta.selectors_ok(meta.num_selectors as int)
        &&& meta.num_fixed_columns + meta.num_selectors <= usize::MAX
    }
}

impl<F: Field> VerifyingKeyParts<F> {
    /// Whether these are the parts of a key for an assembled circuit.
    pub open spec fn made_from(
        self,
        meta: GpuConstraintSystem<F>,
        assembly: Assembly<F>,
        compress_selectors: bool,
        max_degree: usize,
        n: nat,
        omega: int,
    ) -> bool {
        &&& self.compress_selectors == compress_selectors
        &&& compress_selectors ==> exists|polys: Seq<Vec<F>>| #[trigger]
            meta.compresses(assembly.selectors@, max_degree, self.cs, polys) && appended(
                self.fixed@,
                meta.num_fixed_columns as nat,
                polys,
            )
        &&& compress_selectors ==> self.selectors == assembly.selectors
        &&& !compress_selectors ==> exists|polys: Seq<Vec<F>>| #[trigger]
            meta.converts_directly(assembly.selectors@, self.cs, polys) && appended(
                self.fixed@,
                meta.num_fixed_columns as nat,
                polys,
            )
        &&& !compress_selectors ==> self.selectors@.len() == 0
        &&& forall|c: int|
            0 <= c < meta.num_fixed_columns ==> {
                &&& (#[trigger] self.fixed@[c])@.len() == n
                &&& forall|i: int|
                    0 <= i < n ==> (#[trigger] self.fixed@[c]@[i]).val()
                        == assembly.fixed@[c]@[i]@.value(F::modulus())
            }
        &&& self.permutations@.len() == assembly.permutation.columns@.len()
        &&& forall|c: int|
            0 <= c < self.permutations@.len() ==> (#[trigger] self.permutations@[c])@.len() == n
        &&& forall|x: (usize, usize)| #[trigger]
            assembly.permutation.has_cell(n, x)
                ==> self.permutations@[x.0 as int]@[x.1 as int].val() == label::<F>(
                omega,
                assembly.permutation.next(x),
            )
    }
}

/// Puts columns behind others.
fn append_columns<F: Field>(fixed: &mut Vec<Polynomial<F, LagrangeCoeff>>, polys: Vec<Vec<F>>)
    requires
        old(fixed)@.len() + polys@.len() <= usize::MAX,
    ensures
        appended(final(fixed)@, old(fixed)@.len(), polys@),
        forall|c: int|
            0 <= c < old(fixed)@.len() ==> #[trigger] final(fixed)@[c] == old(fixed)@[c],
{
    let ghost own = fixed@.len();
    let ghost first = fixed@;
    let ghost all = polys@;
    let mut rest = polys;
    while rest.len() > 0
        invariant
            own <= fixed@.len(),
            fixed@.len() - own + rest@.len() == all.len(),
            rest@ == all.skip(fixed@.len() - own),
            first.len() == own,
            forall|c: int| 0 <= c < own ==> #[trigger] fixed@[c] == first[c],
            forall|k: int|
                own <= k < fixed@.len() ==> (#[trigger] fixed@[k])@ == all[k - own]@,
        decreases rest@.len(),
    {
        let ghost at = fixed@.len() - own;
        let poly = rest.remove(0);
        assert(poly == all[at]);
        fixed.push(Polynomial::new(poly));
        assert(rest@ =~= all.skip(fixed@.len() - own));
    }
}

/// The parts of a verifying key, from a circuit that has been synthesized into an
/// assembly. The selector compression optimization is turned on only if
/// `compress_selectors` is `true`.
pub fn keygen_vk_custom<F: Field>(
    domain: &EvaluationDomain<F>,
    meta: GpuConstraintSystem<F>,
    assembly: Assembly<F>,
    compress_selectors: bool,
    max_degree: usize,
) -> (r: VerifyingKeyParts<F>)
    requires
        domain.wf(),
        assembled(meta, assembly, domain.size()),
        replaceable(meta, assembly, compress_selectors, max_degree),
    ensures
        r.made_from(
            meta,
            assembly,
            compress_selectors,
            max_degree,
            domain.size(),
            domain.omega.val(),
        ),
{
    let n = domain.rows();
    let own = meta.num_fixed_columns;
    let mut fixed = assembly.fixed_values();
    let ghost values = fixed@;
    proof {
        assert forall|c: int| 0 <= c < own implies (#[trigger] values[c])@.len() == n by {
            assert(assembly.fixed@[c]@.len() == n);
        }
    }
    let permutations = permutation_lagrange_polys(&assembly.permutation, n, domain.omega);
    if compress_selectors {
        let (cs, polys) = meta.compress_selectors(&assembly.selectors, max_degree);
        assert(meta.num_fixed_columns + polys@.len() <= usize::MAX);
        append_columns(&mut fixed, polys);
        assert forall|c: int| 0 <= c < own implies #[trigger] fixed@[c] == values[c] by {}
        VerifyingKeyParts {
            cs,
            fixed,
            permutations,
            selectors: assembly.selectors,
            compress_selectors,
        }
    } else {
        let ghost rows = assembly.selectors@;
        // After this, the constraint system has no selectors.
        let (cs, polys) = meta.directly_convert_selectors_to_fixed(assembly.selectors);
        assert(meta.converts_directly(rows, cs, polys@));
        append_columns(&mut fixed, polys);
        VerifyingKeyParts {
            cs,
            fixed,
            permutations,
            selectors: Vec::new(),
            compress_selectors,
        }
    }
}

/// The parts of a verifying key. By default, selector compression is turned
/// **off**.
pub fn keygen_vk<F: Field>(
    domain: &EvaluationDomain<F>,
    meta: GpuConstraintSystem<F>,
    assembly: Assembly<F>,
) -> (r: VerifyingKeyParts<F>)
    requires
        domain.wf(),
        assembled(meta, assembly, domain.size()),
        replaceable(meta, assembly, false, 0),
    ensures
        r.made_from(meta, assembly, false, 0, domain.size(), domain.omega.val()),
{
    keygen_vk_custom(domain, meta, assembly, false, 0)
}

impl<F: Field> ProvingKeyParts<F> {
    /// Whether these are the parts of the proving key that goes with the
    /// verifying key.
    pub open spec fn complete(self, domain: EvaluationDomain<F>) -> bool {
        let bf = self.vk.cs.spec_blinding_factors();
        &&& vals(self.l0@) == domain.coefficients(first_row(domain.size()))
        &&& vals(self.l_last@) == domain.coefficients(last_usable(domain.size(), bf))
        &&& vals(self.l_active_row@) == domain.coefficients(usable(domain.size(), bf))
        &&& self.fixed_polys@.len() == self.vk.fixed@.len()
        &&& forall|c: int|
            0 <= c < self.fixed_polys@.len() ==> vals((#[trigger] self.fixed_polys@[c])@)
                == domain.coefficients(vals(self.vk.fixed@[c]@))
        &&& self.permutation_polys@.len() == self.vk.permutations@.len()
        &&& forall|c: int|
            0 <= c < self.permutation_polys@.len() ==> vals(
                (#[trigger] self.permutation_polys@[c])@,
            ) == domain.coefficients(vals(self.vk.permutations@[c]@))
    }
}

/// The parts of a proving key, from those of the verifying key.
pub fn keygen_pk<F: Field>(domain: &EvaluationDomain<F>, vk: VerifyingKeyParts<F>) -> (r:
    ProvingKeyParts<F>)
    requires
        domain.wf(),
        vk.cs.spec_blinding_factors() < domain.size(),
        forall|c: int| 0 <= c < vk.fixed@.len() ==> (#[trigger] vk.fixed@[c])@.len()
            == domain.size(),
        forall|c: int|
            0 <= c < vk.permutations@.len() ==> (#[trigger] vk.permutations@[c])@.len()
                == domain.size(),
    ensures
        r.vk == vk,
        r.complete(*domain),
{
    proof {
        domain.lemma_domain();
    }
    let fixed_polys = coefficients_of(domain, &vk.fixed);
    let permutation_polys = coefficients_of(domain, &vk.permutations);
    let (l0, l_last, l_active_row) = row_polys(domain, vk.cs.blinding_factors());
    ProvingKeyParts { vk, l0, l_last, l_active_row, fixed_polys, permutation_polys }
}

/// All fixed columns of a key have as many rows as the domain, and the key's
/// constraint system asks for as many blinding factors as the circuit's.
pub proof fn lemma_key_columns<F: Field>(
    vk: VerifyingKeyParts<F>,
    meta: GpuConstraintSystem<F>,
    assembly: Assembly<F>,
    compress_selectors: bool,
    max_degree: usize,
    n: nat,
    omega: int,
)
    requires
        assembled(meta, assembly, n),
        vk.made_from(meta, assembly, compress_selectors, max_degree, n, omega),
    ensures
        forall|c: int| 0 <= c < vk.fixed@.len() ==> (#[trigger] vk.fixed@[c])@.len() == n,
        vk.cs.spec_blinding_factors() == meta.spec_blinding_factors(),
{
    let rows = assembly.selectors@;
    let own = meta.num_fixed_columns as nat;
    if compress_selectors {
        let polys = choose|polys: Seq<Vec<F>>| #[trigger]
            meta.compresses(rows, max_degree, vk.cs, polys) && appended(vk.fixed@, own, polys);
        let groups = meta.selector_combinations(rows, max_degree);
        assert forall|c: int| 0 <= c < vk.fixed@.len() implies (
        #[trigger] vk.fixed@[c])@.len() == n by {
            if c >= own {
                let k = c - own;
                assert(vk.fixed@[own + k]@ == polys[k]@);
                assert(polys[k]@.len() == rows[0]@.len());
                if rows.len() == 0 {
                    assert(groups.len() == 0) by {
                        let degrees = Seq::new(
                            rows.len(),
                            |s: int| switched_degree(gate_polys(meta.gates@), s) as usize,
                        );
                        assert(singles(degrees, 0).len() == 0);
                    }
                }
                assert(rows[0]@.len() == n);
            }
        }
    } else {
        let polys = choose|polys: Seq<Vec<F>>| #[trigger]
            meta.converts_directly(rows, vk.cs, polys) && appended(vk.fixed@, own, polys);
        assert forall|c: int| 0 <= c < vk.fixed@.len() implies (
        #[trigger] vk.fixed@[c])@.len() == n by {
            if c >= own {
                let k = c - own;
                assert(vk.fixed@[own + k]@ == polys[k]@);
                assert(is_indicator(polys[k]@, rows[k]@));
                assert(rows[k]@.len() == n);
            }
        }
    }
}

/// The parts of a proving key, from a circuit that has been synthesized into an
/// assembly. Those of a verifying key are generated in the process.
pub fn keygen_pk2<F: Field>(
    domain: &EvaluationDomain<F>,
    meta: GpuConstraintSystem<F>,
    assembly: Assembly<F>,
    compress_selectors: bool,
    max_degree: usize,
) -> (r: ProvingKeyParts<F>)
    requires
        domain.wf(),
        assembled(meta, assembly, domain.size()),
        replaceable(meta, assembly, compress_selectors, max_degree),
        meta.spec_blinding_factors() < domain.size(),
    ensures
        r.vk.made_from(
            meta,
            assembly,
            compress_selectors,
            max_degree,
            domain.size(),
            domain.omega.val(),
        ),
        r.complete(*domain),
{
    let ghost (meta0, assembly0) = (meta, assembly);
    let vk = keygen_vk_custom(domain, meta, assembly, compress_selectors, max_degree);
    proof {
        lemma_key_columns(
            vk,
            meta0,
            assembly0,
            compress_selectors,
            max_degree,
            domain.size(),
            domain.omega.val(),
        );
    }
    keygen_pk(domain, vk)
}

} // verus!
