//! What keys hold, and the pieces that work is cut into.

use crate::field::{fpow, vals, Field};
use crate::plonk::constraint_system::GpuConstraintSystem;
use crate::plonk::keygen::{first_row, last_usable, usable, Assembly};
use crate::plonk::keys::{ProvingKeyParts, VerifyingKeyParts};
use crate::plonk::launch::are_chunks;
use crate::poly::arithmetic::{canonical, poly_eval};
use crate::poly::domain::EvaluationDomain;
use crate::poly::query::PolyRef;
use crate::poly::residency::{DevicePolynomial, MaybeDevice};
use crate::poly::transforms::law_interpolated;
use crate::poly::{Coeff, Polynomial};
use vstd::prelude::*;
use vstd::std_specs::convert::FromSpec;

verus! {

/// A polynomial made from the values of a column has them at the domain's points.
proof fn lemma_column_value<F: Field>(domain: EvaluationDomain<F>, column: Seq<int>, i: int)
    requires
        domain.wf(),
        column.len() == domain.size(),
        canonical(F::modulus(), column),
        0 <= i < column.len(),
    ensures
        poly_eval(
            F::modulus(),
            domain.coefficients(column),
            fpow(F::modulus(), domain.omega.val(), i as nat),
        ) == column[i],
{
    domain.lemma_domain();
    law_interpolated(
        F::modulus(),
        column,
        domain.omega.val(),
        domain.omega_inv.val(),
        domain.k as nat,
        domain.ifft_divisor.val(),
        i,
    );
}

/// The polynomials of a key at the domain's points: the first is one in the first row, the
/// second in the last usable row, and the third in all rows before that; those of the fixed
/// columns and of the permutation have the columns' values.
pub proof fn law_key_polynomials<F: Field>(
    parts: ProvingKeyParts<F>,
    domain: EvaluationDomain<F>,
    c: int,
    i: int,
)
    requires
        domain.wf(),
        parts.complete(domain),
        0 <= i < domain.size(),
        forall|c: int|
            0 <= c < parts.vk.fixed@.len() ==> (#[trigger] parts.vk.fixed@[c])@.len()
                == domain.size(),
        forall|c: int|
            0 <= c < parts.vk.permutations@.len() ==> (
            #[trigger] parts.vk.permutations@[c])@.len() == domain.size(),
    ensures
        ({
            let p = F::modulus();
            let x = fpow(p, domain.omega.val(), i as nat);
            let last = domain.size() - parts.vk.cs.spec_blinding_factors() - 1;
            &&& poly_eval(p, vals(parts.l0@), x) == (if i == 0 {
                1int
            } else {
                0
            })
            &&& poly_eval(p, vals(parts.l_last@), x) == (if i == last {
                1int
            } else {
                0
            })
            &&& poly_eval(p, vals(parts.l_active_row@), x) == (if i < last {
                1int
            } else {
                0
            })
            &&& parts.fixed_polys@.len() == parts.vk.fixed@.len()
            &&& parts.permutation_polys@.len() == parts.vk.permutations@.len()
            &&& 0 <= c < parts.vk.fixed@.len() ==> poly_eval(
                p,
                vals(parts.fixed_polys@[c]@),
                x,
            ) == parts.vk.fixed@[c]@[i].val()
            &&& 0 <= c < parts.vk.permutations@.len() ==> poly_eval(
                p,
                vals(parts.permutation_polys@[c]@),
                x,
            ) == parts.vk.permutations@[c]@[i].val()
        }),
{
    let n = domain.size();
    let bf = parts.vk.cs.spec_blinding_factors();
    F::lemma_modulus();
    lemma_column_value(domain, first_row(n), i);
    lemma_column_value(domain, last_usable(n, bf), i);
    lemma_column_value(domain, usable(n, bf), i);
    if 0 <= c < parts.vk.fixed@.len() {
        let _ = parts.fixed_polys@[c];
        lemma_canonical(parts.vk.fixed@[c]@);
        lemma_column_value(domain, vals(parts.vk.fixed@[c]@), i);
    }
    if 0 <= c < parts.vk.permutations@.len() {
        let _ = parts.permutation_polys@[c];
        lemma_canonical(parts.vk.permutations@[c]@);
        lemma_column_value(domain, vals(parts.vk.permutations@[c]@), i);
    }
}

proof fn lemma_canonical<F: Field>(s: Seq<F>)
    ensures
        canonical(F::modulus(), vals(s)),
{
    assert forall|i: int| 0 <= i < s.len() implies 0 <= #[trigger] vals(s)[i] < F::modulus() by {
        s[i].lemma_val_range();
    }
}

/// A key's columns: the circuit's own fixed columns with the values that were assigned to
/// them, and for each cell of the permutation the label of the cell that comes after it,
/// `delta` to its column times the root of unity to its row.
pub proof fn law_key_columns<F: Field>(
    vk: VerifyingKeyParts<F>,
    meta: GpuConstraintSystem<F>,
    assembly: Assembly<F>,
    compress: bool,
    max_degree: usize,
    n: nat,
    omega: int,
    c: usize,
    i: usize,
)
    requires
        vk.made_from(meta, assembly, compress, max_degree, n, omega),
        i < n,
    ensures
        vk.compress_selectors == compress,
        compress ==> vk.selectors == assembly.selectors,
        !compress ==> vk.selectors@.len() == 0,
        c < meta.num_fixed_columns ==> vk.fixed@[c as int]@.len() == n
            && vk.fixed@[c as int]@[i as int].val() == assembly.fixed@[c as int]@[i
            as int]@.value(F::modulus()),
        vk.permutations@.len() == assembly.permutation.columns@.len(),
        c < assembly.permutation.columns@.len() ==> ({
            let next = assembly.permutation.mapping@[c as int]@[i as int];
            &&& vk.permutations@[c as int]@.len() == n
            &&& vk.permutations@[c as int]@[i as int].val() == (fpow(
                F::modulus(),
                F::delta_val(),
                next.0 as nat,
            ) * fpow(F::modulus(), omega, next.1 as nat)) % F::modulus()
        }),
{
    if c < meta.num_fixed_columns {
        let _ = vk.fixed@[c as int];
        let _ = vk.fixed@[c as int]@[i as int];
    }
    if c < assembly.permutation.columns@.len() {
        let _ = vk.permutations@[c as int];
        assert(assembly.permutation.has_cell(n, (c, i)));
        let next = assembly.permutation.next((c, i));
        let d = fpow(F::modulus(), F::delta_val(), next.0 as nat);
        let w = fpow(F::modulus(), omega, next.1 as nat);
        assert(d * w == w * d) by (nonlinear_arith);
    }
}

/// Chunks of rows follow one another without gaps, and all but the last have the full size.
pub proof fn law_chunks_follow(
    chunks: Seq<(usize, usize)>,
    num_rows: int,
    batch_size: int,
    i: int,
)
    requires
        are_chunks(chunks, num_rows, batch_size),
        batch_size > 0,
        0 <= i < chunks.len(),
    ensures
        chunks[0].0 == 0,
        chunks[chunks.len() - 1].1 == num_rows,
        chunks[i].0 < chunks[i].1 <= chunks[i].0 + batch_size,
        i + 1 < chunks.len() ==> chunks[i + 1].0 == chunks[i].1 && chunks[i].1 == chunks[i].0
            + batch_size,
{
    let _ = chunks[0];
    let _ = chunks[i];
    assert((i + 1) * batch_size == i * batch_size + batch_size) by (nonlinear_arith);
    if i + 1 < chunks.len() {
        let _ = chunks[i + 1];
        assert(chunks[i + 1].0 < chunks[i + 1].1 <= num_rows);
    }
    let _ = chunks[chunks.len() - 1];
    if num_rows < 0 {
        assert(chunks[i].1 <= num_rows);
    }
}

/// A polynomial is as long as what it holds, on the host or on the device.
pub proof fn law_residency<F: Field, B>(
    host: Polynomial<F, B>,
    device: DevicePolynomial<B>,
    coefficients: &Polynomial<F, Coeff>,
    buffer: &DevicePolynomial<Coeff>,
)
    ensures
        MaybeDevice::Host(host).spec_len() == host@.len(),
        MaybeDevice::<F, B>::Device(device).spec_len() == device.len,
        PolyRef::Host(coefficients).spec_len() == coefficients@.len(),
        PolyRef::<F>::Device(buffer).spec_len() == buffer.len,
        <MaybeDevice<F, B> as FromSpec<Polynomial<F, B>>>::from_spec(host)
            == MaybeDevice::Host(host),
        <MaybeDevice<F, B> as FromSpec<DevicePolynomial<B>>>::from_spec(device)
            == MaybeDevice::<F, B>::Device(device),
{
}

} // verus!
