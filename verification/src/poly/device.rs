//! Transforms whose result is to lie in device memory: they are refused where it
//! would not fit. `free_bytes` is what the device reports as free.

use crate::field::{vals, Field};
use crate::plonk::error::{require_device_bytes, GpuError, HaloGpuError};
use crate::plonk::witness::coefficients_of;
use crate::poly::domain::EvaluationDomain;
use crate::poly::residency::{all_on_device, MaybeDevice};
use crate::poly::{Coeff, LagrangeCoeff, Polynomial};
use vstd::layout::size_of;
use vstd::prelude::*;

verus! {

/// The error for work that needs more memory than the device has.
pub open spec fn too_large(context: &'static str, needed: int, free_bytes: u64) -> GpuError {
    GpuError::HaloGpu(
        HaloGpuError::InsufficientGpuMemory { context, magnitude: needed as u64, free_bytes },
    )
}

impl<F: Field> EvaluationDomain<F> {
    /// The bytes that `count` polynomials over the domain take.
    pub open spec fn spec_bytes(self, count: nat) -> int {
        (count * (self.size() * size_of::<F>())) as int
    }

    /// The bytes that `count` polynomials over the domain take.
    fn bytes(&self, count: usize) -> (r: u64)
        requires
            self.wf(),
            self.spec_bytes(count as nat) <= u64::MAX,
            count > 0,
        ensures
            r == self.spec_bytes(count as nat),
    {
        let n = self.rows() as u64;
        let element = core::mem::size_of::<F>() as u64;
        assert(self.size() * size_of::<F>() <= count * (self.size() * size_of::<F>()))
            by (nonlinear_arith)
            requires
                count > 0,
                self.size() * size_of::<F>() >= 0,
        ;
        let each = n * element;
        count as u64 * each
    }

    /// The coefficient form of a polynomial, in device memory.
    pub fn lagrange_to_coeff_device(&self, a: Polynomial<F, LagrangeCoeff>, free_bytes: u64) -> (r:
        Result<Polynomial<F, Coeff>, GpuError>)
        requires
            self.wf(),
            a@.len() == self.size(),
            self.spec_bytes(1) <= u64::MAX,
        ensures
            free_bytes < self.spec_bytes(1) ==> r == Err::<Polynomial<F, Coeff>, GpuError>(
                too_large("lagrange_to_coeff_device.vram_tight", self.spec_bytes(1), free_bytes),
            ),
            free_bytes >= self.spec_bytes(1) ==> r is Ok,
            r matches Ok(p) ==> vals(p@) == self.coefficients(vals(a@)),
    {
        let needed = self.bytes(1);
        match require_device_bytes("lagrange_to_coeff_device.vram_tight", needed, free_bytes) {
            Ok(_) => Ok(self.lagrange_to_coeff(a)),
            Err(e) => Err(e),
        }
    }

    /// The coefficient form of a polynomial that lies in device memory, which is
    /// where the result lies, too.
    pub fn lagrange_to_coeff_device_input(
        &self,
        a: Polynomial<F, LagrangeCoeff>,
        free_bytes: u64,
    ) -> (r: Result<Polynomial<F, Coeff>, GpuError>)
        requires
            self.wf(),
            a@.len() == self.size(),
            self.spec_bytes(1) <= u64::MAX,
        ensures
            free_bytes < self.spec_bytes(1) ==> r == Err::<Polynomial<F, Coeff>, GpuError>(
                too_large(
                    "lagrange_to_coeff_device_input.vram_tight",
                    self.spec_bytes(1),
                    free_bytes,
                ),
            ),
            free_bytes >= self.spec_bytes(1) ==> r is Ok,
            r matches Ok(p) ==> vals(p@) == self.coefficients(vals(a@)),
    {
        let needed = self.bytes(1);
        match require_device_bytes(
            "lagrange_to_coeff_device_input.vram_tight",
            needed,
            free_bytes,
        ) {
            Ok(_) => Ok(self.lagrange_to_coeff(a)),
            Err(e) => Err(e),
        }
    }

    /// The coefficient forms of several polynomials, in device memory. All of
    /// them have to fit; where there are none, nothing is asked of the device.
    pub fn lagrange_to_coeff_many_device(
        &self,
        in_many: &Vec<Polynomial<F, LagrangeCoeff>>,
        free_bytes: u64,
    ) -> (r: Result<Vec<Polynomial<F, Coeff>>, GpuError>)
        requires
            self.wf(),
            forall|i: int|
                0 <= i < in_many@.len() ==> (#[trigger] in_many@[i])@.len() == self.size(),
            self.spec_bytes(in_many@.len()) <= u64::MAX,
        ensures
            in_many@.len() > 0 && free_bytes < self.spec_bytes(in_many@.len()) ==> r == Err::<
                Vec<Polynomial<F, Coeff>>,
                GpuError,
            >(
                too_large(
                    "lagrange_to_coeff_many_device.vram_tight",
                    self.spec_bytes(in_many@.len()),
                    free_bytes,
                ),
            ),
            in_many@.len() == 0 || free_bytes >= self.spec_bytes(in_many@.len()) ==> r is Ok,
            r matches Ok(out) ==> {
                &&& out@.len() == in_many@.len()
                &&& forall|i: int|
                    0 <= i < out@.len() ==> vals((#[trigger] out@[i])@) == self.coefficients(
                        vals(in_many@[i]@),
                    )
            },
    {
        if in_many.len() == 0 {
            return Ok(Vec::new());
        }
        let needed = self.bytes(in_many.len());
        match require_device_bytes(
            "lagrange_to_coeff_many_device.vram_tight",
            needed,
            free_bytes,
        ) {
            Ok(_) => Ok(coefficients_of(self, in_many)),
            Err(e) => Err(e),
        }
    }

    /// The coefficient forms of several polynomials that lie in device memory,
    /// which is where the results lie, too.
    pub fn lagrange_to_coeff_many_device_inputs(
        &self,
        in_many: &Vec<Polynomial<F, LagrangeCoeff>>,
        free_bytes: u64,
    ) -> (r: Result<Vec<Polynomial<F, Coeff>>, GpuError>)
        requires
            self.wf(),
            forall|i: int|
                0 <= i < in_many@.len() ==> (#[trigger] in_many@[i])@.len() == self.size(),
            self.spec_bytes(in_many@.len()) <= u64::MAX,
        ensures
            in_many@.len() > 0 && free_bytes < self.spec_bytes(in_many@.len()) ==> r == Err::<
                Vec<Polynomial<F, Coeff>>,
                GpuError,
            >(
                too_large(
                    "lagrange_to_coeff_many_device_inputs.vram_tight",
                    self.spec_bytes(in_many@.len()),
                    free_bytes,
                ),
            ),
            in_many@.len() == 0 || free_bytes >= self.spec_bytes(in_many@.len()) ==> r is Ok,
            r matches Ok(out) ==> {
                &&& out@.len() == in_many@.len()
                &&& forall|i: int|
                    0 <= i < out@.len() ==> vals((#[trigger] out@[i])@) == self.coefficients(
                        vals(in_many@[i]@),
                    )
            },
    {
        if in_many.len() == 0 {
            return Ok(Vec::new());
        }
        let needed = self.bytes(in_many.len());
        match require_device_bytes(
            "lagrange_to_coeff_many_device_inputs.vram_tight",
            needed,
            free_bytes,
        ) {
            Ok(_) => Ok(coefficients_of(self, in_many)),
            Err(e) => Err(e),
        }
    }

    /// Whether the parts of an extended polynomial can be gathered on the device:
    /// all of them lie there, and the result fits. Gives the number of values
    /// that the result has.
    pub fn extended_from_lagrange_vec_device(
        &self,
        values: &Vec<MaybeDevice<F, LagrangeCoeff>>,
        free_bytes: u64,
    ) -> (r: Result<usize, GpuError>)
        requires
            self.wf(),
            values@.len() == self.parts(),
            self.spec_bytes(self.parts()) <= u64::MAX,
        ensures
            ({
                let all_device = forall|i: int|
                    0 <= i < values@.len() ==> (#[trigger] values@[i]) is Device;
                let needed = self.spec_bytes(self.parts());
                r == (if !all_device {
                    Err::<usize, GpuError>(
                        too_large(
                            "extended_from_lagrange_vec_device.not_all_device",
                            values@.len() as int,
                            0,
                        ),
                    )
                } else if free_bytes < needed {
                    Err(
                        too_large(
                            "extended_from_lagrange_vec_device.vram_tight",
                            needed,
                            free_bytes,
                        ),
                    )
                } else {
                    Ok(self.extended_size() as usize)
                })
            }),
    {
        proof {
            self.lemma_domain();
            vstd::arithmetic::power2::lemma_pow2_pos((self.extended_k - self.k) as nat);
        }
        if !all_on_device(values) {
            return Err(
                GpuError::HaloGpu(
                    HaloGpuError::InsufficientGpuMemory {
                        context: "extended_from_lagrange_vec_device.not_all_device",
                        magnitude: values.len() as u64,
                        free_bytes: 0,
                    },
                ),
            );
        }
        let needed = self.bytes(values.len());
        match require_device_bytes(
            "extended_from_lagrange_vec_device.vram_tight",
            needed,
            free_bytes,
        ) {
            Ok(_) => Ok(self.extended_len()),
            Err(e) => Err(e),
        }
    }
}

} // verus!
