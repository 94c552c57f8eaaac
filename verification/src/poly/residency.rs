//! Where polynomials live: in host memory, or on the device under a handle.

use crate::field::{vals, Field};
use crate::poly::arithmetic::poly_eval;
use crate::poly::{Coeff, Polynomial};
use std::marker::PhantomData;
use vstd::prelude::*;

verus! {

/// Marker indicating a device-resident polynomial.
#[derive(Clone, Copy, Debug)]
pub struct Device;

/// A polynomial whose coefficients live in a buffer of the device: the number of
/// the buffer, and its length.
#[derive(Debug)]
pub struct DevicePolynomial<B> {
    pub buffer: usize,
    pub len: usize,
    pub basis: PhantomData<B>,
}

impl<B> DevicePolynomial<B> {
    /// Wraps a buffer of the device.
    pub fn from_device(buffer: usize, len: usize) -> (r: Self)
        ensures
            r.buffer == buffer,
            r.len == len,
    {
        DevicePolynomial { buffer, len, basis: PhantomData }
    }

    pub fn len(&self) -> (r: usize)
        ensures
            r == self.len,
    {
        self.len
    }
}

/// Owned residency-tagged polynomial for boundary sites where residency is
/// decided at runtime (GPU availability / VRAM fallback) but consumers must
/// dispatch per residency.
#[derive(Debug)]
pub enum MaybeDevice<F, B> {
    Host(Polynomial<F, B>),
    Device(DevicePolynomial<B>),
}

impl<F, B> MaybeDevice<F, B> {
    /// The number of coefficients.
    pub open spec fn spec_len(self) -> nat {
        match self {
            MaybeDevice::Host(p) => p@.len(),
            MaybeDevice::Device(p) => p.len as nat,
        }
    }

    pub fn len(&self) -> (r: usize)
        ensures
            r == self.spec_len(),
    {
        match self {
            MaybeDevice::Host(p) => p.len(),
            MaybeDevice::Device(p) => p.len(),
        }
    }

    pub fn is_empty(&self) -> (r: bool)
        ensures
            r == (self.spec_len() == 0),
    {
        self.len() == 0
    }

    pub fn is_device(&self) -> (r: bool)
        ensures
            r == (*self is Device),
    {
        matches!(self, MaybeDevice::Device(_))
    }

    /// Consume and return a host-resident polynomial; `copied` is what was copied
    /// from the device, where the polynomial is there.
    pub fn into_host_polynomial(self, copied: Vec<F>) -> (r: Polynomial<F, B>)
        requires
            self matches MaybeDevice::Device(p) ==> copied@.len() == p.len,
        ensures
            r@ == (match self {
                MaybeDevice::Host(p) => p@,
                MaybeDevice::Device(_) => copied@,
            }),
    {
        match self {
            MaybeDevice::Host(p) => p,
            MaybeDevice::Device(_) => Polynomial::new(copied),
        }
    }
}

impl<F, B> From<Polynomial<F, B>> for MaybeDevice<F, B> {
    fn from(p: Polynomial<F, B>) -> (r: MaybeDevice<F, B>) {
        MaybeDevice::Host(p)
    }
}

impl<F, B> vstd::std_specs::convert::FromSpecImpl<Polynomial<F, B>> for MaybeDevice<F, B> {
    open spec fn obeys_from_spec() -> bool {
        true
    }

    open spec fn from_spec(p: Polynomial<F, B>) -> MaybeDevice<F, B> {
        MaybeDevice::Host(p)
    }
}

impl<F, B> From<DevicePolynomial<B>> for MaybeDevice<F, B> {
    fn from(p: DevicePolynomial<B>) -> (r: MaybeDevice<F, B>) {
        MaybeDevice::Device(p)
    }
}

impl<F, B> vstd::std_specs::convert::FromSpecImpl<DevicePolynomial<B>> for MaybeDevice<F, B> {
    open spec fn obeys_from_spec() -> bool {
        true
    }

    open spec fn from_spec(p: DevicePolynomial<B>) -> MaybeDevice<F, B> {
        MaybeDevice::Device(p)
    }
}

impl<F: Field, B> MaybeDevice<F, B> {
    /// The values on the host; `copied` is what was copied from the device, where
    /// the polynomial is there.
    pub fn values_host<'a>(&'a self, copied: &'a Vec<F>) -> (r: &'a Vec<F>)
        requires
            self matches MaybeDevice::Device(p) ==> copied@.len() == p.len,
        ensures
            r@ == (match *self {
                MaybeDevice::Host(p) => p@,
                MaybeDevice::Device(_) => copied@,
            }),
    {
        match self {
            MaybeDevice::Host(p) => p.values(),
            MaybeDevice::Device(_) => copied,
        }
    }

    /// A host-resident polynomial, without consuming the source; `copied` is what
    /// was copied from the device, where the polynomial is there.
    pub fn to_host_polynomial(&self, copied: Vec<F>) -> (r: Polynomial<F, B>)
        requires
            self matches MaybeDevice::Device(p) ==> copied@.len() == p.len,
        ensures
            r@ == (match *self {
                MaybeDevice::Host(p) => p@,
                MaybeDevice::Device(_) => copied@,
            }),
    {
        match self {
            MaybeDevice::Host(p) => Polynomial::new(
                crate::poly::transforms::copied(p.values()),
            ),
            MaybeDevice::Device(_) => Polynomial::new(copied),
        }
    }
}

/// Whether all polynomials are on the device.
pub fn all_on_device<F, B>(values: &Vec<MaybeDevice<F, B>>) -> (r: bool)
    ensures
        r == forall|i: int| 0 <= i < values@.len() ==> (#[trigger] values@[i]) is Device,
{
    let mut i: usize = 0;
    while i < values.len()
        invariant
            i <= values@.len(),
            forall|j: int| 0 <= j < i ==> (#[trigger] values@[j]) is Device,
        decreases values@.len() - i,
    {
        if !values[i].is_device() {
            assert(!(values@[i as int] is Device));
            return false;
        }
        i += 1;
    }
    true
}

/// Evaluation of a coefficient-basis polynomial at a point.
pub trait PolyEvalAt<F: Field> {
    /// The coefficients, as canonical representatives.
    spec fn coefficients(&self) -> Seq<int>;

    /// Evaluate the polynomial at `point`.
    fn eval_at(&self, point: F) -> (r: F)
        ensures
            r.val() == poly_eval(F::modulus(), self.coefficients(), point.val()),
    ;
}

impl<F: Field> PolyEvalAt<F> for Polynomial<F, Coeff> {
    open spec fn coefficients(&self) -> Seq<int> {
        vals(self@)
    }

    fn eval_at(&self, point: F) -> (r: F) {
        let r = F::eval_polynomial(self.values(), point);
        assert(Seq::new(self@.len(), |i: int| self@[i].val()) =~= vals(self@));
        r
    }
}

/// The pieces that a device polynomial is split into: the first position of each
/// in the parent, all of `chunk_len` coefficients.
pub fn chunk_offsets(total_len: usize, chunk_len: usize) -> (r: Vec<usize>)
    requires
        chunk_len > 0,
        total_len % chunk_len == 0,
    ensures
        r@.len() * chunk_len == total_len,
        forall|i: int| 0 <= i < r@.len() ==> #[trigger] r@[i] == i * chunk_len,
{
    let num_chunks: usize = total_len / chunk_len;
    proof {
        vstd::arithmetic::div_mod::lemma_fundamental_div_mod(total_len as int, chunk_len as int);
        assert(num_chunks * chunk_len == total_len) by (nonlinear_arith)
            requires
                total_len == chunk_len * (total_len / chunk_len) + total_len % chunk_len,
                total_len % chunk_len == 0,
                num_chunks == total_len / chunk_len,
        ;
    }
    let mut out: Vec<usize> = Vec::new();
    let mut i: usize = 0;
    while i < num_chunks
        invariant
            i <= num_chunks,
            num_chunks * chunk_len == total_len,
            out@.len() == i,
            forall|k: int| 0 <= k < i ==> #[trigger] out@[k] == k * chunk_len,
        decreases num_chunks - i,
    {
        assert(i * chunk_len <= total_len) by (nonlinear_arith)
            requires
                i < num_chunks,
                num_chunks * chunk_len == total_len,
        ;
        out.push(i * chunk_len);
        i += 1;
    }
    out
}

} // verus!
