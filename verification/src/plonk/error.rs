//! Errors of proving and key generation.

use crate::plonk::circuit::{GpuAny, GpuColumn};
use vstd::prelude::*;

verus! {

/// An error of the proving system itself.
#[derive(Clone, Copy, Debug)]
pub enum Error {
    /// This is an error that can occur during synthesis of the circuit, for
    /// example, when the witness is not present.
    Synthesis,
    /// The provided instances do not match the circuit parameters.
    InvalidInstances,
    /// The constraint system is not satisfied.
    ConstraintSystemFailure,
    /// Out of bounds index passed to a backend
    BoundsFailure,
    /// `k` is too small for the given circuit.
    NotEnoughRowsAvailable {
        /// The current value of `k` being used.
        current_k: u32,
    },
    /// Instance provided exceeds number of available rows
    InstanceTooLarge,
    /// The instance sets up a copy constraint involving a column that has not been
    /// included in the permutation.
    ColumnNotInPermutation(GpuColumn<GpuAny>),
}

/// An error of the device: a rejection before any work is handed to it, or a
/// failed call.
#[derive(Clone, Copy, Debug)]
pub enum HaloGpuError {
    /// The device has less free memory than the work needs.
    InsufficientGpuMemory { context: &'static str, magnitude: u64, free_bytes: u64 },
    /// A call returned a non-zero status.
    Cuda { code: i32 },
}

/// An error that could occur during proving or circuit synthesis.
#[derive(Clone, Copy, Debug)]
pub enum GpuError {
    /// An error of the proving and synthesis stack.
    Canonical(Error),
    /// An error of the device.
    HaloGpu(HaloGpuError),
}

impl From<Error> for GpuError {
    fn from(error: Error) -> (r: GpuError) {
        GpuError::Canonical(error)
    }
}

impl vstd::std_specs::convert::FromSpecImpl<Error> for GpuError {
    open spec fn obeys_from_spec() -> bool {
        true
    }

    open spec fn from_spec(error: Error) -> GpuError {
        GpuError::Canonical(error)
    }
}

impl From<HaloGpuError> for GpuError {
    fn from(error: HaloGpuError) -> (r: GpuError) {
        GpuError::HaloGpu(error)
    }
}

impl vstd::std_specs::convert::FromSpecImpl<HaloGpuError> for GpuError {
    open spec fn obeys_from_spec() -> bool {
        true
    }

    open spec fn from_spec(error: HaloGpuError) -> GpuError {
        GpuError::HaloGpu(error)
    }
}

impl GpuError {
    /// Constructs the `NotEnoughRowsAvailable` error.
    pub fn not_enough_rows_available(current_k: u32) -> (r: GpuError)
        ensures
            r == GpuError::Canonical(Error::NotEnoughRowsAvailable { current_k }),
    {
        GpuError::Canonical(Error::NotEnoughRowsAvailable { current_k })
    }
}

/// Whether `needed` bytes fit into `free` bytes of device memory.
pub fn require_device_bytes(context: &'static str, needed: u64, free: u64) -> (r: Result<
    (),
    GpuError,
>)
    ensures
        free >= needed ==> r == Ok::<(), GpuError>(()),
        free < needed ==> r == Err::<(), GpuError>(
            GpuError::HaloGpu(
                HaloGpuError::InsufficientGpuMemory {
                    context,
                    magnitude: needed,
                    free_bytes: free,
                },
            ),
        ),
{
    if free < needed {
        return Err(
            GpuError::HaloGpu(
                HaloGpuError::InsufficientGpuMemory {
                    context,
                    magnitude: needed,
                    free_bytes: free,
                },
            ),
        );
    }
    Ok(())
}

} // verus!
