//! The error taxonomy of the accelerator dispatch layer.
use vstd::prelude::*;

verus! {

/// The failures of the accelerator dispatch layer.
#[derive(Clone, Copy, Debug, PartialEq, Eq, Structural)]
pub enum DispatchError {
    /// No usable device or driver, or the session was already closed.
    DeviceInitError,
    /// The kernel module is missing or corrupt.
    ModuleLoadError,
    /// The device cannot hold the requested buffer.
    AllocationError,
    /// A copy failed, or host and device lengths differ.
    TransferError,
    /// The kernel is unknown or its occupancy could not be queried.
    LaunchConfigError,
    /// The device rejects the launch parameters.
    KernelLaunchError,
    /// The device reported a fault while the host waited on the stream.
    SynchronizationError,
    /// The convergence loop hit its step cap before all walkers converged.
    ConvergenceTimeout,
}

} // verus!
