//! The device session's host-side state: open or closed, and whether work
//! is pending on its stream.
use vstd::prelude::*;

use crate::error::DispatchError;
use crate::launch::{covers, LaunchConfig};

verus! {

/// Host-side bookkeeping of the device session: whether it is still open,
/// and whether work was enqueued on its single stream since the last barrier.
/// The device handle, module and stream themselves belong to the caller that
/// opened them; this value decides which operations may go ahead.
#[derive(Debug)]
pub struct Session {
    open: bool,
    in_flight: bool,
}

/// What a copy of `device_len` elements to or from a host buffer of
/// `host_len` elements gives on a session that is open or not.
pub open spec fn transfer_outcome(open: bool, device_len: nat, host_len: nat) -> Result<
    (),
    DispatchError,
> {
    if !open {
        Err(DispatchError::DeviceInitError)
    } else if device_len != host_len {
        Err(DispatchError::TransferError)
    } else {
        Ok(())
    }
}

impl Session {
    /// The session accepts operations.
    pub closed spec fn is_open(&self) -> bool {
        self.open
    }

    /// Work was enqueued on the stream and no barrier has waited for it.
    pub closed spec fn has_pending(&self) -> bool {
        self.in_flight
    }

    /// The session of a device and module that were just initialized.
    pub fn new() -> (r: Session)
        ensures
            r.is_open(),
            !r.has_pending(),
    {
        Session { open: true, in_flight: false }
    }

    /// Releases the session; every later operation fails fast.
    pub fn close(&mut self)
        ensures
            !final(self).is_open(),
            !final(self).has_pending(),
    {
        self.open = false;
        self.in_flight = false;
    }

    /// Fails with `DeviceInitError` once the session is closed.
    pub fn require_open(&self) -> (r: Result<(), DispatchError>)
        ensures
            r is Ok <==> self.is_open(),
            r is Err ==> r == Err::<(), DispatchError>(DispatchError::DeviceInitError),
    {
        if self.open {
            Ok(())
        } else {
            Err(DispatchError::DeviceInitError)
        }
    }

    /// The number of bytes of device memory that mirror `host_len` elements
    /// of `elem_size` bytes each; `AllocationError` where that size cannot be
    /// addressed.
    pub fn upload_size(&self, host_len: usize, elem_size: usize) -> (r: Result<
        usize,
        DispatchError,
    >)
        ensures
            !self.is_open() ==> r == Err::<usize, DispatchError>(DispatchError::DeviceInitError),
            self.is_open() && host_len * elem_size > usize::MAX ==> r == Err::<
                usize,
                DispatchError,
            >(DispatchError::AllocationError),
            self.is_open() && host_len * elem_size <= usize::MAX ==> r == Ok::<
                usize,
                DispatchError,
            >((host_len * elem_size) as usize),
    {
        if !self.open {
            return Err(DispatchError::DeviceInitError);
        }
        match host_len.checked_mul(elem_size) {
            Some(bytes) => Ok(bytes),
            None => Err(DispatchError::AllocationError),
        }
    }

    /// Checks a copy between a device buffer of `device_len` elements and a
    /// host buffer of `host_len` elements, before any device work is issued.
    /// A failed check leaves the session as it was.
    pub fn check_transfer(&self, device_len: usize, host_len: usize) -> (r: Result<
        (),
        DispatchError,
    >)
        ensures
            r == transfer_outcome(self.is_open(), device_len as nat, host_len as nat),
    {
        if !self.open {
            Err(DispatchError::DeviceInitError)
        } else if device_len != host_len {
            Err(DispatchError::TransferError)
        } else {
            Ok(())
        }
    }

    /// Admits a kernel launch of `config` over `problem_size` elements onto
    /// the stream. A configuration that leaves elements without a thread is
    /// rejected with `KernelLaunchError`, and the session is then unchanged.
    pub fn launch(&mut self, config: LaunchConfig, problem_size: usize) -> (r: Result<
        (),
        DispatchError,
    >)
        ensures
            !old(self).is_open() ==> r == Err::<(), DispatchError>(DispatchError::DeviceInitError),
            old(self).is_open() && !covers(config, problem_size as nat) ==> r == Err::<
                (),
                DispatchError,
            >(DispatchError::KernelLaunchError),
            r is Ok <==> old(self).is_open() && covers(config, problem_size as nat),
            r is Ok ==> final(self).is_open() && final(self).has_pending(),
            r is Err ==> *final(self) == *old(self),
    {
        if !self.open {
            return Err(DispatchError::DeviceInitError);
        }
        let grid = config.grid_size as u64;
        let block = config.block_size as u64;
        assert(grid * block <= u32::MAX as u64 * u32::MAX as u64) by (nonlinear_arith)
            requires
                grid <= u32::MAX,
                block <= u32::MAX,
        ;
        let threads = grid * block;
        if config.block_size == 0 || threads < problem_size as u64 {
            return Err(DispatchError::KernelLaunchError);
        }
        self.in_flight = true;
        Ok(())
    }

    /// The barrier: records that every operation on the stream completed,
    /// and turns a fault that the device reported while the host waited into
    /// `SynchronizationError`.
    pub fn synchronize(&mut self, device_fault: bool) -> (r: Result<(), DispatchError>)
        ensures
            !old(self).is_open() ==> r == Err::<(), DispatchError>(DispatchError::DeviceInitError)
                && *final(self) == *old(self),
            old(self).is_open() && device_fault ==> r == Err::<(), DispatchError>(
                DispatchError::SynchronizationError,
            ),
            old(self).is_open() && !device_fault ==> r is Ok,
            old(self).is_open() ==> final(self).is_open() && !final(self).has_pending(),
    {
        if !self.open {
            return Err(DispatchError::DeviceInitError);
        }
        self.in_flight = false;
        if device_fault {
            Err(DispatchError::SynchronizationError)
        } else {
            Ok(())
        }
    }
}

/// A copy of mismatched length fails with `TransferError` and changes
/// nothing: on the same open session a correctly sized copy then succeeds.
pub proof fn lemma_mismatched_transfer_keeps_session(
    s: Session,
    device_len: nat,
    host_len: nat,
    len: nat,
)
    requires
        s.is_open(),
        device_len != host_len,
    ensures
        transfer_outcome(s.is_open(), device_len, host_len) == Err::<(), DispatchError>(
            DispatchError::TransferError,
        ),
        transfer_outcome(s.is_open(), len, len) == Ok::<(), DispatchError>(()),
{
}

} // verus!
